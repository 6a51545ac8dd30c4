use icon_gen::files::{
    description_for, ico_sizes, icon_variants, set_files, Content, WEBMANIFEST,
};

#[test]
fn an_icon_set_has_seven_files() {
    let files: Vec<(&str, Content)> = set_files().iter().map(|f| (f.name, f.content)).collect();
    assert_eq!(
        files,
        vec![
            ("favicon-16x16.png", Content::Png(16)),
            ("favicon-32x32.png", Content::Png(32)),
            ("apple-touch-icon.png", Content::Png(180)),
            ("android-chrome-192x192.png", Content::Png(192)),
            ("android-chrome-512x512.png", Content::Png(512)),
            ("favicon.ico", Content::Ico),
            ("site.webmanifest", Content::Manifest),
        ]
    );
    assert_eq!(ico_sizes(), vec![16, 32, 48]);
}

#[test]
fn every_file_of_a_set_is_described() {
    for f in set_files() {
        match f.content {
            Content::Png(n) => assert_eq!(description_for(f.name), format!("{n}x{n}")),
            Content::Ico => {
                let n = ico_sizes().into_iter().max().unwrap();
                assert_eq!(description_for(f.name), format!("{n}x{n}"));
            }
            Content::Manifest => assert_eq!(description_for(f.name), "Webmanifest config file"),
        }
    }
}

#[test]
fn drawings_are_described_and_other_files_are_not() {
    assert_eq!(description_for("icon.svg"), "Source");
    assert_eq!(description_for("icon-dark.svg"), "Dark mode source");
    assert_eq!(description_for("icon-light.svg"), "Light mode source");
    for name in ["", "README.md", "Icon.svg", "icon.svg ", "favicon"] {
        assert_eq!(description_for(name), "");
    }
}

#[test]
fn the_manifest_names_the_two_large_images() {
    assert!(WEBMANIFEST.starts_with("{\n    \"name\": \"\",\n    \"short_name\": \"\",\n    \"icons\": ["));
    for f in set_files() {
        let named = WEBMANIFEST.contains(&format!("\"src\": \"/{}\"", f.name));
        assert_eq!(named, f.content == Content::Png(192) || f.content == Content::Png(512));
    }
    assert!(WEBMANIFEST.contains("\"sizes\": \"192x192\",\n            \"type\": \"image/png\"\n"));
    assert!(WEBMANIFEST.ends_with(
        "    ],\n    \"theme_color\": \"#ffffff\",\n    \"background_color\": \"#ffffff\",\n    \"display\": \"standalone\"\n}\n"
    ));
}

#[test]
fn a_drawing_has_three_variants() {
    let svg = "<svg><rect width=\"100%\" height=\"100%\" fill=\"white\"/><g/></svg>";
    let v = icon_variants(svg);
    let names: Vec<(&str, &str)> = v.iter().map(|v| (v.svg_name, v.set_name)).collect();
    assert_eq!(
        names,
        vec![
            ("icon.svg", "favicon"),
            ("icon-dark.svg", "favicon-dark"),
            ("icon-light.svg", "favicon-light"),
        ]
    );
    assert_eq!(v[0].svg, svg);
    let on = |fill: &str| {
        format!("<svg><rect x=\"0\" y=\"0\" width=\"100%\" height=\"100%\" fill=\"{fill}\"/><g/></svg>")
    };
    assert_eq!(v[1].svg, on("#000000"));
    assert_eq!(v[2].svg, on("#ffffff"));
}
