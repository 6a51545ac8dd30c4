//! The files that make up an icon set, and the colour variants of a drawing.

use vstd::prelude::*;

use crate::size::decimal;
use crate::svg::{add_background_rect, strip_bw_background_rect, stripped, with_background};
use crate::svg_laws::{
    black_or_white_background_is_stripped, canvas_rect, lemma_background_is_added, opening_tag,
    stripping_keeps_the_opening_tag, stripping_twice_is_stripping_once, tags_apart,
};
use crate::text::{lemma_no_spaces, lemma_plain_value, same_text};

verus! {

/// The web app manifest of every icon set.
pub const WEBMANIFEST: &'static str =
    "{\n    \"name\": \"\",\n    \"short_name\": \"\",\n    \"icons\": [\n        {\n            \"src\": \"/android-chrome-192x192.png\",\n            \"sizes\": \"192x192\",\n            \"type\": \"image/png\"\n        },\n        {\n            \"src\": \"/android-chrome-512x512.png\",\n            \"sizes\": \"512x512\",\n            \"type\": \"image/png\"\n        }\n    ],\n    \"theme_color\": \"#ffffff\",\n    \"background_color\": \"#ffffff\",\n    \"display\": \"standalone\"\n}\n";

/// What one file of an icon set holds.
#[derive(Clone, Copy, Debug, PartialEq, Eq, Structural)]
pub enum Content {
    /// The drawing as a square PNG image with sides of so many pixels.
    Png(u32),
    /// The drawing as an ICO file of several sizes.
    Ico,
    /// The web app manifest.
    Manifest,
}

/// One file of an icon set.
#[derive(Clone, Copy, Debug)]
pub struct SetFile {
    pub name: &'static str,
    pub content: Content,
}

/// One colour variant of a drawing.
#[derive(Debug)]
pub struct Variant {
    /// The name of the file that holds the drawing itself.
    pub svg_name: &'static str,
    /// The name of the directory that holds its icon set.
    pub set_name: &'static str,
    /// The text of the drawing.
    pub svg: String,
}

/// The sizes bundled into `favicon.ico`, in the order in which they stand
/// there.
pub open spec fn ico_sizes_spec() -> Seq<u32> {
    seq![16u32, 32u32, 48u32]
}

/// The files of an icon set, in the order in which they are made.
pub open spec fn set_files_spec() -> Seq<(Seq<char>, Content)> {
    seq![
        ("favicon-16x16.png"@, Content::Png(16)),
        ("favicon-32x32.png"@, Content::Png(32)),
        ("apple-touch-icon.png"@, Content::Png(180)),
        ("android-chrome-192x192.png"@, Content::Png(192)),
        ("android-chrome-512x512.png"@, Content::Png(512)),
        ("favicon.ico"@, Content::Ico),
        ("site.webmanifest"@, Content::Manifest),
    ]
}

/// The variants of a drawing: the name of the drawing's file, the name of the
/// directory of its icon set, and its text. The drawing comes as it is first,
/// then without its own black or white background, on black and on white.
pub open spec fn variants_spec(svg: Seq<char>) -> Seq<(Seq<char>, Seq<char>, Seq<char>)> {
    seq![
        ("icon.svg"@, "favicon"@, svg),
        ("icon-dark.svg"@, "favicon-dark"@, with_background(stripped(svg), "#000000"@)),
        ("icon-light.svg"@, "favicon-light"@, with_background(stripped(svg), "#ffffff"@)),
    ]
}

/// The description of a file with the given name, empty where there is none.
pub open spec fn description(name: Seq<char>) -> Seq<char> {
    if name == "favicon-16x16.png"@ {
        "16x16"@
    } else if name == "favicon-32x32.png"@ {
        "32x32"@
    } else if name == "apple-touch-icon.png"@ {
        "180x180"@
    } else if name == "android-chrome-192x192.png"@ {
        "192x192"@
    } else if name == "android-chrome-512x512.png"@ {
        "512x512"@
    } else if name == "favicon.ico"@ {
        "48x48"@
    } else if name == "site.webmanifest"@ {
        "Webmanifest config file"@
    } else if name == "icon.svg"@ {
        "Source"@
    } else if name == "icon-dark.svg"@ {
        "Dark mode source"@
    } else if name == "icon-light.svg"@ {
        "Light mode source"@
    } else {
        ""@
    }
}

/// The text for the size of a square image.
pub open spec fn square(side: nat) -> Seq<char> {
    decimal(side) + "x"@ + decimal(side)
}

/// Every file of an icon set has a description: that of an image gives its
/// size, that of the ICO file the largest size in it.
pub proof fn set_files_are_described(i: int)
    requires
        0 <= i < set_files_spec().len(),
    ensures
        ({
            let (name, content) = set_files_spec()[i];
            match content {
                Content::Png(side) => description(name) == square(side as nat),
                Content::Ico => {
                    &&& description(name) == square(ico_sizes_spec().last() as nat)
                    &&& forall|k: int|
                        0 <= k < ico_sizes_spec().len() ==> #[trigger] ico_sizes_spec()[k]
                            <= ico_sizes_spec().last()
                },
                Content::Manifest => description(name) == "Webmanifest config file"@,
            }
        }),
{
    lemma_names_differ();
    reveal_with_fuel(decimal, 3);
    reveal_strlit("x");
    reveal_strlit("16x16");
    reveal_strlit("32x32");
    reveal_strlit("180x180");
    reveal_strlit("192x192");
    reveal_strlit("512x512");
    reveal_strlit("48x48");
    assert(square(16) =~= "16x16"@);
    assert(square(32) =~= "32x32"@);
    assert(square(180) =~= "180x180"@);
    assert(square(192) =~= "192x192"@);
    assert(square(512) =~= "512x512"@);
    assert(square(48) =~= "48x48"@);
}

/// The drawing of every variant has a description.
pub proof fn drawings_are_described(svg: Seq<char>)
    ensures
        description(variants_spec(svg)[0].0) == "Source"@,
        description(variants_spec(svg)[1].0) == "Dark mode source"@,
        description(variants_spec(svg)[2].0) == "Light mode source"@,
{
    lemma_names_differ();
}

/// No two of the well-known file names are the same.
proof fn lemma_names_differ()
    ensures
        "favicon-16x16.png"@ != "favicon-32x32.png"@,
        "apple-touch-icon.png"@ != "favicon-16x16.png"@,
        "apple-touch-icon.png"@ != "favicon-32x32.png"@,
        "android-chrome-192x192.png"@ != "favicon-16x16.png"@,
        "android-chrome-192x192.png"@ != "favicon-32x32.png"@,
        "android-chrome-192x192.png"@ != "apple-touch-icon.png"@,
        "android-chrome-512x512.png"@ != "favicon-16x16.png"@,
        "android-chrome-512x512.png"@ != "favicon-32x32.png"@,
        "android-chrome-512x512.png"@ != "apple-touch-icon.png"@,
        "android-chrome-512x512.png"@ != "android-chrome-192x192.png"@,
        forall|name: Seq<char>|
            #![trigger description(name)]
            name.len() < 17 ==> {
                &&& name != "favicon-16x16.png"@
                &&& name != "favicon-32x32.png"@
                &&& name != "apple-touch-icon.png"@
                &&& name != "android-chrome-192x192.png"@
                &&& name != "android-chrome-512x512.png"@
            },
        "favicon.ico"@.len() == 11,
        "site.webmanifest"@.len() == 16,
        "icon.svg"@.len() == 8,
        "icon-dark.svg"@.len() == 13,
        "icon-light.svg"@.len() == 14,
{
    reveal_strlit("favicon-16x16.png");
    reveal_strlit("favicon-32x32.png");
    reveal_strlit("apple-touch-icon.png");
    reveal_strlit("android-chrome-192x192.png");
    reveal_strlit("android-chrome-512x512.png");
    reveal_strlit("favicon.ico");
    reveal_strlit("site.webmanifest");
    reveal_strlit("icon.svg");
    reveal_strlit("icon-dark.svg");
    reveal_strlit("icon-light.svg");
    assert("favicon-16x16.png"@[8] != "favicon-32x32.png"@[8]);
    assert("android-chrome-192x192.png"@[15] != "android-chrome-512x512.png"@[15]);
}

/// On black and on white the drawing is the same but for its background:
/// stripping either gives what stripping the drawing without a background
/// gives, and where no tag opens inside another that is the stripped drawing.
pub proof fn variants_differ_in_background_only(svg: Seq<char>)
    ensures
        stripped(variants_spec(svg)[1].2) == stripped(stripped(svg)),
        stripped(variants_spec(svg)[2].2) == stripped(stripped(svg)),
        tags_apart(svg) ==> stripped(variants_spec(svg)[1].2) == stripped(svg),
        tags_apart(svg) ==> stripped(variants_spec(svg)[2].2) == stripped(svg),
{
    reveal_strlit("#000000");
    reveal_strlit("#ffffff");
    lemma_plain_value("#000000"@);
    lemma_plain_value("#ffffff"@);
    lemma_no_spaces("#000000"@);
    lemma_no_spaces("#ffffff"@);
    black_or_white_background_is_stripped(stripped(svg), "#000000"@);
    black_or_white_background_is_stripped(stripped(svg), "#ffffff"@);
    if tags_apart(svg) {
        stripping_twice_is_stripping_once(svg);
    }
}

/// The variants of a drawing are the drawing itself, and what is left of it
/// without its own black or white background with a rectangle over the whole
/// canvas directly behind the opening tag: a black one and a white one.
pub proof fn variants_have_their_background(svg: &str, base: String, r: Vec<Variant>)
    requires
        call_ensures(icon_variants, (svg,), r),
        call_ensures(strip_bw_background_rect, (svg,), base),
    ensures
        r@.len() == 3,
        r@[0].svg_name@ == "icon.svg"@ && r@[0].set_name@ == "favicon"@ && r@[0].svg@ == svg@,
        r@[1].svg_name@ == "icon-dark.svg"@ && r@[1].set_name@ == "favicon-dark"@,
        r@[2].svg_name@ == "icon-light.svg"@ && r@[2].set_name@ == "favicon-light"@,
        forall|at: int, end: int| #[trigger]
            opening_tag(base@, at, end) ==> {
                &&& r@[1].svg@ == base@.take(end) + canvas_rect("#000000"@) + base@.skip(end)
                &&& r@[2].svg@ == base@.take(end) + canvas_rect("#ffffff"@) + base@.skip(end)
            },
        (forall|at: int, end: int| !#[trigger] opening_tag(base@, at, end)) ==> r@[1].svg@ == base@
            && r@[2].svg@ == base@,
{
    let all = r@.map_values(|v: Variant| (v.svg_name@, v.set_name@, v.svg@));
    assert(all == variants_spec(svg@));
    assert(all.len() == 3);
    assert(all[0] == (r@[0].svg_name@, r@[0].set_name@, r@[0].svg@));
    assert(all[1] == (r@[1].svg_name@, r@[1].set_name@, r@[1].svg@));
    assert(all[2] == (r@[2].svg_name@, r@[2].set_name@, r@[2].svg@));
    lemma_background_is_added(base@, "#000000"@);
    lemma_background_is_added(base@, "#ffffff"@);
}

/// Whether or not a drawing has a background of its own: where its opening tag
/// is complete and stands in front of all rectangles, the dark variant has a
/// black rectangle over the whole canvas directly behind that tag and the light
/// variant a white one, and then comes what stripping leaves of the rest.
pub proof fn every_drawing_gets_its_background(
    svg: &str,
    content: &str,
    out_of_content: String,
    base: String,
    r: Vec<Variant>,
    at: int,
    end: int,
)
    requires
        call_ensures(icon_variants, (svg,), r),
        call_ensures(strip_bw_background_rect, (svg,), base),
        call_ensures(strip_bw_background_rect, (content,), out_of_content),
        opening_tag(svg@, at, end),
        content@ == svg@.skip(end),
        forall|j: int| 0 <= j <= end - 5 ==> #[trigger] svg@.subrange(j, j + 5) != "<rect"@,
    ensures
        r@[1].svg@ == svg@.take(end) + canvas_rect("#000000"@) + out_of_content@,
        r@[2].svg@ == svg@.take(end) + canvas_rect("#ffffff"@) + out_of_content@,
{
    variants_have_their_background(svg, base, r);
    stripping_keeps_the_opening_tag(svg, content, base, out_of_content, at, end);
    assert(base@.take(end) =~= svg@.take(end));
    assert(base@.skip(end) =~= out_of_content@);
}

/// A file has a description exactly where it is one of an icon set or the
/// drawing of a variant.
pub proof fn only_files_of_a_run_are_described(name: &str, r: &'static str)
    requires
        call_ensures(description_for, (name,), r),
    ensures
        r@.len() > 0 <==> {
            ||| name@ == "favicon-16x16.png"@
            ||| name@ == "favicon-32x32.png"@
            ||| name@ == "apple-touch-icon.png"@
            ||| name@ == "android-chrome-192x192.png"@
            ||| name@ == "android-chrome-512x512.png"@
            ||| name@ == "favicon.ico"@
            ||| name@ == "site.webmanifest"@
            ||| name@ == "icon.svg"@
            ||| name@ == "icon-dark.svg"@
            ||| name@ == "icon-light.svg"@
        },
{
    reveal_strlit("16x16");
    reveal_strlit("32x32");
    reveal_strlit("180x180");
    reveal_strlit("192x192");
    reveal_strlit("512x512");
    reveal_strlit("48x48");
    reveal_strlit("Webmanifest config file");
    reveal_strlit("Source");
    reveal_strlit("Dark mode source");
    reveal_strlit("Light mode source");
    reveal_strlit("");
}

/// The sizes bundled into `favicon.ico`.
pub fn ico_sizes() -> (r: Vec<u32>)
    ensures
        r@ == ico_sizes_spec(),
{
    vec![16, 32, 48]
}

/// The files of an icon set, in the order in which they are made.
pub fn set_files() -> (r: Vec<SetFile>)
    ensures
        r@.map_values(|f: SetFile| (f.name@, f.content)) == set_files_spec(),
{
    let r: Vec<SetFile> = vec![
        SetFile { name: "favicon-16x16.png", content: Content::Png(16) },
        SetFile { name: "favicon-32x32.png", content: Content::Png(32) },
        SetFile { name: "apple-touch-icon.png", content: Content::Png(180) },
        SetFile { name: "android-chrome-192x192.png", content: Content::Png(192) },
        SetFile { name: "android-chrome-512x512.png", content: Content::Png(512) },
        SetFile { name: "favicon.ico", content: Content::Ico },
        SetFile { name: "site.webmanifest", content: Content::Manifest },
    ];
    proof {
        assert(r@.map_values(|f: SetFile| (f.name@, f.content)) =~= set_files_spec());
    }
    r
}

/// The colour variants of a drawing: as it is, on black and on white. The
/// last two lose the solid black or white background that the drawing has of
/// its own.
pub fn icon_variants(svg: &str) -> (r: Vec<Variant>)
    ensures
        r@.map_values(|v: Variant| (v.svg_name@, v.set_name@, v.svg@)) == variants_spec(svg@),
{
    let base = strip_bw_background_rect(svg);
    let dark = add_background_rect(base.as_str(), "#000000");
    let light = add_background_rect(base.as_str(), "#ffffff");
    let mut r: Vec<Variant> = Vec::new();
    r.push(Variant { svg_name: "icon.svg", set_name: "favicon", svg: svg.to_owned() });
    r.push(Variant { svg_name: "icon-dark.svg", set_name: "favicon-dark", svg: dark });
    r.push(Variant { svg_name: "icon-light.svg", set_name: "favicon-light", svg: light });
    proof {
        assert(r@.map_values(|v: Variant| (v.svg_name@, v.set_name@, v.svg@)) =~= variants_spec(
            svg@,
        ));
    }
    r
}

/// Returns a built-in description for well-known favicon filenames, or `""`.
pub fn description_for(name: &str) -> (r: &'static str)
    ensures
        r@ == description(name@),
{
    if same_text(name, "favicon-16x16.png") {
        "16x16"
    } else if same_text(name, "favicon-32x32.png") {
        "32x32"
    } else if same_text(name, "apple-touch-icon.png") {
        "180x180"
    } else if same_text(name, "android-chrome-192x192.png") {
        "192x192"
    } else if same_text(name, "android-chrome-512x512.png") {
        "512x512"
    } else if same_text(name, "favicon.ico") {
        "48x48"
    } else if same_text(name, "site.webmanifest") {
        "Webmanifest config file"
    } else if same_text(name, "icon.svg") {
        "Source"
    } else if same_text(name, "icon-dark.svg") {
        "Dark mode source"
    } else if same_text(name, "icon-light.svg") {
        "Light mode source"
    } else {
        ""
    }
}

} // verus!
