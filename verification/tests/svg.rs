use icon_gen::svg::{
    add_background_rect, apply_invert_filter, extract_attr_value, is_bw_fill, is_full_100,
    is_zero_or_default, normalize_fill, strip_bw_background_rect, INVERT_GROUP_START,
};

fn some(s: &str) -> Option<String> {
    Some(s.to_string())
}

const BACKGROUND: &str = "<rect x=\"0\" y=\"0\" width=\"100%\" height=\"100%\" fill=\"#fff\"/>";

#[test]
fn attribute_values_are_trimmed_and_lowered() {
    assert_eq!(extract_attr_value("<rect fill=\" #FFF \"/>", "fill"), some("#fff"));
    assert_eq!(extract_attr_value("<rect fill='Black'/>", "fill"), some("black"));
    assert_eq!(extract_attr_value("<rect fill=\"a'b\"/>", "fill"), some("a'b"));
    assert_eq!(extract_attr_value("<rect fill=\"\"/>", "fill"), some(""));
}

#[test]
fn attributes_without_a_quoted_value_have_none() {
    assert_eq!(extract_attr_value("<rect/>", "fill"), None);
    assert_eq!(extract_attr_value("<rect fill=white/>", "fill"), None);
    assert_eq!(extract_attr_value("<rect fill=", "fill"), None);
    assert_eq!(extract_attr_value("<rect fill=\u{e9}\"x\"/>", "fill"), None);
    assert_eq!(extract_attr_value("<rect fill=\"white", "fill"), None);
    assert_eq!(extract_attr_value("<rect fill = \"white\"/>", "fill"), None);
}

#[test]
fn the_first_match_of_an_attribute_name_decides() {
    // The name may be the end of a longer one.
    assert_eq!(extract_attr_value("<rect rx=\"3\" x=\"0\"/>", "x"), some("3"));
    assert_eq!(extract_attr_value("<rect x=1 x=\"0\"/>", "x"), None);
}

#[test]
fn fill_comes_from_the_attribute_or_the_style() {
    assert_eq!(normalize_fill("<rect fill=\"White\"/>"), some("white"));
    assert_eq!(normalize_fill("<rect fill=\"red\" style=\"fill:blue\"/>"), some("red"));
    assert_eq!(normalize_fill("<rect style=\"stroke:red; FILL : #FFF ;fill:#000\"/>"), some("#fff"));
    assert_eq!(normalize_fill("<rect style=\"fill:url(a:b)\"/>"), some("url(a:b)"));
    assert_eq!(normalize_fill("<rect style=\"fill\"/>"), None);
    assert_eq!(normalize_fill("<rect style=\"stroke:red;\"/>"), None);
    assert_eq!(normalize_fill("<rect style=\";;fill:black\"/>"), some("black"));
    assert_eq!(normalize_fill("<rect/>"), None);
}

#[test]
fn zero_is_written_in_three_ways_or_left_out() {
    assert!(is_zero_or_default(None));
    for v in ["0", "0.0", "0%", " 0 "] {
        assert!(is_zero_or_default(some(v)), "{v}");
    }
    for v in ["", "1", "0.00", "00", "0px"] {
        assert!(!is_zero_or_default(some(v)), "{v}");
    }
}

#[test]
fn only_a_hundred_percent_is_full() {
    assert!(is_full_100(some("100%")));
    assert!(is_full_100(some("\t100% ")));
    assert!(!is_full_100(some("100")));
    assert!(!is_full_100(some("")));
    assert!(!is_full_100(None));
}

#[test]
fn black_and_white_are_recognised() {
    for v in [
        "#fff", "#ffffff", "white", "rgb(255,255,255)", "rgba(255,255,255,1)", "#000", "#000000",
        "black", "rgb(0,0,0)", "rgba(0,0,0,1)", " rgb( 255, 255, 255 ) ", "\tblack\n", "b lack",
    ] {
        assert!(is_bw_fill(v), "{v}");
    }
    for v in ["", "#ffff", "#FFF", "White", "rgba(0,0,0,0)", "none", "rgb(0,\t0,0)", "red"] {
        assert!(!is_bw_fill(v), "{v}");
    }
}

#[test]
fn a_background_rect_is_stripped() {
    let svg = format!("<svg>{BACKGROUND}<circle r=\"4\"/></svg>");
    assert_eq!(strip_bw_background_rect(&svg), "<svg><circle r=\"4\"/></svg>");
}

#[test]
fn a_background_rect_with_a_closing_tag_is_stripped_with_its_content() {
    let svg = "<svg><rect width='100%' height='100%' style='fill:black'>a<title/>b</rect>c</svg>";
    assert_eq!(strip_bw_background_rect(svg), "<svg>c</svg>");
}

#[test]
fn a_background_rect_that_is_not_closed_is_kept() {
    let svg = "<svg><rect width='100%' height='100%' fill='black'>a</svg>";
    assert_eq!(strip_bw_background_rect(svg), svg);
}

#[test]
fn all_background_rects_are_stripped_and_others_kept() {
    let kept = "<rect x=\"1\" width=\"100%\" height=\"100%\" fill=\"#fff\"/>";
    let red = "<rect width=\"100%\" height=\"100%\" fill=\"red\"/>";
    let small = "<rect width=\"50%\" height=\"100%\" fill=\"#000\"/>";
    let svg = format!("<svg>{BACKGROUND}{kept}{BACKGROUND}{red}{small}</svg>{BACKGROUND}");
    assert_eq!(strip_bw_background_rect(&svg), format!("<svg>{kept}{red}{small}</svg>"));
}

#[test]
fn texts_without_a_complete_rect_are_kept() {
    for svg in ["", "<svg/>", "<svg><rect", "a<rect fill=\"#fff\"", "\u{e9}<svg>\u{1f600}</svg>"] {
        assert_eq!(strip_bw_background_rect(svg), svg);
    }
}

#[test]
fn stripping_can_join_what_was_apart() {
    let svg = format!("<re{BACKGROUND}ct width=\"100%\" height=\"100%\" fill=\"#000\"/>");
    let once = strip_bw_background_rect(&svg);
    assert_eq!(once, "<rect width=\"100%\" height=\"100%\" fill=\"#000\"/>");
    assert_eq!(strip_bw_background_rect(&once), "");
}

#[test]
fn a_background_is_added_behind_the_opening_tag() {
    let r = add_background_rect("<?xml?><svg a=\"b\"><g/></svg>", "#000000");
    assert_eq!(
        r,
        "<?xml?><svg a=\"b\"><rect x=\"0\" y=\"0\" width=\"100%\" height=\"100%\" fill=\"#000000\"/><g/></svg>"
    );
}

#[test]
fn no_background_is_added_without_an_opening_tag() {
    for svg in ["", "<g></g>", "<svg", "text > <svg "] {
        assert_eq!(add_background_rect(svg, "#ffffff"), svg);
    }
}

#[test]
fn an_added_background_is_stripped_again() {
    for svg in [
        "<svg><g/></svg>",
        "no drawing",
        "<rect width='100%' height='100%' fill='#000'><svg>a</rect>b</svg>",
        "<rect a='1'/><svg width='3'><rect fill='red'/></svg>",
    ] {
        for fill in ["#000000", "#ffffff", " White ", "RGB(0, 0, 0)"] {
            assert_eq!(
                strip_bw_background_rect(&add_background_rect(svg, fill)),
                strip_bw_background_rect(svg)
            );
        }
    }
}

#[test]
fn a_coloured_background_stays() {
    let svg = add_background_rect("<svg></svg>", "red");
    assert_eq!(strip_bw_background_rect(&svg), svg);
}

#[test]
fn the_content_is_wrapped_in_the_invert_filter() {
    let r = apply_invert_filter("<svg a='1'><g/></svg></svg>\n");
    assert_eq!(
        r,
        format!("<svg a='1'>{INVERT_GROUP_START}<g/></svg></g></svg>\n")
    );
    assert_eq!(
        INVERT_GROUP_START,
        concat_parts(&[
            r#"<defs>"#,
            r#"<filter id="__icg_inv__" color-interpolation-filters="sRGB">"#,
            r#"<feColorMatrix type="matrix" "#,
            r#"values="-1 0 0 0 1  0 -1 0 0 1  0 0 -1 0 1  0 0 0 1 0"/>"#,
            r#"</filter>"#,
            r#"</defs>"#,
            r##"<g filter="url(#__icg_inv__)">"##,
        ])
    );
}

fn concat_parts(parts: &[&str]) -> String {
    parts.concat()
}

#[test]
fn what_is_no_drawing_is_not_inverted() {
    for svg in ["", "<svg>", "</svg><svg>", "<svg", "<g></g>"] {
        assert_eq!(apply_invert_filter(svg), svg);
    }
}

#[test]
fn stripping_again_changes_nothing_where_tags_are_apart() {
    let open = "<rect width='100%' height='100%' fill='black'>";
    for svg in [
        format!("<svg>{BACKGROUND}a{BACKGROUND}<rect/>{BACKGROUND}</svg>{BACKGROUND}"),
        format!("<svg>{open}{BACKGROUND}</rect>b{open}{BACKGROUND}</svg>"),
        format!("{BACKGROUND}<rect"),
    ] {
        let once = strip_bw_background_rect(&svg);
        assert!(!once.contains(BACKGROUND));
        assert_eq!(strip_bw_background_rect(&once), once);
    }
}

#[test]
fn a_background_in_any_way_to_write_black_or_white_is_stripped_again() {
    for fill in [" rgb( 0, 0, 0 )\t", "white", "#000", "rgba(255,255,255,1)"] {
        let svg = "<svg><rect width=\"5\"/></svg>";
        assert!(is_bw_fill(fill));
        let with = add_background_rect(svg, fill);
        assert_ne!(with, svg);
        assert_eq!(strip_bw_background_rect(&with), svg);
    }
}
