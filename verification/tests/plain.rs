use icon_gen::plain::{is_plain_drawing, PLAIN_END, PLAIN_START};

fn svg(body: &str) -> String {
    format!("{PLAIN_START}{body}{PLAIN_END}")
}

#[test]
fn rectangles_make_a_plain_drawing() {
    for body in [
        "",
        ">",
        " width=\"10\" height=\"20\"><rect width=\"10\" height=\"10\" fill=\"#ff0000\"/>",
        " width=\"24\"\n\theight=\"24\"\r>\n<rect x=\"1.5\" y=\"0\" width=\"100%\" height=\"9999\"/>",
        "><rect fill=\"black\"/><rect fill=\"white\"/><rect fill=\"none\"/>",
        "><rect fill=\"#123456\"/><rect fill=\"#ABCDFF\"/><rect width=\"1.234567\"/>",
    ] {
        assert!(is_plain_drawing(&svg(body)), "{body}");
    }
}

#[test]
fn other_words_make_no_plain_drawing() {
    for word in [
        "path", "g", "svg", "circle", "rx", "viewBox", "transform", "style", "stroke", "href", "id",
        "url", "rects", "Rect", "opacity", "e", "face", "text", "tspan", "marker", "filter",
    ] {
        assert!(!is_plain_drawing(&svg(&format!("><{word}/>"))), "{word}");
    }
    assert!(!is_plain_drawing(&svg("><rect path")));
    assert!(!is_plain_drawing(&svg("><path rect")));
}

#[test]
fn other_characters_make_no_plain_drawing() {
    for c in ["&", "!", "?", "-", ":", "(", ",", "'", ";", "_", "+", "[", "\u{e9}", "\0"] {
        assert!(!is_plain_drawing(&svg(&format!(">{c}"))), "{c}");
    }
}

#[test]
fn large_numbers_make_no_plain_drawing() {
    for number in ["10000", "99999", "123456789", "1e5", "1E5", "00001", "d12345"] {
        assert!(!is_plain_drawing(&svg(&format!("><rect width=\"{number}\"/>"))), "{number}");
    }
    for number in ["9999", "0.123456", "#123456", "9999.99999"] {
        assert!(is_plain_drawing(&svg(&format!("><rect width=\"{number}\"/>"))), "{number}");
    }
}

#[test]
fn a_plain_drawing_has_its_start_and_its_end_and_closes_nothing_else() {
    assert!(!is_plain_drawing(""));
    assert!(!is_plain_drawing("<svg/>"));
    assert!(!is_plain_drawing(PLAIN_START));
    assert!(!is_plain_drawing(PLAIN_END));
    assert!(!is_plain_drawing(&format!(" {}", svg(">"))));
    assert!(!is_plain_drawing(&format!("{} ", svg(">"))));
    assert!(!is_plain_drawing(&svg("><rect></rect>")));
    assert!(!is_plain_drawing(&svg(&" ".repeat(1_000_000))));
}

#[test]
fn plain_drawings_are_parsed() {
    let options = usvg::Options::default();
    for body in [">", "><rect width=\"9\" height=\"9\"/>", " width=\"5%\"><a/><rect/>"] {
        assert!(usvg::Tree::from_str(&svg(body), &options).is_ok(), "{body}");
    }
    for body in ["", "><rect", "\"><rect/>", " width=\"0\">"] {
        assert!(usvg::Tree::from_str(&svg(body), &options).is_err(), "{body}");
    }
}

#[test]
fn references_hidden_words_and_nested_spans_make_no_plain_drawing() {
    let gap = "><linearGradient id=\"a\" href=\"#b\"/><linearGradient id\n=\"b\" href=\"#c\"/>\
               <linearGradient id\t=\"c\" href=\"#b\"/><rect fill=\"url(#a)\"/>";
    let hidden = "><style>path{str<![CDATA[oke]]>:red}</style><path d=\"M0 0Q1 1 3-2\"/>";
    let spans = format!("><text>{}{}</text>", "<tspan>".repeat(99), "</tspan>".repeat(99));
    for body in [gap, hidden, spans.as_str()] {
        assert!(!is_plain_drawing(&svg(body)));
    }
}
