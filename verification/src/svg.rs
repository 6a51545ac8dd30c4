//! Colour variants of an SVG document, made by editing its text.

use vstd::prelude::*;
use vstd::slice::slice_subrange;

use crate::text::{
    chars_of, find, find_text, lemma_find, lemma_rfind, lower, lower_chars, opt_text, push_chars,
    rfind, rfind_text, same_chars, string_of, trim, trim_chars, trim_end, trim_end_chars,
    without_space_chars, without_spaces,
};

verus! {

/// The value of the attribute `attr` in the text of a tag, trimmed and with
/// its ASCII capitals made small: what stands between the quote directly
/// behind the first `attr=` and the next quote of the same sort.
pub open spec fn attr_value(tag: Seq<char>, attr: Seq<char>) -> Option<Seq<char>> {
    let needle = attr + "="@;
    match find(tag, needle) {
        None => None,
        Some(at) => {
            let start = at + needle.len();
            if start < tag.len() && (tag[start] == '"' || tag[start] == '\'') {
                let rest = tag.skip(start + 1);
                match find(rest, seq![tag[start]]) {
                    None => None,
                    Some(end) => Some(lower(trim(rest.take(end)))),
                }
            } else {
                None
            }
        },
    }
}

/// The value that one `name: value` declaration of a style gives to `fill`.
pub open spec fn declared_fill(declaration: Seq<char>) -> Option<Seq<char>> {
    match find(declaration, ":"@) {
        None => None,
        Some(colon) => if lower(trim(declaration.take(colon))) == "fill"@ {
            Some(lower(trim(declaration.skip(colon + 1))))
        } else {
            None
        },
    }
}

/// The fill of the first declaration of a style, a list separated by
/// semicolons, that gives one.
pub open spec fn style_fill(style: Seq<char>) -> Option<Seq<char>>
    decreases style.len(),
{
    proof {
        lemma_find(style, ";"@);
        reveal_strlit(";");
    }
    match find(style, ";"@) {
        None => declared_fill(style),
        Some(end) => match declared_fill(style.take(end)) {
            Some(fill) => Some(fill),
            None => style_fill(style.skip(end + 1)),
        },
    }
}

/// The fill of a tag: its `fill` attribute, or else the fill of its style.
pub open spec fn tag_fill(tag: Seq<char>) -> Option<Seq<char>> {
    match attr_value(tag, "fill"@) {
        Some(fill) => Some(fill),
        None => match attr_value(tag, "style"@) {
            Some(style) => style_fill(style),
            None => None,
        },
    }
}

/// A coordinate that is left out or written as zero.
pub open spec fn zero_or_default(value: Option<Seq<char>>) -> bool {
    match value {
        None => true,
        Some(v) => trim(v) == "0"@ || trim(v) == "0.0"@ || trim(v) == "0%"@,
    }
}

/// A length that is written as the whole of the canvas.
pub open spec fn full_100(value: Option<Seq<char>>) -> bool {
    match value {
        None => false,
        Some(v) => trim(v) == "100%"@,
    }
}

/// A way to write opaque white or opaque black, spaces aside.
pub open spec fn black_or_white(fill: Seq<char>) -> bool {
    let f = without_spaces(trim(fill));
    ||| f == "#fff"@
    ||| f == "#ffffff"@
    ||| f == "white"@
    ||| f == "rgb(255,255,255)"@
    ||| f == "rgba(255,255,255,1)"@
    ||| f == "#000"@
    ||| f == "#000000"@
    ||| f == "black"@
    ||| f == "rgb(0,0,0)"@
    ||| f == "rgba(0,0,0,1)"@
}

/// The tag of a rectangle that covers the canvas in black or white.
pub open spec fn is_background(tag: Seq<char>) -> bool {
    &&& tag_fill(tag) matches Some(fill)
    &&& black_or_white(fill)
    &&& zero_or_default(attr_value(tag, "x"@))
    &&& zero_or_default(attr_value(tag, "y"@))
    &&& full_100(attr_value(tag, "width"@))
    &&& full_100(attr_value(tag, "height"@))
}

/// The tag ends in `/>`, whitespace behind it aside.
pub open spec fn is_self_closing(tag: Seq<char>) -> bool {
    let t = trim_end(tag);
    t.len() >= 2 && t.skip(t.len() - 2) == "/>"@
}

/// What is left of `rest`, the text behind the tag of a background rectangle,
/// once the whole element is taken out: all of it behind a self-closing tag,
/// else what follows the next `</rect>`. `None` where there is no such end.
pub open spec fn after_element(tag: Seq<char>, rest: Seq<char>) -> Option<Seq<char>> {
    if is_self_closing(tag) {
        Some(rest)
    } else {
        match find(rest, "</rect>"@) {
            Some(close) => Some(rest.skip(close + "</rect>"@.len())),
            None => None,
        }
    }
}

/// `svg` with the black or white background rectangles taken out.
pub open spec fn stripped(svg: Seq<char>) -> Seq<char>
    decreases svg.len(),
{
    proof {
        lemma_find(svg, "<rect"@);
        reveal_strlit("<rect");
        reveal_strlit(">");
    }
    match find(svg, "<rect"@) {
        None => svg,
        Some(start) => {
            proof {
                lemma_find(svg.skip(start), ">"@);
            }
            match find(svg.skip(start), ">"@) {
                None => svg,
                Some(len) => {
                    let before = svg.take(start);
                    let tag = svg.subrange(start, start + len + 1);
                    let rest = svg.skip(start + len + 1);
                    proof {
                        lemma_find(rest, "</rect>"@);
                    }
                    if is_background(tag) && after_element(tag, rest) is Some {
                        before + stripped(after_element(tag, rest)->0)
                    } else {
                        before + tag + stripped(rest)
                    }
                },
            }
        },
    }
}

/// The place directly behind the opening `<svg ...>` tag.
pub open spec fn content_start(svg: Seq<char>) -> Option<int> {
    match find(svg, "<svg"@) {
        None => None,
        Some(start) => match find(svg.skip(start), ">"@) {
            None => None,
            Some(len) => Some(start + len + 1),
        },
    }
}

/// The start of a group whose content is shown in inverted colours, with the
/// definition of the filter that inverts them.
pub const INVERT_GROUP_START: &'static str =
    "<defs><filter id=\"__icg_inv__\" color-interpolation-filters=\"sRGB\"><feColorMatrix type=\"matrix\" values=\"-1 0 0 0 1  0 -1 0 0 1  0 0 -1 0 1  0 0 0 1 0\"/></filter></defs><g filter=\"url(#__icg_inv__)\">";

/// `svg` with the content of the drawing inside a group that inverts its
/// colours. A text without an opening `<svg ...>` tag, or without a `</svg>`
/// behind it, stays as it is.
pub open spec fn inverted(svg: Seq<char>) -> Seq<char> {
    match content_start(svg) {
        None => svg,
        Some(start) => match rfind(svg.skip(start), "</svg>"@) {
            None => svg,
            Some(len) => svg.take(start) + INVERT_GROUP_START@ + svg.subrange(start, start + len)
                + "</g>"@ + svg.skip(start + len),
        },
    }
}

/// The tag of a rectangle that covers the canvas.
pub open spec fn background_rect(fill: Seq<char>) -> Seq<char> {
    "<rect x=\"0\" y=\"0\" width=\"100%\" height=\"100%\" fill=\""@ + fill + "\"/>"@
}

/// `svg` with a rectangle that covers the canvas as the first thing drawn. A
/// text without an opening `<svg ...>` tag stays as it is.
pub open spec fn with_background(svg: Seq<char>, fill: Seq<char>) -> Seq<char> {
    match content_start(svg) {
        None => svg,
        Some(start) => svg.take(start) + background_rect(fill) + svg.skip(start),
    }
}

/// The value of the attribute `attr` in the text of a tag, trimmed and with
/// its ASCII capitals made small.
pub fn extract_attr_value(tag: &str, attr: &str) -> (r: Option<String>)
    ensures
        opt_text(r) == attr_value(tag@, attr@),
{
    let tag = chars_of(tag);
    let tag = tag.as_slice();
    let mut needle = chars_of(attr);
    let mut equals = chars_of("=");
    needle.append(&mut equals);
    proof {
        lemma_find(tag@, needle@);
    }
    let at: usize = match find_text(tag, needle.as_slice()) {
        None => {
            return None;
        },
        Some(at) => at,
    };
    let start: usize = at + needle.len();
    if start >= tag.len() || (tag[start] != '"' && tag[start] != '\'') {
        return None;
    }
    let mut quote: Vec<char> = Vec::new();
    quote.push(tag[start]);
    let rest = slice_subrange(tag, start + 1, tag.len());
    proof {
        assert(rest@ == tag@.skip(start + 1));
        assert(quote@ == seq![tag@[start as int]]);
        lemma_find(rest@, quote@);
    }
    match find_text(rest, quote.as_slice()) {
        None => None,
        Some(end) => {
            proof {
                assert(rest@.subrange(0, end as int) == rest@.take(end as int));
            }
            let value = lower_chars(trim_chars(slice_subrange(rest, 0, end)));
            Some(string_of(value.as_slice()))
        },
    }
}

/// The fill that one declaration of a style gives.
fn fill_of_declaration(declaration: &[char]) -> (r: Option<String>)
    ensures
        opt_text(r) == declared_fill(declaration@),
{
    proof {
        reveal_strlit(":");
        lemma_find(declaration@, ":"@);
    }
    let colon_text = chars_of(":");
    let colon: usize = match find_text(declaration, colon_text.as_slice()) {
        None => {
            return None;
        },
        Some(colon) => colon,
    };
    let fill = chars_of("fill");
    let name = lower_chars(trim_chars(slice_subrange(declaration, 0, colon)));
    proof {
        assert(declaration@.subrange(0, colon as int) == declaration@.take(colon as int));
        assert(declaration@.subrange(colon + 1, declaration@.len() as int) == declaration@.skip(
            colon + 1,
        ));
    }
    if same_chars(name.as_slice(), fill.as_slice()) {
        let value = lower_chars(
            trim_chars(slice_subrange(declaration, colon + 1, declaration.len())),
        );
        Some(string_of(value.as_slice()))
    } else {
        None
    }
}

/// The fill of a tag: its `fill` attribute, or else the fill of its style.
pub fn normalize_fill(tag: &str) -> (r: Option<String>)
    ensures
        opt_text(r) == tag_fill(tag@),
{
    if let Some(fill) = extract_attr_value(tag, "fill") {
        return Some(fill);
    }
    let style = match extract_attr_value(tag, "style") {
        None => {
            return None;
        },
        Some(style) => style,
    };
    let style = chars_of(style.as_str());
    let style = style.as_slice();
    let semicolon = chars_of(";");
    proof {
        reveal_strlit(";");
        assert(style@.skip(0) == style@);
    }
    let mut from: usize = 0;
    loop
        invariant
            from <= style@.len(),
            semicolon@ == ";"@,
            ";"@.len() == 1,
            style_fill(style@.skip(from as int)) == style_fill(style@),
            tag_fill(tag@) == style_fill(style@),
        decreases style@.len() - from,
    {
        let list = slice_subrange(style, from, style.len());
        proof {
            assert(list@ == style@.skip(from as int));
            lemma_find(list@, ";"@);
        }
        match find_text(list, semicolon.as_slice()) {
            None => {
                return fill_of_declaration(list);
            },
            Some(end) => {
                proof {
                    assert(list@.subrange(0, end as int) == list@.take(end as int));
                    assert(style@.skip(from + end + 1) == list@.skip(end + 1));
                }
                if let Some(fill) = fill_of_declaration(slice_subrange(list, 0, end)) {
                    return Some(fill);
                }
                from = from + end + 1;
            },
        }
    }
}

/// Whether a coordinate is left out or written as zero.
pub fn is_zero_or_default(v: Option<String>) -> (r: bool)
    ensures
        r == zero_or_default(opt_text(v)),
{
    match v {
        None => true,
        Some(x) => {
            let x = chars_of(x.as_str());
            let t = trim_chars(x.as_slice());
            same_chars(t, chars_of("0").as_slice()) || same_chars(t, chars_of("0.0").as_slice())
                || same_chars(t, chars_of("0%").as_slice())
        },
    }
}

/// Whether a length is written as the whole of the canvas.
pub fn is_full_100(v: Option<String>) -> (r: bool)
    ensures
        r == full_100(opt_text(v)),
{
    match v {
        None => false,
        Some(x) => {
            let x = chars_of(x.as_str());
            same_chars(trim_chars(x.as_slice()), chars_of("100%").as_slice())
        },
    }
}

/// Whether a fill is written as opaque white or opaque black.
pub fn is_bw_fill(fill: &str) -> (r: bool)
    ensures
        r == black_or_white(fill@),
{
    let fill = chars_of(fill);
    let f = without_space_chars(trim_chars(fill.as_slice()));
    let f = f.as_slice();
    same_chars(f, chars_of("#fff").as_slice()) || same_chars(f, chars_of("#ffffff").as_slice())
        || same_chars(f, chars_of("white").as_slice()) || same_chars(
        f,
        chars_of("rgb(255,255,255)").as_slice(),
    ) || same_chars(f, chars_of("rgba(255,255,255,1)").as_slice()) || same_chars(
        f,
        chars_of("#000").as_slice(),
    ) || same_chars(f, chars_of("#000000").as_slice()) || same_chars(
        f,
        chars_of("black").as_slice(),
    ) || same_chars(f, chars_of("rgb(0,0,0)").as_slice()) || same_chars(
        f,
        chars_of("rgba(0,0,0,1)").as_slice(),
    )
}

/// Whether a tag is that of a rectangle that covers the canvas in black or
/// white.
fn is_background_tag(tag: &str) -> (r: bool)
    ensures
        r == is_background(tag@),
{
    match normalize_fill(tag) {
        None => false,
        Some(fill) => is_bw_fill(fill.as_str()) && is_zero_or_default(extract_attr_value(tag, "x"))
            && is_zero_or_default(extract_attr_value(tag, "y")) && is_full_100(
            extract_attr_value(tag, "width"),
        ) && is_full_100(extract_attr_value(tag, "height")),
    }
}

/// How many characters of `rest`, the text behind the tag of a background
/// rectangle, belong to its element.
fn element_length(tag: &[char], rest: &[char]) -> (r: Option<usize>)
    ensures
        match r {
            Some(n) => n <= rest@.len() && after_element(tag@, rest@) == Some(rest@.skip(n as int)),
            None => after_element(tag@, rest@) is None,
        },
{
    let t = trim_end_chars(tag);
    if t.len() >= 2 {
        let end = slice_subrange(t, t.len() - 2, t.len());
        proof {
            assert(end@ == t@.skip(t@.len() - 2));
        }
        if same_chars(end, chars_of("/>").as_slice()) {
            proof {
                assert(rest@.skip(0) == rest@);
            }
            return Some(0);
        }
    }
    let close = chars_of("</rect>");
    proof {
        lemma_find(rest@, close@);
    }
    match find_text(rest, close.as_slice()) {
        Some(at) => Some(at + close.len()),
        None => None,
    }
}

/// Removes simple full-canvas black/white background rects like
/// `<rect x="0" y="0" width="100%" height="100%" fill="#fff"/>`.
pub fn strip_bw_background_rect(svg: &str) -> (r: String)
    ensures
        r@ == stripped(svg@),
{
    let chars = chars_of(svg);
    let chars = chars.as_slice();
    let rect = chars_of("<rect");
    let close = chars_of(">");
    let mut out = String::new();
    let mut cursor: usize = 0;
    proof {
        reveal_strlit("<rect");
        reveal_strlit(">");
        assert(svg@.skip(0) == svg@);
        assert(out@ + stripped(svg@) == stripped(svg@));
    }
    loop
        invariant
            chars@ == svg@,
            cursor <= svg@.len(),
            rect@ == "<rect"@,
            rect@.len() == 5,
            close@ == ">"@,
            close@.len() == 1,
            out@ + stripped(svg@.skip(cursor as int)) == stripped(svg@),
        decreases svg@.len() - cursor,
    {
        let ghost done = out@;
        let left = slice_subrange(chars, cursor, chars.len());
        proof {
            assert(left@ == svg@.skip(cursor as int));
            lemma_find(left@, "<rect"@);
        }
        let start: usize = match find_text(left, rect.as_slice()) {
            None => {
                push_chars(&mut out, left);
                return out;
            },
            Some(start) => start,
        };
        let from_tag = slice_subrange(left, start, left.len());
        proof {
            assert(from_tag@ == left@.skip(start as int));
            lemma_find(from_tag@, ">"@);
        }
        let len: usize = match find_text(from_tag, close.as_slice()) {
            None => {
                push_chars(&mut out, left);
                return out;
            },
            Some(len) => len,
        };
        let before = slice_subrange(left, 0, start);
        let tag = slice_subrange(from_tag, 0, len + 1);
        let rest = slice_subrange(from_tag, len + 1, from_tag.len());
        proof {
            assert(before@ == left@.take(start as int));
            assert(tag@ == left@.subrange(start as int, start + len + 1));
            assert(rest@ == left@.skip(start + len + 1));
            assert(rest@ == svg@.skip(cursor + start + len + 1));
        }
        push_chars(&mut out, before);
        let tag_text = string_of(tag);
        if is_background_tag(tag_text.as_str()) {
            if let Some(n) = element_length(tag, rest) {
                proof {
                    let kept = rest@.skip(n as int);
                    assert(kept == svg@.skip(cursor + start + len + 1 + n));
                    assert(done + (before@ + stripped(kept)) == (done + before@) + stripped(kept));
                }
                cursor = cursor + start + len + 1 + n;
                continue;
            }
        }
        push_chars(&mut out, tag);
        proof {
            assert(done + (before@ + tag@ + stripped(rest@)) == (done + before@ + tag@) + stripped(
                rest@,
            ));
        }
        cursor = cursor + start + len + 1;
    }
}

/// The place directly behind the opening `<svg ...>` tag.
fn find_content_start(svg: &[char]) -> (r: Option<usize>)
    ensures
        match r {
            Some(start) => start <= svg@.len() && content_start(svg@) == Some(start as int),
            None => content_start(svg@) is None,
        },
{
    let open = chars_of("<svg");
    let close = chars_of(">");
    proof {
        lemma_find(svg@, open@);
        reveal_strlit(">");
    }
    match find_text(svg, open.as_slice()) {
        None => None,
        Some(start) => {
            let tag = slice_subrange(svg, start, svg.len());
            proof {
                assert(tag@ == svg@.skip(start as int));
                lemma_find(tag@, close@);
            }
            match find_text(tag, close.as_slice()) {
                None => None,
                Some(len) => Some(start + len + 1),
            }
        },
    }
}

/// Injects an SVG `feColorMatrix` invert filter and wraps all child content in
/// a `<g filter="...">` so the rendered result has inverted colours.
pub fn apply_invert_filter(svg: &str) -> (r: String)
    ensures
        r@ == inverted(svg@),
{
    let chars = chars_of(svg);
    let chars = chars.as_slice();
    let start: usize = match find_content_start(chars) {
        None => {
            return string_of(chars);
        },
        Some(start) => start,
    };
    let before = slice_subrange(chars, 0, start);
    let after = slice_subrange(chars, start, chars.len());
    let close = chars_of("</svg>");
    proof {
        assert(before@ == svg@.take(start as int));
        assert(after@ == svg@.skip(start as int));
        lemma_rfind(after@, close@);
    }
    match rfind_text(after, close.as_slice()) {
        None => string_of(chars),
        Some(len) => {
            let mut out = string_of(before);
            out.append(INVERT_GROUP_START);
            push_chars(&mut out, slice_subrange(after, 0, len));
            out.append("</g>");
            push_chars(&mut out, slice_subrange(after, len, after.len()));
            proof {
                assert(after@.subrange(0, len as int) == svg@.subrange(start as int, start + len));
                assert(after@.subrange(len as int, after@.len() as int) == svg@.skip(start + len));
            }
            out
        },
    }
}

/// Adds a full-canvas background rectangle at the start of SVG content.
pub fn add_background_rect(svg: &str, fill: &str) -> (r: String)
    ensures
        r@ == with_background(svg@, fill@),
{
    let chars = chars_of(svg);
    let chars = chars.as_slice();
    match find_content_start(chars) {
        None => string_of(chars),
        Some(start) => {
            let mut out = string_of(slice_subrange(chars, 0, start));
            out.append("<rect x=\"0\" y=\"0\" width=\"100%\" height=\"100%\" fill=\"");
            out.append(fill);
            out.append("\"/>");
            push_chars(&mut out, slice_subrange(chars, start, chars.len()));
            proof {
                assert(svg@.subrange(0, start as int) == svg@.take(start as int));
                assert(svg@.subrange(start as int, svg@.len() as int) == svg@.skip(start as int));
                assert(out@ =~= with_background(svg@, fill@));
            }
            out
        },
    }
}

} // verus!
