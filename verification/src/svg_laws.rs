//! What holds of the edits of an SVG document as a whole.

use vstd::prelude::*;

use crate::svg::{
    add_background_rect, after_element, apply_invert_filter, attr_value, background_rect,
    black_or_white, content_start, declared_fill, extract_attr_value, full_100, inverted,
    is_background, is_bw_fill, is_full_100, is_self_closing, is_zero_or_default, normalize_fill,
    strip_bw_background_rect, stripped, style_fill, tag_fill, with_background, zero_or_default,
    INVERT_GROUP_START,
};
use crate::text::{
    contains_text, find, is_first, is_last, is_space, lemma_find, lemma_find_in_front,
    lemma_not_across, lemma_occurs_behind, lemma_occurs_in_front, lemma_plain_value, lemma_rfind,
    lemma_trim_keeps, lemma_trim_twice, lower, lower_char, occurs_at, rfind, trim, trim_end,
    trim_is_trimmed, trim_start, without_spaces,
};

verus! {

/// The text of one tag: it ends in its only `>`.
pub open spec fn is_one_tag(tag: Seq<char>) -> bool {
    &&& tag.len() > 0
    &&& forall|i: int| 0 <= i < tag.len() ==> (#[trigger] tag[i] == '>' <==> i == tag.len() - 1)
}

/// `front` is followed by the first `<rect` of the text: a `<rect` put directly
/// behind it is the first one.
pub open spec fn no_rect_before_end(front: Seq<char>) -> bool {
    find(front + "<rect"@, "<rect"@) == Some(front.len() as int)
}

/// The first place of a one-character pattern is the first place of the
/// character.
proof fn lemma_find_char(text: Seq<char>, pattern: Seq<char>, at: int)
    requires
        pattern.len() == 1,
        0 <= at < text.len(),
        text[at] == pattern[0],
        forall|j: int| 0 <= j < at ==> #[trigger] text[j] != pattern[0],
    ensures
        find(text, pattern) == Some(at),
{
    assert(text.subrange(at, at + 1) =~= pattern);
    assert forall|j: int| 0 <= j < at implies !occurs_at(text, pattern, j) by {
        lemma_not_across(text, pattern, j, 0);
    }
    assert(is_first(text, pattern, at));
    lemma_find(text, pattern);
}

/// What stripping does at the first `<rect`, where its tag is complete.
proof fn lemma_strip_step(front: Seq<char>, tag: Seq<char>, rest: Seq<char>)
    requires
        no_rect_before_end(front),
        occurs_at(tag, "<rect"@, 0),
        is_one_tag(tag),
    ensures
        find(front + tag + rest, "<rect"@) == Some(front.len() as int),
        stripped(front + tag + rest) == if is_background(tag) && after_element(tag, rest) is Some {
            front + stripped(after_element(tag, rest)->0)
        } else {
            front + tag + stripped(rest)
        },
{
    reveal_strlit("<rect");
    reveal_strlit(">");
    let rect = "<rect"@;
    let svg = front + tag + rest;
    assert(svg =~= front + (tag + rest));
    lemma_occurs_in_front(tag, rest, rect, 0);
    lemma_occurs_behind(front, tag + rest, rect, 0);
    assert(svg =~= (front + rect) + svg.skip((front.len() + 5) as int)) by {
        assert forall|i: int| 0 <= i < 5 implies svg[front.len() + i] == rect[i] by {
            assert(svg.subrange(front.len() as int, (front.len() + 5) as int)[i] == svg[front.len()
                + i]);
        }
    }
    lemma_find_in_front(front + rect, svg.skip((front.len() + 5) as int), rect);
    let from_tag = svg.skip(front.len() as int);
    assert(from_tag =~= tag + rest);
    lemma_find_char(from_tag, ">"@, tag.len() - 1);
    assert(svg.take(front.len() as int) =~= front);
    assert(svg.subrange(front.len() as int, (front.len() + tag.len()) as int) =~= tag);
    assert(svg.skip((front.len() + tag.len()) as int) =~= rest);
}

/// Text without a `<rect` stays as it is.
pub proof fn text_without_rect_is_kept(svg: Seq<char>)
    requires
        !contains_text(svg, "<rect"@),
    ensures
        stripped(svg) == svg,
{
}

/// A self-closing black or white background rectangle is taken out.
pub proof fn background_tag_is_removed(front: Seq<char>, tag: Seq<char>, rest: Seq<char>)
    requires
        no_rect_before_end(front),
        occurs_at(tag, "<rect"@, 0),
        is_one_tag(tag),
        is_background(tag),
        is_self_closing(tag),
    ensures
        stripped(front + tag + rest) == front + stripped(rest),
{
    lemma_strip_step(front, tag, rest);
}

/// A black or white background rectangle with a closing tag is taken out with
/// everything up to that tag.
pub proof fn background_element_is_removed(
    front: Seq<char>,
    tag: Seq<char>,
    inside: Seq<char>,
    rest: Seq<char>,
)
    requires
        no_rect_before_end(front),
        occurs_at(tag, "<rect"@, 0),
        is_one_tag(tag),
        is_background(tag),
        !is_self_closing(tag),
        find(inside + "</rect>"@, "</rect>"@) == Some(inside.len() as int),
    ensures
        stripped(front + tag + (inside + "</rect>"@ + rest)) == front + stripped(rest),
{
    let close = "</rect>"@;
    let behind = inside + close + rest;
    lemma_strip_step(front, tag, behind);
    lemma_find_in_front(inside + close, rest, close);
    assert(behind.skip((inside.len() + close.len()) as int) =~= rest);
}

/// Any other rectangle stays, and stripping goes on behind its tag.
pub proof fn other_rect_is_kept(front: Seq<char>, tag: Seq<char>, rest: Seq<char>)
    requires
        no_rect_before_end(front),
        occurs_at(tag, "<rect"@, 0),
        is_one_tag(tag),
        !is_background(tag),
    ensures
        stripped(front + tag + rest) == front + tag + stripped(rest),
{
    lemma_strip_step(front, tag, rest);
}

/// Stripping never makes a text longer.
pub proof fn stripping_never_grows(svg: Seq<char>)
    ensures
        stripped(svg).len() <= svg.len(),
    decreases svg.len(),
{
    reveal_strlit("<rect");
    reveal_strlit(">");
    lemma_find(svg, "<rect"@);
    if let Some(start) = find(svg, "<rect"@) {
        lemma_find(svg.skip(start), ">"@);
        if let Some(len) = find(svg.skip(start), ">"@) {
            let tag = svg.subrange(start, start + len + 1);
            let rest = svg.skip(start + len + 1);
            lemma_find(rest, "</rect>"@);
            if is_background(tag) && after_element(tag, rest) is Some {
                stripping_never_grows(after_element(tag, rest)->0);
            } else {
                stripping_never_grows(rest);
            }
        }
    }
}

/// A text that is empty or ends in `>`.
spec fn ends_tag(u: Seq<char>) -> bool {
    u.len() == 0 || u.last() == '>'
}

/// A pattern that holds `>` at most as its last character does not stand
/// across the end of a text that ends in `>`.
proof fn lemma_not_across_end(u: Seq<char>, v: Seq<char>, pattern: Seq<char>, at: int)
    requires
        ends_tag(u),
        0 <= at < u.len() < at + pattern.len(),
        forall|k: int| 0 <= k < pattern.len() - 1 ==> #[trigger] pattern[k] != '>',
    ensures
        !occurs_at(u + v, pattern, at),
{
    let k = u.len() - 1 - at;
    assert((u + v)[at + k] == u.last());
    lemma_not_across(u + v, pattern, at, k);
}

/// Where a pattern that holds `>` at most as its last character is first found
/// in `u + v`, when `u` is empty or ends in `>`.
proof fn lemma_find_over_end(u: Seq<char>, v: Seq<char>, pattern: Seq<char>)
    requires
        ends_tag(u),
        pattern.len() > 0,
        forall|k: int| 0 <= k < pattern.len() - 1 ==> #[trigger] pattern[k] != '>',
    ensures
        find(u + v, pattern) == match find(u, pattern) {
            Some(at) => Some(at),
            None => match find(v, pattern) {
                Some(at) => Some(u.len() + at),
                None => None,
            },
        },
{
    let w = u + v;
    lemma_find(u, pattern);
    lemma_find(v, pattern);
    lemma_find(w, pattern);
    assert forall|j: int| 0 <= j < u.len() implies occurs_at(w, pattern, j) == occurs_at(
        u,
        pattern,
        j,
    ) by {
        if j + pattern.len() <= u.len() {
            lemma_occurs_in_front(u, v, pattern, j);
        } else {
            lemma_not_across_end(u, v, pattern, j);
        }
    }
    assert forall|j: int| u.len() <= j implies occurs_at(w, pattern, j) == occurs_at(
        v,
        pattern,
        j - u.len(),
    ) by {
        lemma_occurs_behind(u, v, pattern, j - u.len());
    }
    match find(u, pattern) {
        Some(at) => {
            assert(is_first(w, pattern, at));
        },
        None => {
            match find(v, pattern) {
                Some(at) => {
                    assert(is_first(w, pattern, u.len() + at));
                },
                None => {
                    assert forall|j: int| !occurs_at(w, pattern, j) by {
                        if 0 <= j < u.len() {
                            assert(!occurs_at(u, pattern, j));
                        } else if u.len() <= j {
                            assert(!occurs_at(v, pattern, j - u.len()));
                        }
                    }
                },
            }
        },
    }
}

/// A background rectangle that stripping takes out makes no difference to it,
/// put in behind any `>`.
proof fn lemma_inserted_tag_is_stripped(u: Seq<char>, tag: Seq<char>, v: Seq<char>)
    requires
        ends_tag(u),
        occurs_at(tag, "<rect"@, 0),
        is_one_tag(tag),
        is_background(tag),
        is_self_closing(tag),
        !contains_text(tag, "</rect>"@),
    ensures
        stripped(u + tag + v) == stripped(u + v),
    decreases u.len(),
{
    reveal_strlit("<rect");
    reveal_strlit("</rect>");
    reveal_strlit(">");
    let rect = "<rect"@;
    let close = "</rect>"@;
    let w = u + v;
    let w2 = u + tag + v;
    assert(w2 =~= u + (tag + v));
    lemma_find_over_end(u, v, rect);
    lemma_find_over_end(u, tag + v, rect);
    lemma_find(u, rect);
    match find(u, rect) {
        None => {
            // The inserted tag is the next one found.
            assert(no_rect_before_end(u)) by {
                lemma_find_over_end(u, rect, rect);
                assert(rect.subrange(0, 5) =~= rect);
                assert(is_first(rect, rect, 0));
                lemma_find(rect, rect);
            }
            lemma_strip_step(u, tag, v);
            assert(is_closed(u)) by {
                if u.len() > 0 {
                    assert(u[u.len() - 1] == '>');
                }
            }
            lemma_strip_behind_plain(u, v);
        },
        Some(start) => {
            let tail = u.skip(start);
            assert(w.skip(start) =~= tail + v);
            assert(w2.skip(start) =~= tail + (tag + v));
            lemma_find_over_end(tail, v, ">"@);
            lemma_find_over_end(tail, tag + v, ">"@);
            lemma_find(tail, ">"@);
            assert(tail.subrange(tail.len() - 1, tail.len() as int) =~= ">"@);
            assert(occurs_at(tail, ">"@, tail.len() - 1));
            let len = find(tail, ">"@)->0;
            let this = u.subrange(start, start + len + 1);
            let u2 = u.skip(start + len + 1);
            assert(w.take(start) =~= u.take(start));
            assert(w2.take(start) =~= u.take(start));
            assert(w.subrange(start, start + len + 1) =~= this);
            assert(w2.subrange(start, start + len + 1) =~= this);
            assert(w.skip(start + len + 1) =~= u2 + v);
            assert(w2.skip(start + len + 1) =~= u2 + (tag + v));
            assert(u2 + (tag + v) =~= u2 + tag + v);
            assert(ends_tag(u2));
            lemma_inserted_tag_is_stripped(u2, tag, v);
            if is_background(this) && !is_self_closing(this) {
                lemma_find_over_end(u2, v, close);
                lemma_find_over_end(u2, tag + v, close);
                lemma_find_over_end(tag, v, close);
                lemma_find(tag, close);
                lemma_find(u2, close);
                lemma_find(v, close);
                match find(u2, close) {
                    Some(at) => {
                        let u3 = u2.skip(at + 7);
                        assert((u2 + v).skip(at + 7) =~= u3 + v);
                        assert((u2 + (tag + v)).skip(at + 7) =~= u3 + tag + v);
                        assert(ends_tag(u3)) by {
                            if u3.len() > 0 {
                                assert(u3.last() == u2.last());
                            }
                        }
                        lemma_inserted_tag_is_stripped(u3, tag, v);
                    },
                    None => {
                        if let Some(at) = find(v, close) {
                            assert((u2 + v).skip(u2.len() + at + 7) =~= v.skip(at + 7));
                            assert((u2 + (tag + v)).skip(u2.len() + tag.len() + at + 7) =~= v.skip(
                                at + 7,
                            ));
                        }
                    },
                }
            }
        },
    }
}

/// A text in which every tag that is opened is closed.
spec fn is_closed(u: Seq<char>) -> bool {
    forall|i: int|
        0 <= i < u.len() && #[trigger] u[i] == '<' ==> exists|k: int|
            i < k < u.len() && #[trigger] u[k] == '>'
}

/// A tag's text or its closing tag does not stand across the end of a text in
/// which every tag is closed, so the first one in `u + v` is that of `u`, or
/// else that of `v`.
proof fn lemma_find_over_closed(u: Seq<char>, v: Seq<char>, pattern: Seq<char>)
    requires
        is_closed(u),
        pattern.len() > 0,
        pattern[0] == '<',
        forall|k: int| 0 <= k < pattern.len() - 1 ==> #[trigger] pattern[k] != '>',
    ensures
        forall|j: int|
            0 <= j < u.len() ==> #[trigger] occurs_at(u + v, pattern, j) == occurs_at(
                u,
                pattern,
                j,
            ),
        find(u + v, pattern) == match find(u, pattern) {
            Some(at) => Some(at),
            None => match find(v, pattern) {
                Some(at) => Some(u.len() + at),
                None => None,
            },
        },
{
    let w = u + v;
    lemma_find(u, pattern);
    lemma_find(v, pattern);
    lemma_find(w, pattern);
    assert forall|j: int| 0 <= j < u.len() implies #[trigger] occurs_at(w, pattern, j) == occurs_at(
        u,
        pattern,
        j,
    ) by {
        if j + pattern.len() <= u.len() {
            lemma_occurs_in_front(u, v, pattern, j);
        } else if w[j] != '<' {
            lemma_not_across(w, pattern, j, 0);
        } else {
            assert(u[j] == '<');
            let k = choose|k: int| j < k < u.len() && #[trigger] u[k] == '>';
            assert(w[j + (k - j)] == '>');
            lemma_not_across(w, pattern, j, k - j);
        }
    }
    assert forall|j: int| u.len() <= j implies #[trigger] occurs_at(w, pattern, j) == occurs_at(
        v,
        pattern,
        j - u.len(),
    ) by {
        lemma_occurs_behind(u, v, pattern, j - u.len());
    }
    match find(u, pattern) {
        Some(at) => {
            assert(is_first(w, pattern, at));
        },
        None => {
            match find(v, pattern) {
                Some(at) => {
                    assert(is_first(w, pattern, u.len() + at));
                },
                None => {
                    assert forall|j: int| !occurs_at(w, pattern, j) by {
                        if 0 <= j < u.len() {
                            assert(!occurs_at(u, pattern, j));
                        } else if u.len() <= j {
                            assert(!occurs_at(v, pattern, j - u.len()));
                        }
                    }
                },
            }
        },
    }
}

/// Text in front that holds no `<rect`, and in which every tag is closed, stays
/// as it is.
proof fn lemma_strip_behind_plain(u: Seq<char>, v: Seq<char>)
    requires
        is_closed(u),
        find(u, "<rect"@) is None,
    ensures
        stripped(u + v) == u + stripped(v),
{
    reveal_strlit("<rect");
    reveal_strlit(">");
    let w = u + v;
    lemma_find_over_closed(u, v, "<rect"@);
    lemma_find(v, "<rect"@);
    if let Some(start) = find(v, "<rect"@) {
        let at = u.len() + start;
        assert(w.skip(at) =~= v.skip(start));
        lemma_find(v.skip(start), ">"@);
        if let Some(len) = find(v.skip(start), ">"@) {
            assert(w.take(at) =~= u + v.take(start));
            assert(w.subrange(at, at + len + 1) =~= v.subrange(start, start + len + 1));
            assert(w.skip(at + len + 1) =~= v.skip(start + len + 1));
            let tag = v.subrange(start, start + len + 1);
            let rest = v.skip(start + len + 1);
            if is_background(tag) && after_element(tag, rest) is Some {
                let s = stripped(after_element(tag, rest)->0);
                assert(u + v.take(start) + s =~= u + (v.take(start) + s));
            } else {
                let s = stripped(rest);
                assert(u + v.take(start) + tag + s =~= u + (v.take(start) + tag + s));
            }
        }
    }
}

/// No tag opens inside another: between two `<` there is a `>`.
pub open spec fn tags_apart(svg: Seq<char>) -> bool {
    forall|i: int, j: int|
        0 <= i < j < svg.len() && #[trigger] svg[i] == '<' && #[trigger] svg[j] == '<' ==> exists|
            k: int,
        |
            i < k < j && #[trigger] svg[k] == '>'
}

/// What is behind a place in a text whose tags are apart has its tags apart.
proof fn lemma_apart_behind(svg: Seq<char>, at: int)
    requires
        tags_apart(svg),
        0 <= at <= svg.len(),
    ensures
        tags_apart(svg.skip(at)),
{
    let t = svg.skip(at);
    assert forall|i: int, j: int|
        0 <= i < j < t.len() && #[trigger] t[i] == '<' && #[trigger] t[j] == '<' implies exists|
        k: int,
    |
        i < k < j && #[trigger] t[k] == '>' by {
        assert(svg[at + i] == '<' && svg[at + j] == '<');
        let k = choose|k: int| at + i < k < at + j && #[trigger] svg[k] == '>';
        assert(t[k - at] == '>');
    }
}

/// In front of a tag of a text whose tags are apart every tag is closed.
proof fn lemma_closed_before(svg: Seq<char>, start: int)
    requires
        tags_apart(svg),
        0 <= start < svg.len(),
        svg[start] == '<',
    ensures
        is_closed(svg.take(start)),
{
    let u = svg.take(start);
    assert forall|i: int| 0 <= i < u.len() && #[trigger] u[i] == '<' implies exists|k: int|
        i < k < u.len() && #[trigger] u[k] == '>' by {
        assert(svg[i] == '<' && svg[start] == '<');
        let k = choose|k: int| i < k < start && #[trigger] svg[k] == '>';
        assert(u[k] == '>');
    }
}

/// Where the first `>` is found, it stands for the first time.
proof fn lemma_first_end(from: Seq<char>, len: int)
    requires
        find(from, ">"@) == Some(len),
    ensures
        0 <= len < from.len(),
        is_one_tag(from.take(len + 1)),
{
    reveal_strlit(">");
    lemma_find(from, ">"@);
    assert(from.subrange(len, len + 1)[0] == from[len]);
    assert forall|i: int| 0 <= i < len implies #[trigger] from[i] != '>' by {
        if from[i] == '>' {
            assert(from.subrange(i, i + 1) =~= ">"@);
            assert(occurs_at(from, ">"@, i));
        }
    }
}

/// The parts of a text at its first complete `<rect` tag: what is in front holds
/// no `<rect`, and where tags are apart every tag in it is closed.
proof fn lemma_first_rect(svg: Seq<char>, start: int, len: int)
    requires
        find(svg, "<rect"@) == Some(start),
        find(svg.skip(start), ">"@) == Some(len),
    ensures
        0 <= start,
        0 < len,
        start + len + 1 <= svg.len(),
        find(svg.take(start), "<rect"@) is None,
        tags_apart(svg) ==> is_closed(svg.take(start)),
        is_one_tag(svg.subrange(start, start + len + 1)),
        occurs_at(svg.subrange(start, start + len + 1), "<rect"@, 0),
        svg == svg.take(start) + svg.subrange(start, start + len + 1) + svg.skip(start + len + 1),
{
    reveal_strlit("<rect");
    let rect = "<rect"@;
    let u = svg.take(start);
    let from = svg.skip(start);
    let tag = svg.subrange(start, start + len + 1);
    lemma_find(svg, rect);
    assert(svg.subrange(start, start + 5)[0] == svg[start]);
    lemma_first_end(from, len);
    assert(tag =~= from.take(len + 1));
    assert(len >= 5) by {
        if len < 5 {
            assert(svg.subrange(start, start + 5)[len] == tag[len]);
        }
    }
    assert(tag.subrange(0, 5) =~= svg.subrange(start, start + 5));
    assert forall|j: int| !occurs_at(u, rect, j) by {
        if occurs_at(u, rect, j) {
            lemma_occurs_in_front(u, from, rect, j);
            assert(u + from =~= svg);
        }
    }
    lemma_find(u, rect);
    if tags_apart(svg) {
        lemma_closed_before(svg, start);
    }
    assert(svg =~= u + tag + svg.skip(start + len + 1));
}

/// Stripping a text whose tags are apart makes no closing tag.
proof fn lemma_strip_makes_no_close(svg: Seq<char>)
    requires
        tags_apart(svg),
        find(svg, "</rect>"@) is None,
    ensures
        find(stripped(svg), "</rect>"@) is None,
    decreases svg.len(),
{
    reveal_strlit("<rect");
    reveal_strlit("</rect>");
    reveal_strlit(">");
    let close = "</rect>"@;
    if let Some(start) = find(svg, "<rect"@) {
        if let Some(len) = find(svg.skip(start), ">"@) {
            lemma_first_rect(svg, start, len);
            let u = svg.take(start);
            let tag = svg.subrange(start, start + len + 1);
            let rest = svg.skip(start + len + 1);
            let ut = u + tag;
            assert(svg == ut + rest);
            lemma_apart_behind(svg, start + len + 1);
            assert(is_closed(ut)) by {
                assert(ut[ut.len() - 1] == tag[tag.len() - 1]);
            }
            lemma_find_over_closed(ut, rest, close);
            lemma_find_over_closed(u, tag, close);
            lemma_strip_makes_no_close(rest);
            lemma_find_over_closed(u, stripped(rest), close);
            lemma_find_over_closed(ut, stripped(rest), close);
        }
    }
}

/// Stripping a text in which no tag opens inside another a second time changes
/// nothing.
pub proof fn stripping_twice_is_stripping_once(svg: Seq<char>)
    requires
        tags_apart(svg),
    ensures
        stripped(stripped(svg)) == stripped(svg),
    decreases svg.len(),
{
    reveal_strlit("<rect");
    reveal_strlit("</rect>");
    if let Some(start) = find(svg, "<rect"@) {
        if let Some(len) = find(svg.skip(start), ">"@) {
            lemma_first_rect(svg, start, len);
            let u = svg.take(start);
            let tag = svg.subrange(start, start + len + 1);
            let rest = svg.skip(start + len + 1);
            lemma_apart_behind(svg, start + len + 1);
            lemma_find(rest, "</rect>"@);
            if is_background(tag) && after_element(tag, rest) is Some {
                let after = after_element(tag, rest)->0;
                if !is_self_closing(tag) {
                    lemma_apart_behind(rest, find(rest, "</rect>"@)->0 + 7);
                }
                stripping_twice_is_stripping_once(after);
                lemma_strip_behind_plain(u, stripped(after));
            } else {
                let s = stripped(rest);
                stripping_twice_is_stripping_once(rest);
                assert(u + tag + s =~= u + (tag + s));
                lemma_strip_behind_plain(u, tag + s);
                if is_background(tag) {
                    lemma_strip_makes_no_close(rest);
                }
                let none = Seq::<char>::empty();
                assert(none + "<rect"@ =~= "<rect"@);
                assert("<rect"@.subrange(0, 5) =~= "<rect"@);
                assert(is_first("<rect"@, "<rect"@, 0));
                lemma_find("<rect"@, "<rect"@);
                lemma_strip_step(none, tag, s);
                assert(none + tag + s =~= tag + s);
                assert(none + tag + stripped(s) =~= tag + stripped(s));
            }
        }
    }
}

/// A complete `<rect` tag of `len` characters stands in `svg` from index `at`
/// on.
pub open spec fn rect_tag_at(svg: Seq<char>, at: int, len: int) -> bool {
    &&& occurs_at(svg, "<rect"@, at)
    &&& 0 <= len
    &&& at + len <= svg.len()
    &&& is_one_tag(svg.subrange(at, at + len))
}

/// A tag behind a text that is put in front is a tag of the text behind it.
proof fn lemma_rect_tag_behind(u: Seq<char>, v: Seq<char>, at: int, len: int)
    requires
        rect_tag_at(u + v, u.len() + at, len),
        0 <= at,
    ensures
        rect_tag_at(v, at, len),
        (u + v).subrange(u.len() + at, u.len() + at + len) == v.subrange(at, at + len),
{
    lemma_occurs_behind(u, v, "<rect"@, at);
    assert((u + v).subrange(u.len() + at, u.len() + at + len) =~= v.subrange(at, at + len));
}

/// Stripping a text in which no tag opens inside another leaves no self-closing
/// black or white background rectangle in it.
pub proof fn no_background_is_left(svg: Seq<char>, at: int, len: int)
    requires
        tags_apart(svg),
        rect_tag_at(stripped(svg), at, len),
    ensures
        ({
            let tag = stripped(svg).subrange(at, at + len);
            !(is_background(tag) && is_self_closing(tag))
        }),
    decreases svg.len(),
{
    reveal_strlit("<rect");
    reveal_strlit("</rect>");
    reveal_strlit(">");
    let rect = "<rect"@;
    let out = stripped(svg);
    lemma_find(svg, rect);
    let start = find(svg, rect)->0;
    let from = svg.skip(start);
    lemma_find(from, ">"@);
    if find(from, ">"@) is None {
        let last = at + len - 1;
        assert(out.subrange(at, at + len)[len - 1] == out[last]);
        assert(from.subrange(last - start, last - start + 1) =~= ">"@);
        assert(occurs_at(from, ">"@, last - start));
    } else {
        let n = find(from, ">"@)->0;
        lemma_first_rect(svg, start, n);
        let u = svg.take(start);
        let tag = svg.subrange(start, start + n + 1);
        let rest = svg.skip(start + n + 1);
        lemma_apart_behind(svg, start + n + 1);
        lemma_find(rest, "</rect>"@);
        lemma_find(u, rect);
        if is_background(tag) && after_element(tag, rest) is Some {
            let after = after_element(tag, rest)->0;
            if !is_self_closing(tag) {
                lemma_apart_behind(rest, find(rest, "</rect>"@)->0 + 7);
            }
            lemma_find_over_closed(u, stripped(after), rect);
            assert(at >= u.len());
            lemma_rect_tag_behind(u, stripped(after), at - u.len(), len);
            no_background_is_left(after, at - u.len(), len);
        } else {
            let s = stripped(rest);
            assert(out =~= u + (tag + s));
            lemma_find_over_closed(u, tag + s, rect);
            assert(at >= u.len());
            let k = at - u.len();
            lemma_rect_tag_behind(u, tag + s, k, len);
            if k >= tag.len() {
                lemma_rect_tag_behind(tag, s, k - tag.len(), len);
                no_background_is_left(rest, k - tag.len(), len);
            } else {
                let w = tag + s;
                let found = w.subrange(k, k + len);
                assert(w.subrange(k, k + 5)[0] == w[k]);
                assert(tag[k] == '<');
                assert(k == 0) by {
                    if k > 0 {
                        assert(tag.subrange(0, 5)[0] == tag[0]);
                        assert(svg[start] == tag[0] && svg[start + k] == tag[k]);
                        let m = choose|m: int| start < m < start + k && #[trigger] svg[m] == '>';
                        assert(tag[m - start] == '>');
                    }
                }
                assert(len == tag.len()) by {
                    if len < tag.len() {
                        assert(found[len - 1] == tag[len - 1]);
                    } else if len > tag.len() {
                        assert(found[tag.len() - 1] == tag[tag.len() - 1]);
                    }
                }
                assert(found =~= tag);
            }
        }
    }
}

/// The text of a black or white background rectangle with a tag of `len`
/// characters: that tag, and unless it is self-closing everything up to the
/// next closing tag.
pub open spec fn is_background_element(element: Seq<char>, len: int) -> bool {
    let tag = element.take(len);
    let inside = element.skip(len);
    &&& 0 <= len <= element.len()
    &&& occurs_at(tag, "<rect"@, 0)
    &&& is_one_tag(tag)
    &&& is_background(tag)
    &&& if is_self_closing(tag) {
        inside.len() == 0
    } else {
        find(inside, "</rect>"@) == Some(inside.len() - 7)
    }
}

/// The text of a whole black or white background rectangle.
pub open spec fn is_whole_background(element: Seq<char>) -> bool {
    exists|len: int| is_background_element(element, len)
}

/// The parts that are kept and those that are cut out, in turn.
pub open spec fn in_turn(kept: Seq<Seq<char>>, cut: Seq<Seq<char>>) -> Seq<char>
    decreases cut.len(),
{
    if cut.len() == 0 {
        kept[0]
    } else {
        kept[0] + cut[0] + in_turn(kept.drop_first(), cut.drop_first())
    }
}

/// The parts that are kept, one behind another.
pub open spec fn joined(kept: Seq<Seq<char>>) -> Seq<char>
    decreases kept.len(),
{
    if kept.len() == 0 {
        Seq::empty()
    } else {
        kept[0] + joined(kept.drop_first())
    }
}

/// `out` is `svg` with the elements `cut` taken out from between the parts
/// `kept`, each of them a whole black or white background rectangle.
pub open spec fn elements_cut(
    svg: Seq<char>,
    out: Seq<char>,
    kept: Seq<Seq<char>>,
    cut: Seq<Seq<char>>,
) -> bool {
    &&& kept.len() == cut.len() + 1
    &&& svg == in_turn(kept, cut)
    &&& out == joined(kept)
    &&& forall|k: int| 0 <= k < cut.len() ==> is_whole_background(#[trigger] cut[k])
}

/// Another element is cut out in front.
proof fn lemma_cut_in_front(
    u: Seq<char>,
    gone: Seq<char>,
    after: Seq<char>,
    out: Seq<char>,
    kept: Seq<Seq<char>>,
    cut: Seq<Seq<char>>,
)
    requires
        is_whole_background(gone),
        elements_cut(after, out, kept, cut),
    ensures
        elements_cut(u + gone + after, u + out, seq![u] + kept, seq![gone] + cut),
{
    let kept2 = seq![u] + kept;
    let cut2 = seq![gone] + cut;
    assert(kept2.drop_first() =~= kept);
    assert(cut2.drop_first() =~= cut);
    assert(in_turn(kept2, cut2) == u + gone + after);
    assert(joined(kept2) == u + out);
    assert forall|k: int| 0 <= k < cut2.len() implies is_whole_background(#[trigger] cut2[k]) by {
        if k > 0 {
            assert(cut2[k] == cut[k - 1]);
        }
    }
}

/// More is kept in front.
proof fn lemma_kept_in_front(
    u: Seq<char>,
    svg: Seq<char>,
    out: Seq<char>,
    kept: Seq<Seq<char>>,
    cut: Seq<Seq<char>>,
)
    requires
        elements_cut(svg, out, kept, cut),
    ensures
        elements_cut(u + svg, u + out, seq![u + kept[0]] + kept.drop_first(), cut),
{
    let kept2 = seq![u + kept[0]] + kept.drop_first();
    assert(kept2.drop_first() =~= kept.drop_first());
    if cut.len() > 0 {
        let t = in_turn(kept.drop_first(), cut.drop_first());
        assert(u + (kept[0] + cut[0] + t) =~= (u + kept[0]) + cut[0] + t);
    }
    assert(in_turn(kept2, cut) == u + svg);
    let j = joined(kept.drop_first());
    assert(u + (kept[0] + j) =~= (u + kept[0]) + j);
    assert(joined(kept2) == u + out);
}

/// Stripping takes nothing out of a text but whole black or white background
/// rectangles, and leaves everything else as it is, in its order.
pub proof fn only_backgrounds_are_cut(svg: Seq<char>)
    ensures
        exists|kept: Seq<Seq<char>>, cut: Seq<Seq<char>>|
            elements_cut(svg, stripped(svg), kept, cut),
    decreases svg.len(),
{
    reveal_strlit("<rect");
    reveal_strlit("</rect>");
    let at = find(svg, "<rect"@);
    if at is None || find(svg.skip(at->0), ">"@) is None {
        let whole = seq![svg];
        assert(joined(whole) =~= svg) by {
            reveal_with_fuel(joined, 2);
        }
        assert(in_turn(whole, Seq::empty()) == svg);
        assert(elements_cut(svg, stripped(svg), whole, Seq::empty()));
    } else {
        let start = at->0;
        let len = find(svg.skip(start), ">"@)->0;
        lemma_first_rect(svg, start, len);
        let u = svg.take(start);
        let tag = svg.subrange(start, start + len + 1);
        let rest = svg.skip(start + len + 1);
        lemma_find(rest, "</rect>"@);
        if is_background(tag) && after_element(tag, rest) is Some {
            let after = after_element(tag, rest)->0;
            only_backgrounds_are_cut(after);
            let (kept, cut) = choose|kept: Seq<Seq<char>>, cut: Seq<Seq<char>>|
                elements_cut(after, stripped(after), kept, cut);
            let gone = svg.subrange(start, svg.len() - after.len());
            assert(gone =~= (tag + rest).take(tag.len() + rest.len() - after.len()));
            lemma_element_is_whole(tag, rest, gone);
            assert(is_background_element(gone, tag.len() as int));
            assert(svg =~= u + gone + after);
            lemma_cut_in_front(u, gone, after, stripped(after), kept, cut);
            assert(stripped(svg) == u + stripped(after));
            assert(elements_cut(svg, stripped(svg), seq![u] + kept, seq![gone] + cut));
        } else {
            only_backgrounds_are_cut(rest);
            let (kept, cut) = choose|kept: Seq<Seq<char>>, cut: Seq<Seq<char>>|
                elements_cut(rest, stripped(rest), kept, cut);
            lemma_kept_in_front(u + tag, rest, stripped(rest), kept, cut);
            assert(stripped(svg) == u + tag + stripped(rest));
            assert(elements_cut(
                svg,
                stripped(svg),
                seq![u + tag + kept[0]] + kept.drop_first(),
                cut,
            ));
        }
    }
}

/// A tag and what stripping takes out behind it are a whole element.
proof fn lemma_element_is_whole(tag: Seq<char>, rest: Seq<char>, gone: Seq<char>)
    requires
        occurs_at(tag, "<rect"@, 0),
        is_one_tag(tag),
        is_background(tag),
        after_element(tag, rest) is Some,
        gone == (tag + rest).take(tag.len() + rest.len() - after_element(tag, rest)->0.len()),
    ensures
        is_background_element(gone, tag.len() as int),
{
    reveal_strlit("</rect>");
    let close = "</rect>"@;
    lemma_find(rest, close);
    assert(gone.take(tag.len() as int) =~= tag);
    if !is_self_closing(tag) {
        let at = find(rest, close)->0;
        let inside = gone.skip(tag.len() as int);
        assert(inside =~= rest.take(at + 7));
        assert(rest =~= inside + rest.skip(at + 7));
        lemma_find_in_shorter(inside, rest.skip(at + 7), close);
    }
}

/// The place behind the opening tag directly follows a `>`.
proof fn lemma_content_start(svg: Seq<char>)
    ensures
        content_start(svg) matches Some(start) ==> 0 < start <= svg.len() && svg[start - 1] == '>',
{
    reveal_strlit(">");
    reveal_strlit("<svg");
    lemma_find(svg, "<svg"@);
    if let Some(start) = find(svg, "<svg"@) {
        let tag = svg.skip(start);
        lemma_find(tag, ">"@);
        if let Some(len) = find(tag, ">"@) {
            assert(tag.subrange(len, len + 1)[0] == tag[len]);
        }
    }
}

/// A rectangle put in as the background is taken out again by stripping, as
/// long as its tag is a black or white background and its fill does not end
/// the tag: what is left is the stripped document.
pub proof fn added_background_is_stripped(svg: Seq<char>, fill: Seq<char>)
    requires
        is_background(background_rect(fill)),
        !fill.contains('>'),
    ensures
        stripped(with_background(svg, fill)) == stripped(svg),
{
    lemma_content_start(svg);
    if let Some(start) = content_start(svg) {
        let u = svg.take(start);
        let v = svg.skip(start);
        assert(u + v =~= svg);
        lemma_background_rect_shape(fill);
        lemma_inserted_tag_is_stripped(u, background_rect(fill), v);
    }
}

/// The tag of a background rectangle is one self-closing `<rect` tag.
proof fn lemma_background_rect_shape(fill: Seq<char>)
    requires
        !fill.contains('>'),
    ensures
        occurs_at(background_rect(fill), "<rect"@, 0),
        is_one_tag(background_rect(fill)),
        is_self_closing(background_rect(fill)),
        !contains_text(background_rect(fill), "</rect>"@),
{
    reveal_strlit("<rect");
    reveal_strlit("</rect>");
    reveal_strlit("/>");
    reveal_strlit("\"/>");
    reveal_strlit("<rect x=\"0\" y=\"0\" width=\"100%\" height=\"100%\" fill=\"");
    let open = "<rect x=\"0\" y=\"0\" width=\"100%\" height=\"100%\" fill=\""@;
    let tag = background_rect(fill);
    let n = tag.len() as int;
    assert(tag.subrange(0, 5) =~= "<rect"@);
    assert forall|i: int| 0 <= i < tag.len() implies (#[trigger] tag[i] == '>' <==> i == n - 1) by {
        if i < open.len() {
            assert(tag[i] == open[i]);
        } else if i < open.len() + fill.len() {
            assert(tag[i] == fill[i - open.len()]);
            assert(fill.contains(fill[i - open.len()]));
        }
    }
    assert(trim_end(tag) == tag);
    assert(tag.skip(n - 2) =~= "/>"@);
    assert forall|j: int| !occurs_at(tag, "</rect>"@, j) by {
        if 0 <= j && j + 7 <= n {
            if j + 6 != n - 1 {
                lemma_not_across(tag, "</rect>"@, j, 6);
            } else {
                lemma_not_across(tag, "</rect>"@, j, 5);
            }
        }
    }
}

/// The value of an attribute that is written in double quotes.
proof fn lemma_quoted_attr(tag: Seq<char>, attr: Seq<char>, at: int, value: Seq<char>)
    requires
        is_first(tag, attr + "="@, at),
        !value.contains('"'),
        occurs_at(tag, seq!['"'] + value + seq!['"'], at + attr.len() + 1),
    ensures
        attr_value(tag, attr) == Some(lower(trim(value))),
{
    reveal_strlit("=");
    let needle = attr + "="@;
    let start = at + needle.len();
    let quoted = seq!['"'] + value + seq!['"'];
    lemma_find(tag, needle);
    assert forall|i: int| 0 <= i < quoted.len() implies tag[start + i] == quoted[i] by {
        assert(tag.subrange(start, start + quoted.len())[i] == tag[start + i]);
    }
    assert(tag[start + 0] == quoted[0]);
    let rest = tag.skip(start + 1);
    assert forall|j: int| 0 <= j < value.len() implies #[trigger] rest[j] != '"' by {
        assert(tag[start + (1 + j)] == quoted[1 + j]);
        assert(value.contains(value[j]));
    }
    assert(tag[start + (1 + value.len())] == quoted[1 + value.len() as int]);
    lemma_find_char(rest, seq![tag[start]], value.len() as int);
    assert(rest.take(value.len() as int) =~= value) by {
        assert forall|j: int| 0 <= j < value.len() implies rest[j] == value[j] by {
            assert(tag[start + (1 + j)] == quoted[1 + j]);
        }
    }
}

/// No place below `n` where `text` holds `c` and then `d`.
spec fn no_pair(text: Seq<char>, c: char, d: char, n: nat) -> bool
    decreases n,
{
    n == 0 || (!(text[n - 1] == c && text[n as int] == d) && no_pair(text, c, d, (n - 1) as nat))
}

/// Where no pair of characters like the first two of a pattern stands, the
/// pattern does not stand either.
proof fn lemma_no_pair(text: Seq<char>, pattern: Seq<char>, n: nat)
    requires
        pattern.len() >= 2,
        no_pair(text, pattern[0], pattern[1], n),
    ensures
        forall|j: int| 0 <= j < n ==> !occurs_at(text, pattern, j),
    decreases n,
{
    if n > 0 {
        lemma_no_pair(text, pattern, (n - 1) as nat);
        if text[n - 1] != pattern[0] {
            lemma_not_across(text, pattern, n - 1, 0);
        } else {
            lemma_not_across(text, pattern, n - 1, 1);
        }
    }
}

/// A fill without a double quote that stands for black or white makes the tag
/// of a black or white background.
pub proof fn black_or_white_fill_makes_a_background(fill: Seq<char>)
    requires
        !fill.contains('"'),
        black_or_white(lower(trim(fill))),
    ensures
        is_background(background_rect(fill)),
{
    reveal_strlit("=");
    reveal_strlit("x");
    reveal_strlit("y");
    reveal_strlit("width");
    reveal_strlit("height");
    reveal_strlit("fill");
    reveal_strlit("0");
    reveal_strlit("100%");
    reveal_strlit("\"/>");
    reveal_strlit("<rect x=\"0\" y=\"0\" width=\"100%\" height=\"100%\" fill=\"");
    let tag = background_rect(fill);
    assert(tag.subrange(6, 8) =~= "x"@ + "="@);
    assert(tag.subrange(8, 11) =~= seq!['"'] + "0"@ + seq!['"']);
    assert(no_pair(tag, 'x', '=', 6)) by {
        reveal_with_fuel(no_pair, 7);
    }
    lemma_no_pair(tag, "x"@ + "="@, 6);
    lemma_quoted_attr(tag, "x"@, 6, "0"@);
    assert(tag.subrange(12, 14) =~= "y"@ + "="@);
    assert(tag.subrange(14, 17) =~= seq!['"'] + "0"@ + seq!['"']);
    assert(no_pair(tag, 'y', '=', 12)) by {
        reveal_with_fuel(no_pair, 13);
    }
    lemma_no_pair(tag, "y"@ + "="@, 12);
    lemma_quoted_attr(tag, "y"@, 12, "0"@);
    assert(tag.subrange(18, 24) =~= "width"@ + "="@);
    assert(tag.subrange(24, 30) =~= seq!['"'] + "100%"@ + seq!['"']);
    assert(no_pair(tag, 'w', 'i', 18)) by {
        reveal_with_fuel(no_pair, 19);
    }
    lemma_no_pair(tag, "width"@ + "="@, 18);
    lemma_quoted_attr(tag, "width"@, 18, "100%"@);
    assert(tag.subrange(31, 38) =~= "height"@ + "="@);
    assert(tag.subrange(38, 44) =~= seq!['"'] + "100%"@ + seq!['"']);
    assert(no_pair(tag, 'h', 'e', 31)) by {
        reveal_with_fuel(no_pair, 32);
    }
    lemma_no_pair(tag, "height"@ + "="@, 31);
    lemma_quoted_attr(tag, "height"@, 31, "100%"@);
    assert(tag.subrange(45, 50) =~= "fill"@ + "="@);
    assert(tag.subrange(50, (52 + fill.len()) as int) =~= seq!['"'] + fill + seq!['"']);
    assert(no_pair(tag, 'f', 'i', 45)) by {
        reveal_with_fuel(no_pair, 46);
    }
    lemma_no_pair(tag, "fill"@ + "="@, 45);
    lemma_quoted_attr(tag, "fill"@, 45, fill);
    lemma_plain_value("0"@);
    lemma_plain_value("100%"@);
}

/// A character that is no part of a way to write black or white: one that ends
/// a value or a tag, or a capital.
spec fn is_foreign(c: char) -> bool {
    c == '"' || c == '>' || 'A' <= c <= 'Z'
}

/// No way to write black or white holds a foreign character.
proof fn lemma_plain_fill(fill: Seq<char>)
    requires
        black_or_white(fill),
    ensures
        forall|i: int| 0 <= i < trim(fill).len() ==> !is_foreign(#[trigger] trim(fill)[i]),
        forall|i: int| 0 <= i < fill.len() ==> fill[i] != '"' && #[trigger] fill[i] != '>',
{
    reveal_strlit("#fff");
    reveal_strlit("#ffffff");
    reveal_strlit("white");
    reveal_strlit("rgb(255,255,255)");
    reveal_strlit("rgba(255,255,255,1)");
    reveal_strlit("#000");
    reveal_strlit("#000000");
    reveal_strlit("black");
    reveal_strlit("rgb(0,0,0)");
    reveal_strlit("rgba(0,0,0,1)");
    let t = trim(fill);
    let f = without_spaces(t);
    assert forall|i: int| 0 <= i < f.len() implies !is_foreign(#[trigger] f[i]) by {}
    assert forall|i: int| 0 <= i < t.len() implies !is_foreign(#[trigger] t[i]) by {
        if t[i] != ' ' {
            t.lemma_filter_contains(|c: char| c != ' ', i);
            let k = choose|k: int| 0 <= k < f.len() && f[k] == t[i];
            assert(!is_foreign(f[k]));
        }
    }
    assert forall|i: int| 0 <= i < fill.len() implies fill[i] != '"' && #[trigger] fill[i] != '>' by {
        lemma_trim_keeps(fill, i);
        if !is_space(fill[i]) {
            let k = choose|k: int| 0 <= k < t.len() && t[k] == fill[i];
            assert(!is_foreign(t[k]));
        }
    }
}

/// A black or white background that is put in is taken out again by stripping:
/// what is left is the stripped document.
pub proof fn black_or_white_background_is_stripped(svg: Seq<char>, fill: Seq<char>)
    requires
        black_or_white(fill),
    ensures
        stripped(with_background(svg, fill)) == stripped(svg),
{
    let t = trim(fill);
    lemma_plain_fill(fill);
    assert(lower(t) =~= t) by {
        assert forall|i: int| 0 <= i < t.len() implies lower_char(#[trigger] t[i]) == t[i] by {
            assert(!is_foreign(t[i]));
        }
    }
    lemma_trim_twice(fill);
    black_or_white_fill_makes_a_background(fill);
    added_background_is_stripped(svg, fill);
}

/// What is found first in a text, and whole in its front, is found first there
/// too in that front.
proof fn lemma_find_in_shorter(a: Seq<char>, b: Seq<char>, pattern: Seq<char>)
    requires
        find(a + b, pattern) matches Some(at) && at + pattern.len() <= a.len(),
    ensures
        find(a, pattern) == find(a + b, pattern),
{
    lemma_find(a + b, pattern);
    let at = find(a + b, pattern)->0;
    assert forall|j: int| 0 <= j <= at implies #[trigger] occurs_at(a, pattern, j) == occurs_at(
        a + b,
        pattern,
        j,
    ) by {
        lemma_occurs_in_front(a, b, pattern, j);
    }
    assert(is_first(a, pattern, at));
    lemma_find(a, pattern);
}

/// Where the content starts is decided by the text in front of it alone.
proof fn lemma_content_start_by_front(svg: Seq<char>, start: int, other: Seq<char>)
    requires
        content_start(svg) == Some(start),
    ensures
        0 < start <= svg.len(),
        content_start(svg.take(start) + other) == Some(start),
{
    reveal_strlit(">");
    reveal_strlit("<svg");
    let front = svg.take(start);
    let behind = svg.skip(start);
    let open = "<svg"@;
    let close = ">"@;
    lemma_content_start(svg);
    assert(svg =~= front + behind);
    lemma_find(svg, open);
    let at = find(svg, open)->0;
    lemma_find(svg.skip(at), close);
    let len = find(svg.skip(at), close)->0;
    // The tag is complete in front: its name does not reach past its end.
    assert(at + 4 <= start) by {
        assert(svg.subrange(at, at + 4)[1] == svg[at + 1]);
        assert(svg.subrange(at, at + 4)[0] == svg[at]);
        assert(svg.subrange(at, at + 4)[2] == svg[at + 2]);
        assert(svg.subrange(at, at + 4)[3] == svg[at + 3]);
        assert(svg[start - 1] == '>');
    }
    lemma_find_in_shorter(front, behind, open);
    lemma_find_in_front(front, other, open);
    let tail = front.skip(at);
    assert((front + other).skip(at) =~= tail + other);
    assert(svg.skip(at) =~= tail + behind);
    lemma_find_in_shorter(tail, behind, close);
    lemma_find_in_front(tail, other, close);
}

/// An added background is the first thing in the drawing: the opening tag
/// stays as it is, and directly behind it stands the rectangle, then what
/// stood there before.
pub proof fn background_comes_first(svg: Seq<char>, fill: Seq<char>, start: int)
    requires
        content_start(svg) == Some(start),
    ensures
        content_start(with_background(svg, fill)) == Some(start),
        with_background(svg, fill).take(start) == svg.take(start),
        with_background(svg, fill).skip(start) == background_rect(fill) + svg.skip(start),
{
    let other = background_rect(fill) + svg.skip(start);
    lemma_content_start_by_front(svg, start, other);
    assert(with_background(svg, fill) =~= svg.take(start) + other);
    assert(with_background(svg, fill).take(start) =~= svg.take(start));
    assert(with_background(svg, fill).skip(start) =~= other);
}

/// Inverting the colours keeps the frame of the document: the opening tag and
/// everything from the last closing tag on stay as they are, and between them
/// stands the group with the content of before.
pub proof fn inverting_keeps_the_frame(svg: Seq<char>, start: int, len: int)
    requires
        content_start(svg) == Some(start),
        rfind(svg.skip(start), "</svg>"@) == Some(len),
    ensures
        ({
            let inv = inverted(svg);
            let group = INVERT_GROUP_START@ + svg.subrange(start, start + len) + "</g>"@;
            &&& content_start(inv) == Some(start)
            &&& inv.take(start) == svg.take(start)
            &&& rfind(inv.skip(start), "</svg>"@) == Some(group.len() as int)
            &&& inv.skip(start).take(group.len() as int) == group
            &&& inv.skip(start).skip(group.len() as int) == svg.skip(start + len)
        }),
{
    let close = "</svg>"@;
    let after = svg.skip(start);
    let content = svg.subrange(start, start + len);
    let group = INVERT_GROUP_START@ + content + "</g>"@;
    let tail = svg.skip(start + len);
    let inv = inverted(svg);
    lemma_rfind(after, close);
    assert(inv =~= svg.take(start) + (group + tail));
    lemma_content_start_by_front(svg, start, group + tail);
    assert(inv.take(start) =~= svg.take(start));
    assert(inv.skip(start) =~= group + tail);
    assert(after =~= content + tail);
    assert forall|j: int| group.len() <= j implies #[trigger] occurs_at(group + tail, close, j)
        == occurs_at(after, close, len + (j - group.len())) by {
        lemma_occurs_behind(group, tail, close, j - group.len());
        lemma_occurs_behind(content, tail, close, j - group.len());
    }
    assert(is_last(group + tail, close, group.len() as int));
    lemma_rfind(group + tail, close);
    assert((group + tail).take(group.len() as int) =~= group);
    assert((group + tail).skip(group.len() as int) =~= tail);
}

/// The first `name=` of the tag stands at index `at`, a quote stands directly
/// behind it, and the next quote of the same sort stands at index `end`.
pub open spec fn quoted_at(tag: Seq<char>, name: Seq<char>, at: int, end: int) -> bool {
    let n = name.len() + 1;
    &&& 0 <= at
    &&& at + n < end < tag.len()
    &&& tag.subrange(at, at + n) == name.push('=')
    &&& forall|j: int| 0 <= j < at ==> #[trigger] tag.subrange(j, j + n) != name.push('=')
    &&& tag[at + n] == '"' || tag[at + n] == '\''
    &&& tag[end] == tag[at + n]
    &&& forall|k: int| at + n < k < end ==> #[trigger] tag[k] != tag[at + n]
}

/// `text` is what stands in quotes behind the first `name=` of the tag.
pub open spec fn quoted(tag: Seq<char>, name: Seq<char>, text: Seq<char>) -> bool {
    exists|at: int, end: int|
        #[trigger] quoted_at(tag, name, at, end) && text == tag.subrange(at + name.len() + 2, end)
}

/// What stands in quotes decides the value of an attribute.
proof fn lemma_quoted_value(tag: Seq<char>, name: Seq<char>, at: int, end: int)
    requires
        quoted_at(tag, name, at, end),
    ensures
        attr_value(tag, name) == Some(lower(trim(tag.subrange(at + name.len() + 2, end)))),
{
    reveal_strlit("=");
    let needle = name + "="@;
    assert(needle =~= name.push('='));
    let start = at + needle.len();
    assert(is_first(tag, needle, at)) by {
        assert forall|j: int| 0 <= j < at implies !occurs_at(tag, needle, j) by {
            assert(tag.subrange(j, j + (name.len() + 1)) != name.push('='));
        }
    }
    lemma_find(tag, needle);
    let rest = tag.skip(start + 1);
    assert forall|j: int| 0 <= j < end - start - 1 implies #[trigger] rest[j] != tag[start] by {
        assert(tag[start + 1 + j] != tag[at + (name.len() + 1)]);
    }
    lemma_find_char(rest, seq![tag[start]], end - start - 1);
    assert(rest.take(end - start - 1) =~= tag.subrange(start + 1, end));
}

/// Every value of an attribute comes from what stands in quotes.
proof fn lemma_value_is_quoted(tag: Seq<char>, name: Seq<char>)
    ensures
        attr_value(tag, name) is Some ==> exists|text: Seq<char>| #[trigger]
            quoted(tag, name, text) && attr_value(tag, name) == Some(lower(trim(text))),
        forall|text: Seq<char>| #[trigger]
            quoted(tag, name, text) ==> attr_value(tag, name) == Some(lower(trim(text))),
{
    assert forall|text: Seq<char>| #[trigger] quoted(tag, name, text) implies attr_value(tag, name)
        == Some(lower(trim(text))) by {
        let (at, end) = choose|at: int, end: int|
            #[trigger] quoted_at(tag, name, at, end) && text == tag.subrange(
                at + name.len() + 2,
                end,
            );
        lemma_quoted_value(tag, name, at, end);
    }
    if attr_value(tag, name) is Some {
        reveal_strlit("=");
        let needle = name + "="@;
        assert(needle =~= name.push('='));
        lemma_find(tag, needle);
        let at = find(tag, needle)->0;
        let start = at + needle.len();
        let rest = tag.skip(start + 1);
        let quote = seq![tag[start]];
        lemma_find(rest, quote);
        let len = find(rest, quote)->0;
        let end = start + 1 + len;
        assert(rest.subrange(len, len + 1)[0] == rest[len]);
        assert forall|k: int| start < k < end implies #[trigger] tag[k] != tag[start] by {
            if tag[k] == tag[start] {
                assert(rest.subrange(k - start - 1, k - start) =~= quote);
                assert(occurs_at(rest, quote, k - start - 1));
            }
        }
        assert forall|j: int| 0 <= j < at implies #[trigger] tag.subrange(
            j,
            j + (name.len() + 1),
        ) != name.push('=') by {
            assert(!occurs_at(tag, needle, j));
        }
        assert(quoted_at(tag, name, at, end));
        assert(quoted(tag, name, tag.subrange(at + name.len() + 2, end)));
    }
}

/// The value of an attribute is what stands in quotes behind its name, trimmed
/// and made small, and there is none exactly where nothing stands there.
pub proof fn attribute_value_is_its_quoted_text(tag: &str, attr: &str, r: Option<String>)
    requires
        call_ensures(extract_attr_value, (tag, attr), r),
    ensures
        match r {
            Some(value) => exists|text: Seq<char>| #[trigger]
                quoted(tag@, attr@, text) && value@ == lower(trim(text)),
            None => forall|text: Seq<char>| !#[trigger] quoted(tag@, attr@, text),
        },
{
    lemma_value_is_quoted(tag@, attr@);
}

/// From index `a` up to index `b` of a style stands one declaration, between
/// semicolons or the ends, and it gives `fill` the value `value`.
pub open spec fn declares_fill(style: Seq<char>, a: int, b: int, value: Seq<char>) -> bool {
    &&& 0 <= a <= b <= style.len()
    &&& a > 0 ==> style[a - 1] == ';'
    &&& b < style.len() ==> style[b] == ';'
    &&& forall|k: int| a <= k < b ==> #[trigger] style[k] != ';'
    &&& exists|c: int|
        {
            &&& a <= c < b
            &&& #[trigger] style[c] == ':'
            &&& forall|k: int| a <= k < c ==> #[trigger] style[k] != ':'
            &&& lower(trim(style.subrange(a, c))) == "fill"@
            &&& value == lower(trim(style.subrange(c + 1, b)))
        }
}

/// The first declaration of `fill` in a style gives it the value `value`.
pub open spec fn first_fill(style: Seq<char>, value: Seq<char>) -> bool {
    exists|a: int, b: int|
        {
            &&& #[trigger] declares_fill(style, a, b, value)
            &&& forall|a2: int, b2: int, v2: Seq<char>|
                a2 < a ==> !#[trigger] declares_fill(style, a2, b2, v2)
        }
}

/// A one-character pattern is found at the first place of the character.
proof fn lemma_char_found(text: Seq<char>, pattern: Seq<char>)
    requires
        pattern.len() == 1,
    ensures
        match find(text, pattern) {
            Some(at) => {
                &&& 0 <= at < text.len()
                &&& text[at] == pattern[0]
                &&& forall|j: int| 0 <= j < at ==> #[trigger] text[j] != pattern[0]
            },
            None => forall|j: int| 0 <= j < text.len() ==> #[trigger] text[j] != pattern[0],
        },
{
    lemma_find(text, pattern);
    assert forall|j: int| 0 <= j < text.len() && #[trigger] text[j] == pattern[0] implies occurs_at(
        text,
        pattern,
        j,
    ) by {
        assert(text.subrange(j, j + 1) =~= pattern);
    }
    if let Some(at) = find(text, pattern) {
        assert(text.subrange(at, at + 1)[0] == text[at]);
    }
}

/// The colon of the declaration from index `a` up to index `b` of a style stands
/// at index `c`, and the declaration gives `fill` the value `value`.
spec fn fill_colon(style: Seq<char>, a: int, b: int, value: Seq<char>, c: int) -> bool {
    &&& a <= c < b
    &&& style[c] == ':'
    &&& forall|k: int| a <= k < c ==> #[trigger] style[k] != ':'
    &&& lower(trim(style.subrange(a, c))) == "fill"@
    &&& value == lower(trim(style.subrange(c + 1, b)))
}

/// A declaration with a colon gives the fill that its text gives.
proof fn lemma_colon_declares(style: Seq<char>, a: int, b: int, value: Seq<char>, c: int)
    requires
        0 <= a <= b <= style.len(),
        fill_colon(style, a, b, value, c),
    ensures
        declared_fill(style.subrange(a, b)) == Some(value),
{
    reveal_strlit(":");
    let d = style.subrange(a, b);
    assert forall|j: int| 0 <= j < c - a implies #[trigger] d[j] != ':' by {
        assert(style[a + j] != ':');
    }
    lemma_find_char(d, ":"@, c - a);
    assert(d.take(c - a) =~= style.subrange(a, c));
    assert(d.skip(c - a + 1) =~= style.subrange(c + 1, b));
}

/// A declaration that gives a fill has a colon.
proof fn lemma_declares_colon(style: Seq<char>, a: int, b: int, value: Seq<char>) -> (c: int)
    requires
        0 <= a <= b <= style.len(),
        declared_fill(style.subrange(a, b)) == Some(value),
    ensures
        fill_colon(style, a, b, value, c),
{
    reveal_strlit(":");
    let d = style.subrange(a, b);
    lemma_char_found(d, ":"@);
    let colon = find(d, ":"@)->0;
    let c = a + colon;
    assert forall|k: int| a <= k < c implies #[trigger] style[k] != ':' by {
        assert(d[k - a] != ':');
    }
    assert(d.take(colon) =~= style.subrange(a, c));
    assert(d.skip(colon + 1) =~= style.subrange(c + 1, b));
    c
}

/// A declaration gives the fill that the text of it gives.
proof fn lemma_declaration(style: Seq<char>, a: int, b: int, value: Seq<char>)
    requires
        0 <= a <= b <= style.len(),
        a > 0 ==> style[a - 1] == ';',
        b < style.len() ==> style[b] == ';',
        forall|k: int| a <= k < b ==> #[trigger] style[k] != ';',
    ensures
        declares_fill(style, a, b, value) <==> declared_fill(style.subrange(a, b)) == Some(value),
{
    if declares_fill(style, a, b, value) {
        let c = choose|c: int|
            {
                &&& a <= c < b
                &&& #[trigger] style[c] == ':'
                &&& forall|k: int| a <= k < c ==> #[trigger] style[k] != ':'
                &&& lower(trim(style.subrange(a, c))) == "fill"@
                &&& value == lower(trim(style.subrange(c + 1, b)))
            };
        lemma_colon_declares(style, a, b, value, c);
    }
    if declared_fill(style.subrange(a, b)) == Some(value) {
        let c = lemma_declares_colon(style, a, b, value);
        assert(style[c] == ':');
    }
}

/// A declaration stands in what follows a semicolon as it stands in the whole.
proof fn lemma_declaration_behind(
    style: Seq<char>,
    from: int,
    a: int,
    b: int,
    value: Seq<char>,
)
    requires
        0 < from <= style.len(),
        style[from - 1] == ';',
        0 <= a,
    ensures
        declares_fill(style.skip(from), a, b, value) <==> declares_fill(
            style,
            a + from,
            b + from,
            value,
        ),
{
    let t = style.skip(from);
    if a <= b && b + from <= style.len() {
        assert(t.subrange(a, b) =~= style.subrange(a + from, b + from));
        if declares_fill(t, a, b, value) {
            lemma_declaration(t, a, b, value);
            assert forall|k: int| a + from <= k < b + from implies #[trigger] style[k] != ';' by {
                assert(t[k - from] != ';');
            }
            lemma_declaration(style, a + from, b + from, value);
        }
        if declares_fill(style, a + from, b + from, value) {
            lemma_declaration(style, a + from, b + from, value);
            assert forall|k: int| a <= k < b implies #[trigger] t[k] != ';' by {
                assert(style[k + from] != ';');
            }
            lemma_declaration(t, a, b, value);
        }
    }
}

/// No declaration stands in front of the first semicolon but the one that ends
/// there.
proof fn lemma_first_declaration(
    style: Seq<char>,
    end: int,
    a: int,
    b: int,
    value: Seq<char>,
)
    requires
        0 <= end <= style.len(),
        end < style.len() ==> style[end] == ';',
        forall|k: int| 0 <= k < end ==> #[trigger] style[k] != ';',
        declares_fill(style, a, b, value),
        a <= end,
    ensures
        a == 0,
        b == end,
        declared_fill(style.take(end)) == Some(value),
{
    if a > 0 {
        assert(style[a - 1] == ';');
    }
    if b < end {
        assert(style[b] == ';');
    }
    if b > end {
        assert(style[end] != ';');
    }
    lemma_declaration(style, 0, end, value);
    assert(style.subrange(0, end) =~= style.take(end));
}

/// The fill that the text in front of the first semicolon gives is the first.
proof fn lemma_front_fill(style: Seq<char>, end: int, value: Seq<char>)
    requires
        0 <= end <= style.len(),
        end < style.len() ==> style[end] == ';',
        forall|k: int| 0 <= k < end ==> #[trigger] style[k] != ';',
        declared_fill(style.take(end)) == Some(value),
    ensures
        first_fill(style, value),
{
    assert(style.subrange(0, end) =~= style.take(end));
    lemma_declaration(style, 0, end, value);
    assert(declares_fill(style, 0, end, value));
}

/// Where the text in front of the first semicolon gives no fill, the first fill
/// is that of the text behind it.
proof fn lemma_behind_fill(style: Seq<char>, end: int, value: Seq<char>)
    requires
        0 <= end < style.len(),
        style[end] == ';',
        forall|k: int| 0 <= k < end ==> #[trigger] style[k] != ';',
        declared_fill(style.take(end)) is None,
        first_fill(style.skip(end + 1), value),
    ensures
        first_fill(style, value),
{
    let t = style.skip(end + 1);
    let (a, b) = choose|a: int, b: int|
        {
            &&& #[trigger] declares_fill(t, a, b, value)
            &&& forall|a2: int, b2: int, v2: Seq<char>|
                a2 < a ==> !#[trigger] declares_fill(t, a2, b2, v2)
        };
    assert(declares_fill(t, a, b, value));
    lemma_declaration_behind(style, end + 1, a, b, value);
    assert(declares_fill(style, a + (end + 1), b + (end + 1), value));
    assert forall|a2: int, b2: int, v2: Seq<char>|
        a2 < a + (end + 1) implies !#[trigger] declares_fill(style, a2, b2, v2) by {
        if declares_fill(style, a2, b2, v2) {
            if a2 <= end {
                lemma_first_declaration(style, end, a2, b2, v2);
            }
            lemma_declaration_behind(style, end + 1, a2 - (end + 1), b2 - (end + 1), v2);
            assert(declares_fill(t, a2 - (end + 1), b2 - (end + 1), v2));
        }
    }
}

/// The fill of a style is that of its first declaration of one.
proof fn lemma_style_fill(style: Seq<char>)
    ensures
        match style_fill(style) {
            Some(value) => first_fill(style, value),
            None => forall|a: int, b: int, value: Seq<char>|
                !#[trigger] declares_fill(style, a, b, value),
        },
    decreases style.len(),
{
    reveal_strlit(";");
    lemma_char_found(style, ";"@);
    match find(style, ";"@) {
        None => {
            let n = style.len() as int;
            assert(style.take(n) =~= style);
            match declared_fill(style) {
                Some(value) => {
                    lemma_front_fill(style, n, value);
                },
                None => {
                    assert forall|a: int, b: int, value: Seq<char>| !#[trigger]
                        declares_fill(style, a, b, value) by {
                        if declares_fill(style, a, b, value) {
                            lemma_first_declaration(style, n, a, b, value);
                        }
                    }
                },
            }
        },
        Some(end) => {
            let t = style.skip(end + 1);
            match declared_fill(style.take(end)) {
                Some(value) => {
                    lemma_front_fill(style, end, value);
                },
                None => {
                    lemma_style_fill(t);
                    match style_fill(t) {
                        Some(value) => {
                            lemma_behind_fill(style, end, value);
                        },
                        None => {
                            assert forall|a: int, b: int, value: Seq<char>| !#[trigger]
                                declares_fill(style, a, b, value) by {
                                if declares_fill(style, a, b, value) {
                                    if a <= end {
                                        lemma_first_declaration(style, end, a, b, value);
                                    }
                                    lemma_declaration_behind(
                                        style,
                                        end + 1,
                                        a - (end + 1),
                                        b - (end + 1),
                                        value,
                                    );
                                    assert(declares_fill(t, a - (end + 1), b - (end + 1), value));
                                }
                            }
                        },
                    }
                },
            }
        },
    }
}

/// A style has at most one first fill.
proof fn lemma_first_fill_is_one(style: Seq<char>, v: Seq<char>, w: Seq<char>)
    requires
        first_fill(style, v),
        first_fill(style, w),
    ensures
        v == w,
{
    let (a, b) = choose|a: int, b: int|
        {
            &&& #[trigger] declares_fill(style, a, b, v)
            &&& forall|a2: int, b2: int, v2: Seq<char>|
                a2 < a ==> !#[trigger] declares_fill(style, a2, b2, v2)
        };
    let (c, d) = choose|a: int, b: int|
        {
            &&& #[trigger] declares_fill(style, a, b, w)
            &&& forall|a2: int, b2: int, v2: Seq<char>|
                a2 < a ==> !#[trigger] declares_fill(style, a2, b2, v2)
        };
    assert(declares_fill(style, a, b, v) && declares_fill(style, c, d, w));
    assert(a == c);
    if b < d {
        assert(style[b] != ';');
    }
    if d < b {
        assert(style[d] != ';');
    }
    lemma_declaration(style, a, b, v);
    lemma_declaration(style, a, b, w);
}

/// The tag is painted in `value`: that is its `fill` attribute, or where it has
/// none the first fill of its `style`.
pub open spec fn painted(tag: Seq<char>, value: Seq<char>) -> bool {
    ||| exists|text: Seq<char>| #[trigger]
        quoted(tag, "fill"@, text) && value == lower(trim(text))
    ||| {
        &&& forall|text: Seq<char>| !#[trigger] quoted(tag, "fill"@, text)
        &&& exists|text: Seq<char>| #[trigger]
            quoted(tag, "style"@, text) && first_fill(lower(trim(text)), value)
    }
}

/// A tag has the fill that it is painted in, and no other.
proof fn lemma_painted(tag: Seq<char>)
    ensures
        forall|value: Seq<char>| #[trigger]
            painted(tag, value) <==> tag_fill(tag) == Some(value),
{
    lemma_value_is_quoted(tag, "fill"@);
    lemma_value_is_quoted(tag, "style"@);
    if attr_value(tag, "style"@) is Some {
        lemma_style_fill(attr_value(tag, "style"@)->0);
    }
    assert forall|value: Seq<char>| #[trigger] painted(tag, value) implies tag_fill(tag) == Some(
        value,
    ) by {
        if attr_value(tag, "fill"@) is None {
            let style = attr_value(tag, "style"@)->0;
            assert(first_fill(style, value));
            match style_fill(style) {
                Some(other) => {
                    lemma_first_fill_is_one(style, value, other);
                },
                None => {
                    let (a, b) = choose|a: int, b: int|
                        {
                            &&& #[trigger] declares_fill(style, a, b, value)
                            &&& forall|a2: int, b2: int, v2: Seq<char>|
                                a2 < a ==> !#[trigger] declares_fill(style, a2, b2, v2)
                        };
                    assert(!declares_fill(style, a, b, value));
                },
            }
        }
    }
}

/// The fill of a tag is that of its `fill` attribute, or where it has none the
/// first one that its `style` declares.
pub proof fn fill_is_what_the_tag_is_painted_in(tag: &str, r: Option<String>)
    requires
        call_ensures(normalize_fill, (tag,), r),
    ensures
        match r {
            Some(value) => painted(tag@, value@),
            None => forall|value: Seq<char>| !#[trigger] painted(tag@, value),
        },
{
    lemma_painted(tag@);
}

/// `text` is written as zero, whitespace aside.
pub open spec fn written_zero(text: Seq<char>) -> bool {
    trim(text) == seq!['0'] || trim(text) == seq!['0', '.', '0'] || trim(text) == seq!['0', '%']
}

/// `text` is written as the whole, whitespace aside.
pub open spec fn written_whole(text: Seq<char>) -> bool {
    trim(text) == seq!['1', '0', '0', '%']
}

/// `text` is one of the ways to write opaque black or opaque white, whitespace
/// on either side and spaces aside.
pub open spec fn written_black_or_white(text: Seq<char>) -> bool {
    let t = trim(text).filter(|c: char| c != ' ');
    ||| t == "#000"@ || t == "#fff"@
    ||| t == "#000000"@ || t == "#ffffff"@
    ||| t == "black"@ || t == "white"@
    ||| t == "rgb(0,0,0)"@ || t == "rgb(255,255,255)"@
    ||| t == "rgba(0,0,0,1)"@ || t == "rgba(255,255,255,1)"@
}

/// A coordinate counts as zero exactly where it is left out or written as zero.
pub proof fn zero_is_left_out_or_written(v: Option<String>, r: bool)
    requires
        call_ensures(is_zero_or_default, (v,), r),
    ensures
        r <==> (v matches Some(text) ==> written_zero(text@)),
{
    lemma_written();
}

/// The literals of coordinates and lengths.
proof fn lemma_written()
    ensures
        "0"@ == seq!['0'],
        "0.0"@ == seq!['0', '.', '0'],
        "0%"@ == seq!['0', '%'],
        "100%"@ == seq!['1', '0', '0', '%'],
{
    reveal_strlit("0");
    reveal_strlit("0.0");
    reveal_strlit("0%");
    reveal_strlit("100%");
    assert("0"@ =~= seq!['0']);
    assert("0.0"@ =~= seq!['0', '.', '0']);
    assert("0%"@ =~= seq!['0', '%']);
    assert("100%"@ =~= seq!['1', '0', '0', '%']);
}

/// A length counts as the whole exactly where it is given and written so.
pub proof fn the_whole_is_written(v: Option<String>, r: bool)
    requires
        call_ensures(is_full_100, (v,), r),
    ensures
        r <==> (v matches Some(text) && written_whole(text@)),
{
    lemma_written();
}

/// A fill counts as black or white exactly where it is written so.
pub proof fn black_and_white_are_written(fill: &str, r: bool)
    requires
        call_ensures(is_bw_fill, (fill,), r),
    ensures
        r <==> written_black_or_white(fill@),
{
}

/// What is trimmed and made small stays as it is when it is trimmed again.
proof fn lemma_trim_lower(text: Seq<char>)
    ensures
        trim(lower(trim(text))) == lower(trim(text)),
{
    let t = trim(text);
    let l = lower(t);
    trim_is_trimmed(text);
    assert forall|c: char| is_space(#[trigger] lower_char(c)) == is_space(c) by {}
    let (a, b) = choose|a: int, b: int|
        {
            &&& 0 <= a <= b <= text.len()
            &&& t == #[trigger] text.subrange(a, b)
            &&& forall|i: int| 0 <= i < a ==> is_space(#[trigger] text[i])
            &&& forall|i: int| b <= i < text.len() ==> is_space(#[trigger] text[i])
            &&& a < b ==> !is_space(text[a]) && !is_space(text[b - 1])
        };
    if l.len() > 0 {
        assert(l[0] == lower_char(text[a]));
        assert(l.last() == lower_char(text[b - 1]));
        assert(trim_start(l) == l);
        assert(trim_end(l) == l);
    }
}

/// A text without letters is what is made small to it.
proof fn lemma_lower_without_letters(t: Seq<char>, plain: Seq<char>)
    requires
        forall|i: int| 0 <= i < plain.len() ==> !('a' <= #[trigger] plain[i] <= 'z') && !('A'
            <= plain[i] <= 'Z'),
    ensures
        lower(t) == plain <==> t == plain,
{
    if lower(t) == plain {
        assert forall|i: int| 0 <= i < t.len() implies t[i] == plain[i] by {
            assert(lower(t)[i] == lower_char(t[i]));
        }
        assert(t =~= plain);
    }
    if t == plain {
        assert(lower(t) =~= plain);
    }
}

/// Making a value small does not decide how a coordinate or a length is written.
proof fn lemma_written_values(text: Seq<char>)
    ensures
        zero_or_default(Some(lower(trim(text)))) <==> written_zero(text),
        full_100(Some(lower(trim(text)))) <==> written_whole(text),
{
    let t = trim(text);
    lemma_written();
    lemma_trim_lower(text);
    lemma_lower_without_letters(t, seq!['0']);
    lemma_lower_without_letters(t, seq!['0', '.', '0']);
    lemma_lower_without_letters(t, seq!['0', '%']);
    lemma_lower_without_letters(t, seq!['1', '0', '0', '%']);
}

/// The text of a tag gives a rectangle over the whole canvas in black or white:
/// its width and its height are the whole, its `x` and its `y` are zero where
/// they are given, and it is painted in black or white.
pub open spec fn covers_canvas(tag: Seq<char>) -> bool {
    &&& exists|text: Seq<char>| #[trigger] quoted(tag, "width"@, text) && written_whole(text)
    &&& exists|text: Seq<char>| #[trigger] quoted(tag, "height"@, text) && written_whole(text)
    &&& forall|text: Seq<char>| #[trigger] quoted(tag, "x"@, text) ==> written_zero(text)
    &&& forall|text: Seq<char>| #[trigger] quoted(tag, "y"@, text) ==> written_zero(text)
    &&& exists|value: Seq<char>| #[trigger] painted(tag, value) && written_black_or_white(value)
}

/// A background is a rectangle over the whole canvas in black or white.
proof fn lemma_covers_canvas(tag: Seq<char>)
    ensures
        is_background(tag) <==> covers_canvas(tag),
{
    lemma_painted(tag);
    lemma_value_is_quoted(tag, "width"@);
    lemma_value_is_quoted(tag, "height"@);
    lemma_value_is_quoted(tag, "x"@);
    lemma_value_is_quoted(tag, "y"@);
    assert forall|text: Seq<char>| #![trigger lower(trim(text))] {
        &&& zero_or_default(Some(lower(trim(text)))) <==> written_zero(text)
        &&& full_100(Some(lower(trim(text)))) <==> written_whole(text)
    } by {
        lemma_written_values(text);
    }
    if is_background(tag) {
        assert(painted(tag, tag_fill(tag)->0));
    }
}

/// `tag` is the first complete `<rect` tag behind `front`: it starts with
/// `<rect`, ends in its only `>`, and no `<rect` starts in front of it.
pub open spec fn first_rect_tag(front: Seq<char>, tag: Seq<char>) -> bool {
    &&& tag.len() >= 5
    &&& tag.take(5) == seq!['<', 'r', 'e', 'c', 't']
    &&& forall|i: int| 0 <= i < tag.len() ==> (#[trigger] tag[i] == '>' <==> i == tag.len() - 1)
    &&& forall|j: int|
        0 <= j < front.len() ==> #[trigger] (front + tag).subrange(j, j + 5) != seq![
            '<',
            'r',
            'e',
            'c',
            't',
        ]
}

/// In front of the first `<rect` tag stands no `<rect`.
proof fn lemma_no_rect_in_front(front: Seq<char>, tag: Seq<char>)
    requires
        first_rect_tag(front, tag),
    ensures
        no_rect_before_end(front),
        occurs_at(tag, "<rect"@, 0),
{
    reveal_strlit("<rect");
    let rect = "<rect"@;
    assert(rect =~= seq!['<', 'r', 'e', 'c', 't']);
    assert(tag.subrange(0, 5) =~= tag.take(5));
    assert((front + rect).subrange(front.len() as int, (front.len() + 5) as int) =~= rect);
    assert((front + tag).take((front.len() + 5) as int) =~= front + rect) by {
        assert((front + tag).take((front.len() + 5) as int) =~= front + tag.take(5));
    }
    assert forall|j: int| 0 <= j < front.len() implies !occurs_at(front + rect, rect, j) by {
        if occurs_at(front + rect, rect, j) {
            assert((front + rect).subrange(j, j + 5) =~= (front + tag).take(
                (front.len() + 5) as int,
            ).subrange(j, j + 5));
            assert((front + tag).subrange(j, j + 5) =~= (front + rect).subrange(j, j + 5));
        }
    }
    assert(is_first(front + rect, rect, front.len() as int));
    lemma_find(front + rect, rect);
}

/// A tag is self-closing where a slash stands in front of its end.
proof fn lemma_self_closing(tag: Seq<char>)
    requires
        tag.len() >= 2,
        is_one_tag(tag),
    ensures
        is_self_closing(tag) <==> tag[tag.len() - 2] == '/',
{
    reveal_strlit("/>");
    let n = tag.len() as int;
    assert(tag[n - 1] == '>');
    assert(trim_end(tag) == tag);
    let end = tag.skip(n - 2);
    assert(end.len() == 2 && end[0] == tag[n - 2] && end[1] == '>');
    if tag[n - 2] == '/' {
        assert(end =~= "/>"@);
    } else {
        assert(end[0] != "/>"@[0]);
    }
}

/// What stripping does at the first complete `<rect` tag.
proof fn lemma_strip_at_tag(front: Seq<char>, tag: Seq<char>, rest: Seq<char>)
    requires
        first_rect_tag(front, tag),
    ensures
        stripped(front + tag + rest) == if covers_canvas(tag) && after_element(tag, rest) is Some {
            front + stripped(after_element(tag, rest)->0)
        } else {
            front + tag + stripped(rest)
        },
        is_self_closing(tag) <==> tag[tag.len() - 2] == '/',
{
    lemma_no_rect_in_front(front, tag);
    assert(is_one_tag(tag));
    lemma_strip_step(front, tag, rest);
    lemma_covers_canvas(tag);
    lemma_self_closing(tag);
}

/// A rectangle that does not cover the canvas in black or white is kept, and
/// stripping goes on behind its tag.
pub proof fn stripping_keeps_other_rectangles(
    svg: &str,
    rest: &str,
    out: String,
    out_of_rest: String,
    front: Seq<char>,
    tag: Seq<char>,
)
    requires
        call_ensures(strip_bw_background_rect, (svg,), out),
        call_ensures(strip_bw_background_rect, (rest,), out_of_rest),
        svg@ == front + tag + rest@,
        first_rect_tag(front, tag),
        !covers_canvas(tag),
    ensures
        out@ == front + tag + out_of_rest@,
{
    lemma_strip_at_tag(front, tag, rest@);
}

/// A rectangle whose height or width is left out or not the whole, whose `x` or
/// `y` is given and not zero, or whose fill is left out or neither black nor
/// white is a part of the drawing: stripping keeps it.
pub proof fn stripping_keeps_parts_of_the_drawing(
    svg: &str,
    rest: &str,
    out: String,
    out_of_rest: String,
    front: Seq<char>,
    tag: Seq<char>,
)
    requires
        call_ensures(strip_bw_background_rect, (svg,), out),
        call_ensures(strip_bw_background_rect, (rest,), out_of_rest),
        svg@ == front + tag + rest@,
        first_rect_tag(front, tag),
        ({
            ||| forall|text: Seq<char>| #[trigger] quoted(tag, "height"@, text) ==> !written_whole(text)
            ||| forall|text: Seq<char>| #[trigger] quoted(tag, "width"@, text) ==> !written_whole(text)
            ||| exists|text: Seq<char>| #[trigger] quoted(tag, "x"@, text) && !written_zero(text)
            ||| exists|text: Seq<char>| #[trigger] quoted(tag, "y"@, text) && !written_zero(text)
            ||| forall|value: Seq<char>| #[trigger]
                painted(tag, value) ==> !written_black_or_white(value)
        }),
    ensures
        out@ == front + tag + out_of_rest@,
{
    lemma_strip_at_tag(front, tag, rest@);
}

/// A self-closing rectangle that covers the canvas in black or white is taken
/// out, and stripping goes on behind it.
pub proof fn stripping_takes_out_backgrounds(
    svg: &str,
    rest: &str,
    out: String,
    out_of_rest: String,
    front: Seq<char>,
    tag: Seq<char>,
)
    requires
        call_ensures(strip_bw_background_rect, (svg,), out),
        call_ensures(strip_bw_background_rect, (rest,), out_of_rest),
        svg@ == front + tag + rest@,
        first_rect_tag(front, tag),
        covers_canvas(tag),
        tag[tag.len() - 2] == '/',
    ensures
        out@ == front + out_of_rest@,
{
    lemma_strip_at_tag(front, tag, rest@);
}

/// A rectangle that covers the canvas in black or white and is not self-closing
/// is taken out with everything up to the next `</rect>`, and stripping goes on
/// behind that.
pub proof fn stripping_takes_out_whole_elements(
    svg: &str,
    rest: &str,
    out: String,
    out_of_rest: String,
    front: Seq<char>,
    tag: Seq<char>,
    inside: Seq<char>,
)
    requires
        call_ensures(strip_bw_background_rect, (svg,), out),
        call_ensures(strip_bw_background_rect, (rest,), out_of_rest),
        svg@ == front + tag + (inside + "</rect>"@ + rest@),
        first_rect_tag(front, tag),
        covers_canvas(tag),
        tag[tag.len() - 2] != '/',
        forall|j: int|
            0 <= j < inside.len() ==> #[trigger] (inside + "</rect>"@).subrange(j, j + 7)
                != "</rect>"@,
    ensures
        out@ == front + out_of_rest@,
{
    reveal_strlit("</rect>");
    let close = "</rect>"@;
    let behind = inside + close + rest@;
    lemma_strip_at_tag(front, tag, behind);
    assert(is_first(inside + close, close, inside.len() as int)) by {
        assert((inside + close).subrange(inside.len() as int, (inside.len() + 7) as int) =~= close);
        assert forall|j: int| 0 <= j < inside.len() implies !occurs_at(inside + close, close, j) by {
            assert((inside + close).subrange(j, j + 7) != close);
        }
    }
    lemma_find(inside + close, close);
    lemma_find_in_front(inside + close, rest@, close);
    assert(behind.skip((inside.len() + close.len()) as int) =~= rest@);
}

/// A rectangle that is not self-closing and has no `</rect>` behind it is kept,
/// whatever it covers.
pub proof fn stripping_keeps_what_is_not_closed(
    svg: &str,
    rest: &str,
    out: String,
    out_of_rest: String,
    front: Seq<char>,
    tag: Seq<char>,
)
    requires
        call_ensures(strip_bw_background_rect, (svg,), out),
        call_ensures(strip_bw_background_rect, (rest,), out_of_rest),
        svg@ == front + tag + rest@,
        first_rect_tag(front, tag),
        tag[tag.len() - 2] != '/',
        forall|j: int|
            0 <= j <= rest@.len() - 7 ==> #[trigger] rest@.subrange(j, j + 7) != "</rect>"@,
    ensures
        out@ == front + tag + out_of_rest@,
{
    reveal_strlit("</rect>");
    lemma_strip_at_tag(front, tag, rest@);
    lemma_find(rest@, "</rect>"@);
    assert forall|j: int| !occurs_at(rest@, "</rect>"@, j) by {
        if occurs_at(rest@, "</rect>"@, j) {
            assert(rest@.subrange(j, j + 7) != "</rect>"@);
        }
    }
}

/// A text without a complete `<rect` tag stays as it is: no `<rect` stands in
/// it, or no `>` stands behind the first one.
pub proof fn stripping_keeps_what_has_no_rectangle(svg: &str, out: String)
    requires
        call_ensures(strip_bw_background_rect, (svg,), out),
        forall|j: int, k: int|
            0 <= j <= svg@.len() - 5 && j <= k < svg@.len() && #[trigger] svg@.subrange(j, j + 5)
                == "<rect"@ ==> #[trigger] svg@[k] != '>',
    ensures
        out@ == svg@,
{
    reveal_strlit("<rect");
    reveal_strlit(">");
    lemma_find(svg@, "<rect"@);
    if let Some(start) = find(svg@, "<rect"@) {
        let from = svg@.skip(start);
        lemma_char_found(from, ">"@);
        if let Some(len) = find(from, ">"@) {
            assert(svg@.subrange(start, start + 5) == "<rect"@);
            assert(svg@[start + len] == '>');
        }
    }
}

/// The opening `<svg ...>` tag starts at index `at` with the first `<svg` of the
/// text and ends in front of index `end`, directly behind the next `>`.
pub open spec fn opening_tag(svg: Seq<char>, at: int, end: int) -> bool {
    &&& 0 <= at
    &&& at + 4 < end <= svg.len()
    &&& svg.subrange(at, at + 4) == seq!['<', 's', 'v', 'g']
    &&& forall|j: int| 0 <= j < at ==> #[trigger] svg.subrange(j, j + 4) != seq!['<', 's', 'v', 'g']
    &&& svg[end - 1] == '>'
    &&& forall|k: int| at <= k < end - 1 ==> #[trigger] svg[k] != '>'
}

/// The content starts behind the opening tag.
proof fn lemma_opening_tag(svg: Seq<char>)
    ensures
        content_start(svg) matches Some(start) ==> exists|at: int| #[trigger]
            opening_tag(svg, at, start),
        forall|at: int, end: int| #[trigger]
            opening_tag(svg, at, end) ==> content_start(svg) == Some(end),
{
    reveal_strlit("<svg");
    reveal_strlit(">");
    let open = "<svg"@;
    assert(open =~= seq!['<', 's', 'v', 'g']);
    lemma_find(svg, open);
    assert forall|at: int, end: int| #[trigger] opening_tag(svg, at, end) implies content_start(svg)
        == Some(end) by {
        assert(is_first(svg, open, at)) by {
            assert forall|j: int| 0 <= j < at implies !occurs_at(svg, open, j) by {
                assert(svg.subrange(j, j + 4) != open);
            }
        }
        let tag = svg.skip(at);
        assert forall|j: int| 0 <= j < end - 1 - at implies #[trigger] tag[j] != '>' by {
            assert(svg[at + j] != '>');
        }
        lemma_find_char(tag, ">"@, end - 1 - at);
    }
    if let Some(start) = content_start(svg) {
        let at = find(svg, open)->0;
        let tag = svg.skip(at);
        lemma_char_found(tag, ">"@);
        let len = find(tag, ">"@)->0;
        assert forall|i: int| 0 <= i < 4 implies svg[at + i] == open[i] by {
            assert(svg.subrange(at, at + 4)[i] == svg[at + i]);
        }
        assert(len >= 4) by {
            assert(tag[len] == '>');
            assert(tag[len] == svg[at + len]);
            assert(svg[at + 0] == open[0] && svg[at + 1] == open[1] && svg[at + 2] == open[2] && svg[
            at + 3] == open[3]);
        }
        assert forall|k: int| at <= k < start - 1 implies #[trigger] svg[k] != '>' by {
            assert(tag[k - at] != '>');
        }
        assert forall|j: int| 0 <= j < at implies #[trigger] svg.subrange(j, j + 4) != seq![
            '<',
            's',
            'v',
            'g',
        ] by {
            assert(!occurs_at(svg, open, j));
        }
        assert(opening_tag(svg, at, start));
    }
}

/// A rectangle over the whole canvas, written in the given fill.
pub open spec fn canvas_rect(fill: Seq<char>) -> Seq<char> {
    "<rect x=\"0\" y=\"0\" width=\"100%\" height=\"100%\" fill=\""@ + fill + "\"/>"@
}

/// Adding a background puts a rectangle over the whole canvas directly behind
/// the opening tag and changes nothing else. A text without an opening tag stays
/// as it is.
pub proof fn added_background_stands_behind_the_opening_tag(svg: &str, fill: &str, r: String)
    requires
        call_ensures(add_background_rect, (svg, fill), r),
    ensures
        forall|at: int, end: int| #[trigger]
            opening_tag(svg@, at, end) ==> r@ == svg@.take(end) + canvas_rect(fill@) + svg@.skip(
                end,
            ),
        (forall|at: int, end: int| !#[trigger] opening_tag(svg@, at, end)) ==> r@ == svg@,
{
    lemma_background_is_added(svg@, fill@);
}

/// A background is added behind the opening tag.
pub proof fn lemma_background_is_added(svg: Seq<char>, fill: Seq<char>)
    ensures
        forall|at: int, end: int| #[trigger]
            opening_tag(svg, at, end) ==> with_background(svg, fill) == svg.take(end) + canvas_rect(
                fill,
            ) + svg.skip(end),
        (forall|at: int, end: int| !#[trigger] opening_tag(svg, at, end)) ==> with_background(
            svg,
            fill,
        ) == svg,
{
    lemma_opening_tag(svg);
}

/// Inverting puts the group with the inverting filter around everything between
/// the opening tag and the last `</svg>` behind it, and changes nothing else. A
/// text without either stays as it is.
pub proof fn inverting_wraps_the_content(svg: &str, r: String)
    requires
        call_ensures(apply_invert_filter, (svg,), r),
    ensures
        forall|at: int, end: int, close: int|
            #![trigger opening_tag(svg@, at, end), svg@.subrange(close, close + 6)]
            {
                &&& opening_tag(svg@, at, end)
                &&& end <= close <= svg@.len() - 6
                &&& svg@.subrange(close, close + 6) == "</svg>"@
                &&& forall|j: int|
                    close < j <= svg@.len() - 6 ==> #[trigger] svg@.subrange(j, j + 6) != "</svg>"@
            } ==> r@ == svg@.take(end)
                + "<defs><filter id=\"__icg_inv__\" color-interpolation-filters=\"sRGB\"><feColorMatrix type=\"matrix\" values=\"-1 0 0 0 1  0 -1 0 0 1  0 0 -1 0 1  0 0 0 1 0\"/></filter></defs><g filter=\"url(#__icg_inv__)\">"@
                + svg@.subrange(end, close) + "</g>"@ + svg@.skip(close),
        (forall|at: int, end: int, close: int|
            #![trigger opening_tag(svg@, at, end), svg@.subrange(close, close + 6)]
            opening_tag(svg@, at, end) && end <= close <= svg@.len() - 6 ==> svg@.subrange(
                close,
                close + 6,
            ) != "</svg>"@) ==> r@ == svg@,
{
    reveal_strlit("</svg>");
    let close = "</svg>"@;
    lemma_opening_tag(svg@);
    if let Some(start) = content_start(svg@) {
        let at = choose|at: int| #[trigger] opening_tag(svg@, at, start);
        let after = svg@.skip(start);
        lemma_rfind(after, close);
        assert forall|j: int| 0 <= j <= after.len() - 6 implies #[trigger] after.subrange(j, j + 6)
            == svg@.subrange(start + j, start + j + 6) by {
            assert(after.subrange(j, j + 6) =~= svg@.subrange(start + j, start + j + 6));
        }
        assert forall|c: int|
            {
                &&& start <= c <= svg@.len() - 6
                &&& #[trigger] svg@.subrange(c, c + 6) == close
                &&& forall|j: int|
                    c < j <= svg@.len() - 6 ==> #[trigger] svg@.subrange(j, j + 6) != close
            } implies rfind(after, close) == Some(c - start) by {
            assert(after.subrange(c - start, c - start + 6) == svg@.subrange(c, c + 6));
            assert forall|j: int| c - start < j implies !occurs_at(after, close, j) by {
                if occurs_at(after, close, j) {
                    assert(after.subrange(j, j + 6) == svg@.subrange(start + j, start + j + 6));
                    assert(svg@.subrange(start + j, start + j + 6) != close);
                }
            }
            assert(is_last(after, close, c - start));
        }
        if let Some(len) = rfind(after, close) {
            assert(after.subrange(len, len + 6) == svg@.subrange(start + len, start + len + 6));
        }
    }
}

/// Stripping leaves everything up to an opening tag in front of all rectangles
/// as it is, and goes on behind it.
pub proof fn stripping_keeps_the_opening_tag(
    svg: &str,
    content: &str,
    out: String,
    out_of_content: String,
    at: int,
    end: int,
)
    requires
        call_ensures(strip_bw_background_rect, (svg,), out),
        call_ensures(strip_bw_background_rect, (content,), out_of_content),
        opening_tag(svg@, at, end),
        content@ == svg@.skip(end),
        forall|j: int| 0 <= j <= end - 5 ==> #[trigger] svg@.subrange(j, j + 5) != "<rect"@,
    ensures
        out@ == svg@.take(end) + out_of_content@,
        opening_tag(out@, at, end),
{
    reveal_strlit("<rect");
    let head = svg@.take(end);
    assert(svg@ =~= head + content@);
    assert(head[end - 1] == '>');
    assert(is_closed(head));
    lemma_find(head, "<rect"@);
    assert forall|j: int| !occurs_at(head, "<rect"@, j) by {
        if occurs_at(head, "<rect"@, j) {
            assert(head.subrange(j, j + 5) =~= svg@.subrange(j, j + 5));
        }
    }
    lemma_strip_behind_plain(head, content@);
    assert(out@ =~= head + out_of_content@);
    assert(out@.subrange(at, at + 4) =~= svg@.subrange(at, at + 4));
    assert forall|j: int| 0 <= j < at implies #[trigger] out@.subrange(j, j + 4) != seq![
        '<',
        's',
        'v',
        'g',
    ] by {
        assert(out@.subrange(j, j + 4) =~= svg@.subrange(j, j + 4));
    }
    assert forall|k: int| at <= k < end - 1 implies #[trigger] out@[k] != '>' by {
        assert(out@[k] == svg@[k]);
    }
}

} // verus!
