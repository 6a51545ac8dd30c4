//! Drawings of filled rectangles and nothing else.
//!
//! `usvg` and `resvg` do not return on every text, and of most texts it cannot be
//! told from their letters whether they do. Of a plain drawing it can: spelled
//! with so few words it has no elements but rectangles, and its numbers are
//! small.

use vstd::prelude::*;
use vstd::slice::slice_subrange;

use crate::text::{
    chars_of, contains_text, find_text, lemma_find, matches_at, occurs_at, same_chars,
};

verus! {

/// An ASCII digit.
pub open spec fn is_digit(c: char) -> bool {
    '0' <= c <= '9'
}

/// An ASCII letter.
pub open spec fn is_letter(c: char) -> bool {
    'a' <= c <= 'z' || 'A' <= c <= 'Z'
}

/// A letter of a colour written in hexadecimal. The letter of an exponent is
/// none.
pub open spec fn is_color_letter(c: char) -> bool {
    ('a' <= c <= 'f' || 'A' <= c <= 'F') && c != 'e' && c != 'E'
}

/// A character of a plain drawing.
pub open spec fn is_plain_char(c: char) -> bool {
    ||| is_letter(c)
    ||| is_digit(c)
    ||| c == ' '
    ||| c == '\t'
    ||| c == '\r'
    ||| c == '\n'
    ||| c == '<'
    ||| c == '>'
    ||| c == '/'
    ||| c == '='
    ||| c == '"'
    ||| c == '#'
    ||| c == '%'
    ||| c == '.'
}

/// A word of a plain drawing: what a rectangle is written with, a name of a
/// colour, or letters of a colour.
pub open spec fn is_plain_word(word: Seq<char>) -> bool {
    ||| word == "rect"@
    ||| word == "x"@
    ||| word == "y"@
    ||| word == "width"@
    ||| word == "height"@
    ||| word == "fill"@
    ||| word == "none"@
    ||| word == "black"@
    ||| word == "white"@
    ||| forall|i: int| 0 <= i < word.len() ==> is_color_letter(#[trigger] word[i])
}

/// A word stands in `s` from index `i` up to index `j`, with no letter on
/// either side.
pub open spec fn word_at(s: Seq<char>, i: int, j: int) -> bool {
    &&& 0 <= i < j <= s.len()
    &&& forall|k: int| i <= k < j ==> is_letter(#[trigger] s[k])
    &&& i > 0 ==> !is_letter(s[i - 1])
    &&& j < s.len() ==> !is_letter(s[j])
}

/// Five digits stand in `s` from index `i` on, with no digit in front, and they
/// are neither the digits of a colour nor those behind a point.
pub open spec fn long_number_at(s: Seq<char>, i: int) -> bool {
    &&& 0 <= i
    &&& i + 5 <= s.len()
    &&& is_digit(s[i])
    &&& is_digit(s[i + 1])
    &&& is_digit(s[i + 2])
    &&& is_digit(s[i + 3])
    &&& is_digit(s[i + 4])
    &&& i > 0 ==> !is_digit(s[i - 1]) && s[i - 1] != '#' && s[i - 1] != '.'
}

/// What stands inside a plain drawing: characters and words of its own, numbers
/// below ten thousand, and no closing tag.
pub open spec fn is_plain_body(s: Seq<char>) -> bool {
    &&& forall|i: int| 0 <= i < s.len() ==> is_plain_char(#[trigger] s[i])
    &&& forall|i: int| 0 <= i < s.len() ==> !#[trigger] long_number_at(s, i)
    &&& forall|i: int, j: int| #[trigger] word_at(s, i, j) ==> is_plain_word(s.subrange(i, j))
    &&& !contains_text(s, "</"@)
}

/// How a plain drawing starts.
pub const PLAIN_START: &'static str = "<svg xmlns=\"http://www.w3.org/2000/svg\"";

/// How a plain drawing ends.
pub const PLAIN_END: &'static str = "</svg>";

/// A drawing of filled rectangles and nothing else, with small numbers.
pub open spec fn is_plain(svg: Seq<char>) -> bool {
    let inner = svg.len() - PLAIN_END@.len();
    &&& svg.len() <= 1_000_000
    &&& PLAIN_START@.len() <= inner
    &&& occurs_at(svg, PLAIN_START@, 0)
    &&& occurs_at(svg, PLAIN_END@, inner)
    &&& is_plain_body(svg.subrange(PLAIN_START@.len() as int, inner))
}

/// Whether `c` is an ASCII digit.
fn digit(c: char) -> (r: bool)
    ensures
        r == is_digit(c),
{
    '0' <= c && c <= '9'
}

/// Whether `c` is an ASCII letter.
fn letter(c: char) -> (r: bool)
    ensures
        r == is_letter(c),
{
    ('a' <= c && c <= 'z') || ('A' <= c && c <= 'Z')
}

/// Whether `c` is a character of a plain drawing.
fn plain_char(c: char) -> (r: bool)
    ensures
        r == is_plain_char(c),
{
    letter(c) || digit(c) || c == ' ' || c == '\t' || c == '\r' || c == '\n' || c == '<' || c == '>'
        || c == '/' || c == '=' || c == '"' || c == '#' || c == '%' || c == '.'
}

/// Whether all of `word` are letters of a colour.
fn color_letters(word: &[char]) -> (r: bool)
    ensures
        r == forall|i: int| 0 <= i < word@.len() ==> is_color_letter(#[trigger] word@[i]),
{
    let mut i: usize = 0;
    while i < word.len()
        invariant
            i <= word@.len(),
            forall|j: int| 0 <= j < i ==> is_color_letter(#[trigger] word@[j]),
        decreases word@.len() - i,
    {
        let c = word[i];
        if !((('a' <= c && c <= 'f') || ('A' <= c && c <= 'F')) && c != 'e' && c != 'E') {
            proof {
                assert(!is_color_letter(word@[i as int]));
            }
            return false;
        }
        i += 1;
    }
    true
}

/// Whether `word` is a word of a plain drawing.
fn plain_word(word: &[char]) -> (r: bool)
    ensures
        r == is_plain_word(word@),
{
    same_chars(word, chars_of("rect").as_slice()) || same_chars(word, chars_of("x").as_slice())
        || same_chars(word, chars_of("y").as_slice()) || same_chars(
        word,
        chars_of("width").as_slice(),
    ) || same_chars(word, chars_of("height").as_slice()) || same_chars(
        word,
        chars_of("fill").as_slice(),
    ) || same_chars(word, chars_of("none").as_slice()) || same_chars(
        word,
        chars_of("black").as_slice(),
    ) || same_chars(word, chars_of("white").as_slice()) || color_letters(word)
}

/// Whether every word of `s` is one of a plain drawing.
fn plain_words(s: &[char]) -> (r: bool)
    ensures
        r == forall|i: int, j: int| #[trigger]
            word_at(s@, i, j) ==> is_plain_word(s@.subrange(i, j)),
{
    let mut i: usize = 0;
    while i < s.len()
        invariant
            i <= s@.len(),
            i > 0 && i < s@.len() ==> !is_letter(s@[i - 1]) || !is_letter(s@[i as int]),
            forall|a: int, b: int|
                #![trigger word_at(s@, a, b)]
                a < i && word_at(s@, a, b) ==> is_plain_word(s@.subrange(a, b)),
        decreases s@.len() - i,
    {
        if !letter(s[i]) {
            i += 1;
        } else {
            let start: usize = i;
            while i < s.len() && letter(s[i])
                invariant
                    start <= i <= s@.len(),
                    forall|k: int| start <= k < i ==> is_letter(#[trigger] s@[k]),
                decreases s@.len() - i,
            {
                i += 1;
            }
            let word = slice_subrange(s, start, i);
            let plain = plain_word(word);
            proof {
                assert(word_at(s@, start as int, i as int));
                assert forall|a: int, b: int|
                    start <= a < i && #[trigger] word_at(s@, a, b) implies a == start && b == i by {
                    if a > start {
                        assert(is_letter(s@[a - 1]));
                    }
                    if b < i {
                        assert(is_letter(s@[b]));
                    }
                    if b > i {
                        assert(is_letter(s@[i as int]));
                    }
                }
            }
            if !plain {
                return false;
            }
        }
    }
    true
}

/// Whether every character of `s` is one of a plain drawing and every number is
/// below ten thousand.
fn plain_chars(s: &[char]) -> (r: bool)
    ensures
        r == {
            &&& forall|i: int| 0 <= i < s@.len() ==> is_plain_char(#[trigger] s@[i])
            &&& forall|i: int| 0 <= i < s@.len() ==> !#[trigger] long_number_at(s@, i)
        },
{
    let mut i: usize = 0;
    while i < s.len()
        invariant
            i <= s@.len(),
            forall|j: int| 0 <= j < i ==> is_plain_char(#[trigger] s@[j]),
            forall|j: int| 0 <= j < i ==> !#[trigger] long_number_at(s@, j),
        decreases s@.len() - i,
    {
        let long = s.len() - i >= 5 && digit(s[i]) && digit(s[i + 1]) && digit(s[i + 2]) && digit(
            s[i + 3],
        ) && digit(s[i + 4]) && !(i > 0 && (digit(s[i - 1]) || s[i - 1] == '#' || s[i - 1] == '.'));
        if long || !plain_char(s[i]) {
            proof {
                assert(long == long_number_at(s@, i as int));
                assert(!long ==> !is_plain_char(s@[i as int]));
            }
            return false;
        }
        i += 1;
    }
    true
}

/// Whether a drawing is one of filled rectangles and nothing else, with small
/// numbers.
pub fn is_plain_drawing(svg: &str) -> (r: bool)
    ensures
        r == is_plain(svg@),
{
    let all = chars_of(svg);
    let s = all.as_slice();
    let start = chars_of(PLAIN_START);
    let end = chars_of(PLAIN_END);
    if s.len() > 1_000_000 || s.len() < end.len() {
        return false;
    }
    let inner: usize = s.len() - end.len();
    if inner < start.len() || !matches_at(s, start.as_slice(), 0) || !matches_at(
        s,
        end.as_slice(),
        inner,
    ) {
        return false;
    }
    let body = slice_subrange(s, start.len(), inner);
    let close = chars_of("</");
    proof {
        lemma_find(body@, close@);
    }
    match find_text(body, close.as_slice()) {
        Some(_) => false,
        None => plain_chars(body) && plain_words(body),
    }
}

/// A character that rectangles are written with.
pub open spec fn spells_rectangles(c: char) -> bool {
    ||| 97 <= c as int <= 122 || 65 <= c as int <= 90 || 48 <= c as int <= 57
    ||| c == ' ' || c == '\t' || c == '\r' || c == '\n'
    ||| c == '<' || c == '>' || c == '/' || c == '='
    ||| c == '"' || c == '#' || c == '%' || c == '.'
}

/// A word that rectangles are written with, or letters of a colour.
pub open spec fn writes_rectangles(word: Seq<char>) -> bool {
    ||| word == "rect"@ || word == "x"@ || word == "y"@ || word == "width"@ || word == "height"@
    ||| word == "fill"@ || word == "none"@ || word == "black"@ || word == "white"@
    ||| forall|k: int|
        0 <= k < word.len() ==> {
            let c = #[trigger] word[k];
            ||| c == 'a' || c == 'b' || c == 'c' || c == 'd' || c == 'f'
            ||| c == 'A' || c == 'B' || c == 'C' || c == 'D' || c == 'F'
        }
}

/// From index `i` up to index `j` stand letters, as many as there are.
pub open spec fn letters_between(s: Seq<char>, i: int, j: int) -> bool {
    &&& 0 <= i < j <= s.len()
    &&& forall|k: int|
        i - 1 <= k <= j && 0 <= k < s.len() ==> (i <= k < j <==> 97 <= (#[trigger] s[k]) as int
            <= 122 || 65 <= s[k] as int <= 90)
}

/// From index `i` on stand five digits, and in front of them no digit, number
/// sign or point.
pub open spec fn five_digits_from(s: Seq<char>, i: int) -> bool {
    &&& 0 <= i <= s.len() - 5
    &&& forall|k: int| i <= k < i + 5 ==> 48 <= (#[trigger] s[k]) as int <= 57
    &&& i > 0 ==> !(48 <= s[i - 1] as int <= 57) && s[i - 1] != '#' && s[i - 1] != '.'
}

/// A drawing is plain only where it starts and ends as one.
pub proof fn plain_drawings_are_drawings(svg: &str, r: bool)
    requires
        call_ensures(is_plain_drawing, (svg,), r),
    ensures
        r ==> svg@.len() <= 1_000_000 && exists|inner: Seq<char>|
            svg@ == "<svg xmlns=\"http://www.w3.org/2000/svg\""@ + inner + "</svg>"@,
{
    if r {
        let n = PLAIN_START@.len() as int;
        let m = svg@.len() - PLAIN_END@.len();
        assert(svg@ =~= svg@.subrange(0, n) + svg@.subrange(n, m) + svg@.subrange(
            m,
            svg@.len() as int,
        ));
    }
}

/// A drawing that starts and ends as a plain one is plain exactly where it is not
/// too long, only characters and words of rectangles stand in it, no number has
/// five digits in front of its point, and no tag closes another.
pub proof fn plain_drawings_hold_rectangles_only(svg: &str, inner: Seq<char>, r: bool)
    requires
        call_ensures(is_plain_drawing, (svg,), r),
        svg@ == "<svg xmlns=\"http://www.w3.org/2000/svg\""@ + inner + "</svg>"@,
    ensures
        r <==> {
            &&& svg@.len() <= 1_000_000
            &&& forall|i: int| 0 <= i < inner.len() ==> spells_rectangles(#[trigger] inner[i])
            &&& forall|i: int| !#[trigger] five_digits_from(inner, i)
            &&& forall|i: int, j: int| #[trigger]
                letters_between(inner, i, j) ==> writes_rectangles(inner.subrange(i, j))
            &&& forall|i: int|
                0 <= i < inner.len() - 1 && #[trigger] inner[i] == '<' ==> inner[i + 1] != '/'
        },
{
    let n = PLAIN_START@.len() as int;
    let m = svg@.len() - PLAIN_END@.len();
    assert(svg@.subrange(n, m) =~= inner);
    assert(svg@.subrange(0, 0 + n) =~= PLAIN_START@);
    assert(svg@.subrange(m, m + PLAIN_END@.len()) =~= PLAIN_END@);
    lemma_no_closing(inner);
    assert forall|i: int| #[trigger] five_digits_from(inner, i) == long_number_at(inner, i) by {}
    assert forall|i: int, j: int| #[trigger]
        letters_between(inner, i, j) == word_at(inner, i, j) by {
        if letters_between(inner, i, j) {
            assert forall|k: int| i <= k < j implies is_letter(#[trigger] inner[k]) by {}
        }
    }
    assert forall|word: Seq<char>| #[trigger] writes_rectangles(word) == is_plain_word(word) by {
        assert forall|c: char| #[trigger] is_color_letter(c) == {
            ||| c == 'a' || c == 'b' || c == 'c' || c == 'd' || c == 'f'
            ||| c == 'A' || c == 'B' || c == 'C' || c == 'D' || c == 'F'
        } by {}
    }
    assert forall|c: char| #[trigger] spells_rectangles(c) == is_plain_char(c) by {}
    lemma_plain_body(inner);
}

/// What a plain drawing holds, with one condition for each kind of fault.
proof fn lemma_plain_body(s: Seq<char>)
    requires
        forall|i: int| #[trigger] five_digits_from(s, i) == long_number_at(s, i),
        forall|i: int, j: int| #[trigger] letters_between(s, i, j) == word_at(s, i, j),
        forall|word: Seq<char>| #[trigger] writes_rectangles(word) == is_plain_word(word),
        forall|c: char| #[trigger] spells_rectangles(c) == is_plain_char(c),
    ensures
        is_plain_body(s) <==> {
            &&& forall|i: int| 0 <= i < s.len() ==> spells_rectangles(#[trigger] s[i])
            &&& forall|i: int| !#[trigger] five_digits_from(s, i)
            &&& forall|i: int, j: int| #[trigger]
                letters_between(s, i, j) ==> writes_rectangles(s.subrange(i, j))
            &&& !contains_text(s, "</"@)
        },
{
    if is_plain_body(s) {
        assert forall|i: int| 0 <= i < s.len() implies spells_rectangles(#[trigger] s[i]) by {
            assert(is_plain_char(s[i]));
        }
        assert forall|i: int| !#[trigger] five_digits_from(s, i) by {
            assert(!long_number_at(s, i));
        }
        assert forall|i: int, j: int| #[trigger] letters_between(s, i, j) implies writes_rectangles(
            s.subrange(i, j),
        ) by {
            assert(word_at(s, i, j));
        }
    }
    if {
        &&& forall|i: int| 0 <= i < s.len() ==> spells_rectangles(#[trigger] s[i])
        &&& forall|i: int| !#[trigger] five_digits_from(s, i)
        &&& forall|i: int, j: int| #[trigger]
            letters_between(s, i, j) ==> writes_rectangles(s.subrange(i, j))
    } {
        assert forall|i: int| 0 <= i < s.len() implies is_plain_char(#[trigger] s[i]) by {
            assert(spells_rectangles(s[i]));
        }
        assert forall|i: int| 0 <= i < s.len() implies !#[trigger] long_number_at(s, i) by {
            assert(!five_digits_from(s, i));
        }
        assert forall|i: int, j: int| #[trigger] word_at(s, i, j) implies is_plain_word(
            s.subrange(i, j),
        ) by {
            assert(letters_between(s, i, j));
            assert(writes_rectangles(s.subrange(i, j)));
        }
    }
}

/// No closing tag stands in a text where no slash follows a `<`.
proof fn lemma_no_closing(s: Seq<char>)
    ensures
        !contains_text(s, "</"@) <==> forall|i: int|
            0 <= i < s.len() - 1 && #[trigger] s[i] == '<' ==> s[i + 1] != '/',
{
    reveal_strlit("</");
    let close = "</"@;
    if contains_text(s, close) {
        let at = choose|at: int| occurs_at(s, close, at);
        assert(s.subrange(at, at + 2)[0] == s[at] && s.subrange(at, at + 2)[1] == s[at + 1]);
        assert(s[at] == '<' && s[at + 1] == '/');
    } else {
        assert forall|i: int| 0 <= i < s.len() - 1 && #[trigger] s[i] == '<' implies s[i + 1]
            != '/' by {
            if s[i + 1] == '/' {
                assert(s.subrange(i, i + 2) =~= close);
                assert(occurs_at(s, close, i));
            }
        }
    }
}

} // verus!
