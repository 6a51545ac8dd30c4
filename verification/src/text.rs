//! Text as sequences of characters: searching, trimming and the other string
//! operations that the rest of the library is built from.

use vstd::prelude::*;
use vstd::slice::slice_subrange;

verus! {

/// `pattern` stands in `text` from index `at` on.
pub open spec fn occurs_at(text: Seq<char>, pattern: Seq<char>, at: int) -> bool {
    &&& 0 <= at
    &&& at + pattern.len() <= text.len()
    &&& text.subrange(at, at + pattern.len()) == pattern
}

/// `pattern` stands somewhere in `text`.
pub open spec fn contains_text(text: Seq<char>, pattern: Seq<char>) -> bool {
    exists|at: int| occurs_at(text, pattern, at)
}

/// `at` is the leftmost place where `pattern` stands in `text`.
pub open spec fn is_first(text: Seq<char>, pattern: Seq<char>, at: int) -> bool {
    &&& occurs_at(text, pattern, at)
    &&& forall|j: int| 0 <= j < at ==> !occurs_at(text, pattern, j)
}

/// `at` is the rightmost place where `pattern` stands in `text`.
pub open spec fn is_last(text: Seq<char>, pattern: Seq<char>, at: int) -> bool {
    &&& occurs_at(text, pattern, at)
    &&& forall|j: int| at < j ==> !occurs_at(text, pattern, j)
}

/// The leftmost place where `pattern` stands in `text`.
pub open spec fn find(text: Seq<char>, pattern: Seq<char>) -> Option<int> {
    if contains_text(text, pattern) {
        Some(choose|at: int| is_first(text, pattern, at))
    } else {
        None
    }
}

/// The rightmost place where `pattern` stands in `text`.
pub open spec fn rfind(text: Seq<char>, pattern: Seq<char>) -> Option<int> {
    if contains_text(text, pattern) {
        Some(choose|at: int| is_last(text, pattern, at))
    } else {
        None
    }
}

/// The characters with the Unicode `White_Space` property.
pub open spec fn is_space(c: char) -> bool {
    ||| '\u{9}' <= c <= '\u{d}'
    ||| c == ' '
    ||| c == '\u{85}'
    ||| c == '\u{a0}'
    ||| c == '\u{1680}'
    ||| '\u{2000}' <= c <= '\u{200a}'
    ||| c == '\u{2028}'
    ||| c == '\u{2029}'
    ||| c == '\u{202f}'
    ||| c == '\u{205f}'
    ||| c == '\u{3000}'
}

/// `s` without the whitespace in front of it.
pub open spec fn trim_start(s: Seq<char>) -> Seq<char>
    decreases s.len(),
{
    if s.len() > 0 && is_space(s[0]) {
        trim_start(s.drop_first())
    } else {
        s
    }
}

/// `s` without the whitespace behind it.
pub open spec fn trim_end(s: Seq<char>) -> Seq<char>
    decreases s.len(),
{
    if s.len() > 0 && is_space(s.last()) {
        trim_end(s.drop_last())
    } else {
        s
    }
}

/// `s` without the whitespace on either side.
pub open spec fn trim(s: Seq<char>) -> Seq<char> {
    trim_end(trim_start(s))
}

/// `c` with an ASCII capital made small.
pub open spec fn lower_char(c: char) -> char {
    if 'A' <= c <= 'Z' {
        (c as u8 + 32) as char
    } else {
        c
    }
}

/// `s` with its ASCII capitals made small.
pub open spec fn lower(s: Seq<char>) -> Seq<char> {
    s.map_values(|c: char| lower_char(c))
}

/// `s` without its space characters.
pub open spec fn without_spaces(s: Seq<char>) -> Seq<char> {
    s.filter(|c: char| c != ' ')
}

/// Where a pattern occurs, there is a leftmost occurrence.
proof fn lemma_first_exists(text: Seq<char>, pattern: Seq<char>, at: int)
    requires
        occurs_at(text, pattern, at),
    ensures
        exists|i: int| is_first(text, pattern, i),
    decreases at,
{
    if exists|j: int| 0 <= j < at && occurs_at(text, pattern, j) {
        let j = choose|j: int| 0 <= j < at && occurs_at(text, pattern, j);
        lemma_first_exists(text, pattern, j);
    } else {
        assert(is_first(text, pattern, at));
    }
}

/// Where a pattern occurs, there is a rightmost occurrence.
proof fn lemma_last_exists(text: Seq<char>, pattern: Seq<char>, at: int)
    requires
        occurs_at(text, pattern, at),
    ensures
        exists|i: int| is_last(text, pattern, i),
    decreases text.len() - at,
{
    if exists|j: int| at < j && occurs_at(text, pattern, j) {
        let j = choose|j: int| at < j && occurs_at(text, pattern, j);
        lemma_last_exists(text, pattern, j);
    } else {
        assert(is_last(text, pattern, at));
    }
}

/// `find` gives a place exactly where the pattern occurs, and it is the
/// leftmost one.
pub proof fn lemma_find(text: Seq<char>, pattern: Seq<char>)
    ensures
        find(text, pattern) matches Some(at) ==> is_first(text, pattern, at),
        find(text, pattern) is None ==> forall|j: int| !occurs_at(text, pattern, j),
        forall|at: int| #[trigger]
            is_first(text, pattern, at) ==> find(text, pattern) == Some(at),
{
    if contains_text(text, pattern) {
        let w = choose|at: int| occurs_at(text, pattern, at);
        lemma_first_exists(text, pattern, w);
    }
    assert forall|at: int| #[trigger] is_first(text, pattern, at) implies find(text, pattern)
        == Some(at) by {
        assert(contains_text(text, pattern));
        let other = choose|i: int| is_first(text, pattern, i);
        assert(is_first(text, pattern, other));
        assert(!(other < at));
        assert(!(at < other));
    }
}

/// `rfind` gives a place exactly where the pattern occurs, and it is the
/// rightmost one.
pub proof fn lemma_rfind(text: Seq<char>, pattern: Seq<char>)
    ensures
        rfind(text, pattern) matches Some(at) ==> is_last(text, pattern, at),
        rfind(text, pattern) is None ==> forall|j: int| !occurs_at(text, pattern, j),
        forall|at: int| #[trigger]
            is_last(text, pattern, at) ==> rfind(text, pattern) == Some(at),
{
    if contains_text(text, pattern) {
        let w = choose|at: int| occurs_at(text, pattern, at);
        lemma_last_exists(text, pattern, w);
    }
    assert forall|at: int| #[trigger] is_last(text, pattern, at) implies rfind(text, pattern)
        == Some(at) by {
        assert(contains_text(text, pattern));
        let other = choose|i: int| is_last(text, pattern, i);
        assert(is_last(text, pattern, other));
        assert(!(other < at));
        assert(!(at < other));
    }
}

/// A place in `a` is the same place in `a + b`.
pub proof fn lemma_occurs_in_front(a: Seq<char>, b: Seq<char>, pattern: Seq<char>, at: int)
    requires
        at + pattern.len() <= a.len(),
    ensures
        occurs_at(a + b, pattern, at) == occurs_at(a, pattern, at),
{
    if 0 <= at {
        assert((a + b).subrange(at, at + pattern.len()) =~= a.subrange(at, at + pattern.len()));
    }
}

/// A place in `b` is found in `a + b` as much further on as `a` is long.
pub proof fn lemma_occurs_behind(a: Seq<char>, b: Seq<char>, pattern: Seq<char>, at: int)
    requires
        0 <= at,
    ensures
        occurs_at(a + b, pattern, a.len() + at) == occurs_at(b, pattern, at),
{
    if at + pattern.len() <= b.len() {
        assert((a + b).subrange(a.len() + at, a.len() + at + pattern.len()) =~= b.subrange(
            at,
            at + pattern.len(),
        ));
    }
}

/// What is found first in a text is found first there too where more text
/// follows.
pub proof fn lemma_find_in_front(a: Seq<char>, b: Seq<char>, pattern: Seq<char>)
    requires
        find(a, pattern) is Some,
    ensures
        find(a + b, pattern) == find(a, pattern),
{
    lemma_find(a, pattern);
    let at = find(a, pattern)->0;
    assert forall|j: int| 0 <= j <= at implies #[trigger] occurs_at(a + b, pattern, j) == occurs_at(
        a,
        pattern,
        j,
    ) by {
        lemma_occurs_in_front(a, b, pattern, j);
    }
    assert(is_first(a + b, pattern, at));
    lemma_find(a + b, pattern);
}

/// A pattern does not stand across a character that it does not hold there.
pub proof fn lemma_not_across(text: Seq<char>, pattern: Seq<char>, at: int, k: int)
    requires
        0 <= k < pattern.len(),
        text[at + k] != pattern[k],
    ensures
        !occurs_at(text, pattern, at),
{
    if occurs_at(text, pattern, at) {
        assert(text.subrange(at, at + pattern.len())[k] == text[at + k]);
    }
}

/// A value without whitespace at its ends and without ASCII capitals stays as
/// it is.
pub proof fn lemma_plain_value(value: Seq<char>)
    requires
        value.len() > 0,
        !is_space(value[0]),
        !is_space(value.last()),
        forall|i: int| 0 <= i < value.len() ==> lower_char(#[trigger] value[i]) == value[i],
    ensures
        lower(trim(value)) == value,
        trim(lower(trim(value))) == value,
{
    assert(trim(value) == value);
    assert(lower(value) =~= value);
}

/// Trimming in front leaves a part of the text that does not start with
/// whitespace.
proof fn lemma_trim_start(s: Seq<char>) -> (n: int)
    ensures
        0 <= n <= s.len(),
        trim_start(s) == s.skip(n),
        forall|i: int| 0 <= i < n ==> is_space(#[trigger] s[i]),
        n < s.len() ==> !is_space(s[n]),
    decreases s.len(),
{
    if s.len() > 0 && is_space(s[0]) {
        let n = lemma_trim_start(s.drop_first());
        assert(s.drop_first().skip(n) =~= s.skip(n + 1));
        assert forall|i: int| 0 <= i < n + 1 implies is_space(#[trigger] s[i]) by {
            if i > 0 {
                assert(is_space(s.drop_first()[i - 1]));
            }
        }
        n + 1
    } else {
        assert(s.skip(0) =~= s);
        0
    }
}

/// Trimming behind leaves a part of the text that does not end in whitespace.
proof fn lemma_trim_end(s: Seq<char>) -> (n: int)
    ensures
        0 <= n <= s.len(),
        trim_end(s) == s.take(n),
        forall|i: int| n <= i < s.len() ==> is_space(#[trigger] s[i]),
        n > 0 ==> !is_space(s[n - 1]),
    decreases s.len(),
{
    if s.len() > 0 && is_space(s.last()) {
        let n = lemma_trim_end(s.drop_last());
        assert(s.drop_last().take(n) =~= s.take(n));
        assert forall|i: int| n <= i < s.len() implies is_space(#[trigger] s[i]) by {
            if i < s.len() - 1 {
                assert(is_space(s.drop_last()[i]));
            }
        }
        n
    } else {
        assert(s.take(s.len() as int) =~= s);
        s.len() as int
    }
}

/// Trimming loses whitespace only.
pub proof fn lemma_trim_keeps(s: Seq<char>, i: int)
    requires
        0 <= i < s.len(),
    ensures
        is_space(s[i]) || trim(s).contains(s[i]),
{
    let n = lemma_trim_start(s);
    let t = s.skip(n);
    let m = lemma_trim_end(t);
    if n <= i && i - n < m {
        assert(trim(s)[i - n] == s[i]);
    } else if n <= i {
        assert(is_space(t[i - n]));
    }
}

/// What is trimmed stays as it is when it is trimmed again.
pub proof fn lemma_trim_twice(s: Seq<char>)
    ensures
        trim(trim(s)) == trim(s),
{
    let n = lemma_trim_start(s);
    let m = lemma_trim_end(s.skip(n));
    let t = trim(s);
    if t.len() > 0 {
        assert(t[0] == s[n]);
        assert(t.last() == s.skip(n)[m - 1]);
    }
}

/// A text without spaces stays as it is when its spaces are taken out.
pub proof fn lemma_no_spaces(s: Seq<char>)
    requires
        !s.contains(' '),
    ensures
        without_spaces(s) == s,
    decreases s.len(),
{
    reveal(Seq::filter);
    if s.len() > 0 {
        let t = s.drop_last();
        assert(s.contains(s.last()));
        assert forall|i: int| 0 <= i < t.len() implies t[i] != ' ' by {
            assert(s.contains(s[i]));
        }
        lemma_no_spaces(t);
        assert(s =~= t.push(s.last()));
    }
}

/// `String::push` appends one character to the end of the string and leaves
/// what was there before unchanged.
pub assume_specification[ String::push ](s: &mut String, c: char)
    ensures
        final(s)@ == old(s)@.push(c),
;

/// What an optional string holds.
pub open spec fn opt_text(s: Option<String>) -> Option<Seq<char>> {
    match s {
        Some(t) => Some(t@),
        None => None,
    }
}

/// The characters of `s`, in order.
pub fn chars_of(s: &str) -> (r: Vec<char>)
    ensures
        r@ == s@,
{
    let mut r: Vec<char> = Vec::new();
    for c in it: s.chars()
        invariant
            it.seq() == s@,
            r@ == s@.take(it.index()),
    {
        r.push(c);
        proof {
            assert(s@.take(it.index() + 1) == s@.take(it.index()).push(s@[it.index()]));
        }
    }
    proof {
        assert(s@.take(s@.len() as int) == s@);
    }
    r
}

/// Appends the characters of `part` to `out`.
pub fn push_chars(out: &mut String, part: &[char])
    ensures
        final(out)@ == old(out)@ + part@,
{
    let ghost start = out@;
    proof {
        assert(start + part@.take(0) == start);
    }
    let mut i: usize = 0;
    while i < part.len()
        invariant
            i <= part@.len(),
            out@ == start + part@.take(i as int),
        decreases part@.len() - i,
    {
        out.push(part[i]);
        proof {
            assert(start + part@.take(i + 1) == (start + part@.take(i as int)).push(part@[i as int]));
        }
        i += 1;
    }
    proof {
        assert(part@.take(part@.len() as int) == part@);
    }
}

/// The string made of the characters of `part`.
pub fn string_of(part: &[char]) -> (r: String)
    ensures
        r@ == part@,
{
    let mut r = String::new();
    push_chars(&mut r, part);
    r
}

/// The two slices hold the same characters.
pub fn same_chars(a: &[char], b: &[char]) -> (r: bool)
    ensures
        r == (a@ == b@),
{
    if a.len() != b.len() {
        return false;
    }
    let mut i: usize = 0;
    while i < a.len()
        invariant
            i <= a@.len(),
            a@.len() == b@.len(),
            forall|j: int| 0 <= j < i ==> a@[j] == b@[j],
        decreases a@.len() - i,
    {
        if a[i] != b[i] {
            proof {
                assert(a@[i as int] != b@[i as int]);
            }
            return false;
        }
        i += 1;
    }
    proof {
        assert(a@ =~= b@);
    }
    true
}

/// The two strings hold the same text.
pub fn same_text(a: &str, b: &str) -> (r: bool)
    ensures
        r == (a@ == b@),
{
    let x = chars_of(a);
    let y = chars_of(b);
    same_chars(x.as_slice(), y.as_slice())
}

/// Whether `pattern` stands in `text` from index `at` on.
pub fn matches_at(text: &[char], pattern: &[char], at: usize) -> (r: bool)
    ensures
        r == occurs_at(text@, pattern@, at as int),
{
    if at > text.len() || pattern.len() > text.len() - at {
        return false;
    }
    same_chars(slice_subrange(text, at, at + pattern.len()), pattern)
}

/// The leftmost place where `pattern` stands in `text`.
pub fn find_text(text: &[char], pattern: &[char]) -> (r: Option<usize>)
    ensures
        match r {
            Some(at) => find(text@, pattern@) == Some(at as int),
            None => find(text@, pattern@) is None,
        },
        r matches Some(at) ==> at + pattern@.len() <= text@.len() <= usize::MAX,
{
    proof {
        lemma_find(text@, pattern@);
    }
    if pattern.len() > text.len() {
        return None;
    }
    let last: usize = text.len() - pattern.len();
    let mut i: usize = 0;
    loop
        invariant
            i <= last,
            last == text@.len() - pattern@.len(),
            text@.len() <= usize::MAX,
            forall|j: int| 0 <= j < i ==> !occurs_at(text@, pattern@, j),
            forall|at: int| #[trigger]
                is_first(text@, pattern@, at) ==> find(text@, pattern@) == Some(at),
        decreases last - i,
    {
        if matches_at(text, pattern, i) {
            proof {
                assert(is_first(text@, pattern@, i as int));
            }
            return Some(i);
        }
        if i == last {
            proof {
                assert forall|j: int| !occurs_at(text@, pattern@, j) by {}
            }
            return None;
        }
        i += 1;
    }
}

/// The rightmost place where `pattern` stands in `text`.
pub fn rfind_text(text: &[char], pattern: &[char]) -> (r: Option<usize>)
    ensures
        match r {
            Some(at) => rfind(text@, pattern@) == Some(at as int),
            None => rfind(text@, pattern@) is None,
        },
        r matches Some(at) ==> at + pattern@.len() <= text@.len() <= usize::MAX,
{
    proof {
        lemma_rfind(text@, pattern@);
    }
    if pattern.len() > text.len() {
        return None;
    }
    let mut i: usize = text.len() - pattern.len();
    loop
        invariant
            i <= text@.len() - pattern@.len(),
            text@.len() <= usize::MAX,
            forall|j: int| i < j ==> !occurs_at(text@, pattern@, j),
            forall|at: int| #[trigger]
                is_last(text@, pattern@, at) ==> rfind(text@, pattern@) == Some(at),
        decreases i,
    {
        if matches_at(text, pattern, i) {
            proof {
                assert(is_last(text@, pattern@, i as int));
            }
            return Some(i);
        }
        if i == 0 {
            proof {
                assert forall|j: int| !occurs_at(text@, pattern@, j) by {}
            }
            return None;
        }
        i -= 1;
    }
}

/// Whether `c` has the Unicode `White_Space` property.
pub fn char_is_space(c: char) -> (r: bool)
    ensures
        r == is_space(c),
{
    ('\u{9}' <= c && c <= '\u{d}') || c == ' ' || c == '\u{85}' || c == '\u{a0}' || c == '\u{1680}'
        || ('\u{2000}' <= c && c <= '\u{200a}') || c == '\u{2028}' || c == '\u{2029}' || c
        == '\u{202f}' || c == '\u{205f}' || c == '\u{3000}'
}

/// `s` without the whitespace on its right.
pub fn trim_end_chars(s: &[char]) -> (r: &[char])
    ensures
        r@ == trim_end(s@),
{
    let mut end: usize = s.len();
    proof {
        assert(s@.take(s@.len() as int) == s@);
    }
    while end > 0 && char_is_space(s[end - 1])
        invariant
            end <= s@.len(),
            trim_end(s@.take(end as int)) == trim_end(s@),
        decreases end,
    {
        proof {
            let t = s@.take(end as int);
            assert(t.last() == s@[end - 1]);
            assert(t.drop_last() == s@.take(end - 1));
        }
        end -= 1;
    }
    proof {
        let t = s@.take(end as int);
        if end > 0 {
            assert(t.last() == s@[end - 1]);
        }
        assert(trim_end(t) == t);
    }
    slice_subrange(s, 0, end)
}

/// `s` without the whitespace on either side.
pub fn trim_chars(s: &[char]) -> (r: &[char])
    ensures
        r@ == trim(s@),
{
    let mut start: usize = 0;
    proof {
        assert(s@.skip(0) == s@);
    }
    while start < s.len() && char_is_space(s[start])
        invariant
            start <= s@.len(),
            trim_start(s@.skip(start as int)) == trim_start(s@),
        decreases s@.len() - start,
    {
        proof {
            let t = s@.skip(start as int);
            assert(t[0] == s@[start as int]);
            assert(t.drop_first() == s@.skip(start + 1));
        }
        start += 1;
    }
    proof {
        let t = s@.skip(start as int);
        if start < s@.len() {
            assert(t[0] == s@[start as int]);
        }
        assert(trim_start(t) == t);
        assert(s@.subrange(start as int, s@.len() as int) == t);
    }
    trim_end_chars(slice_subrange(s, start, s.len()))
}

/// `s` with its ASCII capitals made small.
pub fn lower_chars(s: &[char]) -> (r: Vec<char>)
    ensures
        r@ == lower(s@),
{
    let mut r: Vec<char> = Vec::new();
    let mut i: usize = 0;
    while i < s.len()
        invariant
            i <= s@.len(),
            r@.len() == i,
            forall|j: int| 0 <= j < i ==> r@[j] == lower_char(s@[j]),
        decreases s@.len() - i,
    {
        let c = s[i];
        if 'A' <= c && c <= 'Z' {
            r.push((c as u8 + 32) as char);
        } else {
            r.push(c);
        }
        i += 1;
    }
    proof {
        assert(r@ =~= lower(s@));
    }
    r
}

/// `s` without its space characters.
pub fn without_space_chars(s: &[char]) -> (r: Vec<char>)
    ensures
        r@ == without_spaces(s@),
{
    let mut r: Vec<char> = Vec::new();
    let mut i: usize = 0;
    proof {
        reveal(Seq::filter);
    }
    while i < s.len()
        invariant
            i <= s@.len(),
            r@ == without_spaces(s@.take(i as int)),
        decreases s@.len() - i,
    {
        proof {
            reveal(Seq::filter);
            let t = s@.take(i + 1);
            assert(t.drop_last() == s@.take(i as int));
            assert(t.last() == s@[i as int]);
        }
        if s[i] != ' ' {
            r.push(s[i]);
        }
        i += 1;
    }
    proof {
        assert(s@.take(s@.len() as int) == s@);
    }
    r
}

/// Searching gives the leftmost place of the pattern, and none exactly where the
/// pattern stands nowhere.
pub proof fn searching_finds_the_leftmost(text: &[char], pattern: &[char], r: Option<usize>)
    requires
        call_ensures(find_text, (text, pattern), r),
    ensures
        match r {
            Some(at) => {
                &&& at + pattern@.len() <= text@.len()
                &&& text@.subrange(at as int, at + pattern@.len()) == pattern@
                &&& forall|j: int|
                    0 <= j < at ==> #[trigger] text@.subrange(j, j + pattern@.len()) != pattern@
            },
            None => forall|j: int|
                0 <= j <= text@.len() - pattern@.len() ==> #[trigger] text@.subrange(
                    j,
                    j + pattern@.len(),
                ) != pattern@,
        },
{
    lemma_find(text@, pattern@);
    assert forall|j: int| 0 <= j <= text@.len() - pattern@.len() implies (#[trigger] text@.subrange(
        j,
        j + pattern@.len(),
    ) == pattern@) == occurs_at(text@, pattern@, j) by {}
}

/// Searching backwards gives the rightmost place of the pattern, and none
/// exactly where the pattern stands nowhere.
pub proof fn searching_backwards_finds_the_rightmost(
    text: &[char],
    pattern: &[char],
    r: Option<usize>,
)
    requires
        call_ensures(rfind_text, (text, pattern), r),
    ensures
        match r {
            Some(at) => {
                &&& at + pattern@.len() <= text@.len()
                &&& text@.subrange(at as int, at + pattern@.len()) == pattern@
                &&& forall|j: int|
                    at < j <= text@.len() - pattern@.len() ==> #[trigger] text@.subrange(
                        j,
                        j + pattern@.len(),
                    ) != pattern@
            },
            None => forall|j: int|
                0 <= j <= text@.len() - pattern@.len() ==> #[trigger] text@.subrange(
                    j,
                    j + pattern@.len(),
                ) != pattern@,
        },
{
    lemma_rfind(text@, pattern@);
    assert forall|j: int| 0 <= j <= text@.len() - pattern@.len() implies (#[trigger] text@.subrange(
        j,
        j + pattern@.len(),
    ) == pattern@) == occurs_at(text@, pattern@, j) by {}
}

/// `t` is `s` without the whitespace around it: a part of `s` that neither
/// starts nor ends with whitespace, with whitespace only on either side of it.
pub open spec fn is_trimmed(s: Seq<char>, t: Seq<char>) -> bool {
    exists|a: int, b: int|
        {
            &&& 0 <= a <= b <= s.len()
            &&& t == #[trigger] s.subrange(a, b)
            &&& forall|i: int| 0 <= i < a ==> is_space(#[trigger] s[i])
            &&& forall|i: int| b <= i < s.len() ==> is_space(#[trigger] s[i])
            &&& a < b ==> !is_space(s[a]) && !is_space(s[b - 1])
        }
}

/// Trimming takes all whitespace from both sides and nothing else.
pub proof fn trim_is_trimmed(s: Seq<char>)
    ensures
        is_trimmed(s, trim(s)),
{
    let a = lemma_trim_start(s);
    let t = s.skip(a);
    let n = lemma_trim_end(t);
    let b = a + n;
    assert(t.take(n) =~= s.subrange(a, b));
    assert forall|i: int| b <= i < s.len() implies is_space(#[trigger] s[i]) by {
        assert(is_space(t[i - a]));
    }
    if a < b {
        assert(s[b - 1] == t[n - 1]);
    }
}

/// Trimming takes all whitespace from both sides and nothing else.
pub proof fn trimming_takes_whitespace_only(s: &[char], r: &[char])
    requires
        call_ensures(trim_chars, (s,), r),
    ensures
        is_trimmed(s@, r@),
{
    trim_is_trimmed(s@);
}

/// Trimming on the right takes all whitespace there and nothing else.
pub proof fn trimming_the_end_takes_whitespace_only(s: &[char], r: &[char])
    requires
        call_ensures(trim_end_chars, (s,), r),
    ensures
        r@ == s@.take(r@.len() as int),
        forall|i: int| r@.len() <= i < s@.len() ==> is_space(#[trigger] s@[i]),
        r@.len() > 0 ==> !is_space(r@.last()),
{
    let n = lemma_trim_end(s@);
    assert(s@.take(n).len() == n);
}

/// Making a text small changes its ASCII capitals, each to the letter 32 further
/// on, and nothing else.
pub proof fn lowering_changes_capitals_only(s: &[char], r: Vec<char>)
    requires
        call_ensures(lower_chars, (s,), r),
    ensures
        r@.len() == s@.len(),
        forall|i: int|
            0 <= i < s@.len() ==> (#[trigger] r@[i]) as int == if 65 <= s@[i] as int <= 90 {
                s@[i] as int + 32
            } else {
                s@[i] as int
            },
{
}

/// Making small as a relation between two texts.
pub proof fn lower_changes_capitals_only(s: Seq<char>)
    ensures
        lower(s).len() == s.len(),
        forall|i: int|
            0 <= i < s.len() ==> (#[trigger] lower(s)[i]) as int == if 65 <= s[i] as int <= 90 {
                s[i] as int + 32
            } else {
                s[i] as int
            },
{
}

/// Taking the spaces out of a text keeps all its other characters in their
/// order.
pub proof fn only_spaces_are_taken_out(s: &[char], r: Vec<char>)
    requires
        call_ensures(without_space_chars, (s,), r),
    ensures
        r@ == s@.filter(|c: char| c != ' '),
        !r@.contains(' '),
{
    assert forall|i: int| 0 <= i < r@.len() implies r@[i] != ' ' by {
        s@.lemma_filter_pred(|c: char| c != ' ', i);
    }
}

/// A pattern matches at a place exactly where its characters follow one another
/// from there on.
pub proof fn matching_compares_every_character(
    text: &[char],
    pattern: &[char],
    at: usize,
    r: bool,
)
    requires
        call_ensures(matches_at, (text, pattern, at), r),
    ensures
        r <==> {
            &&& at + pattern@.len() <= text@.len()
            &&& forall|i: int|
                0 <= i < pattern@.len() ==> text@[at + i] == #[trigger] pattern@[i]
        },
{
    if at + pattern@.len() <= text@.len() {
        let part = text@.subrange(at as int, at + pattern@.len());
        assert forall|i: int| 0 <= i < pattern@.len() implies part[i] == text@[at + i] by {}
        if part == pattern@ {
            assert forall|i: int| 0 <= i < pattern@.len() implies text@[at + i]
                == #[trigger] pattern@[i] by {
                assert(part[i] == pattern@[i]);
            }
        }
        if forall|i: int| 0 <= i < pattern@.len() ==> text@[at + i] == #[trigger] pattern@[i] {
            assert(part =~= pattern@);
        }
    }
}

} // verus!
