//! Searching, trimming and splitting of text, on characters.
//!
//! Every operation works on a slice of characters, so that a string is decoded
//! once and cut without further copies.

use vstd::prelude::*;
use vstd::slice::slice_subrange;

verus! {

/// The text in an optional string slice.
pub open spec fn slice_text(s: Option<&str>) -> Option<Seq<char>> {
    match s {
        Some(s) => Some(s@),
        None => None,
    }
}

/// The text in an optional string.
pub open spec fn string_text(s: Option<String>) -> Option<Seq<char>> {
    match s {
        Some(s) => Some(s@),
        None => None,
    }
}

/// The characters with the Unicode property `White_Space`.
pub open spec fn white_space(c: char) -> bool {
    ||| '\u{9}' <= c <= '\u{d}'
    ||| c == '\u{20}'
    ||| c == '\u{85}'
    ||| c == '\u{a0}'
    ||| c == '\u{1680}'
    ||| '\u{2000}' <= c <= '\u{200a}'
    ||| c == '\u{2028}'
    ||| c == '\u{2029}'
    ||| c == '\u{202f}'
    ||| c == '\u{205f}'
    ||| c == '\u{3000}'
}

/// `s` without the white space it starts with.
pub open spec fn trimmed_start(s: Seq<char>) -> Seq<char>
    decreases s.len(),
{
    if s.len() > 0 && white_space(s[0]) {
        trimmed_start(s.skip(1))
    } else {
        s
    }
}

/// `s` without the white space it ends with.
pub open spec fn trimmed_end(s: Seq<char>) -> Seq<char>
    decreases s.len(),
{
    if s.len() > 0 && white_space(s.last()) {
        trimmed_end(s.drop_last())
    } else {
        s
    }
}

/// `s` without the white space at either end.
pub open spec fn trimmed(s: Seq<char>) -> Seq<char> {
    trimmed_end(trimmed_start(s))
}

/// `s` without the run of `c` it starts with.
pub open spec fn stripped(s: Seq<char>, c: char) -> Seq<char>
    decreases s.len(),
{
    if s.len() > 0 && s[0] == c {
        stripped(s.skip(1), c)
    } else {
        s
    }
}

/// The index of the first `c` in `s`; the length of `s` where there is none.
pub open spec fn first_index(s: Seq<char>, c: char) -> int
    decreases s.len(),
{
    if s.len() == 0 || s[0] == c {
        0
    } else {
        1 + first_index(s.skip(1), c)
    }
}

/// What stands before the first `c` in `s`; all of `s` where there is none.
pub open spec fn before_first(s: Seq<char>, c: char) -> Seq<char> {
    s.take(first_index(s, c))
}

/// What stands behind the last `c` in `s`; all of `s` where there is none.
pub open spec fn after_last(s: Seq<char>, c: char) -> Seq<char>
    decreases s.len(),
{
    if s.len() == 0 || s.last() == c {
        Seq::empty()
    } else {
        after_last(s.drop_last(), c).push(s.last())
    }
}

/// The pieces of `s` between the occurrences of `c`, in order.
pub open spec fn split(s: Seq<char>, c: char) -> Seq<Seq<char>>
    decreases s.len(),
{
    let k = first_index(s, c);
    if 0 <= k < s.len() {
        seq![s.take(k)] + split(s.skip(k + 1), c)
    } else {
        seq![s]
    }
}

/// Whether `pattern` stands somewhere in `s`.
pub open spec fn has_text(s: Seq<char>, pattern: Seq<char>) -> bool {
    exists|i: int| 0 <= i <= s.len() - pattern.len() && #[trigger] text_at(s, i, pattern)
}

/// Whether `pattern` stands in `s` at index `i`.
pub open spec fn text_at(s: Seq<char>, i: int, pattern: Seq<char>) -> bool {
    s.subrange(i, i + pattern.len()) == pattern
}

/// The lower-case form of an ASCII letter; every other character is itself.
pub open spec fn ascii_lower(c: char) -> char {
    if 'A' <= c <= 'Z' {
        (c as u32 + 32) as char
    } else {
        c
    }
}

/// Whether two texts differ at most in the case of ASCII letters.
pub open spec fn same_ignoring_case(a: Seq<char>, b: Seq<char>) -> bool {
    a.map_values(|c: char| ascii_lower(c)) == b.map_values(|c: char| ascii_lower(c))
}

/// A text starts behind the white space in front of it.
pub proof fn lemma_trimmed_start(s: Seq<char>, i: int)
    requires
        0 <= i <= s.len(),
        forall|j: int| 0 <= j < i ==> white_space(s[j]),
        i == s.len() || !white_space(s[i]),
    ensures
        trimmed_start(s) == s.skip(i),
    decreases i,
{
    if i == 0 {
        assert(s.skip(0) == s);
    } else {
        lemma_trimmed_start(s.skip(1), i - 1);
        assert(s.skip(1).skip(i - 1) == s.skip(i));
    }
}

/// A text ends before the white space behind it.
pub proof fn lemma_trimmed_end(s: Seq<char>, i: int)
    requires
        0 <= i <= s.len(),
        forall|j: int| i <= j < s.len() ==> white_space(s[j]),
        i == 0 || !white_space(s[i - 1]),
    ensures
        trimmed_end(s) == s.take(i),
    decreases s.len() - i,
{
    if i == s.len() {
        assert(s.take(i) == s);
    } else {
        lemma_trimmed_end(s.drop_last(), i);
        assert(s.drop_last().take(i) == s.take(i));
    }
}

/// A text is stripped of the run of `c` in front of it.
pub proof fn lemma_stripped(s: Seq<char>, c: char, i: int)
    requires
        0 <= i <= s.len(),
        forall|j: int| 0 <= j < i ==> s[j] == c,
        i == s.len() || s[i] != c,
    ensures
        stripped(s, c) == s.skip(i),
    decreases i,
{
    if i == 0 {
        assert(s.skip(0) == s);
    } else {
        lemma_stripped(s.skip(1), c, i - 1);
        assert(s.skip(1).skip(i - 1) == s.skip(i));
    }
}

/// The first `c` is the one with no other before it.
pub proof fn lemma_first_index(s: Seq<char>, c: char, i: int)
    requires
        0 <= i <= s.len(),
        forall|j: int| 0 <= j < i ==> s[j] != c,
        i == s.len() || s[i] == c,
    ensures
        first_index(s, c) == i,
    decreases i,
{
    if i > 0 {
        lemma_first_index(s.skip(1), c, i - 1);
    }
}

/// Before the first `c` there is none, and it is one where it is in the text.
pub proof fn lemma_first_index_bounds(s: Seq<char>, c: char)
    ensures
        0 <= first_index(s, c) <= s.len(),
        first_index(s, c) < s.len() ==> s[first_index(s, c)] == c,
        forall|j: int| 0 <= j < first_index(s, c) ==> s[j] != c,
    decreases s.len(),
{
    if s.len() > 0 && s[0] != c {
        let rest = s.skip(1);
        lemma_first_index_bounds(rest, c);
        assert forall|j: int| 0 <= j < first_index(s, c) implies s[j] != c by {
            if j > 0 {
                assert(s[j] == rest[j - 1]);
            }
        }
    }
}

/// The last piece starts behind the last `c`.
pub proof fn lemma_after_last(s: Seq<char>, c: char, i: int)
    requires
        0 <= i <= s.len(),
        forall|j: int| i <= j < s.len() ==> s[j] != c,
        i == 0 || s[i - 1] == c,
    ensures
        after_last(s, c) == s.skip(i),
    decreases s.len() - i,
{
    if i == s.len() {
        assert(s.skip(i) == Seq::<char>::empty());
    } else {
        lemma_after_last(s.drop_last(), c, i);
        assert(s.drop_last().skip(i).push(s.last()) == s.skip(i));
    }
}

/// The characters of a string.
pub fn chars_of(s: &str) -> (r: Vec<char>)
    ensures
        r@ == s@,
{
    let mut out: Vec<char> = Vec::new();
    for c in it: s.chars()
        invariant
            it.seq() == s@,
            out@ == s@.take(it.index() as int),
    {
        out.push(c);
    }
    assert(s@.take(s@.len() as int) == s@);
    out
}

/// Whether `c` is white space.
pub fn is_white_space(c: char) -> (r: bool)
    ensures
        r == white_space(c),
{
    ('\u{9}' <= c && c <= '\u{d}') || c == '\u{20}' || c == '\u{85}' || c == '\u{a0}' || c
        == '\u{1680}' || ('\u{2000}' <= c && c <= '\u{200a}') || c == '\u{2028}' || c == '\u{2029}'
        || c == '\u{202f}' || c == '\u{205f}' || c == '\u{3000}'
}

/// Where the text of `s` starts and ends, without the white space around it.
pub fn trim_bounds(s: &[char]) -> (r: (usize, usize))
    ensures
        r.0 <= r.1 <= s@.len(),
        s@.subrange(r.0 as int, r.1 as int) == trimmed(s@),
{
    let mut start: usize = 0;
    while start < s.len() && is_white_space(s[start])
        invariant
            start <= s@.len(),
            forall|j: int| 0 <= j < start ==> white_space(s@[j]),
        decreases s@.len() - start,
    {
        start = start + 1;
    }
    proof {
        lemma_trimmed_start(s@, start as int);
    }
    let mut end: usize = s.len();
    while end > start && is_white_space(s[end - 1])
        invariant
            start <= end <= s@.len(),
            forall|j: int| end <= j < s@.len() ==> white_space(s@[j]),
        decreases end,
    {
        end = end - 1;
    }
    proof {
        let t = s@.skip(start as int);
        assert forall|j: int| end - start <= j < t.len() implies white_space(t[j]) by {
            assert(t[j] == s@[j + start]);
        }
        lemma_trimmed_end(t, end - start);
        assert(t.take(end - start) == s@.subrange(start as int, end as int));
    }
    (start, end)
}

/// `s` without the white space at either end.
pub fn trim(s: &[char]) -> (r: &[char])
    ensures
        r@ == trimmed(s@),
{
    let (start, end) = trim_bounds(s);
    slice_subrange(s, start, end)
}

/// The length of the run of `c` that `s` starts with.
pub fn run_length(s: &[char], c: char) -> (r: usize)
    ensures
        r <= s@.len(),
        s@.skip(r as int) == stripped(s@, c),
{
    let mut start: usize = 0;
    while start < s.len() && s[start] == c
        invariant
            start <= s@.len(),
            forall|j: int| 0 <= j < start ==> s@[j] == c,
        decreases s@.len() - start,
    {
        start = start + 1;
    }
    proof {
        lemma_stripped(s@, c, start as int);
    }
    start
}

/// `s` without the run of `c` it starts with.
pub fn strip(s: &[char], c: char) -> (r: &[char])
    ensures
        r@ == stripped(s@, c),
{
    let start: usize = run_length(s, c);
    slice_subrange(s, start, s.len())
}

/// The index of the first `c` in `s`; the length of `s` where there is none.
pub fn find_first(s: &[char], c: char) -> (r: usize)
    ensures
        r == first_index(s@, c),
        r <= s@.len(),
        r < s@.len() ==> s@[r as int] == c,
        forall|j: int| 0 <= j < r ==> s@[j] != c,
{
    let mut i: usize = 0;
    while i < s.len() && s[i] != c
        invariant
            i <= s@.len(),
            forall|j: int| 0 <= j < i ==> s@[j] != c,
        decreases s@.len() - i,
    {
        i = i + 1;
    }
    proof {
        lemma_first_index(s@, c, i as int);
    }
    i
}

/// What stands behind the last `c` in `s`; all of `s` where there is none.
pub fn last_piece(s: &[char], c: char) -> (r: &[char])
    ensures
        r@ == after_last(s@, c),
{
    let mut i: usize = s.len();
    while i > 0 && s[i - 1] != c
        invariant
            i <= s@.len(),
            forall|j: int| i <= j < s@.len() ==> s@[j] != c,
        decreases i,
    {
        i = i - 1;
    }
    proof {
        lemma_after_last(s@, c, i as int);
    }
    slice_subrange(s, i, s.len())
}

/// Whether two texts are equal.
pub fn same(a: &[char], b: &[char]) -> (r: bool)
    ensures
        r == (a@ == b@),
{
    if a.len() != b.len() {
        return false;
    }
    let mut i: usize = 0;
    while i < a.len()
        invariant
            i <= a@.len(),
            a@.len() == b@.len(),
            forall|j: int| 0 <= j < i ==> a@[j] == b@[j],
        decreases a@.len() - i,
    {
        if a[i] != b[i] {
            return false;
        }
        i = i + 1;
    }
    assert(a@ =~= b@);
    true
}

/// Whether `s` is the given text.
pub fn is_text(s: &[char], expected: &str) -> (r: bool)
    ensures
        r == (s@ == expected@),
{
    let chars: Vec<char> = chars_of(expected);
    same(s, chars.as_slice())
}

/// Whether `s` starts with `prefix`.
pub fn has_prefix(s: &[char], prefix: &[char]) -> (r: bool)
    ensures
        r == prefix@.is_prefix_of(s@),
{
    if s.len() < prefix.len() {
        return false;
    }
    let r = same(slice_subrange(s, 0, prefix.len()), prefix);
    assert(r == prefix@.is_prefix_of(s@));
    r
}

/// Whether `pattern` stands somewhere in `s`.
pub fn contains(s: &[char], pattern: &[char]) -> (r: bool)
    ensures
        r == has_text(s@, pattern@),
{
    if s.len() < pattern.len() {
        return false;
    }
    let last: usize = s.len() - pattern.len();
    let mut i: usize = 0;
    while i <= last
        invariant
            i <= last + 1,
            last == s.len() - pattern.len(),
            forall|j: int| 0 <= j < i ==> !text_at(s@, j, pattern@),
        decreases last + 1 - i,
    {
        if same(slice_subrange(s, i, i + pattern.len()), pattern) {
            assert(text_at(s@, i as int, pattern@));
            return true;
        }
        if i == last {
            return false;
        }
        i = i + 1;
    }
    false
}

fn lower(c: char) -> (r: char)
    ensures
        r == ascii_lower(c),
{
    if 'A' <= c && c <= 'Z' {
        let code: u8 = c as u8;
        (code + 32) as char
    } else {
        c
    }
}

/// Whether two texts differ at most in the case of ASCII letters.
pub fn equal_ignoring_case(a: &[char], b: &[char]) -> (r: bool)
    ensures
        r == same_ignoring_case(a@, b@),
{
    let ghost la = a@.map_values(|c: char| ascii_lower(c));
    let ghost lb = b@.map_values(|c: char| ascii_lower(c));
    if a.len() != b.len() {
        assert(la.len() != lb.len());
        return false;
    }
    let mut i: usize = 0;
    while i < a.len()
        invariant
            i <= a@.len(),
            a@.len() == b@.len(),
            la == a@.map_values(|c: char| ascii_lower(c)),
            lb == b@.map_values(|c: char| ascii_lower(c)),
            forall|j: int| 0 <= j < i ==> la[j] == lb[j],
        decreases a@.len() - i,
    {
        if lower(a[i]) != lower(b[i]) {
            assert(la[i as int] != lb[i as int]);
            return false;
        }
        i = i + 1;
    }
    assert(la =~= lb);
    true
}

/// An optional string holds its text, and nothing holds none.
pub proof fn law_optional_texts(slice: &str, string: String)
    ensures
        slice_text(Some(slice)) == Some(slice@),
        slice_text(None) is None,
        string_text(Some(string)) == Some(string@),
        string_text(None) is None,
{
}

/// There are twenty-five characters of white space.
pub proof fn law_white_space(c: char)
    ensures
        white_space(c) <==> seq![
            '\t',
            '\n',
            '\u{b}',
            '\u{c}',
            '\r',
            ' ',
            '\u{85}',
            '\u{a0}',
            '\u{1680}',
            '\u{2000}',
            '\u{2001}',
            '\u{2002}',
            '\u{2003}',
            '\u{2004}',
            '\u{2005}',
            '\u{2006}',
            '\u{2007}',
            '\u{2008}',
            '\u{2009}',
            '\u{200a}',
            '\u{2028}',
            '\u{2029}',
            '\u{202f}',
            '\u{205f}',
            '\u{3000}',
        ].contains(c),
{
    let all = seq![
        '\t',
        '\n',
        '\u{b}',
        '\u{c}',
        '\r',
        ' ',
        '\u{85}',
        '\u{a0}',
        '\u{1680}',
        '\u{2000}',
        '\u{2001}',
        '\u{2002}',
        '\u{2003}',
        '\u{2004}',
        '\u{2005}',
        '\u{2006}',
        '\u{2007}',
        '\u{2008}',
        '\u{2009}',
        '\u{200a}',
        '\u{2028}',
        '\u{2029}',
        '\u{202f}',
        '\u{205f}',
        '\u{3000}',
    ];
    if white_space(c) {
        let i: int = if c <= '\r' {
            c as int - 9
        } else if c == ' ' {
            5
        } else if c == '\u{85}' {
            6
        } else if c == '\u{a0}' {
            7
        } else if c == '\u{1680}' {
            8
        } else if c <= '\u{200a}' {
            c as int - 0x2000 + 9
        } else if c <= '\u{2029}' {
            c as int - 0x2028 + 20
        } else if c == '\u{202f}' {
            22
        } else if c == '\u{205f}' {
            23
        } else {
            24
        };
        assert(all[i] == c);
    }
}

/// Trimming takes away all white space at either end, and nothing else.
pub proof fn law_trimmed(before: Seq<char>, s: Seq<char>, after: Seq<char>)
    requires
        forall|i: int| 0 <= i < before.len() ==> white_space(before[i]),
        forall|i: int| 0 <= i < after.len() ==> white_space(after[i]),
        s.len() == 0 || (!white_space(s[0]) && !white_space(s.last())),
    ensures
        trimmed(before + s + after) == s,
{
    let whole = before + s + after;
    if s.len() == 0 {
        assert forall|j: int| 0 <= j < whole.len() implies white_space(whole[j]) by {
            if j < before.len() {
                assert(whole[j] == before[j]);
            } else {
                assert(whole[j] == after[j - before.len()]);
            }
        }
        lemma_trimmed_start(whole, whole.len() as int);
        assert(whole.skip(whole.len() as int) == s);
        lemma_trimmed_end(s, 0);
        assert(s.take(0) == s);
    } else {
        assert forall|j: int| 0 <= j < before.len() implies white_space(whole[j]) by {
            assert(whole[j] == before[j]);
        }
        assert(whole[before.len() as int] == s[0]);
        lemma_trimmed_start(whole, before.len() as int);
        let rest = whole.skip(before.len() as int);
        assert(rest == s + after);
        assert forall|j: int| s.len() <= j < rest.len() implies white_space(rest[j]) by {
            assert(rest[j] == after[j - s.len()]);
        }
        assert(rest[s.len() - 1] == s.last());
        lemma_trimmed_end(rest, s.len() as int);
        assert(rest.take(s.len() as int) == s);
    }
}

/// The white space around a text is what trimming takes away.
pub proof fn law_trimmed_splits(s: Seq<char>)
    ensures
        exists|before: Seq<char>, after: Seq<char>|
            s == #[trigger] (before + trimmed(s) + after) && (forall|i: int|
                0 <= i < before.len() ==> white_space(before[i])) && (forall|i: int|
                0 <= i < after.len() ==> white_space(after[i])),
        trimmed(s).len() > 0 ==> !white_space(trimmed(s)[0]) && !white_space(trimmed(s).last()),
{
    let (before, rest) = lemma_trimmed_start_splits(s);
    let after = lemma_trimmed_end_splits(rest);
    assert(s == before + trimmed(s) + after);
    if trimmed(s).len() > 0 {
        assert(trimmed(s)[0] == rest[0]);
    }
}

/// The white space that a text starts with, and what stands behind it.
proof fn lemma_trimmed_start_splits(s: Seq<char>) -> (r: (Seq<char>, Seq<char>))
    ensures
        s == r.0 + r.1,
        r.1 == trimmed_start(s),
        forall|i: int| 0 <= i < r.0.len() ==> white_space(r.0[i]),
        r.1.len() > 0 ==> !white_space(r.1[0]),
    decreases s.len(),
{
    if s.len() > 0 && white_space(s[0]) {
        let (before, rest) = lemma_trimmed_start_splits(s.skip(1));
        assert(s == seq![s[0]] + s.skip(1));
        assert(s == (seq![s[0]] + before) + rest);
        (seq![s[0]] + before, rest)
    } else {
        assert(Seq::<char>::empty() + s == s);
        (Seq::empty(), s)
    }
}

/// The white space that a text ends with.
proof fn lemma_trimmed_end_splits(s: Seq<char>) -> (after: Seq<char>)
    ensures
        s == trimmed_end(s) + after,
        forall|i: int| 0 <= i < after.len() ==> white_space(after[i]),
        trimmed_end(s).len() > 0 ==> !white_space(trimmed_end(s).last()),
    decreases s.len(),
{
    if s.len() > 0 && white_space(s.last()) {
        let after = lemma_trimmed_end_splits(s.drop_last());
        assert(s == s.drop_last().push(s.last()));
        assert(s == trimmed_end(s) + after.push(s.last()));
        after.push(s.last())
    } else {
        assert(s + Seq::<char>::empty() == s);
        Seq::empty()
    }
}

/// Stripping takes away the whole run of a character at the start, and nothing
/// else.
pub proof fn law_stripped(run: Seq<char>, c: char, rest: Seq<char>)
    requires
        forall|i: int| 0 <= i < run.len() ==> run[i] == c,
        rest.len() == 0 || rest[0] != c,
    ensures
        stripped(run + rest, c) == rest,
{
    let whole = run + rest;
    assert forall|j: int| 0 <= j < run.len() implies whole[j] == c by {
        assert(whole[j] == run[j]);
    }
    if rest.len() > 0 {
        assert(whole[run.len() as int] == rest[0]);
    }
    lemma_stripped(whole, c, run.len() as int);
    assert(whole.skip(run.len() as int) == rest);
}

/// A text is cut at its first separator, and stays whole where it has none.
pub proof fn law_before_first(a: Seq<char>, c: char, b: Seq<char>)
    requires
        !a.contains(c),
    ensures
        before_first(a, c) == a,
        before_first(a + seq![c] + b, c) == a,
        first_index(a, c) == a.len(),
        first_index(a + seq![c] + b, c) == a.len(),
{
    let whole = a + seq![c] + b;
    assert forall|j: int| 0 <= j < a.len() implies a[j] != c && whole[j] != c by {
        assert(a.contains(a[j]));
        assert(whole[j] == a[j]);
    }
    lemma_first_index(a, c, a.len() as int);
    assert(whole[a.len() as int] == c);
    lemma_first_index(whole, c, a.len() as int);
    assert(a.take(a.len() as int) == a);
    assert(whole.take(a.len() as int) == a);
}

/// The last piece of a text stands behind its last separator, and is all of it
/// where it has none.
pub proof fn law_after_last(a: Seq<char>, c: char, b: Seq<char>)
    requires
        !b.contains(c),
    ensures
        after_last(b, c) == b,
        after_last(a + seq![c] + b, c) == b,
{
    let whole = a + seq![c] + b;
    assert forall|j: int| 0 <= j < b.len() implies b[j] != c by {
        assert(b.contains(b[j]));
    }
    lemma_after_last(b, c, 0);
    assert(b.skip(0) == b);
    assert forall|j: int| a.len() + 1 <= j < whole.len() implies whole[j] != c by {
        assert(whole[j] == b[j - a.len() - 1]);
    }
    assert(whole[a.len() as int] == c);
    lemma_after_last(whole, c, a.len() as int + 1);
    assert(whole.skip(a.len() as int + 1) == b);
}

/// A text without a separator is one piece; the piece before the first separator
/// comes before the pieces behind it.
pub proof fn law_split(a: Seq<char>, c: char, b: Seq<char>)
    requires
        !a.contains(c),
    ensures
        split(a, c) == seq![a],
        split(a + seq![c] + b, c) == seq![a] + split(b, c),
{
    law_before_first(a, c, b);
    assert((a + seq![c] + b).skip(a.len() as int + 1) == b);
}

/// No piece of a text holds the separator, and there is at least one piece.
pub proof fn law_pieces_hold_no_separator(s: Seq<char>, c: char)
    ensures
        split(s, c).len() > 0,
        forall|i: int| 0 <= i < split(s, c).len() ==> !(#[trigger] split(s, c)[i]).contains(c),
    decreases s.len(),
{
    let k = first_index(s, c);
    lemma_first_index_bounds(s, c);
    let first = s.take(k);
    assert forall|j: int| 0 <= j < first.len() implies first[j] != c by {
        assert(first[j] == s[j]);
    }
    if k < s.len() {
        let rest = split(s.skip(k + 1), c);
        law_pieces_hold_no_separator(s.skip(k + 1), c);
        assert(split(s, c) == seq![first] + rest);
        assert forall|i: int| 0 <= i < split(s, c).len() implies !(#[trigger] split(s, c)[i])
            .contains(c) by {
            if i > 0 {
                assert(split(s, c)[i] == rest[i - 1]);
            }
        }
    } else {
        assert(first == s);
    }
}

/// A pattern stands in a text where the text is something, the pattern, and
/// something else.
pub proof fn law_has_text(s: Seq<char>, pattern: Seq<char>)
    ensures
        has_text(s, pattern) <==> exists|a: Seq<char>, b: Seq<char>|
            s == #[trigger] (a + pattern + b),
{
    if has_text(s, pattern) {
        let i = choose|i: int|
            0 <= i <= s.len() - pattern.len() && #[trigger] text_at(s, i, pattern);
        let a = s.take(i);
        let b = s.skip(i + pattern.len());
        assert(s == a + s.subrange(i, i + pattern.len()) + b);
        assert(s == a + pattern + b);
    }
    if exists|a: Seq<char>, b: Seq<char>| s == #[trigger] (a + pattern + b) {
        let (a, b) = choose|a: Seq<char>, b: Seq<char>| s == #[trigger] (a + pattern + b);
        let i = a.len() as int;
        assert(s.subrange(i, i + pattern.len()) == pattern);
        assert(text_at(s, i, pattern));
    }
}

/// Two texts are the same, whatever their case, where they differ in no place but
/// by a capital and a small letter of the Latin alphabet.
pub proof fn law_same_ignoring_case(a: Seq<char>, b: Seq<char>)
    ensures
        same_ignoring_case(a, b) <==> a.len() == b.len() && forall|i: int|
            #![trigger a[i]]
            #![trigger b[i]]
            0 <= i < a.len() ==> (a[i] == b[i] || ('A' <= a[i] <= 'Z' && b[i] as int == a[i] as int
                + 32) || ('A' <= b[i] <= 'Z' && a[i] as int == b[i] as int + 32)),
{
    let x = a.map_values(|c: char| ascii_lower(c));
    let y = b.map_values(|c: char| ascii_lower(c));
    if same_ignoring_case(a, b) {
        assert(a.len() == x.len() && b.len() == y.len());
        assert forall|i: int|
            #![trigger a[i]]
            #![trigger b[i]]
            0 <= i < a.len() implies (a[i] == b[i] || ('A' <= a[i] <= 'Z' && b[i] as int
            == a[i] as int + 32) || ('A' <= b[i] <= 'Z' && a[i] as int == b[i] as int + 32)) by {
            assert(x[i] == ascii_lower(a[i]));
            assert(y[i] == ascii_lower(b[i]));
        }
    }
    if a.len() == b.len() && forall|i: int|
        #![trigger a[i]]
        #![trigger b[i]]
        0 <= i < a.len() ==> (a[i] == b[i] || ('A' <= a[i] <= 'Z' && b[i] as int == a[i] as int
            + 32) || ('A' <= b[i] <= 'Z' && a[i] as int == b[i] as int + 32)) {
        assert forall|i: int| 0 <= i < a.len() implies x[i] == y[i] by {
            assert(x[i] == ascii_lower(a[i]));
            assert(y[i] == ascii_lower(b[i]));
        }
        assert(x =~= y);
    }
}

/// What stands behind the last separator stands behind any separator before it.
proof fn lemma_after_last_continues(a: Seq<char>, c: char, b: Seq<char>)
    ensures
        after_last(a + seq![c] + b, c) == after_last(b, c),
    decreases b.len(),
{
    let whole = a + seq![c] + b;
    if b.len() == 0 {
        assert(whole.last() == c);
    } else {
        assert(whole.last() == b.last());
        lemma_after_last_continues(a, c, b.drop_last());
        assert(whole.drop_last() == a + seq![c] + b.drop_last());
    }
}

/// The last piece of a text is what stands behind its last separator.
pub proof fn law_last_piece(s: Seq<char>, c: char)
    ensures
        split(s, c).last() == after_last(s, c),
    decreases s.len(),
{
    let k = first_index(s, c);
    lemma_first_index_bounds(s, c);
    let a = s.take(k);
    if k < s.len() {
        let b = s.skip(k + 1);
        assert(s == a + seq![c] + b);
        lemma_after_last_continues(a, c, b);
        law_last_piece(b, c);
        law_pieces_hold_no_separator(b, c);
    } else {
        assert(!s.contains(c));
        law_after_last(Seq::empty(), c, s);
    }
}

} // verus!
