//! Character-sequence helpers shared by the route tree and the request parser.
//!
//! Text is modelled as `Seq<char>`, the view of `str` and `String`. The spec
//! functions here say what splitting means; the executable functions compute
//! it and are proved against them.

use vstd::prelude::*;

verus! {

/// `String::push` appends one character at the end of the string.
pub assume_specification[ String::push ](s: &mut String, ch: char)
    ensures
        final(s)@ == old(s)@.push(ch),
;

/// Index of the first occurrence of `c` in `s`, or `s.len()` when `c` does
/// not occur.
pub open spec fn first_index(s: Seq<char>, c: char) -> int
    decreases s.len(),
{
    if s.len() == 0 || s[0] == c {
        0
    } else {
        1 + first_index(s.skip(1), c)
    }
}

/// The part of `s` before the first `c`, and the part after it; `None` when
/// `c` does not occur.
pub open spec fn split_once(s: Seq<char>, c: char) -> Option<(Seq<char>, Seq<char>)> {
    let i = first_index(s, c);
    if i < s.len() {
        Some((s.take(i), s.skip(i + 1)))
    } else {
        None
    }
}

/// The pieces of `s` between occurrences of `c`. There is always at least one
/// piece; pieces may be empty.
pub open spec fn split(s: Seq<char>, c: char) -> Seq<Seq<char>>
    decreases s.len(),
{
    let i = first_index(s, c);
    if 0 <= i < s.len() {
        seq![s.take(i)] + split(s.skip(i + 1), c)
    } else {
        seq![s]
    }
}

/// Index of the first place where `pattern` occurs in `s`, or `s.len()` when
/// it does not occur.
pub open spec fn first_match(s: Seq<char>, pattern: Seq<char>) -> int
    decreases s.len(),
{
    if s.len() < pattern.len() || s.len() == 0 {
        s.len() as int
    } else if s.take(pattern.len() as int) == pattern {
        0
    } else {
        1 + first_match(s.skip(1), pattern)
    }
}

/// Whether `pattern` occurs in `s`.
pub open spec fn has_match(s: Seq<char>, pattern: Seq<char>) -> bool {
    first_match(s, pattern) + pattern.len() <= s.len()
}

/// The pieces of `s` between occurrences of the non-empty `separator`.
pub open spec fn split_by(s: Seq<char>, separator: Seq<char>) -> Seq<Seq<char>>
    decreases s.len(),
{
    let i = first_match(s, separator);
    if separator.len() > 0 && 0 <= i && i + separator.len() <= s.len() {
        seq![s.take(i)] + split_by(s.skip(i + separator.len()), separator)
    } else {
        seq![s]
    }
}

/// Whether `c` is white space: one of the 25 characters with the Unicode
/// property `White_Space`.
pub open spec fn is_whitespace(c: char) -> bool {
    ||| c == '\u{9}'
    ||| c == '\u{a}'
    ||| c == '\u{b}'
    ||| c == '\u{c}'
    ||| c == '\u{d}'
    ||| c == '\u{20}'
    ||| c == '\u{85}'
    ||| c == '\u{a0}'
    ||| c == '\u{1680}'
    ||| c == '\u{2000}'
    ||| c == '\u{2001}'
    ||| c == '\u{2002}'
    ||| c == '\u{2003}'
    ||| c == '\u{2004}'
    ||| c == '\u{2005}'
    ||| c == '\u{2006}'
    ||| c == '\u{2007}'
    ||| c == '\u{2008}'
    ||| c == '\u{2009}'
    ||| c == '\u{200a}'
    ||| c == '\u{2028}'
    ||| c == '\u{2029}'
    ||| c == '\u{202f}'
    ||| c == '\u{205f}'
    ||| c == '\u{3000}'
}

/// `s` without the white space at its start.
pub open spec fn trim_start(s: Seq<char>) -> Seq<char>
    decreases s.len(),
{
    if s.len() > 0 && is_whitespace(s[0]) {
        trim_start(s.skip(1))
    } else {
        s
    }
}

/// `s` without the white space at its end.
pub open spec fn trim_end(s: Seq<char>) -> Seq<char>
    decreases s.len(),
{
    if s.len() > 0 && is_whitespace(s.last()) {
        trim_end(s.drop_last())
    } else {
        s
    }
}

/// `s` without the white space at its start and at its end.
pub open spec fn trim(s: Seq<char>) -> Seq<char> {
    trim_end(trim_start(s))
}

/// The views of a sequence of strings.
pub open spec fn views(v: Seq<String>) -> Seq<Seq<char>> {
    Seq::new(v.len(), |i: int| v[i]@)
}

/// The view of an optional string.
pub open spec fn opt_view(s: Option<String>) -> Option<Seq<char>> {
    match s {
        Some(t) => Some(t@),
        None => None,
    }
}

/// `first_index` is the least position holding `c`, and is `s.len()` exactly
/// when there is none.
pub proof fn lemma_first_index_bounds(s: Seq<char>, c: char)
    ensures
        0 <= first_index(s, c) <= s.len(),
        forall|j: int| 0 <= j < first_index(s, c) ==> s[j] != c,
        first_index(s, c) < s.len() ==> s[first_index(s, c)] == c,
        first_index(s, c) < s.len() <==> s.contains(c),
    decreases s.len(),
{
    if s.len() == 0 || s[0] == c {
        if s.len() > 0 {
            assert(s.contains(c));
        }
    } else {
        let t = s.skip(1);
        lemma_first_index_bounds(t, c);
        assert forall|j: int| 0 <= j < first_index(s, c) implies s[j] != c by {
            if j > 0 {
                assert(s[j] == t[j - 1]);
            }
        }
        if first_index(t, c) < t.len() {
            assert(s[first_index(s, c)] == t[first_index(t, c)]);
            assert(s.contains(c));
        } else if s.contains(c) {
            let k = choose|k: int| 0 <= k < s.len() && s[k] == c;
            assert(t[k - 1] == c);
        }
    }
}

/// A position `i` that holds the first `c` of `s`, or is `s.len()` with no
/// `c` before it, is `first_index(s, c)`.
pub proof fn lemma_first_index_is(s: Seq<char>, c: char, i: int)
    requires
        0 <= i <= s.len(),
        forall|j: int| 0 <= j < i ==> s[j] != c,
        i < s.len() ==> s[i] == c,
    ensures
        first_index(s, c) == i,
{
    lemma_first_index_bounds(s, c);
}

/// A piece of a split never holds the separator.
pub proof fn lemma_split_pieces_lack_separator(s: Seq<char>, c: char)
    ensures
        split(s, c).len() >= 1,
        forall|k: int| 0 <= k < split(s, c).len() ==> !(#[trigger] split(s, c)[k]).contains(c),
    decreases s.len(),
{
    lemma_first_index_bounds(s, c);
    let i = first_index(s, c);
    if i < s.len() {
        let rest = split(s.skip(i + 1), c);
        lemma_split_pieces_lack_separator(s.skip(i + 1), c);
        assert forall|k: int| 0 <= k < split(s, c).len() implies !(#[trigger] split(
            s,
            c,
        )[k]).contains(c) by {
            if k == 0 {
                assert(split(s, c)[0] == s.take(i));
                if s.take(i).contains(c) {
                    let j = choose|j: int| 0 <= j < s.take(i).len() && s.take(i)[j] == c;
                    assert(s[j] == c);
                }
            } else {
                assert(split(s, c)[k] == rest[k - 1]);
            }
        }
    }
}

/// A character other than the separator that occurs in `s` occurs in one of
/// the pieces of its split.
pub proof fn lemma_split_covers(s: Seq<char>, sep: char, c: char)
    requires
        c != sep,
        s.contains(c),
    ensures
        exists|k: int| 0 <= k < split(s, sep).len() && (#[trigger] split(s, sep)[k]).contains(c),
    decreases s.len(),
{
    lemma_first_index_bounds(s, sep);
    let i = first_index(s, sep);
    let j = choose|j: int| 0 <= j < s.len() && s[j] == c;
    if i < s.len() {
        let rest = s.skip(i + 1);
        if j < i {
            assert(s.take(i)[j] == c);
            assert(split(s, sep)[0].contains(c));
        } else {
            assert(rest[j - i - 1] == c);
            lemma_split_covers(rest, sep, c);
            let k = choose|k: int| 0 <= k < split(rest, sep).len() && (#[trigger] split(rest, sep)[k]).contains(c);
            assert(split(s, sep)[k + 1] == split(rest, sep)[k]);
        }
    } else {
        assert(split(s, sep)[0] == s);
    }
}

/// A position `i` where `pattern` occurs in `s` for the first time, or
/// `s.len()` where it occurs nowhere, is `first_match(s, pattern)`.
pub proof fn lemma_first_match_is(s: Seq<char>, pattern: Seq<char>, i: int)
    requires
        pattern.len() > 0,
        0 <= i <= s.len(),
        forall|j: int|
            0 <= j < i && j + pattern.len() <= s.len() ==> #[trigger] s.subrange(j, j + pattern.len())
                != pattern,
        i < s.len() ==> i + pattern.len() <= s.len() && s.subrange(i, i + pattern.len()) == pattern,
    ensures
        first_match(s, pattern) == i,
    decreases s.len(),
{
    if s.len() >= pattern.len() && s.len() > 0 {
        assert(s.take(pattern.len() as int) =~= s.subrange(0int, 0int + pattern.len()));
        if s.take(pattern.len() as int) != pattern {
            let t = s.skip(1);
            assert forall|j: int| 0 <= j < i - 1 && j + pattern.len() <= t.len() implies #[trigger] t.subrange(
                j,
                j + pattern.len(),
            ) != pattern by {
                assert(t.subrange(j, j + pattern.len()) =~= s.subrange(j + 1, j + 1 + pattern.len()));
            }
            if i < s.len() {
                assert(t.subrange(i - 1, i - 1 + pattern.len()) =~= s.subrange(i, i + pattern.len()));
            }
            lemma_first_match_is(t, pattern, i - 1);
        }
    }
}

/// Where the white space at the start of `s` ends, the rest is
/// `trim_start(s)`.
pub proof fn lemma_trim_start_is(s: Seq<char>, k: int)
    requires
        0 <= k <= s.len(),
        forall|j: int| 0 <= j < k ==> is_whitespace(#[trigger] s[j]),
        k < s.len() ==> !is_whitespace(s[k]),
    ensures
        trim_start(s) == s.skip(k),
    decreases s.len(),
{
    if k == 0 {
        assert(s.skip(0) =~= s);
    } else {
        let t = s.skip(1);
        assert forall|j: int| 0 <= j < k - 1 implies is_whitespace(#[trigger] t[j]) by {
            assert(t[j] == s[j + 1]);
        }
        lemma_trim_start_is(t, k - 1);
        assert(t.skip(k - 1) =~= s.skip(k));
    }
}

/// Where the white space at the end of `s` begins, what stands before it is
/// `trim_end(s)`.
pub proof fn lemma_trim_end_is(s: Seq<char>, k: int)
    requires
        0 <= k <= s.len(),
        forall|j: int| k <= j < s.len() ==> is_whitespace(#[trigger] s[j]),
        k > 0 ==> !is_whitespace(s[k - 1]),
    ensures
        trim_end(s) == s.take(k),
    decreases s.len(),
{
    if k == s.len() {
        assert(s.take(k) =~= s);
    } else {
        let t = s.drop_last();
        assert forall|j: int| k <= j < t.len() implies is_whitespace(#[trigger] t[j]) by {
            assert(t[j] == s[j]);
        }
        lemma_trim_end_is(t, k);
        assert(t.take(k) =~= s.take(k));
    }
}

/// The characters of `s`, in order.
pub fn chars_of(s: &str) -> (v: Vec<char>)
    ensures
        v@ == s@,
{
    let mut v: Vec<char> = Vec::new();
    for c in it: s.chars()
        invariant
            v@ == it.seq().take(it.index() as int),
            it.seq() == s@,
    {
        v.push(c);
    }
    v
}

/// A string holding the characters `v[from..to]`.
pub fn string_of(v: &Vec<char>, from: usize, to: usize) -> (s: String)
    requires
        from <= to <= v.len(),
    ensures
        s@ == v@.subrange(from as int, to as int),
{
    let mut s = String::new();
    let mut i: usize = from;
    while i < to
        invariant
            from <= i <= to <= v.len(),
            s@ == v@.subrange(from as int, i as int),
        decreases to - i,
    {
        s.push(v[i]);
        i = i + 1;
    }
    s
}

/// Position of the first `c` at or after `from`, or `v.len()`.
pub fn find_from(v: &Vec<char>, from: usize, c: char) -> (i: usize)
    requires
        from <= v.len(),
    ensures
        i == from + first_index(v@.skip(from as int), c),
        from <= i <= v.len(),
{
    let mut i: usize = from;
    while i < v.len() && v[i] != c
        invariant
            from <= i <= v.len(),
            forall|j: int| from <= j < i ==> v[j] != c,
        decreases v.len() - i,
    {
        i = i + 1;
    }
    proof {
        lemma_first_index_is(v@.skip(from as int), c, i - from);
    }
    i
}

/// Whether `pattern` stands in `v` at position `at`.
pub fn matches_at(v: &Vec<char>, at: usize, pattern: &Vec<char>) -> (b: bool)
    requires
        at <= v.len(),
    ensures
        b == (at + pattern.len() <= v.len() && v@.subrange(at as int, at + pattern.len()) == pattern@),
{
    if pattern.len() > v.len() - at {
        return false;
    }
    let mut k: usize = 0;
    while k < pattern.len()
        invariant
            k <= pattern.len(),
            at + pattern.len() <= v.len(),
            forall|j: int| 0 <= j < k ==> v[at + j] == pattern[j],
        decreases pattern.len() - k,
    {
        if v[at + k] != pattern[k] {
            assert(v@.subrange(at as int, at + pattern.len())[k as int] == v[at + k]);
            return false;
        }
        k = k + 1;
    }
    assert(v@.subrange(at as int, at + pattern.len()) =~= pattern@);
    true
}

/// Position of the first occurrence of `pattern` at or after `from`, or
/// `v.len()`.
pub fn find_match(v: &Vec<char>, from: usize, pattern: &Vec<char>) -> (i: usize)
    requires
        from <= v.len(),
        pattern.len() > 0,
    ensures
        i == from + first_match(v@.skip(from as int), pattern@),
        from <= i <= v.len(),
        i < v.len() <==> has_match(v@.skip(from as int), pattern@),
        i < v.len() ==> i + pattern.len() <= v.len(),
{
    let ghost tail = v@.skip(from as int);
    let mut i: usize = from;
    while i < v.len() && !matches_at(v, i, pattern)
        invariant
            from <= i <= v.len(),
            tail == v@.skip(from as int),
            forall|j: int|
                0 <= j < i - from && j + pattern.len() <= tail.len() ==> #[trigger] tail.subrange(
                    j,
                    j + pattern.len(),
                ) != pattern@,
        decreases v.len() - i,
    {
        assert(i + pattern.len() <= v.len() ==> tail.subrange(i - from, i - from + pattern.len())
            =~= v@.subrange(i as int, i + pattern.len()));
        i = i + 1;
    }
    proof {
        if i < v.len() {
            assert(tail.subrange(i - from, i - from + pattern.len()) =~= v@.subrange(
                i as int,
                i + pattern.len(),
            ));
        }
        lemma_first_match_is(tail, pattern@, i - from);
    }
    i
}

/// Splits `s` at every occurrence of `separator`.
pub fn split_on_text(s: &str, separator: &str) -> (parts: Vec<String>)
    requires
        separator@.len() > 0,
    ensures
        views(parts@) == split_by(s@, separator@),
{
    let v = chars_of(s);
    let pattern = chars_of(separator);
    let mut parts: Vec<String> = Vec::new();
    let mut start: usize = 0;
    assert(v@.skip(0) == v@);
    assert(views(parts@) + split_by(v@, pattern@) == split_by(v@, pattern@));
    loop
        invariant_except_break
            start <= v.len(),
            pattern@.len() > 0,
            views(parts@) + split_by(v@.skip(start as int), pattern@) == split_by(v@, pattern@),
        ensures
            views(parts@) == split_by(v@, pattern@),
        decreases v.len() - start,
    {
        let ghost tail = v@.skip(start as int);
        let ghost before = views(parts@);
        let i = find_match(&v, start, &pattern);
        let piece = string_of(&v, start, i);
        parts.push(piece);
        assert(views(parts@) == before.push(piece@));
        assert(piece@ == tail.take(i - start));
        if i < v.len() {
            assert(tail.skip(i - start + pattern.len()) == v@.skip(i + pattern.len()));
            assert(before + (seq![piece@] + split_by(v@.skip(i + pattern.len()), pattern@))
                == before.push(piece@) + split_by(v@.skip(i + pattern.len()), pattern@));
            start = i + pattern.len();
        } else {
            assert(tail.take(i - start) == tail);
            assert(before + seq![tail] == before.push(tail));
            break;
        }
    }
    parts
}

/// Whether `c` is white space.
pub fn is_space(c: char) -> (b: bool)
    ensures
        b == is_whitespace(c),
{
    c == '\u{9}' || c == '\u{a}' || c == '\u{b}' || c == '\u{c}' || c == '\u{d}' || c == '\u{20}'
        || c == '\u{85}' || c == '\u{a0}' || c == '\u{1680}' || c == '\u{2000}' || c == '\u{2001}'
        || c == '\u{2002}' || c == '\u{2003}' || c == '\u{2004}' || c == '\u{2005}' || c
        == '\u{2006}' || c == '\u{2007}' || c == '\u{2008}' || c == '\u{2009}' || c == '\u{200a}'
        || c == '\u{2028}' || c == '\u{2029}' || c == '\u{202f}' || c == '\u{205f}' || c
        == '\u{3000}'
}

/// `s` without the white space at its start and at its end.
pub fn trimmed(s: &str) -> (t: String)
    ensures
        t@ == trim(s@),
{
    let v = chars_of(s);
    let mut start: usize = 0;
    while start < v.len() && is_space(v[start])
        invariant
            start <= v.len(),
            forall|j: int| 0 <= j < start ==> is_whitespace(#[trigger] v[j]),
        decreases v.len() - start,
    {
        start = start + 1;
    }
    let mut end: usize = v.len();
    while end > start && is_space(v[end - 1])
        invariant
            start <= end <= v.len(),
            forall|j: int| end <= j < v.len() ==> is_whitespace(#[trigger] v[j]),
        decreases end,
    {
        end = end - 1;
    }
    proof {
        let rest = v@.skip(start as int);
        lemma_trim_start_is(v@, start as int);
        assert forall|j: int| end - start <= j < rest.len() implies is_whitespace(#[trigger] rest[j]) by {
            assert(rest[j] == v[start + j]);
        }
        if end > start {
            assert(rest[end - start - 1] == v[end - 1]);
        }
        lemma_trim_end_is(rest, end - start);
        assert(rest.take(end - start) =~= v@.subrange(start as int, end as int));
    }
    string_of(&v, start, end)
}

/// Whether two strings hold the same text.
pub fn same_text(a: &str, b: &str) -> (same: bool)
    ensures
        same == (a@ == b@),
{
    let x = a.to_owned();
    let y = b.to_owned();
    x == y
}

/// Whether `c` occurs in `s`.
pub fn contains_char(s: &str, c: char) -> (b: bool)
    ensures
        b == s@.contains(c),
{
    let v = chars_of(s);
    let i = find_from(&v, 0, c);
    proof {
        assert(v@.skip(0) == v@);
        lemma_first_index_bounds(v@, c);
    }
    i < v.len()
}

/// Whether `s` begins with `c`.
pub fn starts_with_char(s: &str, c: char) -> (b: bool)
    ensures
        b == (s@.len() > 0 && s@[0] == c),
{
    let mut it = s.chars();
    match it.next() {
        Some(d) => d == c,
        None => false,
    }
}

/// Splits `s` at its first `c`.
pub fn split_once_on(s: &str, c: char) -> (r: Option<(String, String)>)
    ensures
        match r {
            Some((left, right)) => split_once(s@, c) == Some((left@, right@)),
            None => split_once(s@, c) is None,
        },
{
    let v = chars_of(s);
    let i = find_from(&v, 0, c);
    proof {
        assert(v@.skip(0) == v@);
    }
    if i < v.len() {
        let left = string_of(&v, 0, i);
        let right = string_of(&v, i + 1, v.len());
        Some((left, right))
    } else {
        None
    }
}

/// Splits `s` at every `c`.
pub fn split_on(s: &str, c: char) -> (parts: Vec<String>)
    ensures
        views(parts@) == split(s@, c),
{
    let v = chars_of(s);
    let mut parts: Vec<String> = Vec::new();
    let mut start: usize = 0;
    assert(v@.skip(0) == v@);
    assert(views(parts@) + split(v@, c) == split(v@, c));
    loop
        invariant_except_break
            start <= v.len(),
            views(parts@) + split(v@.skip(start as int), c) == split(v@, c),
        ensures
            views(parts@) == split(v@, c),
        decreases v.len() - start,
    {
        let ghost tail = v@.skip(start as int);
        let ghost before = views(parts@);
        let i = find_from(&v, start, c);
        let piece = string_of(&v, start, i);
        parts.push(piece);
        assert(views(parts@) == before.push(piece@));
        assert(piece@ == tail.take(i - start));
        if i < v.len() {
            assert(tail.skip(i - start + 1) == v@.skip(i + 1));
            assert(before + (seq![piece@] + split(v@.skip(i + 1), c)) == before.push(piece@)
                + split(v@.skip(i + 1), c));
            start = i + 1;
        } else {
            assert(tail.take(i - start) == tail);
            assert(before + seq![tail] == before.push(tail));
            break;
        }
    }
    parts
}

} // verus!
