//! Character-level text utilities used by the source reader: turning a string
//! into its characters, trimming surrounding whitespace, and splitting on a
//! separator character.

use vstd::prelude::*;

verus! {

/// Whitespace that surrounds a field or a line and is trimmed away. Newlines
/// are consumed by line splitting before fields are trimmed, so a carriage
/// return left by a CRLF line ending is treated as padding too.
pub open spec fn is_space(c: char) -> bool {
    c == ' ' || c == '\t' || c == '\r' || c == '\n'
}

/// Number of whitespace characters at the front of `s`.
pub open spec fn leading_spaces(s: Seq<char>) -> int
    decreases s.len(),
{
    if s.len() == 0 || !is_space(s[0]) {
        0
    } else {
        1 + leading_spaces(s.drop_first())
    }
}

/// Number of whitespace characters at the back of `s`.
pub open spec fn trailing_spaces(s: Seq<char>) -> int
    decreases s.len(),
{
    if s.len() == 0 || !is_space(s.last()) {
        0
    } else {
        1 + trailing_spaces(s.drop_last())
    }
}

/// `s` with surrounding whitespace removed.
pub open spec fn trim_spec(s: Seq<char>) -> Seq<char> {
    if leading_spaces(s) == s.len() {
        Seq::empty()
    } else {
        s.subrange(leading_spaces(s), s.len() - trailing_spaces(s))
    }
}

/// `leading_spaces` is the index of the first non-whitespace character, or
/// the length when there is none.
pub proof fn lemma_leading_spaces(s: Seq<char>)
    ensures
        0 <= leading_spaces(s) <= s.len(),
        forall|i: int| 0 <= i < leading_spaces(s) ==> is_space(#[trigger] s[i]),
        leading_spaces(s) < s.len() ==> !is_space(s[leading_spaces(s)]),
    decreases s.len(),
{
    if s.len() == 0 || !is_space(s[0]) {
    } else {
        lemma_leading_spaces(s.drop_first());
        assert forall|i: int| 0 <= i < leading_spaces(s) implies is_space(#[trigger] s[i]) by {
            if i > 0 {
                assert(s[i] == s.drop_first()[i - 1]);
            }
        }
    }
}

/// Any index with whitespace everywhere before it and a non-whitespace
/// character (or the end) at it is exactly `leading_spaces`.
pub proof fn lemma_leading_spaces_unique(s: Seq<char>, n: int)
    requires
        0 <= n <= s.len(),
        forall|i: int| 0 <= i < n ==> is_space(#[trigger] s[i]),
        n < s.len() ==> !is_space(s[n]),
    ensures
        n == leading_spaces(s),
    decreases s.len(),
{
    if s.len() == 0 || !is_space(s[0]) {
    } else {
        assert(is_space(s[0]));
        lemma_leading_spaces_unique(s.drop_first(), n - 1);
    }
}

/// `trailing_spaces` counts exactly the run of whitespace at the back.
pub proof fn lemma_trailing_spaces(s: Seq<char>)
    ensures
        0 <= trailing_spaces(s) <= s.len(),
        forall|i: int|
            s.len() - trailing_spaces(s) <= i < s.len() ==> is_space(#[trigger] s[i]),
        trailing_spaces(s) < s.len() ==> !is_space(s[s.len() - trailing_spaces(s) - 1]),
    decreases s.len(),
{
    if s.len() == 0 || !is_space(s.last()) {
    } else {
        lemma_trailing_spaces(s.drop_last());
        assert forall|i: int|
            s.len() - trailing_spaces(s) <= i < s.len() implies is_space(#[trigger] s[i]) by {
            if i < s.len() - 1 {
                assert(s[i] == s.drop_last()[i]);
            }
        }
    }
}

/// Any index with whitespace everywhere from it to the end and a
/// non-whitespace character (or the start) just before it marks exactly
/// `trailing_spaces` characters of padding.
pub proof fn lemma_trailing_spaces_unique(s: Seq<char>, n: int)
    requires
        0 <= n <= s.len(),
        forall|i: int| s.len() - n <= i < s.len() ==> is_space(#[trigger] s[i]),
        n < s.len() ==> !is_space(s[s.len() - n - 1]),
    ensures
        n == trailing_spaces(s),
    decreases s.len(),
{
    if s.len() == 0 || !is_space(s.last()) {
    } else {
        assert(is_space(s.last()));
        lemma_trailing_spaces_unique(s.drop_last(), n - 1);
    }
}

/// The characters of `s`, in order.
pub fn chars_of(s: &str) -> (v: Vec<char>)
    ensures
        v@ == s@,
{
    let n: usize = s.unicode_len();
    let mut v: Vec<char> = Vec::new();
    let mut i: usize = 0;
    while i < n
        invariant
            n == s@.len(),
            i <= n,
            v@ == s@.take(i as int),
        decreases n - i,
    {
        let c = s.get_char(i);
        v.push(c);
        i = i + 1;
        assert(v@ =~= s@.take(i as int));
    }
    assert(v@ =~= s@);
    v
}

/// `v` with surrounding whitespace removed.
pub fn trim(v: &Vec<char>) -> (r: Vec<char>)
    ensures
        r@ == trim_spec(v@),
{
    let n: usize = v.len();
    let mut lo: usize = 0;
    while lo < n && is_space_exec(v[lo])
        invariant
            n == v@.len(),
            lo <= n,
            forall|i: int| 0 <= i < lo ==> is_space(#[trigger] v@[i]),
        decreases n - lo,
    {
        lo = lo + 1;
    }
    proof {
        lemma_leading_spaces_unique(v@, lo as int);
    }
    if lo == n {
        let r: Vec<char> = Vec::new();
        assert(r@ =~= trim_spec(v@));
        return r;
    }
    let mut hi: usize = n;
    while hi > lo && is_space_exec(v[hi - 1])
        invariant
            n == v@.len(),
            lo <= hi <= n,
            lo < n,
            !is_space(v@[lo as int]),
            forall|i: int| hi <= i < n ==> is_space(#[trigger] v@[i]),
        decreases hi,
    {
        hi = hi - 1;
    }
    proof {
        lemma_trailing_spaces_unique(v@, n - hi);
    }
    let mut r: Vec<char> = Vec::new();
    let mut i: usize = lo;
    while i < hi
        invariant
            lo <= i <= hi <= n,
            n == v@.len(),
            r@ == v@.subrange(lo as int, i as int),
        decreases hi - i,
    {
        let c = v[i];
        r.push(c);
        i = i + 1;
        assert(r@ =~= v@.subrange(lo as int, i as int));
    }
    assert(r@ =~= trim_spec(v@));
    r
}

/// Executable counterpart of [`is_space`].
pub fn is_space_exec(c: char) -> (b: bool)
    ensures
        b == is_space(c),
{
    c == ' ' || c == '\t' || c == '\r' || c == '\n'
}

/// The segments of `s` between occurrences of `sep`: one more segment than
/// there are separators, in order, each without its delimiters. An empty
/// input yields one empty segment.
pub open spec fn split_on(s: Seq<char>, sep: char) -> Seq<Seq<char>>
    decreases s.len(),
{
    if s.len() == 0 {
        seq![Seq::<char>::empty()]
    } else if s.last() == sep {
        split_on(s.drop_last(), sep).push(Seq::empty())
    } else {
        let r = split_on(s.drop_last(), sep);
        r.update(r.len() - 1, r.last().push(s.last()))
    }
}

/// Splitting always yields at least one segment.
pub proof fn lemma_split_on_len(s: Seq<char>, sep: char)
    ensures
        split_on(s, sep).len() >= 1,
    decreases s.len(),
{
    if s.len() == 0 {
    } else {
        lemma_split_on_len(s.drop_last(), sep);
    }
}

/// A split with a single segment is the whole input.
pub proof fn lemma_split_singleton(s: Seq<char>, sep: char)
    requires
        split_on(s, sep).len() == 1,
    ensures
        split_on(s, sep)[0] == s,
    decreases s.len(),
{
    if s.len() == 0 {
    } else if s.last() == sep {
        lemma_split_on_len(s.drop_last(), sep);
    } else {
        lemma_split_on_len(s.drop_last(), sep);
        lemma_split_singleton(s.drop_last(), sep);
        assert(split_on(s, sep)[0] =~= s);
    }
}

/// Splitting on a non-whitespace separator leaves all-whitespace input in
/// one segment.
pub proof fn lemma_split_all_spaces(s: Seq<char>, sep: char)
    requires
        !is_space(sep),
        forall|i: int| 0 <= i < s.len() ==> is_space(#[trigger] s[i]),
    ensures
        split_on(s, sep).len() == 1,
    decreases s.len(),
{
    if s.len() == 0 {
    } else {
        assert(is_space(s.last()));
        lemma_split_all_spaces(s.drop_last(), sep);
        lemma_split_on_len(s.drop_last(), sep);
    }
}

/// A string holding exactly the given characters.
///
/// Relies on `String`'s `FromIterator` over characters: collecting an
/// iterator of characters yields the string of those characters in order.
#[verifier::external_body]
pub fn string_from_chars(v: &Vec<char>) -> (s: String)
    ensures
        s@ == v@,
{
    v.iter().collect()
}

/// The segments of `v` between occurrences of `sep`.
pub fn split_chars(v: &Vec<char>, sep: char) -> (r: Vec<Vec<char>>)
    ensures
        r.deep_view() == split_on(v@, sep),
        r.len() >= 1,
{
    let n: usize = v.len();
    let mut parts: Vec<Vec<char>> = Vec::new();
    let mut cur: Vec<char> = Vec::new();
    let mut i: usize = 0;
    while i < n
        invariant
            n == v@.len(),
            i <= n,
            parts.deep_view().push(cur@) == split_on(v@.take(i as int), sep),
        decreases n - i,
    {
        let ghost prefix = v@.take(i as int);
        let ghost parts_dv = parts.deep_view();
        let ghost cur_start = cur@;
        let c = v[i];
        i = i + 1;
        assert(v@.take(i as int).drop_last() =~= prefix);
        assert(v@.take(i as int).last() == c);
        if c == sep {
            parts.push(cur);
            cur = Vec::new();
            assert(parts.deep_view() =~~= parts_dv.push(cur_start));
            assert(split_on(v@.take(i as int), sep) == split_on(prefix, sep).push(
                Seq::<char>::empty(),
            ));
            assert(parts.deep_view().push(cur@) =~~= split_on(v@.take(i as int), sep));
        } else {
            cur.push(c);
            proof {
                lemma_split_on_len(prefix, sep);
            }
            let ghost r = split_on(prefix, sep);
            assert(split_on(v@.take(i as int), sep) == r.update(
                r.len() - 1,
                r.last().push(c),
            ));
            assert(r == parts_dv.push(cur_start));
            assert(r.last() == cur_start);
            assert(cur@ == cur_start.push(c));
            assert(parts.deep_view().push(cur@) =~~= r.update(r.len() - 1, r.last().push(c)));
        }
    }
    assert(v@.take(n as int) =~= v@);
    let ghost parts_dv = parts.deep_view();
    let ghost cur_final = cur@;
    parts.push(cur);
    proof {
        lemma_split_on_len(v@, sep);
    }
    assert(parts.deep_view() =~~= parts_dv.push(cur_final));
    parts
}

} // verus!
