//! Splitting a character sequence at a separator character: the shared
//! model behind the dataset's newline-separated records and the URL
//! fragment's `#`-separated segments.

use vstd::prelude::*;

verus! {

/// Distance from the start of `s` to its first occurrence of `sep`;
/// `s.len()` when `sep` does not occur.
pub open spec fn find_first(s: Seq<char>, sep: char) -> nat
    decreases s.len(),
{
    if s.len() == 0 {
        0
    } else if s[0] == sep {
        0
    } else {
        1 + find_first(s.drop_first(), sep)
    }
}

/// The segments of `s` between occurrences of `sep`: always at least one
/// segment, one more segment per occurrence of `sep`.
pub open spec fn split_on(s: Seq<char>, sep: char) -> Seq<Seq<char>>
    decreases s.len(),
{
    let i = find_first(s, sep);
    if i >= s.len() {
        seq![s]
    } else {
        seq![s.take(i as int)] + split_on(s.skip(i + 1 as int), sep)
    }
}

/// Text free of the separator moves the first occurrence past itself.
pub proof fn lemma_find_first_concat(a: Seq<char>, b: Seq<char>, sep: char)
    requires
        forall|k: int| 0 <= k < a.len() ==> a[k] != sep,
    ensures
        find_first(a + b, sep) == a.len() + find_first(b, sep),
    decreases a.len(),
{
    if a.len() == 0 {
        assert(a + b =~= b);
    } else {
        assert((a + b)[0] == a[0]);
        assert((a + b).drop_first() =~= a.drop_first() + b);
        assert(forall|k: int|
            0 <= k < a.drop_first().len() ==> a.drop_first()[k] == a[k + 1] && a.drop_first()[k]
                != sep);
        lemma_find_first_concat(a.drop_first(), b, sep);
    }
}

/// Text free of the separator has no first occurrence.
pub proof fn lemma_find_first_absent(s: Seq<char>, sep: char)
    requires
        forall|k: int| 0 <= k < s.len() ==> s[k] != sep,
    ensures
        find_first(s, sep) == s.len(),
    decreases s.len(),
{
    if s.len() > 0 {
        assert(forall|k: int|
            0 <= k < s.drop_first().len() ==> s.drop_first()[k] == s[k + 1] && s.drop_first()[k]
                != sep);
        lemma_find_first_absent(s.drop_first(), sep);
    }
}

/// Scans `s` left to right from `from` for `sep`: returns the position of
/// the first occurrence at or after `from`, or the length when there is
/// none at or after `from`.
pub fn find_char(s: &str, sep: char, from: usize) -> (r: usize)
    requires
        from <= s@.len(),
    ensures
        r == from + find_first(s@.skip(from as int), sep),
        from <= r <= s@.len(),
        r < s@.len() ==> s@[r as int] == sep,
        forall|k: int| from <= k < r ==> s@[k] != sep,
{
    let n = s.unicode_len();
    let mut e: usize = from;
    while e < n && s.get_char(e) != sep
        invariant
            from <= e <= n,
            n == s@.len(),
            find_first(s@.skip(from as int), sep) == (e - from) + find_first(
                s@.skip(e as int),
                sep,
            ),
            forall|k: int| from <= k < e ==> s@[k] != sep,
        decreases n - e,
    {
        proof {
            assert(s@.skip(e as int)[0] == s@[e as int]);
            assert(s@.skip(e as int).drop_first() =~= s@.skip(e + 1));
        }
        e += 1;
    }
    proof {
        if e == n {
            assert(s@.skip(e as int) =~= Seq::<char>::empty());
        } else {
            assert(s@.skip(e as int)[0] == s@[e as int]);
        }
    }
    e
}

} // verus!
