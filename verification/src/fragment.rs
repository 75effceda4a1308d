//! The URL-fragment codec: the pair of input strings is persisted as
//! `#<encoded overlay>#<encoded base>`, where each field is percent-encoded
//! so that the fragment holds no literal `#` beyond its two separators and
//! decoding restores the pair exactly.
//!
//! Decoding is total: missing segments decode to empty strings, segments
//! beyond the third are ignored, and malformed percent escapes fall back to
//! a lossy best-effort decode rather than failing.

use crate::InputPair;
use crate::split::find_first;
use crate::split::lemma_find_first_absent;
use crate::split::lemma_find_first_concat;
use crate::split::find_char;
use crate::split::split_on;
use vstd::prelude::*;

verus! {

/// The percent-encoding of a string: every byte of its UTF-8 form that is
/// not an ASCII letter or digit written as `%` plus two hex digits.
pub uninterp spec fn pct_encoded(s: Seq<char>) -> Seq<char>;

/// The lossy percent-decoding of a string: every `%` followed by two hex
/// digits becomes that byte, other characters stand for their own bytes,
/// and the bytes are read back as UTF-8 with replacement characters where
/// they are malformed.
pub uninterp spec fn pct_decoded(s: Seq<char>) -> Seq<char>;

/// Relies on `percent_encoding::utf8_percent_encode` with the
/// `NON_ALPHANUMERIC` set: the result is a function of the input alone;
/// every byte outside ASCII letters and digits — `#` and `%` among them —
/// is escaped, so the result never holds a `#`; and, the escapes being
/// exactly what `percent_encoding::percent_decode` undoes and the input
/// being well-formed UTF-8, decoding the result lossily restores the input.
#[verifier::external_body]
fn pct_encode(s: &str) -> (r: String)
    ensures
        r@ == pct_encoded(s@),
        forall|k: int| 0 <= k < r@.len() ==> r@[k] != '#',
        pct_decoded(r@) == s@,
{
    percent_encoding::utf8_percent_encode(s, percent_encoding::NON_ALPHANUMERIC).to_string()
}

/// Relies on `percent_encoding::percent_decode` and `decode_utf8_lossy`:
/// the result is a function of the input alone, and an empty input decodes
/// to the empty string.
#[verifier::external_body]
fn pct_decode_lossy(s: &str) -> (r: String)
    ensures
        r@ == pct_decoded(s@),
        s@.len() == 0 ==> r@ == Seq::<char>::empty(),
{
    percent_encoding::percent_decode(s.as_bytes()).decode_utf8_lossy().into_owned()
}

/// The overlay segment of a fragment: what stands between the first `#`
/// and the second, or nothing when the fragment has no `#`. Text before
/// the first `#` is discarded.
pub open spec fn overlay_seg(f: Seq<char>) -> Seq<char> {
    let segs = split_on(f, '#');
    if segs.len() >= 2 {
        segs[1]
    } else {
        Seq::empty()
    }
}

/// The base segment of a fragment: what stands between the second `#` and
/// the third, or nothing when the fragment has fewer than two `#`.
pub open spec fn base_seg(f: Seq<char>) -> Seq<char> {
    let segs = split_on(f, '#');
    if segs.len() >= 3 {
        segs[2]
    } else {
        Seq::empty()
    }
}

/// The pair a fragment decodes to: its two segments, percent-decoded.
pub open spec fn spec_decode(f: Seq<char>) -> (Seq<char>, Seq<char>) {
    (pct_decoded(overlay_seg(f)), pct_decoded(base_seg(f)))
}

/// The fragment a pair encodes to.
pub open spec fn spec_encode(o: Seq<char>, b: Seq<char>) -> Seq<char> {
    seq!['#'] + pct_encoded(o) + seq!['#'] + pct_encoded(b)
}

/// Decodes a URL fragment into the pair of input strings it carries.
///
/// Total over all strings: a fragment with no `#` or a missing segment
/// yields empty strings for the missing fields, and segments past the
/// third are ignored.
pub fn decode(fragment: &str) -> (r: InputPair)
    ensures
        (r.overlay@, r.base@) == spec_decode(fragment@),
        overlay_seg(fragment@).len() == 0 ==> r.overlay@.len() == 0,
        base_seg(fragment@).len() == 0 ==> r.base@.len() == 0,
{
    let n = fragment.unicode_len();
    let i1 = find_char(fragment, '#', 0);
    proof {
        assert(fragment@.skip(0) =~= fragment@);
    }
    if i1 == n {
        // No `#` at all: both segments are absent.
        proof {
            assert(split_on(fragment@, '#').len() == 1);
        }
        let overlay = pct_decode_lossy("");
        let base = pct_decode_lossy("");
        proof {
            reveal_strlit("");
            assert(overlay_seg(fragment@) =~= ""@);
            assert(base_seg(fragment@) =~= ""@);
        }
        InputPair { overlay, base }
    } else {
        let i2 = find_char(fragment, '#', i1 + 1);
        let seg1 = fragment.substring_char(i1 + 1, i2);
        proof {
            let f = fragment@;
            let rest1 = f.skip(i1 + 1 as int);
            assert(find_first(rest1, '#') == i2 - (i1 + 1)) by {
                assert(i2 == (i1 + 1) + find_first(f.skip(i1 + 1 as int), '#'));
            }
            assert(rest1.take(i2 - (i1 + 1)) =~= f.subrange(i1 + 1, i2 as int));
            assert(seg1@ == f.subrange(i1 + 1, i2 as int));
            if i2 < n {
                assert(split_on(f, '#')[1] == split_on(rest1, '#')[0]);
                assert(split_on(rest1, '#')[0] == rest1.take(i2 - (i1 + 1)));
            } else {
                assert(find_first(rest1, '#') >= rest1.len());
                assert(split_on(rest1, '#') =~= seq![rest1]);
                assert(rest1.take(i2 - (i1 + 1)) =~= rest1);
            }
            assert(overlay_seg(f) == seg1@);
        }
        let overlay = pct_decode_lossy(seg1);
        if i2 == n {
            // One `#`: the base segment is absent.
            proof {
                let f = fragment@;
                let rest1 = f.skip(i1 + 1 as int);
                assert(split_on(rest1, '#').len() == 1);
                assert(split_on(f, '#').len() == 2);
            }
            let base = pct_decode_lossy("");
            proof {
                reveal_strlit("");
                assert(base_seg(fragment@) =~= ""@);
            }
            InputPair { overlay, base }
        } else {
            let i3 = find_char(fragment, '#', i2 + 1);
            let seg2 = fragment.substring_char(i2 + 1, i3);
            proof {
                let f = fragment@;
                let rest1 = f.skip(i1 + 1 as int);
                let rest2 = f.skip(i2 + 1 as int);
                assert(find_first(f, '#') == i1);
                assert(split_on(f, '#') == seq![f.take(i1 as int)] + split_on(rest1, '#'));
                assert(find_first(rest1, '#') == i2 - (i1 + 1));
                assert(i2 - (i1 + 1) < rest1.len());
                assert(rest1.skip((i2 - (i1 + 1)) + 1 as int) =~= rest2);
                assert(split_on(rest1, '#') == seq![rest1.take(i2 - (i1 + 1))] + split_on(
                    rest2,
                    '#',
                ));
                assert(split_on(f, '#')[2] == split_on(rest1, '#')[1]);
                assert(split_on(rest1, '#')[1] == split_on(rest2, '#')[0]);
                assert(find_first(rest2, '#') == i3 - (i2 + 1)) by {
                    assert(i3 == (i2 + 1) + find_first(f.skip(i2 + 1 as int), '#'));
                }
                if i3 < n {
                    assert(split_on(rest2, '#')[0] == rest2.take(i3 - (i2 + 1)));
                } else {
                    assert(find_first(rest2, '#') >= rest2.len());
                    assert(split_on(rest2, '#') =~= seq![rest2]);
                }
                assert(rest2.take(i3 - (i2 + 1)) =~= f.subrange(i2 + 1, i3 as int));
                assert(base_seg(f) == seg2@);
            }
            let base = pct_decode_lossy(seg2);
            InputPair { overlay, base }
        }
    }
}

/// Encodes the pair of input strings as the URL fragment that carries it.
///
/// The last two clauses are the round trip: the fragment's segments decode
/// back to the pair itself, for every pair, so `decode` applied to the
/// result returns the very strings that were encoded.
pub fn encode(pair: &InputPair) -> (r: String)
    ensures
        r@ == spec_encode(pair.overlay@, pair.base@),
        spec_decode(r@).0 == pair.overlay@,
        spec_decode(r@).1 == pair.base@,
{
    let e1 = pct_encode(pair.overlay.as_str());
    let e2 = pct_encode(pair.base.as_str());
    let mut out = String::new();
    out.append("#");
    out.append(e1.as_str());
    out.append("#");
    out.append(e2.as_str());
    proof {
        reveal_strlit("#");
        assert("#"@ =~= seq!['#']);
        assert(out@ =~= spec_encode(pair.overlay@, pair.base@));
        lemma_split_encoded(e1@, e2@);
        assert(overlay_seg(out@) == e1@);
        assert(base_seg(out@) == e2@);
    }
    out
}

/// Whether the shell should rewrite the visible fragment: only once both
/// strings pass the minimum-length threshold of one character, that is,
/// hold at least two characters each. Shorter inputs leave the persisted
/// fragment untouched.
pub fn should_persist(pair: &InputPair) -> (r: bool)
    ensures
        r == (pair.overlay@.len() > 1 && pair.base@.len() > 1),
{
    pair.overlay.as_str().unicode_len() > 1 && pair.base.as_str().unicode_len() > 1
}

/// A fragment built as `#` + `a` + `#` + `b`, with no `#` inside `a` or
/// `b`, splits into an empty lead segment, `a`, and `b`.
proof fn lemma_split_encoded(a: Seq<char>, b: Seq<char>)
    requires
        forall|k: int| 0 <= k < a.len() ==> a[k] != '#',
        forall|k: int| 0 <= k < b.len() ==> b[k] != '#',
    ensures
        split_on(seq!['#'] + a + seq!['#'] + b, '#') == seq![Seq::<char>::empty(), a, b],
{
    let f = seq!['#'] + a + seq!['#'] + b;
    assert(f[0] == '#');
    assert(find_first(f, '#') == 0);
    let rest1 = f.skip(1);
    assert(rest1 =~= a + (seq!['#'] + b));
    assert((seq!['#'] + b)[0] == '#');
    lemma_find_first_concat(a, seq!['#'] + b, '#');
    assert(find_first(a + (seq!['#'] + b), '#') == a.len());
    assert(find_first(rest1, '#') == a.len());
    assert(a.len() < rest1.len());
    assert(rest1.take(a.len() as int) =~= a);
    let rest2 = rest1.skip(a.len() + 1 as int);
    assert(rest2 =~= b);
    lemma_find_first_absent(b, '#');
    assert(find_first(rest2, '#') >= rest2.len());
    assert(split_on(rest2, '#') =~= seq![b]);
    assert(split_on(rest1, '#') =~= seq![a, b]);
    assert(f.take(0) =~= Seq::<char>::empty());
    assert(split_on(f, '#') =~= seq![Seq::<char>::empty(), a, b]);
}

} // verus!
