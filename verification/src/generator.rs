//! The generation algorithm: walk the base line left to right, emit every
//! base character, and after each non-space base character consume one
//! overlay character and append its symbol, if the table has one.
//!
//! Spaces in the base line are pass-through: they consume no overlay
//! character. An overlay character with no table entry is consumed silently.
//! Overlay characters left over when the base line ends are never consumed.
//! The function is total: every pair of strings produces an output.

use crate::table::SymbolTable;
use vstd::prelude::*;

verus! {

/// The generated text for overlay `o`, base `b` and mapping `m`: each base
/// character, followed by the symbol of the overlay character it consumed,
/// where it consumed one and the table knows it.
pub open spec fn spec_generate(o: Seq<char>, b: Seq<char>, m: Map<char, Seq<char>>) -> Seq<char>
    decreases b.len(),
{
    if b.len() == 0 {
        Seq::empty()
    } else if b[0] == ' ' || o.len() == 0 {
        seq![b[0]] + spec_generate(o, b.drop_first(), m)
    } else if m.contains_key(o[0]) {
        seq![b[0]] + m[o[0]] + spec_generate(o.drop_first(), b.drop_first(), m)
    } else {
        seq![b[0]] + spec_generate(o.drop_first(), b.drop_first(), m)
    }
}

/// Produces the stacked text for `overlay` over `base`.
///
/// Overlay characters are looked up as given: a caller that wants the
/// table's lowercase key domain must lowercase `overlay` first.
pub fn generate(overlay: &str, base: &str, table: &SymbolTable) -> (r: String)
    requires
        table.wf(),
    ensures
        r@ == spec_generate(overlay@, base@, table@),
{
    let mut out = String::new();
    let base_len = base.unicode_len();
    let overlay_len = overlay.unicode_len();
    proof {
        assert(overlay@.skip(0) =~= overlay@);
        assert(base@.skip(0) =~= base@);
        assert(out@ + spec_generate(overlay@, base@, table@) =~= spec_generate(
            overlay@,
            base@,
            table@,
        ));
    }
    let mut k: usize = 0;
    let mut j: usize = 0;
    while j < base_len
        invariant
            j <= base_len,
            k <= overlay_len,
            table.wf(),
            base_len == base@.len(),
            overlay_len == overlay@.len(),
            out@ + spec_generate(overlay@.skip(k as int), base@.skip(j as int), table@)
                == spec_generate(overlay@, base@, table@),
        decreases base_len - j,
    {
        let c = base.get_char(j);
        let piece = base.substring_char(j, j + 1);
        proof {
            let ghost ob = overlay@.skip(k as int);
            let ghost bb = base@.skip(j as int);
            assert(bb[0] == c);
            assert(piece@ =~= seq![c]);
            assert(bb.drop_first() =~= base@.skip(j + 1));
        }
        out.append(piece);
        if c != ' ' && k < overlay_len {
            let u = overlay.get_char(k);
            proof {
                assert(overlay@.skip(k as int)[0] == u);
                assert(overlay@.skip(k as int).drop_first() =~= overlay@.skip(k + 1));
            }
            match table.lookup(u) {
                Some(sym) => {
                    out.append(sym.as_str());
                    proof {
                        assert(out@ + spec_generate(
                            overlay@.skip(k + 1),
                            base@.skip(j + 1),
                            table@,
                        ) =~= spec_generate(overlay@, base@, table@));
                    }
                },
                None => {
                    proof {
                        assert(out@ + spec_generate(
                            overlay@.skip(k + 1),
                            base@.skip(j + 1),
                            table@,
                        ) =~= spec_generate(overlay@, base@, table@));
                    }
                },
            }
            k += 1;
        } else {
            proof {
                assert(overlay@.skip(k as int).len() == 0 ==> overlay@.skip(k as int)
                    =~= Seq::<char>::empty());
                assert(out@ + spec_generate(overlay@.skip(k as int), base@.skip(j + 1), table@)
                    =~= spec_generate(overlay@, base@, table@));
            }
        }
        j += 1;
    }
    proof {
        assert(base@.skip(base_len as int) =~= Seq::<char>::empty());
        assert(out@ + spec_generate(
            overlay@.skip(k as int),
            base@.skip(base_len as int),
            table@,
        ) =~= out@);
    }
    out
}

/// Pass-through on empty overlay: with nothing to stack, generation returns
/// the base line unchanged, whatever the table holds.
pub proof fn lemma_generate_empty_overlay(b: Seq<char>, m: Map<char, Seq<char>>)
    ensures
        spec_generate(Seq::empty(), b, m) == b,
    decreases b.len(),
{
    if b.len() == 0 {
        assert(spec_generate(Seq::empty(), b, m) =~= b);
    } else {
        lemma_generate_empty_overlay(b.drop_first(), m);
        assert(spec_generate(Seq::empty(), b, m) =~= b);
    }
}

/// Lookup-miss silence: when no overlay character has a table entry,
/// generation appends every base character with no symbol after it and
/// returns the base line unchanged; a missing entry is never an error.
pub proof fn lemma_generate_all_missing(o: Seq<char>, b: Seq<char>, m: Map<char, Seq<char>>)
    requires
        forall|i: int| 0 <= i < o.len() ==> !m.contains_key(o[i]),
    ensures
        spec_generate(o, b, m) == b,
    decreases b.len(),
{
    if b.len() == 0 {
        assert(spec_generate(o, b, m) =~= b);
    } else if b[0] == ' ' || o.len() == 0 {
        lemma_generate_all_missing(o, b.drop_first(), m);
        assert(spec_generate(o, b, m) =~= b);
    } else {
        assert(!m.contains_key(o[0]));
        assert(forall|i: int|
            0 <= i < o.drop_first().len() ==> o.drop_first()[i] == o[i + 1]
                && !m.contains_key(o.drop_first()[i]));
        lemma_generate_all_missing(o.drop_first(), b.drop_first(), m);
        assert(spec_generate(o, b, m) =~= b);
    }
}

} // verus!
