//! The SDR type and its two core operations: union (bundling) and overlap.

use vstd::prelude::*;
use crate::seqs::{
    strictly_sorted, sorted, sorted_of, merge_count, lemma_merge_count_intersection,
    lemma_same_multiset_same_set, lemma_concat_set, lemma_sorted_of,
};

verus! {

/// A sparse distributed representation: the indices of the active bits
/// (`bits`) out of `d` positions, and the number of active bits `w`.
#[derive(Clone)]
pub struct SDR {
    pub bits: Vec<u32>,
    pub d: usize,
    pub w: usize,
}

impl SDR {
    /// The set of active bit indices.
    pub open spec fn bit_set(&self) -> Set<u32> {
        self.bits@.to_set()
    }

    /// A well-formed code: active bits ascending without repeats, all below
    /// `d`, and `w` counting them.
    pub open spec fn wf(&self) -> bool {
        &&& strictly_sorted(self.bits@)
        &&& forall|i: int| 0 <= i < self.bits@.len() ==> (#[trigger] self.bits@[i]) < self.d
        &&& self.w == self.bits@.len()
    }
}

/// Counts the common active bits of `a` and `b` by walking both index lists
/// in step. On codes whose bits are ascending without repeats this is the
/// size of the intersection of their bit sets (the popcount of their AND).
pub fn overlap(a: &SDR, b: &SDR) -> (c: usize)
    ensures
        c == merge_count(a.bits@, b.bits@),
        strictly_sorted(a.bits@) && strictly_sorted(b.bits@) ==> c == a.bit_set().intersect(
            b.bit_set(),
        ).len(),
{
    let ghost sa = a.bits@;
    let ghost sb = b.bits@;
    let mut i: usize = 0;
    let mut j: usize = 0;
    let mut c: usize = 0;
    assert(sa.skip(0) =~= sa);
    assert(sb.skip(0) =~= sb);
    while i < a.bits.len() && j < b.bits.len()
        invariant
            sa == a.bits@,
            sb == b.bits@,
            i <= sa.len(),
            j <= sb.len(),
            c <= i,
            c + merge_count(sa.skip(i as int), sb.skip(j as int)) == merge_count(sa, sb),
        decreases sa.len() - i + sb.len() - j,
    {
        assert(sa.skip(i as int).drop_first() =~= sa.skip(i + 1));
        assert(sb.skip(j as int).drop_first() =~= sb.skip(j + 1));
        if a.bits[i] < b.bits[j] {
            i += 1;
        } else if a.bits[i] > b.bits[j] {
            j += 1;
        } else {
            c += 1;
            i += 1;
            j += 1;
        }
    }
    proof {
        if strictly_sorted(sa) && strictly_sorted(sb) {
            lemma_merge_count_intersection(sa, sb);
        }
    }
    c
}

/// Sorts `v` ascending with std's `slice::sort_unstable`. std documents the
/// call as a sort that reorders the elements: the contract claims the result
/// is ascending and holds the same elements, each as often as before.
#[verifier::external_body]
pub(crate) fn sort_ascending(v: &mut Vec<u32>)
    ensures
        sorted(final(v)@),
        final(v)@.to_multiset() == old(v)@.to_multiset(),
{
    v.sort_unstable();
}

/// Drops the repeats from an ascending sequence.
fn dedup_sorted(v: &Vec<u32>) -> (r: Vec<u32>)
    requires
        sorted(v@),
    ensures
        strictly_sorted(r@),
        r@.to_set() == v@.to_set(),
{
    let mut r: Vec<u32> = Vec::new();
    let mut i: usize = 0;
    while i < v.len()
        invariant
            i <= v@.len(),
            sorted(v@),
            strictly_sorted(r@),
            r@.to_set() == v@.take(i as int).to_set(),
            i > 0 ==> r@.len() > 0 && r@.last() == v@[i - 1],
            i == 0 ==> r@.len() == 0,
        decreases v@.len() - i,
    {
        let x = v[i];
        assert(v@.take(i + 1) =~= v@.take(i as int) + seq![x]);
        proof {
            lemma_concat_set(v@.take(i as int), seq![x]);
            assert(seq![x].to_set() =~= Set::empty().insert(x)) by {
                assert(seq![x][0] == x);
            }
        }
        if r.len() == 0 || r[r.len() - 1] != x {
            let ghost old_r = r@;
            r.push(x);
            proof {
                lemma_concat_set(old_r, seq![x]);
                assert(old_r.push(x) =~= old_r + seq![x]);
                assert(r@.to_set() =~= v@.take(i + 1).to_set());
            }
        } else {
            assert(r@.to_set().contains(x)) by {
                assert(r@[r@.len() - 1] == x);
            }
            assert(v@.take(i + 1).to_set() =~= r@.to_set());
        }
        i = i + 1;
    }
    assert(v@.take(v@.len() as int) =~= v@);
    r
}

/// Union of two codes: the active bits of both, ascending and without
/// repeats; `d` is taken from `a` and `w` counts the result's bits.
pub fn urs(a: &SDR, b: &SDR) -> (r: SDR)
    ensures
        r.bits@ == sorted_of(a.bit_set() + b.bit_set()),
        strictly_sorted(r.bits@),
        r.bit_set() == a.bit_set() + b.bit_set(),
        r.d == a.d,
        r.w == r.bits@.len(),
        a.wf() && b.wf() && b.d <= a.d ==> r.wf(),
{
    let mut bb = b.bits.clone();
    let mut aa = a.bits.clone();
    assert(bb@ =~= b.bits@);
    assert(aa@ =~= a.bits@);
    bb.append(&mut aa);
    let ghost joined = bb@;
    sort_ascending(&mut bb);
    let bits = dedup_sorted(&bb);
    proof {
        lemma_concat_set(b.bits@, a.bits@);
        lemma_same_multiset_same_set(bb@, joined);
        assert(bits@.to_set() =~= a.bit_set() + b.bit_set());
        lemma_sorted_of(bits@);
    }
    let n = bits.len();
    let r = SDR { bits, d: a.d, w: n };
    proof {
        if a.wf() && b.wf() && b.d <= a.d {
            assert forall|i: int| 0 <= i < r.bits@.len() implies (#[trigger] r.bits@[i]) < r.d by {
                assert(r.bit_set().contains(r.bits@[i]));
            }
        }
    }
    r
}

} // verus!
