//! Class prototypes: each class keeps a centroid code, the bundle of the
//! codes seen for it cut down to its smallest `d / 8` bits, and a code is
//! classified by the centroid it overlaps most.

use vstd::prelude::*;
use crate::sdr::{SDR, urs, overlap};
use crate::seqs::{
    strictly_sorted, sorted_of, merge_count, lemma_concat_set, lemma_sorted_of_seq,
    lemma_strictly_sorted_set_len, lemma_merge_count_intersection,
};

verus! {

broadcast use vstd::seq_lib::group_seq_properties, vstd::set::group_set_axioms, vstd::seq_lib::seq_to_set_is_finite;

/// The bits of the centroid of `e` and `c` over `d` positions: the union of
/// their bits in ascending order, cut to the first `d / 8`.
pub open spec fn centroid_bits(e: Seq<u32>, c: Seq<u32>, d: usize) -> Seq<u32> {
    let u = sorted_of(e.to_set() + c.to_set());
    u.take(if d / 8 <= u.len() { (d / 8) as int } else { u.len() as int })
}

/// The code a class holds after absorbing `e`: `e` itself when the class
/// was empty, else the centroid of `e` and the class's code. Given as its
/// bits, `d` and `w`.
pub open spec fn absorbed(center: Option<SDR>, e: SDR) -> (Seq<u32>, usize, usize) {
    match center {
        None => (e.bits@, e.d, e.w),
        Some(c) => {
            let bits = centroid_bits(e.bits@, c.bits@, e.d);
            (bits, e.d, bits.len() as usize)
        },
    }
}

/// How strongly `e` resonates with a class: its overlap with the class's
/// code, or 0 for an empty class.
pub open spec fn class_score(e: SDR, center: Option<SDR>) -> nat {
    match center {
        None => 0,
        Some(c) => merge_count(e.bits@, c.bits@),
    }
}

/// The centroid bits are the smallest `min(d / 8, |E ∪ C|)` elements of the
/// union `E ∪ C` of the two bit sets, in ascending order.
pub proof fn lemma_centroid_bits(e: Seq<u32>, c: Seq<u32>, d: usize)
    ensures
        strictly_sorted(centroid_bits(e, c, d)),
        (e.to_set() + c.to_set()).finite(),
        centroid_bits(e, c, d).len() == (if d / 8 <= (e.to_set() + c.to_set()).len() {
            (d / 8) as nat
        } else {
            (e.to_set() + c.to_set()).len()
        }),
        centroid_bits(e, c, d).to_set().subset_of(e.to_set() + c.to_set()),
        forall|x: u32, i: int|
            (e.to_set() + c.to_set()).contains(x) && !centroid_bits(e, c, d).to_set().contains(x)
                && 0 <= i < centroid_bits(e, c, d).len() ==> centroid_bits(e, c, d)[i] < x,
{
    let un = e.to_set() + c.to_set();
    lemma_concat_set(e, c);
    lemma_sorted_of_seq(e + c);
    let us = sorted_of(un);
    lemma_strictly_sorted_set_len(us);
    let r = centroid_bits(e, c, d);
    let n: int = if d / 8 <= us.len() { (d / 8) as int } else { us.len() as int };
    assert(r == us.take(n));
    assert forall|x: u32, i: int| un.contains(x) && !r.to_set().contains(x) && 0 <= i < r.len() implies r[i] < x by {
        assert(us.to_set().contains(x));
        let k = choose|k: int| 0 <= k < us.len() && us[k] == x;
        if k < n {
            assert(r[k] == x);
            assert(r.to_set().contains(x));
        }
        assert(r[i] == us[i]);
    }
    assert forall|x: u32| r.to_set().contains(x) implies un.contains(x) by {
        let k = choose|k: int| 0 <= k < r.len() && r[k] == x;
        assert(us[k] == x);
        assert(us.to_set().contains(x));
    }
}

fn copy_sdr(e: &SDR) -> (r: SDR)
    ensures
        r.bits@ == e.bits@,
        r.d == e.d,
        r.w == e.w,
{
    let bits = e.bits.clone();
    assert(bits@ =~= e.bits@);
    SDR { bits, d: e.d, w: e.w }
}

/// Centroid of `e` and `c`: their union, keeping only its smallest
/// `e.d / 8` bits.
pub fn orshr(e: &SDR, c: &SDR) -> (r: SDR)
    ensures
        r.bits@ == centroid_bits(e.bits@, c.bits@, e.d),
        r.d == e.d,
        r.w == r.bits@.len(),
        strictly_sorted(r.bits@),
        r.bits@.len() == (if e.d / 8 <= (e.bit_set() + c.bit_set()).len() {
            (e.d / 8) as nat
        } else {
            (e.bit_set() + c.bit_set()).len()
        }),
        r.bit_set().subset_of(e.bit_set() + c.bit_set()),
        forall|x: u32, i: int|
            (e.bit_set() + c.bit_set()).contains(x) && !r.bit_set().contains(x) && 0 <= i
                < r.bits@.len() ==> r.bits@[i] < x,
{
    let u = urs(e, c);
    let ghost us = u.bits@;
    let cap = e.d / 8;
    let n = if cap <= u.bits.len() { cap } else { u.bits.len() };
    let mut bits = u.bits;
    bits.truncate(n);
    assert(bits@ =~= us.take(n as int));
    let len = bits.len();
    let r = SDR { bits, d: e.d, w: len };
    proof {
        assert(us.no_duplicates()) by {
            assert forall|a: int, b: int| 0 <= a < us.len() && 0 <= b < us.len() && a != b implies us[a] != us[b] by {
                if a < b {
                    assert(us[a] < us[b]);
                } else {
                    assert(us[b] < us[a]);
                }
            }
        }
        us.unique_seq_to_set();
        assert forall|x: u32, i: int|
            (e.bit_set() + c.bit_set()).contains(x) && !r.bit_set().contains(x) && 0 <= i
                < r.bits@.len() implies r.bits@[i] < x by {
            assert(us.to_set().contains(x));
            let k = choose|k: int| 0 <= k < us.len() && us[k] == x;
            if k < n {
                assert(r.bits@[k] == x);
                assert(r.bit_set().contains(x));
            }
            assert(r.bits@[i] == us[i]);
        }
        assert forall|x: u32| r.bit_set().contains(x) implies (e.bit_set() + c.bit_set()).contains(x) by {
            let k = choose|k: int| 0 <= k < r.bits@.len() && r.bits@[k] == x;
            assert(us[k] == x);
            assert(us.to_set().contains(x));
        }
    }
    r
}

/// The code a class holds after absorbing `e`.
pub fn absorb(center: &Option<SDR>, e: &SDR) -> (r: SDR)
    ensures
        (r.bits@, r.d, r.w) == absorbed(*center, *e),
        center is None ==> r.bits@ == e.bits@ && r.d == e.d && r.w == e.w,
        center matches Some(c) ==> {
            &&& strictly_sorted(r.bits@)
            &&& r.d == e.d
            &&& r.w == r.bits@.len()
            &&& r.bits@.len() == (if e.d / 8 <= (e.bit_set() + c.bit_set()).len() {
                (e.d / 8) as nat
            } else {
                (e.bit_set() + c.bit_set()).len()
            })
            &&& r.bit_set().subset_of(e.bit_set() + c.bit_set())
            &&& forall|x: u32, i: int|
                (e.bit_set() + c.bit_set()).contains(x) && !r.bit_set().contains(x) && 0 <= i
                    < r.bits@.len() ==> r.bits@[i] < x
        },
{
    match center {
        None => copy_sdr(e),
        Some(c) => orshr(e, c),
    }
}

/// Lets class `cls` absorb the code `e`; the other classes are unchanged.
pub fn learn(centers: &mut Vec<Option<SDR>>, cls: usize, e: &SDR)
    requires
        cls < old(centers)@.len(),
    ensures
        final(centers)@.len() == old(centers)@.len(),
        forall|k: int| 0 <= k < old(centers)@.len() && k != cls ==> final(centers)@[k] == old(centers)@[k],
        final(centers)@[cls as int] is Some,
        ({
            let r = final(centers)@[cls as int]->Some_0;
            (r.bits@, r.d, r.w) == absorbed(old(centers)@[cls as int], *e)
        }),
{
    let r = absorb(&centers[cls], e);
    centers.set(cls, Some(r));
}

/// The score of `e` against one class.
pub fn score(e: &SDR, center: &Option<SDR>) -> (s: usize)
    ensures
        s == class_score(*e, *center),
        center is None ==> s == 0,
        center matches Some(c) ==> (strictly_sorted(e.bits@) && strictly_sorted(c.bits@) ==> s
            == e.bit_set().intersect(c.bit_set()).len()),
{
    match center {
        None => 0,
        Some(c) => overlap(e, c),
    }
}

/// The class whose prototype `e` overlaps most: 1 when class 1 scores
/// strictly higher than class 0, else 0.
pub fn predict(e: &SDR, centers: &Vec<Option<SDR>>) -> (p: usize)
    requires
        centers@.len() >= 2,
    ensures
        p == (if class_score(*e, centers@[1]) > class_score(*e, centers@[0]) { 1usize } else { 0usize }),
        strictly_sorted(e.bits@) && (forall|k: int| 0 <= k < 2 && #[trigger] centers@[k] is Some
            ==> strictly_sorted(centers@[k]->Some_0.bits@)) ==> (p == 1 <==> (match centers@[1] {
            None => 0nat,
            Some(c) => e.bit_set().intersect(c.bit_set()).len(),
        }) > (match centers@[0] {
            None => 0nat,
            Some(c) => e.bit_set().intersect(c.bit_set()).len(),
        })) && (p == 0 || p == 1),
{
    let s0 = score(e, &centers[0]);
    let s1 = score(e, &centers[1]);
    if s1 > s0 {
        1
    } else {
        0
    }
}

} // verus!
