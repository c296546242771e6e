//! Laws that tie the operations together: overlap as a similarity, union as
//! a bundling that forgets nothing, and the centroid's size bound.

use vstd::prelude::*;
use crate::seqs::{
    strictly_sorted, sorted_of, merge_count, lemma_merge_count_intersection, lemma_sorted_of,
    lemma_sorted_of_seq, lemma_concat_set, lemma_strictly_sorted_set_len,
};
use crate::sdr::SDR;
use crate::prototype::{class_score, absorbed, centroid_bits, lemma_centroid_bits};
use crate::random::{draw_bounds, draws_selecting, all_draws, shuffle, positions, valid_draws, kept};
use crate::draw_count::{
    factorial, draw_space, draws_where, keeps, any_draws, lemma_count_keeps, lemma_draw_space_size,
    lemma_no_draws,
};

verus! {

broadcast use vstd::seq_lib::group_seq_properties, vstd::set::group_set_axioms, vstd::seq_lib::seq_to_set_is_finite;

/// Overlap does not depend on the order of its arguments, whatever the bits.
pub proof fn overlap_symmetric(a: Seq<u32>, b: Seq<u32>)
    ensures
        merge_count(a, b) == merge_count(b, a),
    decreases a.len() + b.len(),
{
    if a.len() == 0 || b.len() == 0 {
    } else if a[0] < b[0] {
        overlap_symmetric(a.drop_first(), b);
    } else if b[0] < a[0] {
        overlap_symmetric(a, b.drop_first());
    } else {
        overlap_symmetric(a.drop_first(), b.drop_first());
    }
}

/// Overlap never exceeds the number of bits of either code, whatever the bits.
pub proof fn overlap_bounded(a: Seq<u32>, b: Seq<u32>)
    ensures
        merge_count(a, b) <= a.len(),
        merge_count(a, b) <= b.len(),
    decreases a.len() + b.len(),
{
    if a.len() == 0 || b.len() == 0 {
    } else if a[0] < b[0] {
        overlap_bounded(a.drop_first(), b);
    } else if b[0] < a[0] {
        overlap_bounded(a, b.drop_first());
    } else {
        overlap_bounded(a.drop_first(), b.drop_first());
    }
}

/// A well-formed code overlaps itself in all its bits: the largest overlap
/// any code can reach with it.
pub proof fn overlap_self_is_maximal(a: Seq<u32>)
    requires
        strictly_sorted(a),
    ensures
        merge_count(a, a) == a.len(),
{
    lemma_merge_count_intersection(a, a);
    assert(a.to_set().intersect(a.to_set()) =~= a.to_set());
    lemma_strictly_sorted_set_len(a);
}

/// Union is commutative: bundling `a` with `b` gives the bits of bundling `b` with `a`.
pub proof fn union_commutative(a: Seq<u32>, b: Seq<u32>)
    ensures
        sorted_of(a.to_set() + b.to_set()) == sorted_of(b.to_set() + a.to_set()),
{
    assert(a.to_set() + b.to_set() =~= b.to_set() + a.to_set());
}

/// Union is associative: bundling three codes gives the same bits whichever pair goes first.
pub proof fn union_associative(a: Seq<u32>, b: Seq<u32>, c: Seq<u32>)
    ensures
        sorted_of(sorted_of(a.to_set() + b.to_set()).to_set() + c.to_set()) == sorted_of(
            a.to_set() + sorted_of(b.to_set() + c.to_set()).to_set(),
        ),
{
    lemma_concat_set(a, b);
    lemma_concat_set(b, c);
    lemma_sorted_of_seq(a + b);
    lemma_sorted_of_seq(b + c);
    assert(sorted_of(a.to_set() + b.to_set()).to_set() + c.to_set() =~= a.to_set() + sorted_of(
        b.to_set() + c.to_set(),
    ).to_set());
}

/// Bundling a well-formed code with itself gives it back unchanged.
pub proof fn union_idempotent(a: Seq<u32>)
    requires
        strictly_sorted(a),
    ensures
        sorted_of(a.to_set() + a.to_set()) == a,
{
    assert(a.to_set() + a.to_set() =~= a.to_set());
    lemma_sorted_of(a);
}

/// A bundle remembers each of its members: a well-formed code overlaps the
/// union of itself with any other code in all of its bits.
pub proof fn union_keeps_members(a: Seq<u32>, b: Seq<u32>)
    requires
        strictly_sorted(a),
    ensures
        merge_count(sorted_of(a.to_set() + b.to_set()), a) == a.len(),
{
    let u = sorted_of(a.to_set() + b.to_set());
    lemma_concat_set(a, b);
    lemma_sorted_of_seq(a + b);
    lemma_merge_count_intersection(u, a);
    assert(u.to_set().intersect(a.to_set()) =~= a.to_set());
    lemma_strictly_sorted_set_len(a);
}

/// Random codes are uniform: of the `d!` valid draw sequences for `d`
/// positions, each set of `w <= d` positions (given as its ascending list
/// `bits`) is selected by exactly `w! (d - w)!` of them. So when every draw
/// is uniform, every `w`-subset of `0..d` is equally likely.
pub proof fn random_codes_uniform(d: usize, w: usize, bits: Seq<u32>)
    requires
        d <= u32::MAX,
        w <= d,
        strictly_sorted(bits),
        bits.len() == w,
        forall|i: int| 0 <= i < bits.len() ==> (#[trigger] bits[i]) < d,
    ensures
        all_draws(d).finite(),
        all_draws(d).len() == factorial(d as nat),
        draws_selecting(d, w, bits).finite(),
        draws_selecting(d, w, bits).len() == factorial(w as nat) * factorial((d - w) as nat),
{
    let target = bits.to_set();
    lemma_strictly_sorted_set_len(bits);
    lemma_sorted_of(bits);
    let v = positions(d as nat);
    assert(kept(w, d) == w);
    assert forall|draws: Seq<u32>| #[trigger] draws_selecting(d, w, bits).contains(draws) == (valid_draws(d as nat, draws)
        && shuffle(v, draws).take(w as int).to_set() == target) by {
        let x = shuffle(v, draws).take(w as int);
        lemma_sorted_of_seq(x);
    }
    if d == 0 {
        assert(bits =~= Seq::<u32>::empty());
        assert(target =~= Set::<u32>::empty());
        let e = Seq::<u32>::empty();
        assert(v =~= e);
        assert(shuffle(v, e).take(0).to_set() =~= Set::<u32>::empty());
        assert forall|s: Seq<u32>| valid_draws(0, s) <==> s == e by {
            if s.len() == 0 {
                assert(s =~= e);
            }
        }
        assert(draws_selecting(d, w, bits) =~= Set::empty().insert(e));
        assert(all_draws(d) =~= Set::empty().insert(e));
        assert(factorial(0) == 1);
    } else {
        let m = (d - 1) as nat;
        assert forall|s: Seq<u32>| valid_draws(d as nat, s) <==> #[trigger] draw_space(m).contains(s) by {}
        assert(all_draws(d) =~= draws_where(m, any_draws()));
        lemma_draw_space_size(m);
        assert(v.no_duplicates());
        assert forall|x: u32| target.contains(x) implies v.to_set().contains(x) by {
            let i = choose|i: int| 0 <= i < bits.len() && bits[i] == x;
            assert(v[x as int] == x);
        }
        lemma_count_keeps(v, w as nat, target);
        assert(draws_selecting(d, w, bits) =~= draws_where(m, keeps(v, w as nat, target)));
    }
}

/// A code's score against a class is the number of active bits it shares
/// with the class's code, counted in full, and 0 against an empty class.
pub proof fn class_score_counts_shared_bits(e: SDR, center: Option<SDR>)
    requires
        strictly_sorted(e.bits@),
        center matches Some(c) ==> strictly_sorted(c.bits@),
    ensures
        center is None ==> class_score(e, center) == 0,
        center matches Some(c) ==> class_score(e, center) == e.bit_set().intersect(c.bit_set()).len(),
{
    if let Some(c) = center {
        lemma_merge_count_intersection(e.bits@, c.bits@);
    }
}

/// Prediction prefers the class sharing more active bits with the code:
/// class 1 scores higher than class 0 exactly when it shares strictly more
/// bits (an empty class sharing none).
pub proof fn prediction_follows_shared_bits(e: SDR, c0: Option<SDR>, c1: Option<SDR>)
    requires
        strictly_sorted(e.bits@),
        c0 matches Some(c) ==> strictly_sorted(c.bits@),
        c1 matches Some(c) ==> strictly_sorted(c.bits@),
    ensures
        (class_score(e, c1) > class_score(e, c0)) == ((match c1 {
            None => 0nat,
            Some(c) => e.bit_set().intersect(c.bit_set()).len(),
        }) > (match c0 {
            None => 0nat,
            Some(c) => e.bit_set().intersect(c.bit_set()).len(),
        })),
{
    class_score_counts_shared_bits(e, c0);
    class_score_counts_shared_bits(e, c1);
}

/// A class that was empty holds the first code it absorbs unchanged, whatever its width.
pub proof fn empty_class_keeps_first_code(e: SDR)
    ensures
        absorbed(None, e).0 == e.bits@,
        absorbed(None, e).1 == e.d,
        absorbed(None, e).2 == e.w,
{
}

/// A class holding `c` that absorbs `e` holds the smallest
/// `min(d / 8, |E ∪ C|)` active bits of the union of the two codes, in
/// ascending order, with `d` from `e` and `w` counting them.
pub proof fn absorbing_keeps_smallest_of_union(c: SDR, e: SDR)
    ensures
        ({
            let (bits, d, w) = absorbed(Some(c), e);
            let un = e.bit_set() + c.bit_set();
            &&& strictly_sorted(bits)
            &&& d == e.d
            &&& w == bits.len()
            &&& bits.len() == (if e.d / 8 <= un.len() { (e.d / 8) as nat } else { un.len() })
            &&& bits.to_set().subset_of(un)
            &&& forall|x: u32, i: int| un.contains(x) && !bits.to_set().contains(x) && 0 <= i < bits.len() ==> bits[i] < x
        }),
{
    lemma_centroid_bits(e.bits@, c.bits@, e.d);
    let bits = centroid_bits(e.bits@, c.bits@, e.d);
    assert(bits.len() <= e.d / 8);
}

/// Drawing a random code over `d` positions asks the generator for a number
/// in `0..=d-1`, then `0..=d-2`, and so on down to `0..=1`: each time the
/// whole range of positions not yet fixed.
pub proof fn draws_ask_full_ranges(d: usize)
    requires
        d <= u32::MAX,
    ensures
        draw_bounds(d).len() == (if d == 0 { 0 } else { d - 1 }),
        forall|k: int| 0 <= k < draw_bounds(d).len() ==> #[trigger] draw_bounds(d)[k] == d - 1 - k,
{
    assert forall|k: int| 0 <= k < draw_bounds(d).len() implies #[trigger] draw_bounds(d)[k] == d - 1 - k by {
        assert(0 <= d - 1 - k <= u32::MAX);
    }
}

} // verus!
