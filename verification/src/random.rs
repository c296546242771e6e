//! Random codes: a random subset of the positions `0..d`, drawn by a
//! partial Fisher-Yates shuffle and kept in ascending order.

use vstd::prelude::*;
use rand::Rng;
use rand::rngs::StdRng;
use crate::sdr::{SDR, sort_ascending};
use crate::seqs::{strictly_sorted, sorted_of, lemma_sorted_of, lemma_same_multiset_same_set};

verus! {

broadcast use vstd::seq_lib::group_seq_properties, vstd::set::group_set_axioms;

#[verifier::external_type_specification]
#[verifier::external_body]
pub struct ExStdRng(rand::rngs::StdRng);

/// A random number generator together with a record of what was asked of
/// it and what it answered: `asked_log` holds the upper bound of each
/// request, `drawn_log` the number each request returned. The record is
/// ghost; only `draw_up_to` extends it.
pub struct LoggedRng {
    rng: StdRng,
    asked: Ghost<Seq<u32>>,
    drawn: Ghost<Seq<u32>>,
}

impl LoggedRng {
    /// The upper bounds of the requests made so far, in order.
    pub closed spec fn asked_log(&self) -> Seq<u32> {
        self.asked@
    }

    /// The numbers the requests so far returned, in order.
    pub closed spec fn drawn_log(&self) -> Seq<u32> {
        self.drawn@
    }

    /// Wraps `rng` with an empty record.
    pub fn new(rng: StdRng) -> (g: LoggedRng)
        ensures
            g.asked_log() == Seq::<u32>::empty(),
            g.drawn_log() == Seq::<u32>::empty(),
    {
        LoggedRng { rng, asked: Ghost(Seq::empty()), drawn: Ghost(Seq::empty()) }
    }

    /// Gives the generator back, in the state the draws so far left it in.
    pub fn into_inner(self) -> StdRng {
        self.rng
    }

    /// Draws a number in `0..=hi` with rand's `Rng::gen_range` on the
    /// inclusive range. The range is never empty, so the call does not
    /// panic. The contract claims that the number lies in the range and
    /// that the request and its answer are appended to the ghost record;
    /// which number comes out depends on the generator's state and is left
    /// unsaid.
    #[verifier::external_body]
    fn draw_up_to(&mut self, hi: u32) -> (r: u32)
        ensures
            r <= hi,
            final(self).asked_log() == old(self).asked_log().push(hi),
            final(self).drawn_log() == old(self).drawn_log().push(r),
    {
        self.rng.gen_range(0u32..=hi)
    }
}

/// The upper bounds a shuffle of `d` positions asks for, in order:
/// `d - 1, d - 2, ..., 1`.
pub open spec fn draw_bounds(d: usize) -> Seq<u32> {
    Seq::new((if d == 0 { 0 } else { d - 1 }) as nat, |k: int| (d - 1 - k) as u32)
}

/// `s` with the elements at `i` and `j` exchanged.
pub open spec fn swap_at(s: Seq<u32>, i: int, j: int) -> Seq<u32> {
    s.update(i, s[j]).update(j, s[i])
}

/// Fisher-Yates from the back: exchange the last element with the one at
/// `draws[0]`, fix it in place, and shuffle the elements before it with the
/// remaining draws.
pub open spec fn shuffle(v: Seq<u32>, draws: Seq<u32>) -> Seq<u32>
    decreases draws.len(),
{
    if draws.len() == 0 || v.len() == 0 {
        v
    } else {
        let last = v.len() - 1;
        let u = swap_at(v, last, draws[0] as int);
        shuffle(u.take(last), draws.drop_first()).push(u[last])
    }
}

/// The positions `0, 1, ..., d - 1` in order.
pub open spec fn positions(d: nat) -> Seq<u32> {
    Seq::new(d, |k: int| k as u32)
}

/// Draws fit for shuffling `d` positions: one per position from the last
/// down to the second, each at most the position it is drawn for.
pub open spec fn valid_draws(d: nat, draws: Seq<u32>) -> bool {
    &&& draws.len() == (if d == 0 { 0 } else { d - 1 })
    &&& forall|k: int| 0 <= k < draws.len() ==> draws[k] <= d - 1 - k
}

/// How many positions a code of width `w` over `d` positions keeps.
pub open spec fn kept(w: usize, d: usize) -> nat {
    if w <= d { w as nat } else { d as nat }
}

/// The valid draw sequences for which `sdr_from_draws(d, w, ..)` gives the bits `bits`.
pub open spec fn draws_selecting(d: usize, w: usize, bits: Seq<u32>) -> Set<Seq<u32>> {
    Set::new(|draws: Seq<u32>| valid_draws(d as nat, draws)
        && sorted_of(shuffle(positions(d as nat), draws).take(kept(w, d) as int).to_set()) == bits)
}

/// All valid draw sequences for shuffling `d` positions.
pub open spec fn all_draws(d: usize) -> Set<Seq<u32>> {
    Set::new(|draws: Seq<u32>| valid_draws(d as nat, draws))
}

/// The code that the given draws select: shuffle the positions `0..d` with
/// the draws, keep the first `w` of them (all when `w > d`), and sort them.
pub fn sdr_from_draws(d: usize, w: usize, draws: &Vec<u32>) -> (r: SDR)
    requires
        d <= u32::MAX,
        valid_draws(d as nat, draws@),
    ensures
        r.bits@ == sorted_of(shuffle(positions(d as nat), draws@).take(kept(w, d) as int).to_set()),
        r.d == d,
        r.w == w,
        r.bits@.len() == kept(w, d),
        strictly_sorted(r.bits@),
        forall|i: int| 0 <= i < r.bits@.len() ==> (#[trigger] r.bits@[i]) < d,
        w <= d ==> r.wf(),
{
    let mut v: Vec<u32> = Vec::new();
    let n = d as u32;
    let mut k: u32 = 0;
    while k < n
        invariant
            n == d,
            k <= n,
            v@ == positions(k as nat),
        decreases n - k,
    {
        v.push(k);
        k = k + 1;
        assert(v@ =~= positions(k as nat));
    }
    let ghost start = v@;
    assert(draws@.skip(0) =~= draws@);
    let mut t: usize = 0;
    while t < draws.len()
        invariant
            d <= u32::MAX,
            valid_draws(d as nat, draws@),
            t <= draws@.len(),
            start == positions(d as nat),
            v@.len() == d,
            v@.no_duplicates(),
            forall|i: int| 0 <= i < v@.len() ==> (#[trigger] v@[i]) < d,
            t == 0 || t < d,
            shuffle(v@.take(d - t), draws@.skip(t as int)) + v@.skip(d - t) == shuffle(start, draws@),
        decreases draws@.len() - t,
    {
        let i: usize = d - 1 - t;
        let j: usize = draws[t] as usize;
        let ghost before = v@;
        let vi = v[i];
        let vj = v[j];
        v.set(i, vj);
        v.set(j, vi);
        assert(v@ =~= swap_at(before, i as int, j as int));
        assert(draws@.skip(t as int).drop_first() =~= draws@.skip(t + 1));
        assert(draws@.skip(t as int)[0] == draws@[t as int]);
        proof {
            let p = before.take(d - t);
            let u = swap_at(p, i as int, j as int);
            assert(v@.take(d - t - 1) =~= u.take(i as int));
            assert(v@.skip(d - t - 1) =~= seq![u[i as int]] + before.skip(d - t));
            let rest = shuffle(u.take(i as int), draws@.skip(t + 1));
            assert(shuffle(p, draws@.skip(t as int)) == rest.push(u[i as int]));
            assert(rest.push(u[i as int]) + before.skip(d - t) =~= rest + (seq![u[i as int]] + before.skip(d - t)));
        }
        assert forall|a: int, b: int| 0 <= a < v@.len() && 0 <= b < v@.len() && a != b implies v@[a] != v@[b] by {
            let pa = if a == i { j as int } else if a == j { i as int } else { a };
            let pb = if b == i { j as int } else if b == j { i as int } else { b };
            assert(v@[a] == before[pa]);
            assert(v@[b] == before[pb]);
        }
        assert forall|a: int| 0 <= a < v@.len() implies (#[trigger] v@[a]) < d by {
            let pa = if a == i { j as int } else if a == j { i as int } else { a };
            assert(v@[a] == before[pa]);
        }
        t = t + 1;
    }
    assert(draws@.skip(t as int) =~= Seq::<u32>::empty());
    assert(v@.take(d - t) + v@.skip(d - t) =~= v@);
    let ghost shuffled = v@;
    assert(shuffled == shuffle(positions(d as nat), draws@));
    v.truncate(w);
    assert(v@ =~= shuffled.take(kept(w, d) as int));
    let ghost chosen = v@;
    sort_ascending(&mut v);
    proof {
        chosen.lemma_multiset_has_no_duplicates();
        v@.lemma_multiset_has_no_duplicates_conv();
        vstd::seq_lib::to_multiset_len(v@);
        vstd::seq_lib::to_multiset_len(chosen);
        lemma_same_multiset_same_set(v@, chosen);
        assert forall|a: int, b: int| 0 <= a < b < v@.len() implies v@[a] < v@[b] by {
            assert(v@[a] != v@[b]);
        }
        assert forall|a: int| 0 <= a < v@.len() implies (#[trigger] v@[a]) < d by {
            assert(v@.to_set().contains(v@[a]));
            let c = choose|c: int| 0 <= c < chosen.len() && chosen[c] == v@[a];
            assert(chosen[c] == shuffled[c]);
        }
        lemma_sorted_of(v@);
    }
    SDR { bits: v, d, w }
}

/// A random code of width `w` over `d` positions: `w` distinct positions
/// (all `d` when `w > d`) drawn with `rng`, in ascending order. It asks the
/// generator for a number in `0..=i` for `i = d - 1` down to `1`, and the
/// code is the one `sdr_from_draws` selects with the numbers that came
/// back. Each `w`-subset is selected by equally many draw sequences
/// (`laws::random_codes_uniform`).
pub fn rand_sdr(d: usize, w: usize, rng: &mut LoggedRng) -> (r: SDR)
    requires
        d <= u32::MAX,
    ensures
        final(rng).asked_log() == old(rng).asked_log() + draw_bounds(d),
        final(rng).asked_log().len() == old(rng).asked_log().len() + (if d == 0 { 0 } else { d - 1 }),
        forall|k: int| 0 <= k < (if d == 0 { 0 } else { d - 1 }) ==> #[trigger] final(rng).asked_log()[old(rng).asked_log().len() + k] == d - 1 - k,
        forall|k: int| 0 <= k < (if d == 0 { 0 } else { d - 1 }) ==> #[trigger] final(rng).drawn_log()[old(rng).drawn_log().len() + k] <= d - 1 - k,
        final(rng).drawn_log().len() == old(rng).drawn_log().len() + draw_bounds(d).len(),
        final(rng).drawn_log().take(old(rng).drawn_log().len() as int) == old(rng).drawn_log(),
        valid_draws(d as nat, final(rng).drawn_log().skip(old(rng).drawn_log().len() as int)),
        r.bits@ == sorted_of(
            shuffle(positions(d as nat), final(rng).drawn_log().skip(old(rng).drawn_log().len() as int)).take(
                kept(w, d) as int,
            ).to_set(),
        ),
        r.d == d,
        r.w == w,
        r.bits@.len() == kept(w, d),
        strictly_sorted(r.bits@),
        forall|i: int| 0 <= i < r.bits@.len() ==> (#[trigger] r.bits@[i]) < d,
        w <= d ==> r.wf(),
{
    let ghost asked0 = rng.asked_log();
    let ghost drawn0 = rng.drawn_log();
    let mut draws: Vec<u32> = Vec::new();
    let last: usize = if d == 0 { 0 } else { d - 1 };
    let mut t: usize = 0;
    while t < last
        invariant
            d <= u32::MAX,
            last == (if d == 0 { 0 } else { d - 1 }),
            last == draw_bounds(d).len(),
            t <= last,
            draws@.len() == t,
            forall|k: int| 0 <= k < t ==> draws@[k] <= d - 1 - k,
            rng.asked_log() == asked0 + draw_bounds(d).take(t as int),
            rng.drawn_log() == drawn0 + draws@,
        decreases last - t,
    {
        let hi = (d - 1 - t) as u32;
        let x = rng.draw_up_to(hi);
        proof {
            assert(draw_bounds(d).take(t + 1) =~= draw_bounds(d).take(t as int).push(hi));
        }
        draws.push(x);
        t = t + 1;
    }
    assert(draw_bounds(d).take(t as int) =~= draw_bounds(d));
    assert(rng.drawn_log().take(drawn0.len() as int) =~= drawn0);
    assert(rng.drawn_log().skip(drawn0.len() as int) =~= draws@);
    assert forall|k: int| 0 <= k < last implies #[trigger] rng.asked_log()[asked0.len() + k] == d - 1 - k by {
        assert(rng.asked_log()[asked0.len() + k] == draw_bounds(d)[k]);
    }
    assert forall|k: int| 0 <= k < last implies #[trigger] rng.drawn_log()[drawn0.len() + k] <= d - 1 - k by {
        assert(rng.drawn_log()[drawn0.len() + k] == draws@[k]);
    }
    sdr_from_draws(d, w, &draws)
}

} // verus!
