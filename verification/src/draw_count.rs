//! Counting draw sequences: how many of the valid draw sequences make the
//! shuffle keep a given set of positions.

use vstd::prelude::*;
use vstd::relations::injective_on;
use crate::random::{shuffle, swap_at};

verus! {

broadcast use vstd::seq_lib::group_seq_properties, vstd::set::group_set_axioms;

/// `n!`.
pub open spec fn factorial(n: nat) -> nat
    decreases n,
{
    if n == 0 {
        1
    } else {
        n * factorial((n - 1) as nat)
    }
}

/// Draw sequences of length `m` whose `k`-th draw is at most `m - k`: the
/// draws that shuffle `m + 1` elements.
pub open spec fn draw_space(m: nat) -> Set<Seq<u32>> {
    Set::new(|s: Seq<u32>| s.len() == m && forall|k: int| 0 <= k < m ==> #[trigger] s[k] <= m - k)
}

/// The draw sequences of length `m` that satisfy `p`.
pub open spec fn draws_where(m: nat, p: spec_fn(Seq<u32>) -> bool) -> Set<Seq<u32>> {
    Set::new(|s: Seq<u32>| draw_space(m).contains(s) && p(s))
}

/// `p` on the sequences that follow a first draw `j`.
pub open spec fn after_first(p: spec_fn(Seq<u32>) -> bool, j: u32) -> spec_fn(Seq<u32>) -> bool {
    |s: Seq<u32>| p(seq![j] + s)
}

/// The draw sequences of length `m` satisfying `p` whose first draw is below `t`.
pub open spec fn first_below(m: nat, p: spec_fn(Seq<u32>) -> bool, t: int) -> Set<Seq<u32>> {
    Set::new(|s: Seq<u32>| draws_where(m, p).contains(s) && s[0] < t)
}

/// The counts of the sequences after each first draw `0, ..., t - 1`, summed.
pub open spec fn sum_by_first(m: nat, p: spec_fn(Seq<u32>) -> bool, t: nat) -> nat
    decreases t,
{
    if t == 0 {
        0
    } else {
        sum_by_first(m, p, (t - 1) as nat) + draws_where((m - 1) as nat, after_first(p, (t - 1) as u32)).len()
    }
}

/// Sorting the draw sequences by their first draw: those with first draw
/// below `t` number the sum of the counts after each such first draw.
pub proof fn lemma_split_by_first(m: nat, p: spec_fn(Seq<u32>) -> bool, t: nat)
    requires
        1 <= m <= u32::MAX,
        t <= m + 1,
        forall|j: nat| j < t ==> #[trigger] draws_where((m - 1) as nat, after_first(p, j as u32)).finite(),
    ensures
        first_below(m, p, t as int).finite(),
        first_below(m, p, t as int).len() == sum_by_first(m, p, t),
    decreases t,
{
    if t == 0 {
        assert(first_below(m, p, 0) =~= Set::empty());
    } else {
        let t1 = (t - 1) as nat;
        lemma_split_by_first(m, p, t1);
        let j = t1 as u32;
        let q = after_first(p, j);
        let src = draws_where((m - 1) as nat, q);
        assert(src.finite());
        let f = |s: Seq<u32>| seq![j] + s;
        let g = src.map(f);
        assert(injective_on(f, src)) by {
            assert forall|x1: Seq<u32>, x2: Seq<u32>|
                src.contains(x1) && src.contains(x2) && #[trigger] f(x1) == #[trigger] f(x2) implies x1 == x2 by {
                assert(x1 =~= f(x1).drop_first());
                assert(x2 =~= f(x2).drop_first());
            }
        }
        vstd::set_lib::lemma_map_size(src, g, f);
        let lo = first_below(m, p, t1 as int);
        assert forall|s: Seq<u32>| first_below(m, p, t as int).contains(s) implies #[trigger] (lo + g).contains(s) by {
            if s[0] == j {
                let s1 = s.drop_first();
                assert(s =~= f(s1));
                assert forall|k: int| 0 <= k < m - 1 implies #[trigger] s1[k] <= (m - 1) - k by {
                    assert(s1[k] == s[k + 1]);
                }
                assert(draw_space((m - 1) as nat).contains(s1));
                assert(q(s1));
                assert(src.contains(s1));
                assert(g.contains(s));
            }
        }
        assert forall|s: Seq<u32>| #[trigger] (lo + g).contains(s) implies first_below(m, p, t as int).contains(s) by {
            if g.contains(s) {
                let s1 = choose|x: Seq<u32>| src.contains(x) && s == f(x);
                assert(s[0] == j);
                assert forall|k: int| 0 <= k < m implies #[trigger] s[k] <= m - k by {
                    if k > 0 {
                        assert(s[k] == s1[k - 1]);
                    }
                }
                assert(draw_space(m).contains(s));
                assert(s =~= seq![j] + s1);
            }
        }
        assert(first_below(m, p, t as int) =~= lo + g);
        assert(lo.disjoint(g)) by {
            assert forall|s: Seq<u32>| lo.contains(s) implies !g.contains(s) by {
                if g.contains(s) {
                    let s1 = choose|x: Seq<u32>| src.contains(x) && s == f(x);
                    assert(s[0] == j);
                }
            }
        }
        vstd::set_lib::lemma_set_disjoint_lens(lo, g);
    }
}

/// Every draw sequence of length `m >= 1` has a first draw of at most `m`.
pub proof fn lemma_first_below_all(m: nat, p: spec_fn(Seq<u32>) -> bool)
    requires
        1 <= m,
    ensures
        first_below(m, p, (m + 1) as int) == draws_where(m, p),
{
    assert forall|s: Seq<u32>| #[trigger] draws_where(m, p).contains(s) implies s[0] < m + 1 by {
        assert(s[0] <= m - 0);
    }
    assert(first_below(m, p, (m + 1) as int) =~= draws_where(m, p));
}

/// With no draws left only the empty sequence remains.
pub proof fn lemma_no_draws(p: spec_fn(Seq<u32>) -> bool)
    ensures
        draws_where(0, p).finite(),
        draws_where(0, p).len() == (if p(Seq::<u32>::empty()) { 1nat } else { 0nat }),
{
    let e = Seq::<u32>::empty();
    if p(e) {
        assert(draw_space(0).contains(e));
        assert forall|s: Seq<u32>| draws_where(0, p).contains(s) implies s == e by {
            assert(s =~= e);
        }
        assert(draws_where(0, p) =~= Set::empty().insert(e));
    } else {
        assert forall|s: Seq<u32>| !draws_where(0, p).contains(s) by {
            if draws_where(0, p).contains(s) {
                assert(s =~= e);
            }
        }
        assert(draws_where(0, p) =~= Set::empty());
    }
}

/// How many of `0, ..., t - 1` satisfy `good`.
pub open spec fn count_true(good: spec_fn(int) -> bool, t: nat) -> nat
    decreases t,
{
    if t == 0 {
        0
    } else {
        count_true(good, (t - 1) as nat) + (if good(t - 1) { 1nat } else { 0nat })
    }
}

/// When each first draw leaves either `c` sequences or none, the sum is `c`
/// times the number of first draws that leave `c`.
pub proof fn lemma_sum_by_first_cases(m: nat, p: spec_fn(Seq<u32>) -> bool, t: nat, c: nat, good: spec_fn(int) -> bool)
    requires
        forall|j: nat| j < t ==> #[trigger] draws_where((m - 1) as nat, after_first(p, j as u32)).len() == (if good(j as int) { c } else { 0 }),
    ensures
        sum_by_first(m, p, t) == c * count_true(good, t),
    decreases t,
{
    if t > 0 {
        let t1 = (t - 1) as nat;
        lemma_sum_by_first_cases(m, p, t1, c, good);
        assert(draws_where((m - 1) as nat, after_first(p, t1 as u32)).len() == (if good(t1 as int) { c } else { 0 }));
        let k = count_true(good, t1);
        assert(sum_by_first(m, p, t) == sum_by_first(m, p, t1) + draws_where((m - 1) as nat, after_first(p, t1 as u32)).len());
        assert(count_true(good, t) == k + (if good(t1 as int) { 1nat } else { 0nat }));
        if good(t1 as int) {
            assert(c * (k + 1) == c * k + c) by (nonlinear_arith);
            assert(sum_by_first(m, p, t) == c * count_true(good, t));
        } else {
            assert(sum_by_first(m, p, t) == c * count_true(good, t));
        }
    } else {
        assert(sum_by_first(m, p, t) == 0);
        assert(count_true(good, t) == 0);
        assert(c * 0 == 0);
    }
}

/// Every predicate that holds of every draw sequence.
pub open spec fn any_draws() -> spec_fn(Seq<u32>) -> bool {
    |s: Seq<u32>| true
}

/// There are `(m + 1)!` draw sequences of length `m`.
pub proof fn lemma_draw_space_size(m: nat)
    requires
        m <= u32::MAX,
    ensures
        draws_where(m, any_draws()).finite(),
        draws_where(m, any_draws()).len() == factorial(m + 1),
    decreases m,
{
    if m == 0 {
        lemma_no_draws(any_draws());
        assert(any_draws()(Seq::<u32>::empty()));
        assert(factorial(0) == 1);
        assert(factorial(1) == 1);
    } else {
        let m1 = (m - 1) as nat;
        lemma_draw_space_size(m1);
        assert forall|j: nat| j < m + 1 implies #[trigger] draws_where(m1, after_first(any_draws(), j as u32)) == draws_where(m1, any_draws()) by {
            assert(draws_where(m1, after_first(any_draws(), j as u32)) =~= draws_where(m1, any_draws()));
        }
        lemma_split_by_first(m, any_draws(), m + 1);
        lemma_first_below_all(m, any_draws());
        let good = |j: int| true;
        assert forall|j: nat| j < m + 1 implies #[trigger] draws_where(m1, after_first(any_draws(), j as u32)).len() == (if good(j as int) { factorial(m) } else { 0 }) by {
            assert(draws_where(m1, after_first(any_draws(), j as u32)) == draws_where(m1, any_draws()));
        }
        assert(m1 + 1 == m);
        lemma_sum_by_first_cases(m, any_draws(), m + 1, factorial(m), good);
        lemma_count_all(good, m + 1);
        assert(factorial(m + 1) == (m + 1) * factorial(m));
        assert(factorial(m) * (m + 1) == (m + 1) * factorial(m)) by (nonlinear_arith);
    }
}

/// When `good` holds everywhere, it holds of all `t` numbers.
pub proof fn lemma_count_all(good: spec_fn(int) -> bool, t: nat)
    requires
        forall|j: int| #[trigger] good(j),
    ensures
        count_true(good, t) == t,
    decreases t,
{
    if t > 0 {
        lemma_count_all(good, (t - 1) as nat);
    }
}

/// Exchanging two elements keeps the length, the set of elements, and the absence of repeats.
pub proof fn lemma_swap_keeps(v: Seq<u32>, i: int, j: int)
    requires
        0 <= i < v.len(),
        0 <= j < v.len(),
    ensures
        swap_at(v, i, j).len() == v.len(),
        swap_at(v, i, j).to_set() == v.to_set(),
        v.no_duplicates() ==> swap_at(v, i, j).no_duplicates(),
{
    let u = swap_at(v, i, j);
    assert forall|x: u32| u.to_set().contains(x) == v.to_set().contains(x) by {
        if u.to_set().contains(x) {
            let k = choose|k: int| 0 <= k < u.len() && u[k] == x;
            let pk = if k == j { i } else if k == i { j } else { k };
            assert(v[pk] == x);
        }
        if v.to_set().contains(x) {
            let k = choose|k: int| 0 <= k < v.len() && v[k] == x;
            let pk = if k == j { i } else if k == i { j } else { k };
            assert(u[pk] == x);
        }
    }
    assert(u.to_set() =~= v.to_set());
    if v.no_duplicates() {
        assert forall|a: int, b: int| 0 <= a < u.len() && 0 <= b < u.len() && a != b implies u[a] != u[b] by {
            let pa = if a == j { i } else if a == i { j } else { a };
            let pb = if b == j { i } else if b == i { j } else { b };
            assert(u[a] == v[pa]);
            assert(u[b] == v[pb]);
        }
    }
}

/// Shuffling with valid draws rearranges the elements: same length, same
/// set, and no repeats where there were none.
pub proof fn lemma_shuffle_rearranges(v: Seq<u32>, s: Seq<u32>)
    requires
        v.len() >= 1,
        draw_space((v.len() - 1) as nat).contains(s),
    ensures
        shuffle(v, s).len() == v.len(),
        shuffle(v, s).to_set() == v.to_set(),
        v.no_duplicates() ==> shuffle(v, s).no_duplicates(),
    decreases s.len(),
{
    if s.len() > 0 {
        let last = v.len() - 1;
        let u = swap_at(v, last, s[0] as int);
        assert(s[0] <= last - 0);
        lemma_swap_keeps(v, last, s[0] as int);
        let v1 = u.take(last);
        let s1 = s.drop_first();
        assert forall|k: int| 0 <= k < last - 1 implies #[trigger] s1[k] <= (last - 1) - k by {
            assert(s1[k] == s[k + 1]);
        }
        lemma_shuffle_rearranges(v1, s1);
        let r = shuffle(v1, s1);
        assert(shuffle(v, s) == r.push(u[last]));
        assert(u =~= v1.push(u[last]));
        assert(r.push(u[last]).to_set() =~= u.to_set()) by {
            assert forall|x: u32| r.push(u[last]).to_set().contains(x) == u.to_set().contains(x) by {
                if r.push(u[last]).to_set().contains(x) {
                    let k = choose|k: int| 0 <= k < r.len() + 1 && r.push(u[last])[k] == x;
                    if k < r.len() {
                        assert(r.to_set().contains(x));
                        assert(v1.to_set().contains(x));
                        let k2 = choose|k2: int| 0 <= k2 < v1.len() && v1[k2] == x;
                        assert(u[k2] == x);
                    }
                }
                if u.to_set().contains(x) {
                    let k = choose|k: int| 0 <= k < u.len() && u[k] == x;
                    if k < last {
                        assert(v1[k] == x);
                        assert(v1.to_set().contains(x));
                        assert(r.to_set().contains(x));
                        let k2 = choose|k2: int| 0 <= k2 < r.len() && r[k2] == x;
                        assert(r.push(u[last])[k2] == x);
                    } else {
                        assert(r.push(u[last])[r.len() as int] == x);
                    }
                }
            }
        }
        if v.no_duplicates() {
            assert(!v1.to_set().contains(u[last])) by {
                if v1.to_set().contains(u[last]) {
                    let k = choose|k: int| 0 <= k < v1.len() && v1[k] == u[last];
                    assert(u[k] == u[last]);
                }
            }
            assert forall|a: int, b: int| 0 <= a < r.len() + 1 && 0 <= b < r.len() + 1 && a != b implies r.push(u[last])[a] != r.push(u[last])[b] by {
                if a == r.len() {
                    assert(r.to_set().contains(r[b]));
                } else if b == r.len() {
                    assert(r.to_set().contains(r[a]));
                }
            }
        }
    }
}

/// Among the first `t` elements of a repeat-free `v`, those outside
/// `target` number `t` less those inside.
pub proof fn lemma_count_outside(v: Seq<u32>, target: Set<u32>, good: spec_fn(int) -> bool, t: nat)
    requires
        v.no_duplicates(),
        t <= v.len(),
        target.finite(),
        forall|j: int| #[trigger] good(j) == !target.contains(v[j]),
    ensures
        target.intersect(v.take(t as int).to_set()).len() <= t,
        count_true(good, t) == t - target.intersect(v.take(t as int).to_set()).len(),
    decreases t,
{
    if t == 0 {
        assert(target.intersect(v.take(0).to_set()) =~= Set::empty());
    } else {
        let t1 = (t - 1) as nat;
        lemma_count_outside(v, target, good, t1);
        let x = v[t1 as int];
        let before = target.intersect(v.take(t1 as int).to_set());
        assert(v.take(t as int).to_set() =~= v.take(t1 as int).to_set().insert(x)) by {
            assert forall|y: u32| v.take(t as int).to_set().contains(y) implies #[trigger] v.take(t1 as int).to_set().insert(x).contains(y) by {
                let k = choose|k: int| 0 <= k < t && v.take(t as int)[k] == y;
                if k < t1 {
                    assert(v.take(t1 as int)[k] == y);
                }
            }
            assert forall|y: u32| v.take(t1 as int).to_set().insert(x).contains(y) implies #[trigger] v.take(t as int).to_set().contains(y) by {
                if y == x {
                    assert(v.take(t as int)[t1 as int] == y);
                } else {
                    let k = choose|k: int| 0 <= k < t1 && v.take(t1 as int)[k] == y;
                    assert(v.take(t as int)[k] == y);
                }
            }
        }
        assert(!v.take(t1 as int).to_set().contains(x)) by {
            if v.take(t1 as int).to_set().contains(x) {
                let k = choose|k: int| 0 <= k < t1 && v.take(t1 as int)[k] == x;
                assert(v[k] == x);
            }
        }
        if target.contains(x) {
            assert(target.intersect(v.take(t as int).to_set()) =~= before.insert(x));
        } else {
            assert(target.intersect(v.take(t as int).to_set()) =~= before);
        }
    }
}

/// The draw sequences that make shuffling `v` keep exactly `target` in
/// its first `w` places.
pub open spec fn keeps(v: Seq<u32>, w: nat, target: Set<u32>) -> spec_fn(Seq<u32>) -> bool {
    |s: Seq<u32>| shuffle(v, s).take(w as int).to_set() == target
}

/// After a first draw `j`, the draws that keep `target` are those that
/// keep it when shuffling `v` with its last element and the `j`-th exchanged
/// and the last dropped: none when that element is in `target`, else
/// `w! (n - 1 - w)!` of them.
pub proof fn lemma_count_after_first(v: Seq<u32>, w: nat, target: Set<u32>, j: nat)
    requires
        2 <= v.len() <= u32::MAX + 1,
        v.no_duplicates(),
        w < v.len(),
        target.subset_of(v.to_set()),
        target.finite(),
        target.len() == w,
        j < v.len(),
    ensures
        draws_where((v.len() - 2) as nat, after_first(keeps(v, w, target), j as u32)).finite(),
        draws_where((v.len() - 2) as nat, after_first(keeps(v, w, target), j as u32)).len() == (if target.contains(v[j as int]) {
            0
        } else {
            factorial(w) * factorial((v.len() - 1 - w) as nat)
        }),
    decreases v.len(), 0nat,
{
    let n = v.len();
    let m = (n - 1) as nat;
    let u = swap_at(v, m as int, j as int);
    let v1 = u.take(m as int);
    lemma_swap_keeps(v, m as int, j as int);
    let here = draws_where((m - 1) as nat, after_first(keeps(v, w, target), j as u32));
    assert(v1.no_duplicates());
    assert(u =~= v1.push(u[m as int]));
    assert(u[m as int] == v[j as int]);
    assert(!v1.to_set().contains(v[j as int])) by {
        if v1.to_set().contains(v[j as int]) {
            let k = choose|k: int| 0 <= k < v1.len() && v1[k] == v[j as int];
            assert(u[k] == u[m as int]);
        }
    }
    assert forall|s1: Seq<u32>| draw_space((m - 1) as nat).contains(s1) implies
        (#[trigger] after_first(keeps(v, w, target), j as u32)(s1) == keeps(v1, w, target)(s1))
        && shuffle(v1, s1).take(w as int).to_set().subset_of(v1.to_set()) by {
        let s = seq![j as u32] + s1;
        assert(s.drop_first() =~= s1);
        assert(s[0] == j as u32);
        assert(shuffle(v, s) == shuffle(v1, s1).push(u[m as int]));
        lemma_shuffle_rearranges(v1, s1);
        assert(shuffle(v, s).take(w as int) =~= shuffle(v1, s1).take(w as int));
        assert forall|x: u32| shuffle(v1, s1).take(w as int).to_set().contains(x) implies v1.to_set().contains(x) by {
            let k = choose|k: int| 0 <= k < w && shuffle(v1, s1).take(w as int)[k] == x;
            assert(shuffle(v1, s1)[k] == x);
            assert(shuffle(v1, s1).to_set().contains(x));
        }
    }
    if target.contains(v[j as int]) {
        assert forall|s1: Seq<u32>| !here.contains(s1) by {
            if here.contains(s1) {
                assert(after_first(keeps(v, w, target), j as u32)(s1));
                assert(shuffle(v1, s1).take(w as int).to_set() == target);
                assert(v1.to_set().contains(v[j as int]));
            }
        }
        assert(here =~= Set::empty());
    } else {
        assert(target.subset_of(v1.to_set())) by {
            assert forall|x: u32| target.contains(x) implies v1.to_set().contains(x) by {
                assert(v.to_set().contains(x));
                assert(u.to_set().contains(x));
                let k = choose|k: int| 0 <= k < u.len() && u[k] == x;
                assert(k != m);
                assert(v1[k] == x);
            }
        }
        lemma_count_keeps(v1, w, target);
        assert(here =~= draws_where((m - 1) as nat, keeps(v1, w, target)));
    }
}

/// For a repeat-free `v` of `n` elements and a `w`-element subset `target`
/// of them, exactly `w! (n - w)!` of the valid draw sequences make the
/// shuffle of `v` keep `target` in its first `w` places.
pub proof fn lemma_count_keeps(v: Seq<u32>, w: nat, target: Set<u32>)
    requires
        1 <= v.len() <= u32::MAX + 1,
        v.no_duplicates(),
        w <= v.len(),
        target.subset_of(v.to_set()),
        target.finite(),
        target.len() == w,
    ensures
        draws_where((v.len() - 1) as nat, keeps(v, w, target)).finite(),
        draws_where((v.len() - 1) as nat, keeps(v, w, target)).len() == factorial(w) * factorial((v.len() - w) as nat),
    decreases v.len(), 1nat,
{
    let n = v.len();
    let m = (n - 1) as nat;
    let p = keeps(v, w, target);
    if w == n {
        v.unique_seq_to_set();
        vstd::set_lib::lemma_subset_equality(target, v.to_set());
        assert forall|s: Seq<u32>| draw_space(m).contains(s) implies #[trigger] p(s) by {
            lemma_shuffle_rearranges(v, s);
            assert(shuffle(v, s).take(w as int) =~= shuffle(v, s));
        }
        assert(draws_where(m, p) =~= draws_where(m, any_draws()));
        lemma_draw_space_size(m);
        assert(factorial(0) == 1);
        assert(factorial(w) * factorial(0) == factorial(w)) by (nonlinear_arith)
            requires factorial(0) == 1;
    } else if n == 1 {
        assert(w == 0);
        target.lemma_len0_is_empty();
        assert(shuffle(v, Seq::<u32>::empty()).take(0).to_set() =~= Set::<u32>::empty());
        assert(p(Seq::<u32>::empty()));
        lemma_no_draws(p);
        assert(factorial(0) == 1);
        assert(factorial(1) == 1);
    } else {
        let c = factorial(w) * factorial((m - w) as nat);
        let good = |j: int| !target.contains(v[j]);
        assert forall|j: nat| j < m + 1 implies #[trigger] draws_where((m - 1) as nat, after_first(p, j as u32)).finite() by {
            lemma_count_after_first(v, w, target, j);
        }
        assert forall|j: nat| j < m + 1 implies #[trigger] draws_where((m - 1) as nat, after_first(p, j as u32)).len() == (if good(j as int) { c } else { 0 }) by {
            lemma_count_after_first(v, w, target, j);
        }
        lemma_split_by_first(m, p, m + 1);
        lemma_first_below_all(m, p);
        lemma_sum_by_first_cases(m, p, m + 1, c, good);
        lemma_count_outside(v, target, good, n);
        assert(v.take(n as int) =~= v);
        assert(target.intersect(v.to_set()) =~= target);
        assert(count_true(good, n) == n - w);
        let k = (n - w) as nat;
        assert(factorial(k) == k * factorial((k - 1) as nat));
        assert((k - 1) as nat == (m - w) as nat);
        assert(c * k == factorial(w) * factorial(k)) by (nonlinear_arith)
            requires
                c == factorial(w) * factorial((k - 1) as nat),
                factorial(k) == k * factorial((k - 1) as nat);
    }
}

} // verus!
