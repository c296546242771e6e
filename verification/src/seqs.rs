//! Facts about sequences of bit indices kept in ascending order.

use vstd::prelude::*;

verus! {

broadcast use vstd::seq_lib::group_seq_properties, vstd::set::group_set_axioms, vstd::seq_lib::seq_to_set_is_finite;

/// Each element is smaller than every later one: ascending, no repeats.
pub open spec fn strictly_sorted(s: Seq<u32>) -> bool {
    forall|i: int, j: int| 0 <= i < j < s.len() ==> s[i] < s[j]
}

/// Each element is at most every later one.
pub open spec fn sorted(s: Seq<u32>) -> bool {
    forall|i: int, j: int| 0 <= i < j < s.len() ==> s[i] <= s[j]
}

/// Number of matches found by walking two sequences side by side with one
/// cursor each: the cursor on the smaller head moves on; on equal heads both
/// move on and one match is counted.
pub open spec fn merge_count(a: Seq<u32>, b: Seq<u32>) -> nat
    decreases a.len() + b.len(),
{
    if a.len() == 0 || b.len() == 0 {
        0
    } else if a[0] < b[0] {
        merge_count(a.drop_first(), b)
    } else if b[0] < a[0] {
        merge_count(a, b.drop_first())
    } else {
        1 + merge_count(a.drop_first(), b.drop_first())
    }
}

/// The ascending, repeat-free sequence whose elements are exactly `s`.
pub open spec fn sorted_of(s: Set<u32>) -> Seq<u32> {
    choose|q: Seq<u32>| strictly_sorted(q) && q.to_set() == s
}

/// Two ascending, repeat-free sequences with the same elements are equal.
pub proof fn lemma_strictly_sorted_unique(p: Seq<u32>, q: Seq<u32>)
    requires
        strictly_sorted(p),
        strictly_sorted(q),
        p.to_set() == q.to_set(),
    ensures
        p == q,
    decreases p.len(),
{
    if p.len() == 0 {
        if q.len() > 0 {
            assert(q.to_set().contains(q[0]));
        }
    } else if q.len() == 0 {
        assert(p.to_set().contains(p[0]));
    } else {
        assert(q.to_set().contains(p[0]));
        assert(p.to_set().contains(q[0]));
        assert(p[0] == q[0]);
        let p1 = p.drop_first();
        let q1 = q.drop_first();
        assert forall|x: u32| p1.to_set().contains(x) implies q1.to_set().contains(x) by {
            let i = choose|i: int| 0 <= i < p1.len() && p1[i] == x;
            assert(p[i + 1] == x);
            assert(q.to_set().contains(x));
            let k = choose|k: int| 0 <= k < q.len() && q[k] == x;
            assert(k != 0);
            assert(q1[k - 1] == x);
        }
        assert forall|x: u32| q1.to_set().contains(x) implies p1.to_set().contains(x) by {
            let i = choose|i: int| 0 <= i < q1.len() && q1[i] == x;
            assert(q[i + 1] == x);
            assert(p.to_set().contains(x));
            let k = choose|k: int| 0 <= k < p.len() && p[k] == x;
            assert(k != 0);
            assert(p1[k - 1] == x);
        }
        assert(p1.to_set() =~= q1.to_set());
        lemma_strictly_sorted_unique(p1, q1);
        assert forall|i: int| 0 <= i < p.len() implies p[i] == q[i] by {
            if i > 0 {
                assert(p[i] == p1[i - 1]);
                assert(q[i] == q1[i - 1]);
            }
        }
        assert(p =~= q);
    }
}

/// An ascending, repeat-free sequence is the one that `sorted_of` names for its elements.
pub proof fn lemma_sorted_of(q: Seq<u32>)
    requires
        strictly_sorted(q),
    ensures
        sorted_of(q.to_set()) == q,
{
    let s = q.to_set();
    assert(strictly_sorted(q) && q.to_set() == s);
    let c = sorted_of(s);
    assert(strictly_sorted(c) && c.to_set() == s);
    lemma_strictly_sorted_unique(c, q);
}

/// On ascending, repeat-free sequences the side-by-side walk counts the
/// elements the two have in common.
pub proof fn lemma_merge_count_intersection(a: Seq<u32>, b: Seq<u32>)
    requires
        strictly_sorted(a),
        strictly_sorted(b),
    ensures
        merge_count(a, b) == a.to_set().intersect(b.to_set()).len(),
    decreases a.len() + b.len(),
{
    if a.len() == 0 {
        assert(a.to_set().intersect(b.to_set()) =~= Set::empty());
    } else if b.len() == 0 {
        assert(a.to_set().intersect(b.to_set()) =~= Set::empty());
    } else {
        let a1 = a.drop_first();
        let b1 = b.drop_first();
        assert(a.to_set() =~= a1.to_set().insert(a[0])) by {
            assert forall|x: u32| a.to_set().contains(x) implies #[trigger] a1.to_set().insert(
                a[0],
            ).contains(x) by {
                let i = choose|i: int| 0 <= i < a.len() && a[i] == x;
                if i > 0 {
                    assert(a1[i - 1] == x);
                }
            }
        }
        assert(b.to_set() =~= b1.to_set().insert(b[0])) by {
            assert forall|x: u32| b.to_set().contains(x) implies #[trigger] b1.to_set().insert(
                b[0],
            ).contains(x) by {
                let i = choose|i: int| 0 <= i < b.len() && b[i] == x;
                if i > 0 {
                    assert(b1[i - 1] == x);
                }
            }
        }
        assert(!a1.to_set().contains(a[0]));
        assert(!b1.to_set().contains(b[0]));
        if a[0] < b[0] {
            assert(!b.to_set().contains(a[0]));
            assert(a.to_set().intersect(b.to_set()) =~= a1.to_set().intersect(b.to_set()));
            lemma_merge_count_intersection(a1, b);
        } else if b[0] < a[0] {
            assert(!a.to_set().contains(b[0]));
            assert(a.to_set().intersect(b.to_set()) =~= a.to_set().intersect(b1.to_set()));
            lemma_merge_count_intersection(a, b1);
        } else {
            assert(a.to_set().intersect(b.to_set()) =~= a1.to_set().intersect(b1.to_set()).insert(
                a[0],
            ));
            lemma_merge_count_intersection(a1, b1);
        }
    }
}

/// An ascending, repeat-free sequence has as many elements as its set.
pub proof fn lemma_strictly_sorted_set_len(a: Seq<u32>)
    requires
        strictly_sorted(a),
    ensures
        a.no_duplicates(),
        a.to_set().len() == a.len(),
{
    assert forall|i: int, j: int| 0 <= i < a.len() && 0 <= j < a.len() && i != j implies a[i] != a[j] by {
        if i < j {
            assert(a[i] < a[j]);
        } else {
            assert(a[j] < a[i]);
        }
    }
    a.unique_seq_to_set();
}

/// Sequences with the same multiset of elements have the same set of elements.
pub proof fn lemma_same_multiset_same_set(p: Seq<u32>, q: Seq<u32>)
    requires
        p.to_multiset() == q.to_multiset(),
    ensures
        p.to_set() == q.to_set(),
{
    assert forall|x: u32| p.to_set().contains(x) == q.to_set().contains(x) by {
        vstd::seq_lib::to_multiset_contains(p, x);
        vstd::seq_lib::to_multiset_contains(q, x);
    }
    assert(p.to_set() =~= q.to_set());
}

/// Appending sequences unites their sets of elements.
pub proof fn lemma_concat_set(p: Seq<u32>, q: Seq<u32>)
    ensures
        (p + q).to_set() == p.to_set() + q.to_set(),
{
    assert forall|x: u32| (p + q).to_set().contains(x) implies #[trigger] (p.to_set()
        + q.to_set()).contains(x) by {
        let i = choose|i: int| 0 <= i < (p + q).len() && (p + q)[i] == x;
        if i < p.len() {
            assert(p[i] == x);
        } else {
            assert(q[i - p.len()] == x);
        }
    }
    assert forall|x: u32| (p.to_set() + q.to_set()).contains(x) implies #[trigger] (p
        + q).to_set().contains(x) by {
        if p.to_set().contains(x) {
            let i = choose|i: int| 0 <= i < p.len() && p[i] == x;
            assert((p + q)[i] == x);
        } else {
            let i = choose|i: int| 0 <= i < q.len() && q[i] == x;
            assert((p + q)[i + p.len()] == x);
        }
    }
    assert((p + q).to_set() =~= p.to_set() + q.to_set());
}

/// `q` with `x` put in its place, when `x` is not already there.
pub open spec fn insert_sorted(q: Seq<u32>, x: u32) -> Seq<u32>
    decreases q.len(),
{
    if q.len() == 0 {
        seq![x]
    } else if x < q[0] {
        seq![x] + q
    } else if x == q[0] {
        q
    } else {
        seq![q[0]] + insert_sorted(q.drop_first(), x)
    }
}

/// Putting an element in its place keeps a sequence ascending and adds the element.
pub proof fn lemma_insert_sorted(q: Seq<u32>, x: u32)
    requires
        strictly_sorted(q),
    ensures
        strictly_sorted(insert_sorted(q, x)),
        insert_sorted(q, x).to_set() == q.to_set().insert(x),
    decreases q.len(),
{
    let r = insert_sorted(q, x);
    if q.len() == 0 {
        assert(r.to_set() =~= q.to_set().insert(x)) by {
            assert(r[0] == x);
        }
    } else if x < q[0] {
        lemma_concat_set(seq![x], q);
        assert(seq![x].to_set() =~= Set::empty().insert(x)) by {
            assert(seq![x][0] == x);
        }
        assert(r.to_set() =~= q.to_set().insert(x));
        assert forall|i: int, j: int| 0 <= i < j < r.len() implies r[i] < r[j] by {
            if i > 0 {
                assert(r[i] == q[i - 1]);
            }
            assert(r[j] == q[j - 1]);
        }
    } else if x == q[0] {
        assert(q.to_set().contains(x));
        assert(r.to_set() =~= q.to_set().insert(x));
    } else {
        let q1 = q.drop_first();
        let rest = insert_sorted(q1, x);
        lemma_insert_sorted(q1, x);
        lemma_concat_set(seq![q[0]], rest);
        assert(seq![q[0]].to_set() =~= Set::empty().insert(q[0])) by {
            assert(seq![q[0]][0] == q[0]);
        }
        assert(q.to_set() =~= q1.to_set().insert(q[0])) by {
            assert forall|y: u32| q.to_set().contains(y) implies #[trigger] q1.to_set().insert(
                q[0],
            ).contains(y) by {
                let i = choose|i: int| 0 <= i < q.len() && q[i] == y;
                if i > 0 {
                    assert(q1[i - 1] == y);
                }
            }
        }
        assert(r.to_set() =~= q.to_set().insert(x));
        assert forall|i: int, j: int| 0 <= i < j < r.len() implies r[i] < r[j] by {
            assert(r[j] == rest[j - 1]);
            if i > 0 {
                assert(r[i] == rest[i - 1]);
            } else {
                assert(rest.to_set().contains(rest[j - 1]));
                assert(q1.to_set().insert(x).contains(rest[j - 1]));
                if rest[j - 1] != x {
                    let k = choose|k: int| 0 <= k < q1.len() && q1[k] == rest[j - 1];
                    assert(q[k + 1] == q1[k]);
                }
            }
        }
    }
}

/// The elements of any sequence of `u32` can be listed ascending without
/// repeats, so `sorted_of` of them is such a listing.
pub proof fn lemma_sorted_of_seq(s: Seq<u32>)
    ensures
        strictly_sorted(sorted_of(s.to_set())),
        sorted_of(s.to_set()).to_set() == s.to_set(),
    decreases s.len(),
{
    if s.len() == 0 {
        let e = Seq::<u32>::empty();
        assert(e.to_set() =~= s.to_set());
        assert(strictly_sorted(e) && e.to_set() == s.to_set());
    } else {
        let s1 = s.drop_last();
        let x = s.last();
        lemma_sorted_of_seq(s1);
        let q1 = sorted_of(s1.to_set());
        lemma_insert_sorted(q1, x);
        let q = insert_sorted(q1, x);
        assert(s =~= s1.push(x));
        assert(s.to_set() =~= s1.to_set().insert(x)) by {
            assert forall|y: u32| s.to_set().contains(y) implies #[trigger] s1.to_set().insert(
                x,
            ).contains(y) by {
                let i = choose|i: int| 0 <= i < s.len() && s[i] == y;
                if i < s.len() - 1 {
                    assert(s1[i] == y);
                }
            }
        }
        assert(strictly_sorted(q) && q.to_set() == s.to_set());
    }
}

} // verus!
