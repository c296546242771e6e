use trn_sdr::sdr::{overlap, urs, SDR};

fn code(bits: Vec<u32>, d: usize) -> SDR {
    let w = bits.len();
    SDR { bits, d, w }
}

#[test]
fn overlap_counts_common_bits() {
    let a = code(vec![1, 3, 5, 7], 10);
    let b = code(vec![3, 4, 5, 8], 10);
    assert_eq!(overlap(&a, &b), 2);
}

#[test]
fn overlap_of_code_with_itself_is_its_width() {
    let a = code(vec![0, 2, 4, 6, 8, 100, 2000], 4096);
    assert_eq!(overlap(&a, &a), 7);
}

#[test]
fn overlap_is_symmetric() {
    let a = code(vec![1, 2, 3, 10, 11], 20);
    let b = code(vec![2, 10, 12, 19], 20);
    assert_eq!(overlap(&a, &b), overlap(&b, &a));
    assert_eq!(overlap(&a, &b), 2);
}

#[test]
fn overlap_of_disjoint_or_empty_codes_is_zero() {
    let a = code(vec![1, 3, 5], 10);
    let b = code(vec![0, 2, 4, 6], 10);
    let e = code(vec![], 10);
    assert_eq!(overlap(&a, &b), 0);
    assert_eq!(overlap(&a, &e), 0);
    assert_eq!(overlap(&e, &a), 0);
}

#[test]
fn overlap_walks_unsorted_lists_in_step() {
    // 5 > 1 moves the second cursor, then 5 == 5 counts one match and ends the walk.
    let a = code(vec![5, 1], 10);
    let b = code(vec![1, 5], 10);
    assert_eq!(overlap(&a, &b), 1);
}

#[test]
fn union_sorts_and_drops_repeats() {
    let a = code(vec![5, 1, 3], 10);
    let b = code(vec![3, 9, 9], 20);
    let u = urs(&a, &b);
    assert_eq!(u.bits, vec![1, 3, 5, 9]);
    assert_eq!(u.d, 10);
    assert_eq!(u.w, 4);
}

#[test]
fn union_is_commutative() {
    let a = code(vec![2, 4, 8, 16], 32);
    let b = code(vec![1, 4, 9, 16, 25], 32);
    assert_eq!(urs(&a, &b).bits, urs(&b, &a).bits);
    assert_eq!(urs(&a, &b).bits, vec![1, 2, 4, 8, 9, 16, 25]);
}

#[test]
fn union_is_associative() {
    let a = code(vec![2, 7], 32);
    let b = code(vec![1, 7, 30], 32);
    let c = code(vec![0, 2, 31], 32);
    let left = urs(&urs(&a, &b), &c);
    let right = urs(&a, &urs(&b, &c));
    assert_eq!(left.bits, right.bits);
    assert_eq!(left.bits, vec![0, 1, 2, 7, 30, 31]);
}

#[test]
fn union_with_itself_gives_the_code_back() {
    let a = code(vec![3, 6, 9], 12);
    let u = urs(&a, &a);
    assert_eq!(u.bits, a.bits);
    assert_eq!(u.w, 3);
}

#[test]
fn union_keeps_every_member() {
    let a = code(vec![1, 5, 9, 13], 16);
    let b = code(vec![0, 5, 10, 15], 16);
    let u = urs(&a, &b);
    assert_eq!(overlap(&u, &a), a.w);
    assert_eq!(overlap(&u, &b), b.w);
}

#[test]
fn union_of_empty_codes_is_empty() {
    let a = code(vec![], 8);
    let u = urs(&a, &a);
    assert!(u.bits.is_empty());
    assert_eq!(u.w, 0);
}

#[test]
fn overlap_never_exceeds_either_width() {
    let a = code(vec![1, 2, 3, 4, 5, 6], 10);
    let b = code(vec![2, 4], 10);
    let o = overlap(&a, &b);
    assert_eq!(o, 2);
    assert!(o <= a.bits.len() && o <= b.bits.len());
}
