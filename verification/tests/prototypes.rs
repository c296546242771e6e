use trn_sdr::prototype::{absorb, learn, orshr, predict, score};
use trn_sdr::sdr::SDR;

fn code(bits: Vec<u32>, d: usize) -> SDR {
    let w = bits.len();
    SDR { bits, d, w }
}

#[test]
fn centroid_keeps_smallest_eighth() {
    let e = code(vec![1, 5], 16);
    let c = code(vec![0, 9], 16);
    let r = orshr(&e, &c);
    assert_eq!(r.bits, vec![0, 1]);
    assert_eq!(r.w, 2);
    assert_eq!(r.d, 16);
}

#[test]
fn centroid_keeps_whole_small_union() {
    let e = code(vec![7, 3], 80);
    let c = code(vec![3, 40, 1], 80);
    let r = orshr(&e, &c);
    assert_eq!(r.bits, vec![1, 3, 7, 40]);
    assert_eq!(r.w, 4);
}

#[test]
fn centroid_with_tiny_space_is_empty() {
    let e = code(vec![1, 2], 7);
    let c = code(vec![3], 7);
    let r = orshr(&e, &c);
    assert!(r.bits.is_empty());
    assert_eq!(r.w, 0);
}

#[test]
fn absorbing_into_empty_class_copies_the_code() {
    let e = code(vec![2, 4], 16);
    let r = absorb(&None, &e);
    assert_eq!(r.bits, vec![2, 4]);
    assert_eq!(r.d, 16);
    assert_eq!(r.w, 2);
    let r2 = absorb(&Some(code(vec![1, 3], 16)), &e);
    assert_eq!(r2.bits, vec![1, 2]);
}

#[test]
fn learning_updates_only_the_given_class() {
    let mut centers: Vec<Option<SDR>> = vec![None, None];
    learn(&mut centers, 1, &code(vec![3, 5], 64));
    assert!(centers[0].is_none());
    assert_eq!(centers[1].as_ref().unwrap().bits, vec![3, 5]);
    learn(&mut centers, 1, &code(vec![1, 5, 60], 64));
    assert_eq!(centers[1].as_ref().unwrap().bits, vec![1, 3, 5, 60]);
    assert!(centers[0].is_none());
}

#[test]
fn score_of_empty_class_is_zero() {
    let e = code(vec![1, 2, 3], 8);
    assert_eq!(score(&e, &None), 0);
    assert_eq!(score(&e, &Some(code(vec![2, 3, 4], 8))), 2);
}

#[test]
fn prediction_picks_larger_overlap_and_ties_go_to_class_zero() {
    let e = code(vec![1, 2, 3, 4], 64);
    let centers = vec![Some(code(vec![1, 9], 64)), Some(code(vec![2, 3, 9], 64))];
    assert_eq!(predict(&e, &centers), 1);
    let tied = vec![Some(code(vec![1, 9], 64)), Some(code(vec![2, 9], 64))];
    assert_eq!(predict(&e, &tied), 0);
    let empty: Vec<Option<SDR>> = vec![None, None];
    assert_eq!(predict(&e, &empty), 0);
    let only_one = vec![None, Some(code(vec![4], 64))];
    assert_eq!(predict(&e, &only_one), 1);
}
