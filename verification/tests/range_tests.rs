use rand::rngs::StdRng;
use rand::SeedableRng;
use keyboard_optimizer::cat::has_count::to_count;
use keyboard_optimizer::cat::num::{to_num, Num};
use keyboard_optimizer::data::restricted_range::{Permutation, RestrictedRange, Segment, SegmentedPermutation};

#[derive(Clone)]
struct V;

fn nums(v: &[usize]) -> Vec<Num<V>> {
    v.iter().map(|&x| to_num(x)).collect()
}

fn sorted(v: &[Num<V>]) -> Vec<usize> {
    let mut out: Vec<usize> = v.iter().map(|n| n.as_usize()).collect();
    out.sort();
    out
}

#[test]
fn permutation_swap_and_positions() {
    let mut p: Permutation<V> = Permutation::new(to_count(4));
    assert_eq!(p.len(), 4);
    p.swap(0, 3);
    assert_eq!(p.get(0).as_usize(), 3);
    assert_eq!(p.get(3).as_usize(), 0);
    assert_eq!(p.pos(to_num(3)), 0);
    assert_eq!(p.pos(to_num(0)), 3);
    assert_eq!(p.pos(to_num(1)), 1);
}

#[test]
fn permutation_shuffle_keeps_items() {
    let mut p: Permutation<V> = Permutation::new(to_count(20));
    let mut gen = StdRng::from_seed([7u8; 32]);
    p.shuffle(&mut gen);
    assert_eq!(p.len(), 20);
    let mut seen: Vec<usize> = (0..20).map(|i| p.get(i).as_usize()).collect();
    for i in 0..20 {
        assert_eq!(p.pos(p.get(i)), i);
    }
    seen.sort();
    assert_eq!(seen, (0..20).collect::<Vec<usize>>());
}

#[test]
fn permutation_shuffle_is_reproducible_with_a_seed() {
    let mut a: Permutation<V> = Permutation::new(to_count(30));
    let mut b: Permutation<V> = Permutation::new(to_count(30));
    a.shuffle(&mut StdRng::from_seed([3u8; 32]));
    b.shuffle(&mut StdRng::from_seed([3u8; 32]));
    let xa: Vec<usize> = (0..30).map(|i| a.get(i).as_usize()).collect();
    let xb: Vec<usize> = (0..30).map(|i| b.get(i).as_usize()).collect();
    assert_eq!(xa, xb);
    assert_ne!(xa, (0..30).collect::<Vec<usize>>());
}

#[test]
fn segment_frontier() {
    let s = Segment::empty(5);
    assert_eq!(s.offset, 5);
    assert_eq!(s.num_rejected, 0);
    assert_eq!(s.frontier(), 5);
    let t = Segment { offset: 2, num_rejected: 3 };
    assert_eq!(t.frontier(), 5);
}

#[test]
fn segmented_permutation_reject_accept() {
    let mut sp: SegmentedPermutation<V> = SegmentedPermutation::new(to_count(5));
    assert_eq!(sp.len(), 5);
    assert_eq!(sp.segments().len(), 1);
    sp.reject(to_num(3));
    assert_eq!(sp.segments()[0].num_rejected, 1);
    assert_eq!(sp.pos(to_num(3)), 0);
    sp.accept(to_num(3));
    assert_eq!(sp.segments()[0].num_rejected, 0);
}

#[test]
fn segmented_permutation_promote_demote() {
    let mut sp: SegmentedPermutation<V> = SegmentedPermutation::new(to_count(4));
    sp.push_segment();
    assert_eq!(sp.segments().len(), 2);
    assert_eq!(sp.segments()[1].offset, 4);
    sp.promote(to_num(1));
    assert_eq!(sp.segments()[1].offset, 3);
    assert_eq!(sp.pos(to_num(1)), 3);
    sp.demote(to_num(1));
    assert_eq!(sp.segments()[1].offset, 4);
    sp.pop_segment();
    assert_eq!(sp.segments().len(), 1);
}

#[test]
fn range_starts_accepting_all() {
    let r: RestrictedRange<V> = RestrictedRange::new(to_count(6));
    assert_eq!(sorted(r.accepted()), vec![0, 1, 2, 3, 4, 5]);
    assert!(r.rejected().is_empty());
    assert!(r.accepts(to_num(4)));
}

#[test]
fn range_rejection_round_trip() {
    let mut r: RestrictedRange<V> = RestrictedRange::new(to_count(6));
    let removed = sorted(r.add_rejection(&nums(&[1, 4])));
    assert_eq!(removed, vec![1, 4]);
    assert_eq!(sorted(r.accepted()), vec![0, 2, 3, 5]);
    assert_eq!(sorted(r.rejected()), vec![1, 4]);
    let again = sorted(r.add_rejection(&nums(&[4, 5])));
    assert_eq!(again, vec![5]);
    let added = sorted(r.remove_rejection(&nums(&[4, 5])));
    assert_eq!(added, vec![5]);
    assert!(!r.accepts(to_num(4)));
    let added = sorted(r.remove_rejection(&nums(&[1, 4])));
    assert_eq!(added, vec![1, 4]);
    assert_eq!(sorted(r.accepted()), vec![0, 1, 2, 3, 4, 5]);
}

#[test]
fn range_restriction_round_trip() {
    let mut r: RestrictedRange<V> = RestrictedRange::new(to_count(6));
    let removed = sorted(r.add_restriction(&nums(&[0, 2, 3])));
    assert_eq!(removed, vec![1, 4, 5]);
    assert_eq!(sorted(r.accepted()), vec![0, 2, 3]);
    let removed = sorted(r.add_restriction(&nums(&[2, 5])));
    assert_eq!(removed, vec![0, 3]);
    assert_eq!(sorted(r.accepted()), vec![2]);
    let added = sorted(r.remove_restriction(&nums(&[2, 5])));
    assert_eq!(added, vec![0, 3]);
    assert_eq!(sorted(r.accepted()), vec![0, 2, 3]);
    let added = sorted(r.remove_restriction(&nums(&[0, 2, 3])));
    assert_eq!(added, vec![1, 4, 5]);
    assert_eq!(sorted(r.accepted()), vec![0, 1, 2, 3, 4, 5]);
}

#[test]
fn range_restriction_then_rejection() {
    let mut r: RestrictedRange<V> = RestrictedRange::new(to_count(5));
    r.add_restriction(&nums(&[1, 2, 3]));
    let removed = sorted(r.add_rejection(&nums(&[2, 4])));
    assert_eq!(removed, vec![2]);
    assert_eq!(sorted(r.accepted()), vec![1, 3]);
    let added = sorted(r.remove_restriction(&nums(&[1, 2, 3])));
    assert_eq!(added, vec![0]);
    assert_eq!(sorted(r.accepted()), vec![0, 1, 3]);
}

#[test]
fn range_reject_unreject_single() {
    let mut r: RestrictedRange<V> = RestrictedRange::new(to_count(3));
    r.reject(to_num(1));
    r.reject(to_num(1));
    assert!(!r.accepts(to_num(1)));
    r.unreject(to_num(1));
    assert!(!r.accepts(to_num(1)));
    r.unreject(to_num(1));
    assert!(r.accepts(to_num(1)));
}

#[test]
fn range_add_restriction_reports_only_dropped_values() {
    let mut r: RestrictedRange<V> = RestrictedRange::new(to_count(2));
    r.add_restriction(&nums(&[1]));
    let removed = sorted(r.add_restriction(&nums(&[0])));
    assert_eq!(removed, vec![1]);
    assert!(r.accepted().is_empty());
}

#[test]
fn range_new_accepts_in_order() {
    let r: RestrictedRange<V> = RestrictedRange::new(to_count(3));
    let acc: Vec<usize> = r.accepted().iter().map(|n| n.as_usize()).collect();
    assert_eq!(acc, vec![0, 1, 2]);
    assert!(r.rejected().is_empty());
}

#[test]
fn range_clone_is_independent() {
    let mut r: RestrictedRange<V> = RestrictedRange::new(to_count(4));
    r.add_rejection(&nums(&[1]));
    let before = r.clone();
    r.add_restriction(&nums(&[0, 1]));
    assert_eq!(sorted(before.accepted()), vec![0, 2, 3]);
    assert_eq!(sorted(r.accepted()), vec![0]);
}
