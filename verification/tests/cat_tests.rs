use keyboard_optimizer::cat::bag::{binomial, choose_repeat, Bag, BagNum, SeqBag};
use keyboard_optimizer::cat::composed::Composed;
use keyboard_optimizer::cat::domain::Domain;
use keyboard_optimizer::cat::hash_mapping::HashMapping;
use keyboard_optimizer::cat::has_count::{to_count, Count, HasCount};
use keyboard_optimizer::cat::num::{to_num, Num};
use keyboard_optimizer::cat::product::ProductNum;
use keyboard_optimizer::cat::seq::{SeqIter, SeqNum, Sequence};
use keyboard_optimizer::cat::seq_table::SeqTable;
use keyboard_optimizer::cat::table::Table;
use keyboard_optimizer::cat::ops::{MapElems, MapMut};
use keyboard_optimizer::cat::types::{FnMapping, Mapping};
use keyboard_optimizer::cat::universe;

struct Letter;

fn nums(v: &[usize]) -> Vec<Num<Letter>> {
    v.iter().map(|&x| to_num(x)).collect()
}

fn views(v: &[Num<Letter>]) -> Vec<usize> {
    v.iter().map(|n| n.as_usize()).collect()
}

#[test]
fn num_round_trip() {
    let n: Num<Letter> = to_num(7);
    assert_eq!(n.as_usize(), 7);
    let c: Count<Letter> = to_count(4);
    assert_eq!(c.as_usize(), 4);
    assert!(to_num::<Letter>(3) == to_num::<Letter>(3));
    assert!(to_num::<Letter>(3) != to_num::<Letter>(4));
    assert!(to_num::<Letter>(3) < to_num::<Letter>(4));
    assert!(to_num::<Letter>(5) >= to_num::<Letter>(5));
}

#[test]
fn universe_num_round_trip() {
    struct Word;
    impl universe::ElemType for Word {
        type Type = String;
    }
    let n: universe::Num<Word> = universe::to_num(5);
    assert_eq!(universe::from_num(n), 5);
}

#[test]
fn fn_mapping_applies_function() {
    let m = FnMapping::new(|x: usize| x * 2 + 1);
    assert_eq!(m.apply(4), 9);
}

#[test]
fn table_get_set_count() {
    let mut t: Table<Letter, &str> = Table::from_vec(vec!["a", "b", "c"]);
    assert_eq!(t.len(), 3);
    assert_eq!(*t.get(to_num(1)), "b");
    t.set(to_num(1), "z");
    assert_eq!(*t.get(to_num(1)), "z");
    *t.get_mut(to_num(2)) = "y";
    assert_eq!(t.count().as_usize(), 3);
    assert_eq!(t.into_vec(), vec!["a", "z", "y"]);
}

#[test]
fn composed_table_lookup() {
    let pn: ProductNum<Letter, Letter> = ProductNum { major_count: to_count(2), minor_count: to_count(3) };
    let table = Table::from_vec(vec![10, 11, 12, 20, 21, 22]);
    let mut c = Composed::new(pn, table);
    assert_eq!(*c.get((to_num(1), to_num(2))), 22);
    c.set((to_num(0), to_num(1)), 99);
    assert_eq!(*c.get((to_num(0), to_num(1))), 99);
}

#[test]
fn product_num_both_ways() {
    let pn: ProductNum<Letter, Letter> = ProductNum { major_count: to_count(4), minor_count: to_count(3) };
    let n = pn.apply((to_num(2), to_num(1)));
    assert_eq!(n.as_usize(), 7);
    let (a, b) = pn.apply(n);
    assert_eq!((a.as_usize(), b.as_usize()), (2, 1));
    assert_eq!(pn.count().as_usize(), 12);
    for k in 0..12 {
        let (a, b) = pn.apply(to_num(k));
        assert_eq!(pn.apply((a, b)).as_usize(), k);
    }
}

#[test]
fn seq_iter_enumerates_in_order() {
    let mut it: SeqIter<Letter> = Sequence::iter(to_count(3), 2);
    let mut all = Vec::new();
    while let Some(s) = it.next() {
        all.push(views(&s));
    }
    assert_eq!(all.len(), 9);
    assert_eq!(all[0], vec![0, 0]);
    assert_eq!(all[1], vec![0, 1]);
    assert_eq!(all[3], vec![1, 0]);
    assert_eq!(all[8], vec![2, 2]);
    assert!(it.next().is_none());
}

#[test]
fn seq_iter_over_empty_domain() {
    let mut it: SeqIter<Letter> = SeqIter::new(to_count(0), 2);
    assert!(it.next().is_none());
}

#[test]
fn seq_num_numbers_sequences() {
    let sn: SeqNum<Letter> = SeqNum::new(to_count(3), 2);
    assert_eq!(sn.count().as_usize(), 9);
    let s = nums(&[2, 1]);
    assert_eq!(sn.apply(&s[..]).as_usize(), 7);
    let mut it: SeqIter<Letter> = SeqIter::new(to_count(3), 2);
    let mut k = 0;
    while let Some(s) = it.next() {
        assert_eq!(sn.apply(&s[..]).as_usize(), k);
        k += 1;
    }
}

#[test]
fn seq_num_count_is_a_power() {
    let sn: SeqNum<Letter> = SeqNum::new(to_count(10), 3);
    assert_eq!(sn.count().as_usize(), 1000);
    let sn: SeqNum<Letter> = SeqNum::new(to_count(2), 0);
    assert_eq!(sn.count().as_usize(), 1);
}

#[test]
fn seq_table_rows() {
    let mut t: SeqTable<Letter, u8> = SeqTable::from_elem_vec(vec![1, 2, 3, 4, 5, 6, 7], 3);
    assert_eq!(t.seq_len(), 3);
    assert_eq!(t.count().as_usize(), 2);
    assert_eq!(t.row(to_num(1)), &[4, 5, 6]);
    t.set(to_num(0), 2, 9);
    assert_eq!(t.row(to_num(0)), &[1, 2, 9]);
}

#[test]
fn binomial_values() {
    assert_eq!(binomial(5, 2), 10);
    assert_eq!(binomial(10, 3), 120);
    assert_eq!(binomial(7, 0), 1);
    assert_eq!(binomial(4, 4), 1);
    assert_eq!(binomial(4, 5), 0);
    assert_eq!(binomial(0, 0), 1);
    assert_eq!(binomial(52, 5), 2598960);
}

#[test]
fn choose_repeat_values() {
    assert_eq!(choose_repeat(3, 2), 6);
    assert_eq!(choose_repeat(1, 5), 1);
    assert_eq!(choose_repeat(4, 3), 20);
    assert_eq!(choose_repeat(5, 0), 1);
    assert_eq!(choose_repeat(0, 2), 0);
}

#[test]
fn bag_sorts_descending() {
    let b = Bag::new(nums(&[1, 3, 0, 3, 2]));
    let from = Bag::from_sorted(nums(&[3, 3, 2, 1, 0]));
    let mut pn: BagNum<Letter> = BagNum::new(to_count(4), 5);
    assert_eq!(pn.apply(b).as_usize(), pn.apply(from).as_usize());
    pn = BagNum::new(to_count(4), 5);
    assert_eq!(pn.count().as_usize(), 56);
}

#[test]
fn bag_num_known_numbers() {
    let bn: BagNum<Letter> = BagNum::new(to_count(3), 2);
    assert_eq!(bn.count().as_usize(), 6);
    assert_eq!(bn.apply(Bag::from_sorted(nums(&[0, 0]))).as_usize(), 0);
    assert_eq!(bn.apply(Bag::from_sorted(nums(&[1, 0]))).as_usize(), 1);
    assert_eq!(bn.apply(Bag::from_sorted(nums(&[1, 1]))).as_usize(), 2);
    assert_eq!(bn.apply(Bag::from_sorted(nums(&[2, 0]))).as_usize(), 3);
    assert_eq!(bn.apply(Bag::from_sorted(nums(&[2, 2]))).as_usize(), 5);
}

#[test]
fn bag_num_round_trip() {
    for &(n, k) in &[(3usize, 2usize), (4, 3), (5, 1), (2, 4)] {
        let bn: BagNum<Letter> = BagNum::new(to_count(n), k);
        let count = bn.count().as_usize();
        let mut seen = Vec::new();
        for num in 0..count {
            let bag: Bag<Num<Letter>> = bn.apply(to_num::<Bag<Letter>>(num));
            let back = bn.apply(bag);
            assert_eq!(back.as_usize(), num);
            seen.push(num);
        }
        assert_eq!(seen.len(), count);
    }
}

#[test]
fn bag_num_decodes_descending_bags() {
    let bn: BagNum<Letter> = BagNum::new(to_count(3), 2);
    let bag: Bag<Num<Letter>> = bn.apply(to_num::<Bag<Letter>>(4));
    let again = Bag::from_sorted(nums(&[2, 1]));
    assert_eq!(BagNum::<Letter>::new(to_count(3), 2).apply(again).as_usize(), 4);
    assert_eq!(bn.apply(bag).as_usize(), 4);
}

#[test]
fn seq_bag_ignores_order() {
    let sb: SeqBag<Letter> = SeqBag::new(to_count(3), 2);
    assert_eq!(sb.count().as_usize(), 6);
    let a = nums(&[2, 0]);
    let b = nums(&[0, 2]);
    assert_eq!(sb.apply(&a[..]).as_usize(), 3);
    assert_eq!(sb.apply(&b[..]).as_usize(), 3);
    let c = nums(&[1, 1]);
    assert_eq!(sb.apply(&c[..]).as_usize(), 2);
}

#[test]
fn map_nums_builds_table() {
    let c: Count<Letter> = to_count(4);
    let t = c.map_nums(|n: Num<Letter>| n.as_usize() * 10);
    assert_eq!(t.into_vec(), vec![0, 10, 20, 30]);
}

#[test]
fn pair_of_counts_counts_pairs() {
    let pair: (Count<Letter>, Count<Letter>) = (to_count(3), to_count(5));
    assert_eq!(pair.count().as_usize(), 15);
}

#[test]
fn enumerate_table() {
    let t: Table<Letter, char> = Table::from_vec(vec!['x', 'y']);
    let mut e = t.enumerate();
    let (n, v) = e.next().unwrap();
    assert_eq!((n.as_usize(), *v), (0, 'x'));
    let (n, v) = e.next().unwrap();
    assert_eq!((n.as_usize(), *v), (1, 'y'));
    assert!(e.next().is_none());
    let mut nums = t.nums();
    assert_eq!(nums.next().map(|n| n.as_usize()), Some(0));
}

#[test]
fn table_maps() {
    let mut t: Table<Letter, usize> = Table::from_vec(vec![1, 2, 3]);
    let doubled: Table<Letter, usize> = t.map(|x: &usize| *x * 2);
    assert_eq!(doubled.into_vec(), vec![2, 4, 6]);
    t.map_mut(|x: usize| x + 1);
    t.map_mut_with_key(|n: Num<Letter>, x: usize| x * 10 + n.as_usize());
    assert_eq!(t.into_vec(), vec![20, 31, 42]);
    let t: Table<Letter, usize> = Table::from_vec(vec![5, 6]);
    let s = t.map_into(|x: usize| format!("<{}>", x));
    assert_eq!(s.into_vec(), vec!["<5>", "<6>"]);
}

#[test]
fn table_map_res_stops_at_error() {
    let t: Table<Letter, i32> = Table::from_vec(vec![1, -2, 3]);
    let r = t.map_res_with_idx(|n: Num<Letter>, x: &i32| if *x < 0 { Err(n.as_usize()) } else { Ok(*x * 2) });
    assert_eq!(r.err(), Some(1));
    let ok: Table<Letter, i32> = Table::from_vec(vec![1, 2]);
    let r = ok.map_res_with_idx(|_n: Num<Letter>, x: &i32| if *x < 0 { Err(()) } else { Ok(*x + 1) });
    assert_eq!(r.ok().map(|t| t.into_vec()), Some(vec![2, 3]));
}

#[test]
fn table_compose_fn_and_borrow() {
    let t: Table<Letter, &str> = Table::from_vec(vec!["zero", "one", "two"]);
    let c = t.compose_fn(|k: usize| to_num::<Letter>(k % 3));
    assert_eq!(*c.get(4usize), "one");
    let mut t: Table<Letter, u8> = Table::from_vec(vec![1, 2]);
    {
        let mut b = t.borrow_mut();
        b.set(to_num(0), 9);
        assert_eq!(*b.get(to_num(0)), 9);
    }
    assert_eq!(t.into_vec(), vec![9, 2]);
    let t: Table<Letter, u8> = Table::from_vec(vec![4, 5]);
    let r = &t;
    assert_eq!(*r.apply(to_num(1)), 5);
}

#[test]
fn composed_map_into() {
    let pn: ProductNum<Letter, Letter> = ProductNum { major_count: to_count(1), minor_count: to_count(2) };
    let c = Composed::new(pn, Table::from_vec(vec![1u32, 2]));
    let c2 = c.map_into(|x: u32| x * 100);
    assert_eq!(*c2.get((to_num(0), to_num(1))), 200);
    let (_, t) = c2.into_parts();
    assert_eq!(t.into_vec(), vec![100, 200]);
}

struct Word;

impl Domain for Word {
    type Type = String;
}

#[test]
fn hash_mapping_set_and_map() {
    let mut m: HashMapping<Word, usize> = HashMapping::empty();
    assert!(m.map("a".to_string()).is_none());
    m.set("a".to_string(), Some(1));
    m.set("b".to_string(), Some(2));
    assert_eq!(m.map("a".to_string()), Some(&1));
    m.set("a".to_string(), None);
    assert!(m.map("a".to_string()).is_none());
    assert_eq!(m.map("b".to_string()), Some(&2));
}

#[test]
fn seq_iter_length_zero_yields_empty_once() {
    let mut it: SeqIter<Letter> = SeqIter::new(to_count(3), 0);
    let first = it.next();
    assert_eq!(first.map(|v| v.len()), Some(0));
    assert!(it.next().is_none());
}
