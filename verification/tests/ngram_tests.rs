use keyboard_optimizer::cat::num::{to_num, Num};
use keyboard_optimizer::cat::seq_table::SeqTable;
use keyboard_optimizer::cat::table::Table;
use keyboard_optimizer::cat::has_count::to_count;
use keyboard_optimizer::data::json::groups::Group;
use keyboard_optimizer::eval::ngram_eval::eval::{mk_group_ngrams, mk_intersections, NGramEval};
use keyboard_optimizer::eval::ngram_eval::types::{NGram, NGrams};
use keyboard_optimizer::eval::ngram_eval::utils::{NGramsSubsetBuilder, SubSeqs};

struct G;

#[test]
fn sub_seqs_walk_all_pairs() {
    let items = [10, 20, 30, 40];
    let mut s = SubSeqs::new(&items, 2);
    let mut seen = Vec::new();
    while !s.next() {
        seen.push(s.seq().into_iter().cloned().collect::<Vec<i32>>());
    }
    assert_eq!(
        seen,
        vec![vec![10, 20], vec![10, 30], vec![10, 40], vec![20, 30], vec![20, 40], vec![30, 40]]
    );
}

#[test]
fn sub_seqs_walk_all_triples() {
    let items = ['a', 'b', 'c', 'd'];
    let mut s = SubSeqs::new(&items, 3);
    let mut seen = Vec::new();
    while !s.next() {
        seen.push(s.seq().into_iter().collect::<String>());
    }
    assert_eq!(seen, vec!["abc", "abd", "acd", "bcd"]);
}

#[test]
fn sub_seqs_whole_sequence() {
    let items = [1, 2];
    let mut s = SubSeqs::new(&items, 2);
    assert!(!s.next());
    assert_eq!(s.seq().into_iter().cloned().collect::<Vec<i32>>(), vec![1, 2]);
    assert!(s.next());
}

#[test]
fn subset_builder_skips_repeats() {
    let mut b: NGramsSubsetBuilder<G> = NGramsSubsetBuilder::new();
    for n in [0usize, 2, 2, 1, 3, 3] {
        b.push(to_num::<NGram<G>>(n));
    }
    let elements: SeqTable<NGram<G>, Num<G>> =
        SeqTable::from_elem_vec((0..8).map(|x| to_num(x)).collect(), 2);
    let ngrams = NGrams { elements, freqs: Table::from_vec(vec![5u32, 6, 7, 8]) };
    let sub = b.build(&ngrams);
    assert_eq!(sub.elements.seq_len(), 2);
    assert_eq!(sub.freqs.len(), 3);
    assert_eq!(*sub.freqs.get(to_num(0)), 5);
    assert_eq!(*sub.freqs.get(to_num(1)), 7);
    assert_eq!(*sub.freqs.get(to_num(2)), 8);
    let row: Vec<usize> = sub.elements.row(to_num(1)).iter().map(|n| n.as_usize()).collect();
    assert_eq!(row, vec![4, 5]);
    let row: Vec<usize> = sub.elements.row(to_num(2)).iter().map(|n| n.as_usize()).collect();
    assert_eq!(row, vec![6, 7]);
}

fn sample_ngrams() -> NGrams<Group, u32> {
    let rows = [0usize, 1, 1, 2, 2, 0, 1, 2, 1];
    NGrams {
        elements: SeqTable::from_elem_vec(rows.iter().map(|&x| to_num(x)).collect(), 3),
        freqs: Table::from_vec(vec![10, 20, 30]),
    }
}

fn freqs_of(n: &NGrams<Group, u32>) -> Vec<u32> {
    (0..n.freqs.len()).map(|i| *n.freqs.get(to_num(i))).collect()
}

#[test]
fn group_ngrams_per_group() {
    let ngrams = sample_ngrams();
    let t = mk_group_ngrams(to_count(3), &ngrams);
    assert_eq!(t.len(), 3);
    assert_eq!(freqs_of(t.get(to_num(0))), vec![10, 20]);
    assert_eq!(freqs_of(t.get(to_num(1))), vec![10, 30]);
    assert_eq!(freqs_of(t.get(to_num(2))), vec![20, 30]);
    let g1 = t.get(to_num(1));
    let row: Vec<usize> = g1.elements.row(to_num(1)).iter().map(|n| n.as_usize()).collect();
    assert_eq!(row, vec![1, 2, 1]);
}

#[test]
fn intersections_per_pair() {
    let ngrams = sample_ngrams();
    let c = mk_intersections(to_count(3), &ngrams);
    let t = c.snd();
    assert_eq!(t.len(), 6);
    let all: Vec<Vec<u32>> = (0..6).map(|b| freqs_of(t.get(to_num(b)))).collect();
    assert_eq!(all, vec![vec![], vec![10], vec![10, 30], vec![20], vec![30], vec![20]]);
    let key: Vec<Num<Group>> = vec![to_num(0), to_num(2)];
    assert_eq!(freqs_of(c.get(&key[..])), vec![20]);
    let key: Vec<Num<Group>> = vec![to_num(1), to_num(2)];
    assert_eq!(freqs_of(c.get(&key[..])), vec![30]);
}

#[test]
fn ngram_eval_tables() {
    let e = NGramEval::new(to_count(3), sample_ngrams(), "costs");
    assert_eq!(freqs_of(e.intersection([to_num(2), to_num(0)])), vec![20]);
    assert_eq!(freqs_of(e.intersection([to_num(1), to_num(1)])), vec![10, 30]);
    assert_eq!(freqs_of(e.intersection([to_num(0), to_num(0)])), Vec::<u32>::new());
    assert_eq!(freqs_of(e.group_ngrams(to_num(2))), vec![20, 30]);
    assert_eq!(*e.costs(), "costs");
    assert_eq!(e.ngrams().freqs.len(), 3);
}

#[test]
fn sub_seqs_walk_all_singles() {
    let items = [1, 2, 3];
    let mut s = SubSeqs::new(&items, 1);
    let mut seen = Vec::new();
    while !s.next() {
        seen.push(s.seq().into_iter().cloned().collect::<Vec<i32>>());
    }
    assert_eq!(seen, vec![vec![1], vec![2], vec![3]]);
}

#[test]
fn intersection_is_symmetric() {
    let e = NGramEval::new(to_count(3), sample_ngrams(), ());
    for g in 0..3 {
        for h in 0..3 {
            assert_eq!(
                freqs_of(e.intersection([to_num(g), to_num(h)])),
                freqs_of(e.intersection([to_num(h), to_num(g)]))
            );
        }
    }
}
