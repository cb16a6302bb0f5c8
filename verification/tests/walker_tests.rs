use keyboard_optimizer::algorithm::generator::{Backtracker, GenerateError};
use keyboard_optimizer::cat::num::{to_num, Num};
use keyboard_optimizer::cat::table::Table;
use keyboard_optimizer::cat::types::Mapping;
use keyboard_optimizer::data::domain_walker::{assignment_prohibits, assignments_conflict, value_names, DomainWalker};
use keyboard_optimizer::data::types::{Assignment, Domain, Restriction, Restrictor, Value};

fn values(v: &[usize]) -> Vec<Num<Value>> {
    v.iter().map(|&x| to_num(x)).collect()
}

fn names(prefix: &str, n: usize) -> Vec<String> {
    (0..n).map(|i| format!("{}{}", prefix, i)).collect()
}

/// `nk` keys that must all get different values out of `nv`, each key restricted as given.
fn all_different(nk: usize, nv: usize, own: Vec<Restriction>) -> Domain {
    let mut constraint_table = Vec::new();
    for o in 0..nk {
        let mut row: Vec<Restrictor> = Vec::new();
        for t in 0..nk {
            let mut per_value = Vec::new();
            for v in 0..nv {
                if o == t {
                    per_value.push(Restriction::Not(vec![]));
                } else {
                    per_value.push(Restriction::Not(values(&[v])));
                }
            }
            row.push(Table::from_vec(per_value));
        }
        constraint_table.push(Table::from_vec(row));
    }
    Domain {
        keys: Table::from_vec(names("k", nk)),
        values: Table::from_vec(names("v", nv)),
        key_restrictions: Table::from_vec(own),
        constraint_table: Table::from_vec(constraint_table),
    }
}

fn free(n: usize) -> Vec<Restriction> {
    (0..n).map(|_| Restriction::Not(vec![])).collect()
}

fn sorted(v: &[Num<Value>]) -> Vec<usize> {
    let mut out: Vec<usize> = v.iter().map(|n| n.as_usize()).collect();
    out.sort();
    out
}

fn mapping_of(w: &DomainWalker) -> Vec<Option<usize>> {
    let t = w.mapping();
    (0..t.len()).map(|k| t.get(to_num(k)).map(|v| v.as_usize())).collect()
}

#[test]
fn restriction_allows_and_inverse() {
    let r = Restriction::Only(values(&[1, 3]));
    assert!(r.allows(to_num(1)));
    assert!(!r.allows(to_num(2)));
    let i = r.inverse();
    assert!(!i.allows(to_num(1)));
    assert!(i.allows(to_num(2)));
    let back = i.inverse();
    assert!(back.allows(to_num(3)));
    assert!(!back.allows(to_num(0)));
    let none = Restriction::Not(vec![]);
    assert!(none.allows(to_num(0)));
}

#[test]
fn assignment_numbers() {
    let d = all_different(3, 4, free(3));
    let an = d.assignment_num();
    assert_eq!(an.key_count.as_usize(), 3);
    assert_eq!(an.value_count.as_usize(), 4);
    let a = Assignment { key_num: to_num(2), value_num: to_num(1) };
    assert_eq!(an.apply(a).as_usize(), 9);
}

#[test]
fn walker_starts_with_own_restrictions() {
    let own = vec![Restriction::Only(values(&[0, 2])), Restriction::Not(values(&[1])), Restriction::Not(vec![])];
    let d = all_different(3, 3, own);
    let w = DomainWalker::new(&d);
    assert_eq!(mapping_of(&w), vec![None, None, None]);
    assert_eq!(sorted(w.range_for(to_num(0))), vec![0, 2]);
    assert_eq!(sorted(w.range_for(to_num(1))), vec![0, 2]);
    assert_eq!(sorted(w.range_for(to_num(2))), vec![0, 1, 2]);
    assert!(w.valid_state());
}

#[test]
fn walker_assign_restricts_others() {
    let d = all_different(3, 3, free(3));
    let mut w = DomainWalker::new(&d);
    w.assign(to_num(0), to_num(1));
    assert_eq!(mapping_of(&w), vec![Some(1), None, None]);
    assert_eq!(sorted(w.range_for(to_num(0))), vec![1]);
    assert_eq!(sorted(w.range_for(to_num(1))), vec![0, 2]);
    assert_eq!(sorted(w.range_for(to_num(2))), vec![0, 2]);
    w.assign(to_num(1), to_num(2));
    assert_eq!(sorted(w.range_for(to_num(2))), vec![0]);
    assert!(w.valid_state());
}

#[test]
fn walker_unassign_undoes_assign() {
    let own = vec![Restriction::Only(values(&[0, 1])), Restriction::Not(vec![]), Restriction::Not(values(&[2]))];
    let d = all_different(3, 3, own);
    let mut w = DomainWalker::new(&d);
    let before: Vec<Vec<usize>> = (0..3).map(|k| sorted(w.range_for(to_num(k)))).collect();
    w.assign(to_num(1), to_num(0));
    w.unassign(to_num(1));
    let after: Vec<Vec<usize>> = (0..3).map(|k| sorted(w.range_for(to_num(k)))).collect();
    assert_eq!(before, after);
    assert_eq!(mapping_of(&w), vec![None, None, None]);
    w.unassign(to_num(2));
    assert_eq!(mapping_of(&w), vec![None, None, None]);
}

#[test]
fn walker_order_of_unassigns_does_not_matter() {
    let d = all_different(3, 4, free(3));
    let mut a = DomainWalker::new(&d);
    let mut b = DomainWalker::new(&d);
    a.assign(to_num(0), to_num(1));
    a.assign(to_num(1), to_num(2));
    a.assign(to_num(2), to_num(3));
    a.unassign(to_num(0));
    b.assign(to_num(2), to_num(3));
    b.assign(to_num(1), to_num(2));
    for k in 0..3 {
        assert_eq!(sorted(a.range_for(to_num(k))), sorted(b.range_for(to_num(k))));
    }
}

#[test]
fn walker_detects_invalid_state() {
    let d = all_different(3, 2, free(3));
    let mut w = DomainWalker::new(&d);
    w.assign(to_num(0), to_num(0));
    w.assign(to_num(1), to_num(1));
    assert!(w.range_for(to_num(2)).is_empty());
    assert!(!w.valid_state());
}

#[test]
fn conflicts_follow_constraints() {
    let d = all_different(2, 3, free(2));
    let a = Assignment { key_num: to_num(0), value_num: to_num(1) };
    let same = Assignment { key_num: to_num(1), value_num: to_num(1) };
    let other = Assignment { key_num: to_num(1), value_num: to_num(2) };
    assert!(assignment_prohibits(&d, a, same));
    assert!(!assignment_prohibits(&d, a, other));
    assert!(assignments_conflict(&d, a, same));
    assert!(!assignments_conflict(&d, a, other));
}

#[test]
fn unassign_conflicts_clears_conflicting_keys() {
    let d = all_different(3, 3, free(3));
    let mut w = DomainWalker::new(&d);
    w.assign(to_num(0), to_num(0));
    w.assign(to_num(1), to_num(1));
    w.unassign_conflicts(Assignment { key_num: to_num(2), value_num: to_num(1) });
    assert_eq!(mapping_of(&w), vec![Some(0), None, None]);
    assert_eq!(sorted(w.range_for(to_num(2))), vec![1, 2]);
}

#[test]
fn names_of_values() {
    let d = all_different(1, 3, free(1));
    assert_eq!(value_names(&d, &values(&[2, 0])), vec!["v2", "v0"]);
}

#[test]
fn backtracker_finds_valid_assignment() {
    let own = vec![Restriction::Only(values(&[2])), Restriction::Not(values(&[0])), Restriction::Not(vec![])];
    let d = all_different(3, 3, own);
    let mut g = Backtracker::new(&d);
    assert_eq!(g.generate(), Ok(()));
    let t = g.mapping();
    let found: Vec<Option<usize>> = (0..3).map(|k| t.get(to_num(k)).map(|v| v.as_usize())).collect();
    assert_eq!(found, vec![Some(2), Some(1), Some(0)]);
    let mut check = DomainWalker::new(&d);
    check.assign(to_num(0), to_num(2));
    check.assign(to_num(1), to_num(1));
    check.assign(to_num(2), to_num(0));
    assert!(check.valid_state());
}

#[test]
fn backtracker_reports_exhaustion() {
    let d = all_different(3, 2, free(3));
    let mut g = Backtracker::new(&d);
    assert_eq!(g.generate(), Err(GenerateError::NoMoreCandidates));
}

#[test]
fn backtracker_on_empty_domain() {
    let d = all_different(0, 2, free(0));
    let mut g = Backtracker::new(&d);
    assert_eq!(g.generate(), Ok(()));
}

