use keyboard_optimizer::cat::num::to_num;
use keyboard_optimizer::data::json::groups::{Group, Groups, LockRepr};
use keyboard_optimizer::data::json::kb_conf::{KbConf, ReadError};
use keyboard_optimizer::data::json::KbDefData;
use keyboard_optimizer::data::keymap::read_keymap_data;

fn s(x: &str) -> String {
    x.to_string()
}

fn conf() -> KbConf {
    KbConf::build(
        vec![s("q"), s("w")],
        vec![s("base"), s("shift")],
        vec![s("a"), s("A"), s("b"), s("B"), s("c")],
    )
}

#[test]
fn reader_finds_names() {
    let c = conf();
    let r = c.reader();
    assert_eq!(r.read_token(&s("B")).unwrap().as_usize(), 3);
    assert_eq!(r.read_layer(&s("shift")).unwrap().as_usize(), 1);
    assert_eq!(r.read_key(&s("q")).unwrap().as_usize(), 0);
    match r.read_token(&s("x")) {
        Err(ReadError::UnknownToken(name)) => assert_eq!(name, "x"),
        other => panic!("unexpected {:?}", other),
    }
    match r.read_layer(&s("alt")) {
        Err(ReadError::UnknownLayer(name)) => assert_eq!(name, "alt"),
        other => panic!("unexpected {:?}", other),
    }
    match r.read_key(&s("e")) {
        Err(ReadError::UnknownKey(name)) => assert_eq!(name, "e"),
        other => panic!("unexpected {:?}", other),
    }
}

#[test]
fn reader_takes_last_of_equal_names() {
    let c = KbConf::build(vec![s("k"), s("k")], vec![], vec![]);
    assert_eq!(c.reader().read_key(&s("k")).unwrap().as_usize(), 1);
}

#[test]
fn groups_of_locks_and_frees() {
    let c = conf();
    let r = c.reader();
    let locks: Vec<LockRepr> = vec![
        vec![(s("base"), s("a")), (s("shift"), s("A"))],
        vec![(s("base"), s("b")), (s("shift"), s("B"))],
    ];
    let g = Groups::read(&r, &locks).unwrap();
    assert_eq!(g.locks.len(), 2);
    assert_eq!(g.frees.len(), 1);
    assert_eq!(g.frees.get(to_num(0)).as_usize(), 4);
    let groups: Vec<String> = (0..g.groups.len())
        .map(|i| match g.groups.get(to_num(i)) {
            Group::Locked(l) => format!("L{}", l.as_usize()),
            Group::Free(f) => format!("F{}", f.as_usize()),
        })
        .collect();
    assert_eq!(groups, vec!["L0", "L1", "F0"]);
    let token_group: Vec<usize> = (0..5).map(|t| g.token_group.get(to_num(t)).as_usize()).collect();
    assert_eq!(token_group, vec![0, 0, 1, 1, 2]);
    assert_eq!(g.free_group.get(to_num(0)).as_usize(), 2);
    assert_eq!(g.lock_group.get(to_num(1)).as_usize(), 1);
    let first = g.locks.get(to_num(0));
    assert_eq!(first.get(to_num(1)).map(|t| t.as_usize()), Some(1));
}

#[test]
fn token_in_two_locks_goes_to_the_last() {
    let c = conf();
    let r = c.reader();
    let locks: Vec<LockRepr> = vec![vec![(s("base"), s("a"))], vec![(s("shift"), s("a"))]];
    let g = Groups::read(&r, &locks).unwrap();
    assert_eq!(g.token_group.get(to_num(0)).as_usize(), 1);
    assert_eq!(g.frees.len(), 4);
    assert_eq!(g.token_group.get(to_num(4)).as_usize(), 5);
}

#[test]
fn unknown_names_in_locks() {
    let c = conf();
    let r = c.reader();
    let bad_token: Vec<LockRepr> = vec![vec![(s("base"), s("z"))]];
    assert!(matches!(Groups::read(&r, &bad_token), Err(ReadError::UnknownToken(_))));
    let bad_layer: Vec<LockRepr> = vec![vec![(s("top"), s("a"))]];
    assert!(matches!(Groups::read(&r, &bad_layer), Err(ReadError::UnknownLayer(_))));
}

#[test]
fn no_locks_means_all_free() {
    let c = conf();
    let r = c.reader();
    let g = Groups::read(&r, &vec![]).unwrap();
    assert_eq!(g.frees.len(), 5);
    let token_group: Vec<usize> = (0..5).map(|t| g.token_group.get(to_num(t)).as_usize()).collect();
    assert_eq!(token_group, vec![0, 1, 2, 3, 4]);
}

#[test]
fn keymap_sets_tokens_at_locations() {
    let c = conf();
    let data = vec![
        (s("w"), vec![(s("shift"), s("B")), (s("base"), s("b"))]),
        (s("q"), vec![(s("base"), s("a"))]),
    ];
    let km = read_keymap_data(c.reader(), &data).unwrap();
    let cells: Vec<Option<usize>> = (0..4).map(|i| km.get(to_num(i)).map(|t| t.as_usize())).collect();
    assert_eq!(cells, vec![Some(0), None, Some(2), Some(3)]);
}

#[test]
fn keymap_reports_unknown_names() {
    let c = conf();
    let bad_key = vec![(s("z"), vec![])];
    assert!(matches!(read_keymap_data(c.reader(), &bad_key), Err(ReadError::UnknownKey(_))));
    let bad_token = vec![(s("q"), vec![(s("base"), s("zz"))])];
    assert!(matches!(read_keymap_data(c.reader(), &bad_token), Err(ReadError::UnknownToken(_))));
}

#[test]
fn kb_def_data_reads_names_and_groups() {
    let data = KbDefData {
        keys: vec![s("q")],
        layers: vec![s("base"), s("shift")],
        tokens: vec![s("a"), s("A"), s("x")],
        locks: vec![vec![(s("base"), s("a")), (s("shift"), s("A"))]],
    };
    let d = data.read().unwrap();
    assert_eq!(d.keys.len(), 1);
    assert_eq!(d.groups.len(), 2);
    assert_eq!(d.frees.get(to_num(0)).as_usize(), 2);
    assert_eq!(d.token_group.get(to_num(1)).as_usize(), 0);
    assert_eq!(d.token_group.get(to_num(2)).as_usize(), 1);
    let bad = KbDefData { keys: vec![], layers: vec![], tokens: vec![], locks: vec![vec![(s("base"), s("a"))]] };
    assert!(bad.read().is_err());
}


fn describe(a: &keyboard_optimizer::data::kb_def::Assignment) -> (char, usize, usize) {
    match a {
        keyboard_optimizer::data::kb_def::Assignment::Free { free_num, loc_num } => ('f', free_num.as_usize(), loc_num.as_usize()),
        keyboard_optimizer::data::kb_def::Assignment::Lock { lock_num, key_num } => ('l', lock_num.as_usize(), key_num.as_usize()),
    }
}

#[test]
fn group_assignments_of_locks_and_frees() {
    let data = KbDefData {
        keys: vec![s("q"), s("w")],
        layers: vec![s("base"), s("shift")],
        tokens: vec![s("a"), s("A"), s("x")],
        locks: vec![vec![(s("base"), s("a")), (s("shift"), s("A"))]],
    };
    let d = data.read().unwrap();
    let lock = keyboard_optimizer::heuristics::traverser::group_assignments(to_num(0), &d);
    assert_eq!(lock.iter().map(describe).collect::<Vec<_>>(), vec![('l', 0, 0), ('l', 0, 1)]);
    let free = keyboard_optimizer::heuristics::traverser::group_assignments(to_num(1), &d);
    assert_eq!(free.iter().map(describe).collect::<Vec<_>>(), vec![('f', 0, 0), ('f', 0, 1), ('f', 0, 2), ('f', 0, 3)]);
}
