use keyboard_optimizer::cat::num::Num;
use keyboard_optimizer::data::countable::{parse_assocs, AssocsError};
use keyboard_optimizer::data::kb_def::{Assignment, KbDef};
use keyboard_optimizer::data::parser::{read_kb_def, ParseError};

struct Tok;

fn token_set(out: &mut Vec<u8>, names: &[&str]) {
    out.extend_from_slice(&(names.len() as u16).to_be_bytes());
    for n in names {
        out.push(n.len() as u8);
        out.extend_from_slice(n.as_bytes());
    }
}

fn u16be(out: &mut Vec<u8>, v: u16) {
    out.extend_from_slice(&v.to_be_bytes());
}

/// Keys a, b; layers base, shift; tokens x, y, z. One free (token z) that may go to
/// locations 1 and 3; one lock putting x on base and y on shift, on keys 0 and 1.
fn sample() -> Vec<u8> {
    let mut b = Vec::new();
    token_set(&mut b, &["a", "b"]);
    token_set(&mut b, &["base", "shift"]);
    token_set(&mut b, &["x", "y", "z"]);
    u16be(&mut b, 1);
    u16be(&mut b, 2);
    u16be(&mut b, 2);
    u16be(&mut b, 1);
    u16be(&mut b, 3);
    u16be(&mut b, 1);
    u16be(&mut b, 2);
    u16be(&mut b, 0);
    u16be(&mut b, 0);
    u16be(&mut b, 1);
    u16be(&mut b, 1);
    u16be(&mut b, 2);
    u16be(&mut b, 0);
    u16be(&mut b, 1);
    b
}

fn strings(t: &keyboard_optimizer::cat::table::Table<impl Sized, String>) -> Vec<String> {
    let mut out = Vec::new();
    for i in 0..t.len() {
        out.push(t.get(keyboard_optimizer::cat::num::to_num(i)).clone());
    }
    out
}

fn describe(a: &Assignment) -> (char, usize, usize) {
    match a {
        Assignment::Free { free_num, loc_num } => ('f', free_num.as_usize(), loc_num.as_usize()),
        Assignment::Lock { lock_num, key_num } => ('l', lock_num.as_usize(), key_num.as_usize()),
    }
}

fn parse_ok(bytes: &[u8]) -> KbDef {
    match read_kb_def(bytes) {
        Ok(d) => d,
        Err(e) => panic!("unexpected error {:?}", e),
    }
}

#[test]
fn reads_a_keyboard_definition() {
    let d = parse_ok(&sample());
    assert_eq!(strings(&d.keys), vec!["a", "b"]);
    assert_eq!(strings(&d.layers), vec!["base", "shift"]);
    assert_eq!(strings(&d.tokens), vec!["x", "y", "z"]);
    assert_eq!(d.frees.len(), 1);
    assert_eq!(d.frees.get(keyboard_optimizer::cat::num::to_num(0)).as_usize(), 2);
    assert_eq!(d.locks.len(), 1);
    let lock = d.locks.get(keyboard_optimizer::cat::num::to_num(0));
    let layer_tokens: Vec<Option<usize>> =
        (0..2).map(|l| lock.get(keyboard_optimizer::cat::num::to_num(l)).map(|t| t.as_usize())).collect();
    assert_eq!(layer_tokens, vec![Some(0), Some(1)]);
    let asg: Vec<(char, usize, usize)> = (0..d.assignments.len())
        .map(|i| describe(d.assignments.get(keyboard_optimizer::cat::num::to_num(i))))
        .collect();
    assert_eq!(asg, vec![('f', 0, 1), ('f', 0, 3), ('l', 0, 0), ('l', 0, 1)]);
    let loc = d.loc_num();
    assert_eq!(loc.key_count.as_usize() * loc.layer_count.as_usize(), 4);
    let g = d.group_num();
    assert_eq!((g.free_count.as_usize(), g.lock_count.as_usize()), (1, 1));
    let a = d.assignment_num();
    assert_eq!(a.key_count.as_usize(), 2);
    assert_eq!(a.layer_count.as_usize(), 2);
}

#[test]
fn trailing_bytes_are_ignored() {
    let mut b = sample();
    b.push(0xff);
    let d = parse_ok(&b);
    assert_eq!(d.assignments.len(), 4);
}

#[test]
fn later_lock_entries_overwrite() {
    let mut b = Vec::new();
    token_set(&mut b, &["a"]);
    token_set(&mut b, &["base"]);
    token_set(&mut b, &["x", "y"]);
    u16be(&mut b, 0);
    u16be(&mut b, 1);
    u16be(&mut b, 2);
    u16be(&mut b, 0);
    u16be(&mut b, 0);
    u16be(&mut b, 0);
    u16be(&mut b, 1);
    u16be(&mut b, 0);
    let d = parse_ok(&b);
    let lock = d.locks.get(keyboard_optimizer::cat::num::to_num(0));
    assert_eq!(lock.get(keyboard_optimizer::cat::num::to_num(0)).map(|t| t.as_usize()), Some(1));
}

#[test]
fn counts_are_big_endian() {
    let mut b = Vec::new();
    b.extend_from_slice(&[0x00, 0x02, 1, b'p', 1, b'q']);
    token_set(&mut b, &[]);
    token_set(&mut b, &[]);
    u16be(&mut b, 0);
    u16be(&mut b, 0);
    let d = parse_ok(&b);
    assert_eq!(strings(&d.keys), vec!["p", "q"]);
}

#[test]
fn truncated_input_is_eof() {
    let b = sample();
    for cut in [0, 1, 3, 10, b.len() - 1] {
        assert_eq!(read_kb_def(&b[..cut]).err(), Some(ParseError::Eof));
    }
}

#[test]
fn out_of_range_token_is_rejected() {
    let mut b = Vec::new();
    token_set(&mut b, &["a"]);
    token_set(&mut b, &["base"]);
    token_set(&mut b, &["x"]);
    u16be(&mut b, 1);
    u16be(&mut b, 1);
    assert_eq!(read_kb_def(&b).err(), Some(ParseError::OutOfRange));
}

#[test]
fn out_of_range_location_is_rejected() {
    let mut b = Vec::new();
    token_set(&mut b, &["a"]);
    token_set(&mut b, &["base", "shift"]);
    token_set(&mut b, &["x"]);
    u16be(&mut b, 1);
    u16be(&mut b, 0);
    u16be(&mut b, 1);
    u16be(&mut b, 2);
    assert_eq!(read_kb_def(&b).err(), Some(ParseError::OutOfRange));
}

#[test]
fn invalid_utf8_is_rejected() {
    let mut b = Vec::new();
    b.extend_from_slice(&[0x00, 0x01, 2, 0xc3, 0x28]);
    assert_eq!(read_kb_def(&b).err(), Some(ParseError::Utf8));
    let mut ok = Vec::new();
    ok.extend_from_slice(&[0x00, 0x01, 2, 0xc3, 0xa9]);
    token_set(&mut ok, &[]);
    token_set(&mut ok, &[]);
    u16be(&mut ok, 0);
    u16be(&mut ok, 0);
    assert_eq!(strings(&parse_ok(&ok).keys), vec!["é"]);
}

fn assocs_bytes(n: u64, len: u64, body: &[u8]) -> Vec<u8> {
    let mut b = Vec::new();
    b.extend_from_slice(&n.to_le_bytes());
    b.extend_from_slice(&len.to_le_bytes());
    b.extend_from_slice(body);
    b
}

#[test]
fn parses_associations() {
    let mut body = Vec::new();
    body.extend_from_slice(&[1, 2]);
    body.extend_from_slice(&1.5f64.to_bits().to_le_bytes());
    body.extend_from_slice(&[0, 0]);
    body.extend_from_slice(&0.25f64.to_bits().to_le_bytes());
    let b = assocs_bytes(2, 2, &body);
    let (used, a) = parse_assocs::<Tok>(&b, 3).unwrap();
    assert_eq!(used, b.len());
    assert_eq!(a.seq_len, 2);
    assert_eq!(a.vec.len(), 2);
    let first: Vec<usize> = a.vec[0].0.iter().map(|n: &Num<Tok>| n.as_usize()).collect();
    assert_eq!(first, vec![1, 2]);
    assert_eq!(f64::from_bits(a.vec[0].1), 1.5);
    assert_eq!(f64::from_bits(a.vec[1].1), 0.25);
}

#[test]
fn associations_report_unused_bytes() {
    let b = assocs_bytes(0, 7, &[9, 9, 9]);
    let (used, a) = parse_assocs::<Tok>(&b, 3).unwrap();
    assert_eq!(used, 16);
    assert_eq!(a.seq_len, 7);
    assert!(a.vec.is_empty());
}

#[test]
fn associations_out_of_range_element() {
    let mut body = vec![3];
    body.extend_from_slice(&0u64.to_le_bytes());
    let b = assocs_bytes(1, 1, &body);
    assert_eq!(parse_assocs::<Tok>(&b, 3).err(), Some(AssocsError::Invalid));
}

#[test]
fn associations_incomplete() {
    let b = assocs_bytes(1, 1, &[0, 1, 2]);
    assert_eq!(parse_assocs::<Tok>(&b, 3).err(), Some(AssocsError::Incomplete));
    assert_eq!(parse_assocs::<Tok>(&[1, 0, 0], 3).err(), Some(AssocsError::Incomplete));
}

#[test]
fn corpus_tokens_become_groups() {
    let mut body = Vec::new();
    body.extend_from_slice(&[2, 0]);
    body.extend_from_slice(&7u64.to_le_bytes());
    let b = assocs_bytes(1, 2, &body);
    let (_, a) = parse_assocs::<keyboard_optimizer::data::kb_def::Token>(&b, 3).unwrap();
    let token_group: keyboard_optimizer::cat::table::Table<
        keyboard_optimizer::data::kb_def::Token,
        Num<keyboard_optimizer::data::json::groups::Group>,
    > = keyboard_optimizer::cat::table::Table::from_vec(vec![
        keyboard_optimizer::cat::num::to_num(1),
        keyboard_optimizer::cat::num::to_num(1),
        keyboard_optimizer::cat::num::to_num(0),
    ]);
    let g = keyboard_optimizer::data::corpus::group_assocs(&a, &token_group);
    assert_eq!(g.seq_len, 2);
    let seq: Vec<usize> = g.vec[0].0.iter().map(|n| n.as_usize()).collect();
    assert_eq!(seq, vec![0, 1]);
    assert_eq!(g.vec[0].1, 7);
}
