use vstd::prelude::*;
use vstd::utf8::{valid_utf8, decode_utf8};
use byteorder::ByteOrder;

use crate::cat::has_count::HasCount;
use crate::cat::num::{Num, num_of, to_num};
use crate::cat::table::Table;
use crate::data::kb_def::{Assignment, Free, KbDef, Layer, Lock, Token};
use crate::data::types::Key;

verus! {

broadcast use crate::cat::num::lemma_num_view_eq, crate::cat::num::lemma_num_of_view;

/// Why a keyboard definition could not be read.
#[derive(Debug, Clone, Copy, PartialEq, Eq, Structural)]
pub enum ParseError {
    /// The bytes ended before the definition did.
    Eof,
    /// A number named an element beyond the count of its kind.
    OutOfRange,
    /// A name was not valid UTF-8.
    Utf8,
}

/// Calls `byteorder::BigEndian::read_u16`, which reads the first two bytes of `buf` as a
/// big-endian number (it panics on fewer than two bytes).
#[verifier::external_body]
fn read_be_u16(buf: &[u8]) -> (r: u16)
    requires
        buf@.len() >= 2,
    ensures
        r == buf@[0] * 256 + buf@[1],
{
    byteorder::BigEndian::read_u16(buf)
}

/// Calls `String::from_utf8`, which succeeds exactly when the bytes are valid UTF-8 and
/// then holds the characters they encode.
#[verifier::external_body]
fn string_from_utf8(bytes: Vec<u8>) -> (r: Option<String>)
    ensures
        r is Some == valid_utf8(bytes@),
        r is Some ==> r->0@ == decode_utf8(bytes@),
{
    String::from_utf8(bytes).ok()
}

/// A byte at `p`, and the position after it.
pub open spec fn spec_u8(b: Seq<u8>, p: int) -> Result<(nat, int), ParseError> {
    if 0 <= p && p + 1 <= b.len() {
        Ok((b[p] as nat, p + 1))
    } else {
        Err(ParseError::Eof)
    }
}

/// A big-endian 16-bit number at `p`, and the position after it.
pub open spec fn spec_u16(b: Seq<u8>, p: int) -> Result<(nat, int), ParseError> {
    if 0 <= p && p + 2 <= b.len() {
        Ok(((b[p] * 256 + b[p + 1]) as nat, p + 2))
    } else {
        Err(ParseError::Eof)
    }
}

/// A 16-bit number at `p` that must lie below `count`.
pub open spec fn spec_num(b: Seq<u8>, p: int, count: nat) -> Result<(nat, int), ParseError> {
    match spec_u16(b, p) {
        Ok((n, q)) => if n < count {
            Ok((n, q))
        } else {
            Err(ParseError::OutOfRange)
        },
        Err(e) => Err(e),
    }
}

/// A string at `p`: a length byte, then that many bytes of UTF-8.
pub open spec fn spec_string(b: Seq<u8>, p: int) -> Result<(Seq<char>, int), ParseError> {
    match spec_u8(b, p) {
        Err(e) => Err(e),
        Ok((l, q)) => if q + l <= b.len() {
            if valid_utf8(b.subrange(q, q + l)) {
                Ok((decode_utf8(b.subrange(q, q + l)), q + l))
            } else {
                Err(ParseError::Utf8)
            }
        } else {
            Err(ParseError::Eof)
        },
    }
}

/// `n` strings, one after another, from `p`.
pub open spec fn spec_strings(b: Seq<u8>, p: int, n: nat) -> Result<(Seq<Seq<char>>, int), ParseError>
    decreases n,
{
    if n == 0 {
        Ok((Seq::empty(), p))
    } else {
        match spec_strings(b, p, (n - 1) as nat) {
            Err(e) => Err(e),
            Ok((ss, q)) => match spec_string(b, q) {
                Err(e) => Err(e),
                Ok((s, r)) => Ok((ss.push(s), r)),
            },
        }
    }
}

/// A set of names: a 16-bit count, then that many strings.
pub open spec fn spec_token_set(b: Seq<u8>, p: int) -> Result<(Seq<Seq<char>>, int), ParseError> {
    match spec_u16(b, p) {
        Err(e) => Err(e),
        Ok((n, q)) => spec_strings(b, q, n),
    }
}

/// Once reading the strings fails, reading more of them fails the same way.
proof fn lemma_strings_err(b: Seq<u8>, p: int, i: nat, n: nat)
    requires
        i <= n,
        spec_strings(b, p, i) is Err,
    ensures
        spec_strings(b, p, n) == spec_strings(b, p, i),
    decreases n,
{
    if i < n {
        lemma_strings_err(b, p, i, (n - 1) as nat);
    }
}

/// The views of some strings.
pub open spec fn strings_view(s: Seq<String>) -> Seq<Seq<char>> {
    s.map_values(|x: String| x@)
}

fn read_u8(b: &[u8], pos: &mut usize) -> (r: Result<u8, ParseError>)
    ensures
        match spec_u8(b@, *old(pos) as int) {
            Ok((v, q)) => r == Ok::<u8, ParseError>(v as u8) && *final(pos) == q,
            Err(e) => r == Err::<u8, ParseError>(e),
        },
{
    if *pos < b.len() {
        let v = b[*pos];
        *pos = *pos + 1;
        Ok(v)
    } else {
        Err(ParseError::Eof)
    }
}

fn read_u16(b: &[u8], pos: &mut usize) -> (r: Result<u16, ParseError>)
    ensures
        match spec_u16(b@, *old(pos) as int) {
            Ok((v, q)) => r == Ok::<u16, ParseError>(v as u16) && *final(pos) == q,
            Err(e) => r == Err::<u16, ParseError>(e),
        },
{
    if *pos < b.len() && b.len() - *pos >= 2 {
        let p = *pos;
        let v = read_be_u16(vstd::slice::slice_subrange(b, p, p + 2));
        *pos = p + 2;
        Ok(v)
    } else {
        Err(ParseError::Eof)
    }
}

/// A count: a 16-bit number.
fn read_count(b: &[u8], pos: &mut usize) -> (r: Result<usize, ParseError>)
    ensures
        match spec_u16(b@, *old(pos) as int) {
            Ok((v, q)) => r == Ok::<usize, ParseError>(v as usize) && *final(pos) == q,
            Err(e) => r == Err::<usize, ParseError>(e),
        },
{
    let n = read_u16(b, pos)?;
    Ok(n as usize)
}

/// A number of the domain `D`, which has `count` elements.
fn read_num<D>(b: &[u8], pos: &mut usize, count: usize) -> (r: Result<Num<D>, ParseError>)
    ensures
        match spec_num(b@, *old(pos) as int, count as nat) {
            Ok((v, q)) => r is Ok && r->Ok_0 == num_of::<D>(v as usize) && *final(pos) == q,
            Err(e) => r == Err::<Num<D>, ParseError>(e),
        },
{
    let num = read_u16(b, pos)? as usize;
    if num < count {
        Ok(to_num(num))
    } else {
        Err(ParseError::OutOfRange)
    }
}

fn read_string(b: &[u8], pos: &mut usize) -> (r: Result<String, ParseError>)
    ensures
        match spec_string(b@, *old(pos) as int) {
            Ok((s, q)) => r is Ok && r->Ok_0@ == s && *final(pos) == q,
            Err(e) => r == Err::<String, ParseError>(e),
        },
{
    let n_bytes = read_u8(b, pos)? as usize;
    let p = *pos;
    let blen = b.len();
    if blen - p < n_bytes {
        return Err(ParseError::Eof);
    }
    let mut buf: Vec<u8> = Vec::with_capacity(n_bytes);
    let mut i: usize = 0;
    while i < n_bytes
        invariant
            p + n_bytes <= blen,
            blen == b@.len(),
            i <= n_bytes,
            buf@ == b@.subrange(p as int, p + i),
        decreases n_bytes - i,
    {
        buf.push(b[p + i]);
        i = i + 1;
        proof {
            assert(buf@ =~= b@.subrange(p as int, p + i));
        }
    }
    *pos = p + n_bytes;
    match string_from_utf8(buf) {
        Some(string) => Ok(string),
        None => Err(ParseError::Utf8),
    }
}

/// A 16-bit count, then that many strings.
fn read_vec(b: &[u8], pos: &mut usize) -> (r: Result<Vec<String>, ParseError>)
    ensures
        match spec_token_set(b@, *old(pos) as int) {
            Ok((ss, q)) => r is Ok && strings_view(r->Ok_0@) == ss && *final(pos) == q,
            Err(e) => r == Err::<Vec<String>, ParseError>(e),
        },
{
    let elem_count = read_u16(b, pos)? as usize;
    let ghost start = *pos;
    let mut vec: Vec<String> = Vec::with_capacity(elem_count);
    let mut i: usize = 0;
    proof {
        assert(strings_view(vec@) =~= Seq::<Seq<char>>::empty());
    }
    while i < elem_count
        invariant
            i <= elem_count,
            spec_u16(b@, *old(pos) as int) == Ok::<(nat, int), ParseError>((elem_count as nat, start as int)),
            spec_strings(b@, start as int, i as nat) == Ok::<(Seq<Seq<char>>, int), ParseError>(
                (strings_view(vec@), *pos as int),
            ),
        decreases elem_count - i,
    {
        let ghost before = vec@;
        let elem = match read_string(b, pos) {
            Ok(elem) => elem,
            Err(e) => {
                proof {
                    lemma_strings_err(b@, start as int, (i + 1) as nat, elem_count as nat);
                }
                return Err(e);
            },
        };
        vec.push(elem);
        proof {
            assert(strings_view(vec@) =~= strings_view(before).push(elem@));
        }
        i = i + 1;
    }
    Ok(vec)
}

/// A set of names, as a table.
fn read_token_set<D>(b: &[u8], pos: &mut usize) -> (r: Result<Table<D, String>, ParseError>)
    ensures
        match spec_token_set(b@, *old(pos) as int) {
            Ok((ss, q)) => r is Ok && strings_view(r->Ok_0@) == ss && *final(pos) == q,
            Err(e) => r == Err::<Table<D, String>, ParseError>(e),
        },
{
    let elems = read_vec(b, pos)?;
    Ok(Table::from_vec(elems))
}

/// `n` locations of free `free`, each a number below `nloc`, as placements.
pub open spec fn spec_locs(b: Seq<u8>, p: int, n: nat, free: nat, nloc: nat) -> Result<(Seq<Assignment>, int), ParseError>
    decreases n,
{
    if n == 0 {
        Ok((Seq::empty(), p))
    } else {
        match spec_locs(b, p, (n - 1) as nat, free, nloc) {
            Err(e) => Err(e),
            Ok((asg, q)) => match spec_num(b, q, nloc) {
                Err(e) => Err(e),
                Ok((l, r)) => Ok(
                    (
                        asg.push(Assignment::Free { free_num: num_of(free as usize), loc_num: num_of(l as usize) }),
                        r,
                    ),
                ),
            },
        }
    }
}

/// Free `free`: its token (below `ntok`), then a count and that many locations.
pub open spec fn spec_free(b: Seq<u8>, p: int, free: nat, ntok: nat, nloc: nat) -> Result<((Num<Token>, Seq<Assignment>), int), ParseError> {
    match spec_num(b, p, ntok) {
        Err(e) => Err(e),
        Ok((t, q)) => match spec_u16(b, q) {
            Err(e) => Err(e),
            Ok((n, r)) => match spec_locs(b, r, n, free, nloc) {
                Err(e) => Err(e),
                Ok((asg, s)) => Ok(((num_of(t as usize), asg), s)),
            },
        },
    }
}

/// `n` frees, one after another: their tokens and all their placements.
pub open spec fn spec_frees(b: Seq<u8>, p: int, n: nat, ntok: nat, nloc: nat) -> Result<((Seq<Num<Token>>, Seq<Assignment>), int), ParseError>
    decreases n,
{
    if n == 0 {
        Ok(((Seq::empty(), Seq::empty()), p))
    } else {
        match spec_frees(b, p, (n - 1) as nat, ntok, nloc) {
            Err(e) => Err(e),
            Ok(((ts, asg), q)) => match spec_free(b, q, (n - 1) as nat, ntok, nloc) {
                Err(e) => Err(e),
                Ok(((t, a), r)) => Ok(((ts.push(t), asg + a), r)),
            },
        }
    }
}

proof fn lemma_locs_err(b: Seq<u8>, p: int, i: nat, n: nat, free: nat, nloc: nat)
    requires
        i <= n,
        spec_locs(b, p, i, free, nloc) is Err,
    ensures
        spec_locs(b, p, n, free, nloc) == spec_locs(b, p, i, free, nloc),
    decreases n,
{
    if i < n {
        lemma_locs_err(b, p, i, (n - 1) as nat, free, nloc);
    }
}

proof fn lemma_frees_err(b: Seq<u8>, p: int, i: nat, n: nat, ntok: nat, nloc: nat)
    requires
        i <= n,
        spec_frees(b, p, i, ntok, nloc) is Err,
    ensures
        spec_frees(b, p, n, ntok, nloc) == spec_frees(b, p, i, ntok, nloc),
    decreases n,
{
    if i < n {
        lemma_frees_err(b, p, i, (n - 1) as nat, ntok, nloc);
    }
}

/// Reads `num_frees` frees: pushes each token to `frees` and each placement to
/// `assignments`.
fn read_frees(
    b: &[u8],
    pos: &mut usize,
    num_frees: usize,
    ntok: usize,
    nloc: usize,
    frees: &mut Vec<Num<Token>>,
    assignments: &mut Vec<Assignment>,
) -> (r: Result<(), ParseError>)
    requires
        old(frees)@.len() == 0,
        old(assignments)@.len() == 0,
    ensures
        match spec_frees(b@, *old(pos) as int, num_frees as nat, ntok as nat, nloc as nat) {
            Ok(((ts, asg), q)) => r is Ok && final(frees)@ == ts && final(assignments)@ == asg && *final(pos) == q,
            Err(e) => r == Err::<(), ParseError>(e),
        },
{
    let ghost start = *pos;
    let mut free_num: usize = 0;
    proof {
        assert(frees@ =~= Seq::<Num<Token>>::empty());
        assert(assignments@ =~= Seq::<Assignment>::empty());
    }
    while free_num < num_frees
        invariant
            free_num <= num_frees,
            start == *old(pos),
            spec_frees(b@, start as int, free_num as nat, ntok as nat, nloc as nat) == Ok::<((Seq<Num<Token>>, Seq<Assignment>), int), ParseError>(
                ((frees@, assignments@), *pos as int),
            ),
        decreases num_frees - free_num,
    {
        let ghost p0 = *pos;
        let ghost asg0 = assignments@;
        let ghost fr0 = frees@;
        let token_num = match read_num(b, pos, ntok) {
            Ok(t) => t,
            Err(e) => {
                proof {
                    lemma_frees_err(b@, start as int, (free_num + 1) as nat, num_frees as nat, ntok as nat, nloc as nat);
                }
                return Err(e);
            },
        };
        frees.push(token_num);
        let ghost p1 = *pos;
        let num_locs = match read_count(b, pos) {
            Ok(n) => n,
            Err(e) => {
                proof {
                    lemma_frees_err(b@, start as int, (free_num + 1) as nat, num_frees as nat, ntok as nat, nloc as nat);
                }
                return Err(e);
            },
        };
        let ghost p2 = *pos;
        let mut j: usize = 0;
        proof {
            assert(assignments@ =~= asg0 + Seq::<Assignment>::empty());
        }
        while j < num_locs
            invariant
                j <= num_locs,
                free_num < num_frees,
                start == *old(pos),
                spec_frees(b@, start as int, free_num as nat, ntok as nat, nloc as nat) == Ok::<((Seq<Num<Token>>, Seq<Assignment>), int), ParseError>(
                    ((fr0, asg0), p0 as int),
                ),
                frees@ == fr0.push(token_num),
                token_num == num_of::<Token>(token_num@),
                spec_num(b@, p0 as int, ntok as nat) == Ok::<(nat, int), ParseError>((token_num@ as nat, p1 as int)),
                spec_u16(b@, p1 as int) == Ok::<(nat, int), ParseError>((num_locs as nat, p2 as int)),
                match spec_locs(b@, p2 as int, j as nat, free_num as nat, nloc as nat) {
                    Ok((a, q)) => assignments@ == asg0 + a && *pos == q,
                    Err(e) => false,
                },
            decreases num_locs - j,
        {
            let ghost before = assignments@;
            let loc_num = match read_num(b, pos, nloc) {
                Ok(l) => l,
                Err(e) => {
                    proof {
                        lemma_locs_err(b@, p2 as int, (j + 1) as nat, num_locs as nat, free_num as nat, nloc as nat);
                        lemma_frees_err(b@, start as int, (free_num + 1) as nat, num_frees as nat, ntok as nat, nloc as nat);
                    }
                    return Err(e);
                },
            };
            assignments.push(Assignment::Free { free_num: to_num(free_num), loc_num });
            proof {
                let a = spec_locs(b@, p2 as int, j as nat, free_num as nat, nloc as nat)->Ok_0.0;
                assert(assignments@ =~= asg0 + a.push(Assignment::Free { free_num: num_of(free_num), loc_num: num_of(loc_num@) }));
            }
            j = j + 1;
        }
        proof {
            let a = spec_locs(b@, p2 as int, num_locs as nat, free_num as nat, nloc as nat)->Ok_0.0;
            assert(spec_free(b@, p0 as int, free_num as nat, ntok as nat, nloc as nat) == Ok::<((Num<Token>, Seq<Assignment>), int), ParseError>(
                ((token_num, a), *pos as int)));
        }
        free_num = free_num + 1;
    }
    Ok(())
}

/// `n` entries of a lock, each a layer (below `nlay`) and a token (below `ntok`), set one
/// after another on a map with no token on any layer.
pub open spec fn spec_entries(b: Seq<u8>, p: int, n: nat, nlay: nat, ntok: nat) -> Result<(Seq<Option<Num<Token>>>, int), ParseError>
    decreases n,
{
    if n == 0 {
        Ok((Seq::new(nlay, |i: int| None::<Num<Token>>), p))
    } else {
        match spec_entries(b, p, (n - 1) as nat, nlay, ntok) {
            Err(e) => Err(e),
            Ok((map, q)) => match spec_num(b, q, nlay) {
                Err(e) => Err(e),
                Ok((l, r)) => match spec_num(b, r, ntok) {
                    Err(e) => Err(e),
                    Ok((t, s)) => Ok((map.update(l as int, Some(num_of(t as usize))), s)),
                },
            },
        }
    }
}

/// `n` keys of lock `lock`, each below `nkey`, as placements.
pub open spec fn spec_lock_keys(b: Seq<u8>, p: int, n: nat, lock: nat, nkey: nat) -> Result<(Seq<Assignment>, int), ParseError>
    decreases n,
{
    if n == 0 {
        Ok((Seq::empty(), p))
    } else {
        match spec_lock_keys(b, p, (n - 1) as nat, lock, nkey) {
            Err(e) => Err(e),
            Ok((asg, q)) => match spec_num(b, q, nkey) {
                Err(e) => Err(e),
                Ok((k, r)) => Ok(
                    (
                        asg.push(Assignment::Lock { lock_num: num_of(lock as usize), key_num: num_of(k as usize) }),
                        r,
                    ),
                ),
            },
        }
    }
}

/// Lock `lock`: a count and that many entries, then a count and that many keys.
pub open spec fn spec_lock(b: Seq<u8>, p: int, lock: nat, nlay: nat, ntok: nat, nkey: nat) -> Result<((Seq<Option<Num<Token>>>, Seq<Assignment>), int), ParseError> {
    match spec_u16(b, p) {
        Err(e) => Err(e),
        Ok((ne, q)) => match spec_entries(b, q, ne, nlay, ntok) {
            Err(e) => Err(e),
            Ok((map, r)) => match spec_u16(b, r) {
                Err(e) => Err(e),
                Ok((nk, s)) => match spec_lock_keys(b, s, nk, lock, nkey) {
                    Err(e) => Err(e),
                    Ok((asg, t)) => Ok(((map, asg), t)),
                },
            },
        },
    }
}

/// `n` locks, one after another: their maps and all their placements.
pub open spec fn spec_locks(b: Seq<u8>, p: int, n: nat, nlay: nat, ntok: nat, nkey: nat) -> Result<((Seq<Seq<Option<Num<Token>>>>, Seq<Assignment>), int), ParseError>
    decreases n,
{
    if n == 0 {
        Ok(((Seq::empty(), Seq::empty()), p))
    } else {
        match spec_locks(b, p, (n - 1) as nat, nlay, ntok, nkey) {
            Err(e) => Err(e),
            Ok(((ms, asg), q)) => match spec_lock(b, q, (n - 1) as nat, nlay, ntok, nkey) {
                Err(e) => Err(e),
                Ok(((m, a), r)) => Ok(((ms.push(m), asg + a), r)),
            },
        }
    }
}

proof fn lemma_entries_err(b: Seq<u8>, p: int, i: nat, n: nat, nlay: nat, ntok: nat)
    requires
        i <= n,
        spec_entries(b, p, i, nlay, ntok) is Err,
    ensures
        spec_entries(b, p, n, nlay, ntok) == spec_entries(b, p, i, nlay, ntok),
    decreases n,
{
    if i < n {
        lemma_entries_err(b, p, i, (n - 1) as nat, nlay, ntok);
    }
}

proof fn lemma_lock_keys_err(b: Seq<u8>, p: int, i: nat, n: nat, lock: nat, nkey: nat)
    requires
        i <= n,
        spec_lock_keys(b, p, i, lock, nkey) is Err,
    ensures
        spec_lock_keys(b, p, n, lock, nkey) == spec_lock_keys(b, p, i, lock, nkey),
    decreases n,
{
    if i < n {
        lemma_lock_keys_err(b, p, i, (n - 1) as nat, lock, nkey);
    }
}

proof fn lemma_locks_err(b: Seq<u8>, p: int, i: nat, n: nat, nlay: nat, ntok: nat, nkey: nat)
    requires
        i <= n,
        spec_locks(b, p, i, nlay, ntok, nkey) is Err,
    ensures
        spec_locks(b, p, n, nlay, ntok, nkey) == spec_locks(b, p, i, nlay, ntok, nkey),
    decreases n,
{
    if i < n {
        lemma_locks_err(b, p, i, (n - 1) as nat, nlay, ntok, nkey);
    }
}

/// The maps of some locks.
pub open spec fn locks_view(s: Seq<Table<Layer, Option<Num<Token>>>>) -> Seq<Seq<Option<Num<Token>>>> {
    s.map_values(|t: Table<Layer, Option<Num<Token>>>| t@)
}

/// Reads the entries of one lock into a map with an entry for each of `nlay` layers.
fn read_entries(b: &[u8], pos: &mut usize, num_entries: usize, nlay: usize, ntok: usize) -> (r: Result<Table<Layer, Option<Num<Token>>>, ParseError>)
    ensures
        match spec_entries(b@, *old(pos) as int, num_entries as nat, nlay as nat, ntok as nat) {
            Ok((map, q)) => r is Ok && r->Ok_0@ == map && *final(pos) == q,
            Err(e) => r == Err::<Table<Layer, Option<Num<Token>>>, ParseError>(e),
        },
{
    let ghost start = *pos;
    let mut empty: Vec<Option<Num<Token>>> = Vec::with_capacity(nlay);
    let mut l: usize = 0;
    while l < nlay
        invariant
            l <= nlay,
            empty@ =~= Seq::new(l as nat, |i: int| None::<Num<Token>>),
        decreases nlay - l,
    {
        empty.push(None);
        l = l + 1;
    }
    let mut layer_map: Table<Layer, Option<Num<Token>>> = Table::from_vec(empty);
    let mut i: usize = 0;
    while i < num_entries
        invariant
            i <= num_entries,
            layer_map@.len() == nlay,
            start == *old(pos),
            spec_entries(b@, start as int, i as nat, nlay as nat, ntok as nat) == Ok::<(Seq<Option<Num<Token>>>, int), ParseError>(
                (layer_map@, *pos as int),
            ),
        decreases num_entries - i,
    {
        let layer_num = match read_num(b, pos, nlay) {
            Ok(l) => l,
            Err(e) => {
                proof {
                    lemma_entries_err(b@, start as int, (i + 1) as nat, num_entries as nat, nlay as nat, ntok as nat);
                }
                return Err(e);
            },
        };
        let token_num = match read_num(b, pos, ntok) {
            Ok(t) => t,
            Err(e) => {
                proof {
                    lemma_entries_err(b@, start as int, (i + 1) as nat, num_entries as nat, nlay as nat, ntok as nat);
                }
                return Err(e);
            },
        };
        layer_map.set(layer_num, Some(token_num));
        i = i + 1;
    }
    Ok(layer_map)
}

/// Reads `num_locks` locks: pushes each map to `locks` and each placement to
/// `assignments`, after what is there.
fn read_locks(
    b: &[u8],
    pos: &mut usize,
    num_locks: usize,
    nlay: usize,
    ntok: usize,
    nkey: usize,
    locks: &mut Vec<Table<Layer, Option<Num<Token>>>>,
    assignments: &mut Vec<Assignment>,
) -> (r: Result<(), ParseError>)
    requires
        old(locks)@.len() == 0,
    ensures
        match spec_locks(b@, *old(pos) as int, num_locks as nat, nlay as nat, ntok as nat, nkey as nat) {
            Ok(((ms, asg), q)) => r is Ok && locks_view(final(locks)@) == ms && final(assignments)@ == old(assignments)@ + asg && *final(pos) == q,
            Err(e) => r == Err::<(), ParseError>(e),
        },
{
    let ghost start = *pos;
    let ghost asg_start = assignments@;
    let mut lock_num: usize = 0;
    proof {
        assert(locks_view(locks@) =~= Seq::<Seq<Option<Num<Token>>>>::empty());
        assert(assignments@ =~= asg_start + Seq::<Assignment>::empty());
    }
    while lock_num < num_locks
        invariant
            lock_num <= num_locks,
            start == *old(pos),
            asg_start == old(assignments)@,
            match spec_locks(b@, start as int, lock_num as nat, nlay as nat, ntok as nat, nkey as nat) {
                Ok(((ms, asg), q)) => locks_view(locks@) == ms && assignments@ == asg_start + asg && *pos == q,
                Err(e) => false,
            },
        decreases num_locks - lock_num,
    {
        let ghost p0 = *pos;
        let ghost asg0 = assignments@;
        let ghost lk0 = locks@;
        let num_entries = match read_count(b, pos) {
            Ok(n) => n,
            Err(e) => {
                proof {
                    lemma_locks_err(b@, start as int, (lock_num + 1) as nat, num_locks as nat, nlay as nat, ntok as nat, nkey as nat);
                }
                return Err(e);
            },
        };
        let ghost p1 = *pos;
        let layer_map = match read_entries(b, pos, num_entries, nlay, ntok) {
            Ok(m) => m,
            Err(e) => {
                proof {
                    lemma_locks_err(b@, start as int, (lock_num + 1) as nat, num_locks as nat, nlay as nat, ntok as nat, nkey as nat);
                }
                return Err(e);
            },
        };
        let ghost map_g = layer_map@;
        locks.push(layer_map);
        proof {
            assert(locks_view(locks@) =~= locks_view(lk0).push(map_g));
        }
        let ghost p2 = *pos;
        let num_keys = match read_count(b, pos) {
            Ok(n) => n,
            Err(e) => {
                proof {
                    lemma_locks_err(b@, start as int, (lock_num + 1) as nat, num_locks as nat, nlay as nat, ntok as nat, nkey as nat);
                }
                return Err(e);
            },
        };
        let ghost p3 = *pos;
        let mut j: usize = 0;
        proof {
            assert(assignments@ =~= asg0 + Seq::<Assignment>::empty());
        }
        while j < num_keys
            invariant
                j <= num_keys,
                lock_num < num_locks,
                start == *old(pos),
                asg_start == old(assignments)@,
                match spec_locks(b@, start as int, lock_num as nat, nlay as nat, ntok as nat, nkey as nat) {
                    Ok(((ms, asg), q)) => locks_view(lk0) == ms && asg0 == asg_start + asg && p0 == q,
                    Err(e) => false,
                },
                locks_view(locks@) == locks_view(lk0).push(map_g),
                spec_u16(b@, p0 as int) == Ok::<(nat, int), ParseError>((num_entries as nat, p1 as int)),
                spec_entries(b@, p1 as int, num_entries as nat, nlay as nat, ntok as nat) == Ok::<(Seq<Option<Num<Token>>>, int), ParseError>((map_g, p2 as int)),
                spec_u16(b@, p2 as int) == Ok::<(nat, int), ParseError>((num_keys as nat, p3 as int)),
                match spec_lock_keys(b@, p3 as int, j as nat, lock_num as nat, nkey as nat) {
                    Ok((a, q)) => assignments@ == asg0 + a && *pos == q,
                    Err(e) => false,
                },
            decreases num_keys - j,
        {
            let key_num = match read_num(b, pos, nkey) {
                Ok(k) => k,
                Err(e) => {
                    proof {
                        lemma_lock_keys_err(b@, p3 as int, (j + 1) as nat, num_keys as nat, lock_num as nat, nkey as nat);
                        lemma_locks_err(b@, start as int, (lock_num + 1) as nat, num_locks as nat, nlay as nat, ntok as nat, nkey as nat);
                    }
                    return Err(e);
                },
            };
            assignments.push(Assignment::Lock { lock_num: to_num(lock_num), key_num });
            proof {
                let a = spec_lock_keys(b@, p3 as int, j as nat, lock_num as nat, nkey as nat)->Ok_0.0;
                assert(assignments@ =~= asg0 + a.push(Assignment::Lock { lock_num: num_of(lock_num), key_num: num_of(key_num@) }));
            }
            j = j + 1;
        }
        proof {
            let a = spec_lock_keys(b@, p3 as int, num_keys as nat, lock_num as nat, nkey as nat)->Ok_0.0;
            assert(spec_lock(b@, p0 as int, lock_num as nat, nlay as nat, ntok as nat, nkey as nat) == Ok::<((Seq<Option<Num<Token>>>, Seq<Assignment>), int), ParseError>(
                ((map_g, a), *pos as int)));
            let prev = spec_locks(b@, start as int, lock_num as nat, nlay as nat, ntok as nat, nkey as nat)->Ok_0.0.1;
            assert(asg_start + (prev + a) =~= (asg_start + prev) + a);
        }
        lock_num = lock_num + 1;
    }
    Ok(())
}

/// Reading `n` strings gives `n` strings.
proof fn lemma_strings_len(b: Seq<u8>, p: int, n: nat)
    requires
        spec_strings(b, p, n) is Ok,
    ensures
        spec_strings(b, p, n)->Ok_0.0.len() == n,
    decreases n,
{
    if n > 0 {
        lemma_strings_len(b, p, (n - 1) as nat);
    }
}

/// A set of names read from bytes has fewer than `2^16` names.
proof fn lemma_token_set_len(b: Seq<u8>, p: int)
    requires
        spec_token_set(b, p) is Ok,
    ensures
        spec_token_set(b, p)->Ok_0.0.len() < 0x10000,
{
    let n = spec_u16(b, p)->Ok_0.0;
    let q = spec_u16(b, p)->Ok_0.1;
    lemma_strings_len(b, q, n);
}

/// A keyboard definition read from bytes: the key, layer and token names, the frees with
/// their locations, and the locks with their layer maps and keys. Every number must lie
/// below the count of what it names (locations are pairs of a key and a layer); bytes
/// after the definition are not read.
pub open spec fn spec_kb_def(b: Seq<u8>) -> Result<(Seq<Seq<char>>, Seq<Seq<char>>, Seq<Seq<char>>, Seq<Num<Token>>, Seq<Seq<Option<Num<Token>>>>, Seq<Assignment>), ParseError> {
    match spec_token_set(b, 0) {
        Err(e) => Err(e),
        Ok((ks, p1)) => match spec_token_set(b, p1) {
            Err(e) => Err(e),
            Ok((ls, p2)) => match spec_token_set(b, p2) {
                Err(e) => Err(e),
                Ok((ts, p3)) => match spec_u16(b, p3) {
                    Err(e) => Err(e),
                    Ok((nf, p4)) => match spec_frees(b, p4, nf, ts.len(), ks.len() * ls.len()) {
                        Err(e) => Err(e),
                        Ok(((fr, fa), p5)) => match spec_u16(b, p5) {
                            Err(e) => Err(e),
                            Ok((nl, p6)) => match spec_locks(b, p6, nl, ls.len(), ts.len(), ks.len()) {
                                Err(e) => Err(e),
                                Ok(((lk, la), p7)) => Ok((ks, ls, ts, fr, lk, fa + la)),
                            },
                        },
                    },
                },
            },
        },
    }
}

/// Reads a keyboard definition from bytes.
pub fn read_kb_def(b: &[u8]) -> (r: Result<KbDef, ParseError>)
    ensures
        match spec_kb_def(b@) {
            Ok((ks, ls, ts, fr, lk, asg)) => r is Ok && strings_view(r->Ok_0.keys@) == ks && strings_view(
                r->Ok_0.layers@,
            ) == ls && strings_view(r->Ok_0.tokens@) == ts && r->Ok_0.frees@ == fr && locks_view(r->Ok_0.locks@)
                == lk && r->Ok_0.assignments@ == asg,
            Err(e) => r == Err::<KbDef, ParseError>(e),
        },
{
    let mut pos: usize = 0;
    let keys: Table<Key, String> = read_token_set(b, &mut pos)?;
    let layers: Table<Layer, String> = read_token_set(b, &mut pos)?;
    let tokens: Table<Token, String> = read_token_set(b, &mut pos)?;
    proof {
        lemma_token_set_len(b@, 0);
        let p1 = spec_token_set(b@, 0)->Ok_0.1;
        lemma_token_set_len(b@, p1);
        let p2 = spec_token_set(b@, p1)->Ok_0.1;
        lemma_token_set_len(b@, p2);
        assert(keys@.len() == strings_view(keys@).len());
        assert(layers@.len() == strings_view(layers@).len());
        assert(tokens@.len() == strings_view(tokens@).len());
        assert(keys@.len() * layers@.len() <= 0xffff * 0xffff) by (nonlinear_arith)
            requires
                keys@.len() <= 0xffff,
                layers@.len() <= 0xffff,
        ;
    }
    let mut assignments: Vec<Assignment> = Vec::new();
    let num_frees = read_count(b, &mut pos)?;
    let mut frees: Vec<Num<Token>> = Vec::with_capacity(num_frees);
    let loc_num = crate::data::kb_def::LocNum { key_count: keys.count(), layer_count: layers.count() };
    let loc_count = loc_num.count();
    read_frees(b, &mut pos, num_frees, tokens.len(), loc_count.as_usize(), &mut frees, &mut assignments)?;
    let num_locks = read_count(b, &mut pos)?;
    let mut locks: Vec<Table<Layer, Option<Num<Token>>>> = Vec::with_capacity(num_locks);
    read_locks(b, &mut pos, num_locks, layers.len(), tokens.len(), keys.len(), &mut locks, &mut assignments)?;
    Ok(
        KbDef {
            keys,
            layers,
            tokens,
            frees: Table::from_vec(frees),
            locks: Table::from_vec(locks),
            assignments: Table::from_vec(assignments),
        },
    )
}

/// The two bytes of a 16-bit number `x`, most significant first.
pub open spec fn be16(x: nat) -> Seq<u8> {
    seq![(x / 256) as u8, (x % 256) as u8]
}

/// Numbers written one after another as 16-bit numbers.
pub open spec fn nums_bytes(xs: Seq<nat>) -> Seq<u8>
    decreases xs.len(),
{
    if xs.len() == 0 {
        Seq::empty()
    } else {
        nums_bytes(xs.drop_last()) + be16(xs.last())
    }
}

/// A free as written: its token, the number of its locations, then the locations.
pub open spec fn free_bytes(token: nat, locs: Seq<nat>) -> Seq<u8> {
    be16(token) + be16(locs.len()) + nums_bytes(locs)
}

/// Frees written one after another; each is a token and its locations.
pub open spec fn frees_bytes(fs: Seq<(nat, Seq<nat>)>) -> Seq<u8>
    decreases fs.len(),
{
    if fs.len() == 0 {
        Seq::empty()
    } else {
        frees_bytes(fs.drop_last()) + free_bytes(fs.last().0, fs.last().1)
    }
}

/// The placements of the frees `fs`: for each free in turn, one at each of its
/// locations, in order.
pub open spec fn free_assignments(fs: Seq<(nat, Seq<nat>)>) -> Seq<Assignment>
    decreases fs.len(),
{
    if fs.len() == 0 {
        Seq::empty()
    } else {
        free_assignments(fs.drop_last()) + fs.last().1.map(
            |j: int, l: nat|
                Assignment::Free { free_num: num_of((fs.len() - 1) as usize), loc_num: num_of(l as usize) },
        )
    }
}

/// `x` is below `2^16` and below `count`.
pub open spec fn fits16(x: nat, count: nat) -> bool {
    x < 0x10000 && x < count
}

/// The bytes from `p` on are `x` followed by `y`: then they are `x`, and after `x` come `y`.
proof fn lemma_split(b: Seq<u8>, p: int, x: Seq<u8>, y: Seq<u8>)
    requires
        0 <= p,
        p + x.len() + y.len() <= b.len(),
        b.subrange(p, p + x.len() + y.len()) == x + y,
    ensures
        b.subrange(p, p + x.len()) == x,
        b.subrange(p + x.len(), p + x.len() + y.len()) == y,
{
    assert forall|j: int| 0 <= j < x.len() implies b.subrange(p, p + x.len())[j] == x[j] by {
        assert(b.subrange(p, p + x.len() + y.len())[j] == (x + y)[j]);
    }
    assert forall|j: int| 0 <= j < y.len() implies b.subrange(p + x.len(), p + x.len() + y.len())[j] == y[j] by {
        assert(b.subrange(p, p + x.len() + y.len())[x.len() + j] == (x + y)[x.len() + j]);
        assert(b.subrange(p, p + x.len() + y.len())[x.len() + j] == b[p + x.len() + j]);
        assert(b.subrange(p + x.len(), p + x.len() + y.len())[j] == b[p + x.len() + j]);
        assert((x + y)[x.len() + j] == y[j]);
    }
    assert(b.subrange(p, p + x.len()) =~= x);
    assert(b.subrange(p + x.len(), p + x.len() + y.len()) =~= y);
}

/// A 16-bit number written at `p` is read back.
proof fn lemma_u16_at(b: Seq<u8>, p: int, x: nat)
    requires
        0 <= p,
        p + 2 <= b.len(),
        b.subrange(p, p + 2) == be16(x),
        x < 0x10000,
    ensures
        spec_u16(b, p) == Ok::<(nat, int), ParseError>((x, p + 2)),
{
    assert(b[p] == b.subrange(p, p + 2)[0]);
    assert(b[p + 1] == b.subrange(p, p + 2)[1]);
    assert(b[p] == x / 256);
    assert(b[p + 1] == x % 256);
    vstd::arithmetic::div_mod::lemma_fundamental_div_mod(x as int, 256);
}

/// The length of numbers written as 16-bit numbers.
proof fn lemma_nums_bytes_len(xs: Seq<nat>)
    ensures
        nums_bytes(xs).len() == 2 * xs.len(),
    decreases xs.len(),
{
    if xs.len() > 0 {
        lemma_nums_bytes_len(xs.drop_last());
    }
}

/// Locations written at `p` are read back, in order, as placements of free `free`.
proof fn lemma_locs_read(b: Seq<u8>, p: int, locs: Seq<nat>, free: nat, nloc: nat)
    requires
        0 <= p,
        p + nums_bytes(locs).len() <= b.len(),
        b.subrange(p, p + nums_bytes(locs).len()) == nums_bytes(locs),
        forall|j: int| 0 <= j < locs.len() ==> fits16(#[trigger] locs[j], nloc),
    ensures
        spec_locs(b, p, locs.len(), free, nloc) == Ok::<(Seq<Assignment>, int), ParseError>(
            (
                locs.map(|j: int, l: nat| Assignment::Free { free_num: num_of(free as usize), loc_num: num_of(l as usize) }),
                p + nums_bytes(locs).len(),
            ),
        ),
    decreases locs.len(),
{
    if locs.len() > 0 {
        let pre = locs.drop_last();
        let x = locs.last();
        lemma_split(b, p, nums_bytes(pre), be16(x));
        assert forall|j: int| 0 <= j < pre.len() implies fits16(#[trigger] pre[j], nloc) by {
            assert(pre[j] == locs[j]);
        }
        lemma_locs_read(b, p, pre, free, nloc);
        assert(fits16(locs[locs.len() - 1], nloc));
        lemma_u16_at(b, p + nums_bytes(pre).len(), x);
        assert(pre.len() == (locs.len() - 1) as nat);
        assert(locs.map(|j: int, l: nat| Assignment::Free { free_num: num_of(free as usize), loc_num: num_of(l as usize) })
            =~= pre.map(|j: int, l: nat| Assignment::Free { free_num: num_of(free as usize), loc_num: num_of(l as usize) }).push(
            Assignment::Free { free_num: num_of(free as usize), loc_num: num_of(x as usize) }));
    } else {
        assert(locs.map(|j: int, l: nat| Assignment::Free { free_num: num_of(free as usize), loc_num: num_of(l as usize) })
            =~= Seq::<Assignment>::empty());
    }
}

/// Frees written at `p` are read back in the order written: free `i` of the result is the
/// token of the `i`-th free written, and its placements, numbered `i`, follow those of
/// the frees before it.
pub proof fn law_frees_in_order(b: Seq<u8>, p: int, fs: Seq<(nat, Seq<nat>)>, ntok: nat, nloc: nat)
    requires
        0 <= p,
        p + frees_bytes(fs).len() <= b.len(),
        b.subrange(p, p + frees_bytes(fs).len()) == frees_bytes(fs),
        fs.len() < 0x10000,
        forall|i: int|
            0 <= i < fs.len() ==> fits16((#[trigger] fs[i]).0, ntok) && fs[i].1.len() < 0x10000 && forall|j: int|
                0 <= j < fs[i].1.len() ==> fits16(#[trigger] fs[i].1[j], nloc),
    ensures
        spec_frees(b, p, fs.len(), ntok, nloc) == Ok::<((Seq<Num<Token>>, Seq<Assignment>), int), ParseError>(
            (
                (fs.map(|i: int, f: (nat, Seq<nat>)| num_of::<Token>(f.0 as usize)), free_assignments(fs)),
                p + frees_bytes(fs).len(),
            ),
        ),
    decreases fs.len(),
{
    if fs.len() > 0 {
        let pre = fs.drop_last();
        let f = fs.last();
        let i = fs.len() - 1;
        assert(f == fs[i]);
        lemma_split(b, p, frees_bytes(pre), free_bytes(f.0, f.1));
        assert forall|k: int| 0 <= k < pre.len() implies fits16((#[trigger] pre[k]).0, ntok) && pre[k].1.len() < 0x10000
            && forall|j: int| 0 <= j < pre[k].1.len() ==> fits16(#[trigger] pre[k].1[j], nloc) by {
            assert(pre[k] == fs[k]);
        }
        law_frees_in_order(b, p, pre, ntok, nloc);
        let q = p + frees_bytes(pre).len();
        lemma_split(b, q, be16(f.0) + be16(f.1.len()), nums_bytes(f.1));
        lemma_split(b, q, be16(f.0), be16(f.1.len()));
        lemma_u16_at(b, q, f.0);
        lemma_u16_at(b, q + 2, f.1.len());
        assert forall|j: int| 0 <= j < f.1.len() implies fits16(#[trigger] f.1[j], nloc) by {
            assert(fs[i].1[j] == f.1[j]);
        }
        lemma_locs_read(b, q + 4, f.1, (fs.len() - 1) as nat, nloc);
        assert(fs.map(|i: int, f: (nat, Seq<nat>)| num_of::<Token>(f.0 as usize)) =~= pre.map(
            |i: int, f: (nat, Seq<nat>)| num_of::<Token>(f.0 as usize),
        ).push(num_of::<Token>(f.0 as usize)));
    } else {
        assert(fs.map(|i: int, f: (nat, Seq<nat>)| num_of::<Token>(f.0 as usize)) =~= Seq::<Num<Token>>::empty());
    }
}

/// Pairs of a layer and a token written one after another as 16-bit numbers.
pub open spec fn pairs_bytes(es: Seq<(nat, nat)>) -> Seq<u8>
    decreases es.len(),
{
    if es.len() == 0 {
        Seq::empty()
    } else {
        pairs_bytes(es.drop_last()) + be16(es.last().0) + be16(es.last().1)
    }
}

/// A lock as written: the number of its entries, the entries (layer, token), the number
/// of its keys, then the keys.
pub open spec fn lock_bytes(entries: Seq<(nat, nat)>, keys: Seq<nat>) -> Seq<u8> {
    be16(entries.len()) + pairs_bytes(entries) + be16(keys.len()) + nums_bytes(keys)
}

/// Locks written one after another; each is its entries and its keys.
pub open spec fn locks_bytes(ls: Seq<(Seq<(nat, nat)>, Seq<nat>)>) -> Seq<u8>
    decreases ls.len(),
{
    if ls.len() == 0 {
        Seq::empty()
    } else {
        locks_bytes(ls.drop_last()) + lock_bytes(ls.last().0, ls.last().1)
    }
}

/// The token of the last of `entries` for layer `l`, if any entry is for it.
pub open spec fn last_token(entries: Seq<(nat, nat)>, l: nat) -> Option<nat>
    decreases entries.len(),
{
    if entries.len() == 0 {
        None
    } else if entries.last().0 == l {
        Some(entries.last().1)
    } else {
        last_token(entries.drop_last(), l)
    }
}

/// The map of a lock over `nlay` layers: each layer has the token of the last entry for
/// it, and no token where no entry is for it.
pub open spec fn lock_map_of(entries: Seq<(nat, nat)>, nlay: nat) -> Seq<Option<Num<Token>>> {
    Seq::new(
        nlay,
        |l: int|
            match last_token(entries, l as nat) {
                Some(t) => Some(num_of::<Token>(t as usize)),
                None => None,
            },
    )
}

/// The placements of the locks `ls`: for each lock in turn, one on each of its keys, in
/// order.
pub open spec fn lock_assignments(ls: Seq<(Seq<(nat, nat)>, Seq<nat>)>) -> Seq<Assignment>
    decreases ls.len(),
{
    if ls.len() == 0 {
        Seq::empty()
    } else {
        lock_assignments(ls.drop_last()) + ls.last().1.map(
            |j: int, k: nat| Assignment::Lock { lock_num: num_of((ls.len() - 1) as usize), key_num: num_of(k as usize) },
        )
    }
}

/// Entries written at `p` are read back into the lock's map.
proof fn lemma_entries_read(b: Seq<u8>, p: int, es: Seq<(nat, nat)>, nlay: nat, ntok: nat)
    requires
        0 <= p,
        p + pairs_bytes(es).len() <= b.len(),
        b.subrange(p, p + pairs_bytes(es).len()) == pairs_bytes(es),
        forall|j: int| 0 <= j < es.len() ==> fits16((#[trigger] es[j]).0, nlay) && fits16(es[j].1, ntok),
    ensures
        spec_entries(b, p, es.len(), nlay, ntok) == Ok::<(Seq<Option<Num<Token>>>, int), ParseError>(
            (lock_map_of(es, nlay), p + pairs_bytes(es).len()),
        ),
    decreases es.len(),
{
    if es.len() > 0 {
        let pre = es.drop_last();
        let e = es.last();
        assert(e == es[es.len() - 1]);
        lemma_split(b, p, pairs_bytes(pre) + be16(e.0), be16(e.1));
        lemma_split(b, p, pairs_bytes(pre), be16(e.0));
        assert forall|j: int| 0 <= j < pre.len() implies fits16((#[trigger] pre[j]).0, nlay) && fits16(pre[j].1, ntok) by {
            assert(pre[j] == es[j]);
        }
        lemma_entries_read(b, p, pre, nlay, ntok);
        let q = p + pairs_bytes(pre).len();
        lemma_u16_at(b, q, e.0);
        lemma_u16_at(b, q + 2, e.1);
        assert(lock_map_of(es, nlay) =~= lock_map_of(pre, nlay).update(e.0 as int, Some(num_of::<Token>(e.1 as usize))));
    } else {
        assert(lock_map_of(es, nlay) =~= Seq::new(nlay, |i: int| None::<Num<Token>>));
    }
}

/// Keys written at `p` are read back, in order, as placements of lock `lock`.
proof fn lemma_keys_read(b: Seq<u8>, p: int, keys: Seq<nat>, lock: nat, nkey: nat)
    requires
        0 <= p,
        p + nums_bytes(keys).len() <= b.len(),
        b.subrange(p, p + nums_bytes(keys).len()) == nums_bytes(keys),
        forall|j: int| 0 <= j < keys.len() ==> fits16(#[trigger] keys[j], nkey),
    ensures
        spec_lock_keys(b, p, keys.len(), lock, nkey) == Ok::<(Seq<Assignment>, int), ParseError>(
            (
                keys.map(|j: int, k: nat| Assignment::Lock { lock_num: num_of(lock as usize), key_num: num_of(k as usize) }),
                p + nums_bytes(keys).len(),
            ),
        ),
    decreases keys.len(),
{
    if keys.len() > 0 {
        let pre = keys.drop_last();
        let x = keys.last();
        lemma_split(b, p, nums_bytes(pre), be16(x));
        assert forall|j: int| 0 <= j < pre.len() implies fits16(#[trigger] pre[j], nkey) by {
            assert(pre[j] == keys[j]);
        }
        lemma_keys_read(b, p, pre, lock, nkey);
        assert(fits16(keys[keys.len() - 1], nkey));
        lemma_u16_at(b, p + nums_bytes(pre).len(), x);
        assert(keys.map(|j: int, k: nat| Assignment::Lock { lock_num: num_of(lock as usize), key_num: num_of(k as usize) })
            =~= pre.map(|j: int, k: nat| Assignment::Lock { lock_num: num_of(lock as usize), key_num: num_of(k as usize) }).push(
            Assignment::Lock { lock_num: num_of(lock as usize), key_num: num_of(x as usize) }));
    } else {
        assert(keys.map(|j: int, k: nat| Assignment::Lock { lock_num: num_of(lock as usize), key_num: num_of(k as usize) })
            =~= Seq::<Assignment>::empty());
    }
}

/// Locks written at `p` are read back in the order written: lock `i` of the result maps
/// each layer to the token of the last entry for it in the `i`-th lock written, and its
/// placements, numbered `i`, follow those of the locks before it.
pub proof fn law_locks_in_order(b: Seq<u8>, p: int, ls: Seq<(Seq<(nat, nat)>, Seq<nat>)>, nlay: nat, ntok: nat, nkey: nat)
    requires
        0 <= p,
        p + locks_bytes(ls).len() <= b.len(),
        b.subrange(p, p + locks_bytes(ls).len()) == locks_bytes(ls),
        ls.len() < 0x10000,
        forall|i: int|
            0 <= i < ls.len() ==> (#[trigger] ls[i]).0.len() < 0x10000 && ls[i].1.len() < 0x10000 && (forall|j: int|
                0 <= j < ls[i].0.len() ==> fits16((#[trigger] ls[i].0[j]).0, nlay) && fits16(ls[i].0[j].1, ntok)) && (
            forall|j: int| 0 <= j < ls[i].1.len() ==> fits16(#[trigger] ls[i].1[j], nkey)),
    ensures
        spec_locks(b, p, ls.len(), nlay, ntok, nkey) == Ok::<((Seq<Seq<Option<Num<Token>>>>, Seq<Assignment>), int), ParseError>(
            (
                (ls.map(|i: int, l: (Seq<(nat, nat)>, Seq<nat>)| lock_map_of(l.0, nlay)), lock_assignments(ls)),
                p + locks_bytes(ls).len(),
            ),
        ),
    decreases ls.len(),
{
    if ls.len() > 0 {
        let pre = ls.drop_last();
        let l = ls.last();
        let i = ls.len() - 1;
        assert(l == ls[i]);
        lemma_split(b, p, locks_bytes(pre), lock_bytes(l.0, l.1));
        assert forall|k: int| 0 <= k < pre.len() implies (#[trigger] pre[k]).0.len() < 0x10000 && pre[k].1.len() < 0x10000
            && (forall|j: int|
            0 <= j < pre[k].0.len() ==> fits16((#[trigger] pre[k].0[j]).0, nlay) && fits16(pre[k].0[j].1, ntok)) && (forall|j: int|
            0 <= j < pre[k].1.len() ==> fits16(#[trigger] pre[k].1[j], nkey)) by {
            assert(pre[k] == ls[k]);
        }
        law_locks_in_order(b, p, pre, nlay, ntok, nkey);
        let q = p + locks_bytes(pre).len();
        let a = be16(l.0.len()) + pairs_bytes(l.0) + be16(l.1.len());
        lemma_split(b, q, a, nums_bytes(l.1));
        lemma_split(b, q, be16(l.0.len()) + pairs_bytes(l.0), be16(l.1.len()));
        lemma_split(b, q, be16(l.0.len()), pairs_bytes(l.0));
        lemma_u16_at(b, q, l.0.len());
        assert forall|j: int| 0 <= j < l.0.len() implies fits16((#[trigger] l.0[j]).0, nlay) && fits16(l.0[j].1, ntok) by {
            assert(ls[i].0[j] == l.0[j]);
        }
        lemma_entries_read(b, q + 2, l.0, nlay, ntok);
        let r = q + 2 + pairs_bytes(l.0).len();
        lemma_u16_at(b, r, l.1.len());
        assert forall|j: int| 0 <= j < l.1.len() implies fits16(#[trigger] l.1[j], nkey) by {
            assert(ls[i].1[j] == l.1[j]);
        }
        lemma_keys_read(b, r + 2, l.1, (ls.len() - 1) as nat, nkey);
        assert(ls.map(|i: int, l: (Seq<(nat, nat)>, Seq<nat>)| lock_map_of(l.0, nlay)) =~= pre.map(
            |i: int, l: (Seq<(nat, nat)>, Seq<nat>)| lock_map_of(l.0, nlay),
        ).push(lock_map_of(l.0, nlay)));
    } else {
        assert(ls.map(|i: int, l: (Seq<(nat, nat)>, Seq<nat>)| lock_map_of(l.0, nlay)) =~= Seq::<Seq<Option<Num<Token>>>>::empty());
    }
}

} // verus!
