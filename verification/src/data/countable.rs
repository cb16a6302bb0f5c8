use vstd::prelude::*;

use crate::cat::num::{Num, num_of, to_num};

verus! {

broadcast use crate::cat::num::lemma_num_view_eq, crate::cat::num::lemma_num_of_view;

/// Sequences of `seq_len` elements of `C`, each with a weight. A weight is kept as the
/// bits of a 64-bit float.
#[derive(Debug)]
pub struct Assocs<C> {
    pub seq_len: usize,
    pub vec: Vec<(Vec<Num<C>>, u64)>,
}

/// Why associations could not be read.
#[derive(Debug, Clone, Copy, PartialEq, Eq, Structural)]
pub enum AssocsError {
    /// The bytes ended before the associations did.
    Incomplete,
    /// An element number lay beyond the count of elements.
    Invalid,
}

/// The number that the first eight bytes of `buf` denote, least significant first.
fn read_le_u64(buf: &[u8]) -> (r: u64)
    requires
        buf@.len() >= 8,
    ensures
        r == le_u64_value(buf@),
{
    (buf[0] as u64) + 0x100 * (buf[1] as u64) + 0x10000 * (buf[2] as u64) + 0x1000000 * (buf[3] as u64)
        + 0x100000000 * (buf[4] as u64) + 0x10000000000 * (buf[5] as u64) + 0x1000000000000 * (buf[6] as u64)
        + 0x100000000000000 * (buf[7] as u64)
}

/// The number that the first eight bytes of `b` denote, least significant first.
pub open spec fn le_u64_value(b: Seq<u8>) -> nat {
    (b[0] + 0x100 * b[1] + 0x10000 * b[2] + 0x1000000 * b[3] + 0x100000000 * b[4] + 0x10000000000
        * b[5] + 0x1000000000000 * b[6] + 0x100000000000000 * b[7]) as nat
}

/// Byte `i` of `v` in little-endian order: `v`'s digit `i` in base 256.
pub open spec fn le_byte(v: int, i: nat) -> int {
    (v / vstd::arithmetic::power::pow(256, i)) % 256
}

/// `v` as `mid` plus lower and higher digits: its digit at weight `k` is `mid`.
proof fn lemma_digit(v: int, k: int, low: int, mid: int, rest: int)
    requires
        k > 0,
        0 <= low < k,
        0 <= mid < 256,
        rest >= 0,
        v == low + k * mid + k * 256 * rest,
    ensures
        (v / k) % 256 == mid,
{
    assert(v == (mid + 256 * rest) * k + low) by (nonlinear_arith)
        requires
            v == low + k * mid + k * 256 * rest,
    ;
    vstd::arithmetic::div_mod::lemma_fundamental_div_mod_converse_div(v, k, mid + 256 * rest, low);
    vstd::arithmetic::div_mod::lemma_fundamental_div_mod_converse_mod(mid + 256 * rest, 256, rest, mid);
}

/// The number read from eight bytes, least significant first, has those bytes as its
/// digits in base 256: dividing it by `256^i` and taking the remainder by 256 gives
/// byte `i` back, and it fits in 64 bits.
pub proof fn law_le_u64_digits(b: Seq<u8>)
    requires
        b.len() >= 8,
    ensures
        (le_u64_value(b) / 0x1) % 0x100 == b[0],
        (le_u64_value(b) / 0x100) % 0x100 == b[1],
        (le_u64_value(b) / 0x10000) % 0x100 == b[2],
        (le_u64_value(b) / 0x1000000) % 0x100 == b[3],
        (le_u64_value(b) / 0x100000000) % 0x100 == b[4],
        (le_u64_value(b) / 0x10000000000) % 0x100 == b[5],
        (le_u64_value(b) / 0x1000000000000) % 0x100 == b[6],
        (le_u64_value(b) / 0x100000000000000) % 0x100 == b[7],
        le_u64_value(b) < 0x10000000000000000,
{
    let v = le_u64_value(b) as int;
    lemma_digit(v, 0x1, 0, b[0] as int, b[1] + 0x100 * b[2] + 0x10000 * b[3] + 0x1000000 * b[4] + 0x100000000 * b[5] + 0x10000000000 * b[6] + 0x1000000000000 * b[7]);
    lemma_digit(v, 0x100, b[0] as int, b[1] as int, b[2] + 0x100 * b[3] + 0x10000 * b[4] + 0x1000000 * b[5] + 0x100000000 * b[6] + 0x10000000000 * b[7]);
    lemma_digit(v, 0x10000, b[0] + 0x100 * b[1], b[2] as int, b[3] + 0x100 * b[4] + 0x10000 * b[5] + 0x1000000 * b[6] + 0x100000000 * b[7]);
    lemma_digit(v, 0x1000000, b[0] + 0x100 * b[1] + 0x10000 * b[2], b[3] as int, b[4] + 0x100 * b[5] + 0x10000 * b[6] + 0x1000000 * b[7]);
    lemma_digit(v, 0x100000000, b[0] + 0x100 * b[1] + 0x10000 * b[2] + 0x1000000 * b[3], b[4] as int, b[5] + 0x100 * b[6] + 0x10000 * b[7]);
    lemma_digit(v, 0x10000000000, b[0] + 0x100 * b[1] + 0x10000 * b[2] + 0x1000000 * b[3] + 0x100000000 * b[4], b[5] as int, b[6] + 0x100 * b[7]);
    lemma_digit(v, 0x1000000000000, b[0] + 0x100 * b[1] + 0x10000 * b[2] + 0x1000000 * b[3] + 0x100000000 * b[4] + 0x10000000000 * b[5], b[6] as int, b[7] as int);
    lemma_digit(v, 0x100000000000000, b[0] + 0x100 * b[1] + 0x10000 * b[2] + 0x1000000 * b[3] + 0x100000000 * b[4] + 0x10000000000 * b[5] + 0x1000000000000 * b[6], b[7] as int, 0);
}

/// Reading the eight little-endian bytes of any number below `2^64` gives the number
/// back.
pub proof fn law_le_u64_round_trip(x: int)
    requires
        0 <= x < 0x10000000000000000,
    ensures
        le_u64_value(Seq::new(8, |i: int| ((x / vstd::arithmetic::power::pow(256, i as nat)) % 256) as u8)) == x,
{
    reveal_with_fuel(vstd::arithmetic::power::pow, 9);
    let b = Seq::new(8, |i: int| ((x / vstd::arithmetic::power::pow(256, i as nat)) % 256) as u8);
    let q0 = x / 0x1;
    let q1 = x / 0x100;
    let q2 = x / 0x10000;
    let q3 = x / 0x1000000;
    let q4 = x / 0x100000000;
    let q5 = x / 0x10000000000;
    let q6 = x / 0x1000000000000;
    let q7 = x / 0x100000000000000;
    assert(b[0] == q0 % 256);
    assert(vstd::arithmetic::power::pow(256, 0nat) == 0x1);
    assert(b[1] == q1 % 256);
    assert(vstd::arithmetic::power::pow(256, 1nat) == 0x100);
    assert(b[2] == q2 % 256);
    assert(vstd::arithmetic::power::pow(256, 2nat) == 0x10000);
    assert(b[3] == q3 % 256);
    assert(vstd::arithmetic::power::pow(256, 3nat) == 0x1000000);
    assert(b[4] == q4 % 256);
    assert(vstd::arithmetic::power::pow(256, 4nat) == 0x100000000);
    assert(b[5] == q5 % 256);
    assert(vstd::arithmetic::power::pow(256, 5nat) == 0x10000000000);
    assert(b[6] == q6 % 256);
    assert(vstd::arithmetic::power::pow(256, 6nat) == 0x1000000000000);
    assert(b[7] == q7 % 256);
    assert(vstd::arithmetic::power::pow(256, 7nat) == 0x100000000000000);
    vstd::arithmetic::div_mod::lemma_fundamental_div_mod(q0, 256);
    vstd::arithmetic::div_mod::lemma_div_denominator(x, 0x1, 256);
    assert(q1 == q0 / 256);
    vstd::arithmetic::div_mod::lemma_fundamental_div_mod(q1, 256);
    vstd::arithmetic::div_mod::lemma_div_denominator(x, 0x100, 256);
    assert(q2 == q1 / 256);
    vstd::arithmetic::div_mod::lemma_fundamental_div_mod(q2, 256);
    vstd::arithmetic::div_mod::lemma_div_denominator(x, 0x10000, 256);
    assert(q3 == q2 / 256);
    vstd::arithmetic::div_mod::lemma_fundamental_div_mod(q3, 256);
    vstd::arithmetic::div_mod::lemma_div_denominator(x, 0x1000000, 256);
    assert(q4 == q3 / 256);
    vstd::arithmetic::div_mod::lemma_fundamental_div_mod(q4, 256);
    vstd::arithmetic::div_mod::lemma_div_denominator(x, 0x100000000, 256);
    assert(q5 == q4 / 256);
    vstd::arithmetic::div_mod::lemma_fundamental_div_mod(q5, 256);
    vstd::arithmetic::div_mod::lemma_div_denominator(x, 0x10000000000, 256);
    assert(q6 == q5 / 256);
    vstd::arithmetic::div_mod::lemma_fundamental_div_mod(q6, 256);
    vstd::arithmetic::div_mod::lemma_div_denominator(x, 0x1000000000000, 256);
    assert(q7 == q6 / 256);
    assert(q7 < 256) by { vstd::arithmetic::div_mod::lemma_div_by_multiple_is_strongly_ordered(x, 0x10000000000000000, 0x100000000000000, 256); }
}

/// A little-endian 64-bit number at `p`.
pub open spec fn spec_le_u64(b: Seq<u8>, p: int) -> Result<(nat, int), AssocsError> {
    if 0 <= p && p + 8 <= b.len() {
        Ok((le_u64_value(b.subrange(p, p + 8)), p + 8))
    } else {
        Err(AssocsError::Incomplete)
    }
}

/// An element at `p`: one byte, which must lie below `count`.
pub open spec fn spec_elem(b: Seq<u8>, p: int, count: nat) -> Result<(nat, int), AssocsError> {
    if 0 <= p && p + 1 <= b.len() {
        if b[p] < count {
            Ok((b[p] as nat, p + 1))
        } else {
            Err(AssocsError::Invalid)
        }
    } else {
        Err(AssocsError::Incomplete)
    }
}

/// `n` elements, one after another.
pub open spec fn spec_elems<C>(b: Seq<u8>, p: int, n: nat, count: nat) -> Result<(Seq<Num<C>>, int), AssocsError>
    decreases n,
{
    if n == 0 {
        Ok((Seq::empty(), p))
    } else {
        match spec_elems::<C>(b, p, (n - 1) as nat, count) {
            Err(e) => Err(e),
            Ok((s, q)) => match spec_elem(b, q, count) {
                Err(e) => Err(e),
                Ok((x, r)) => Ok((s.push(num_of(x as usize)), r)),
            },
        }
    }
}

/// `n` associations, each `len` elements and then the bits of a weight.
pub open spec fn spec_assocs<C>(b: Seq<u8>, p: int, n: nat, len: nat, count: nat) -> Result<(Seq<(Seq<Num<C>>, u64)>, int), AssocsError>
    decreases n,
{
    if n == 0 {
        Ok((Seq::empty(), p))
    } else {
        match spec_assocs::<C>(b, p, (n - 1) as nat, len, count) {
            Err(e) => Err(e),
            Ok((s, q)) => match spec_elems::<C>(b, q, len, count) {
                Err(e) => Err(e),
                Ok((seq, r)) => match spec_le_u64(b, r) {
                    Err(e) => Err(e),
                    Ok((w, t)) => Ok((s.push((seq, w as u64)), t)),
                },
            },
        }
    }
}

/// The associations at the start of `b`: their number and their length as little-endian
/// 64-bit numbers, then the associations; the position after them comes with them.
pub open spec fn spec_parse_assocs<C>(b: Seq<u8>, count: nat) -> Result<((nat, Seq<(Seq<Num<C>>, u64)>), int), AssocsError> {
    match spec_le_u64(b, 0) {
        Err(e) => Err(e),
        Ok((n, p)) => match spec_le_u64(b, p) {
            Err(e) => Err(e),
            Ok((len, q)) => match spec_assocs::<C>(b, q, n as u64 as usize as nat, len as u64 as usize as nat, count) {
                Err(e) => Err(e),
                Ok((v, r)) => Ok(((len as u64 as usize as nat, v), r)),
            },
        },
    }
}

/// The views of some associations.
pub open spec fn assocs_view<C>(v: Seq<(Vec<Num<C>>, u64)>) -> Seq<(Seq<Num<C>>, u64)> {
    v.map_values(|a: (Vec<Num<C>>, u64)| (a.0@, a.1))
}

fn parse_le_u64(b: &[u8], pos: &mut usize) -> (r: Result<u64, AssocsError>)
    ensures
        match spec_le_u64(b@, *old(pos) as int) {
            Ok((v, q)) => r == Ok::<u64, AssocsError>(v as u64) && *final(pos) == q,
            Err(e) => r == Err::<u64, AssocsError>(e),
        },
{
    let p = *pos;
    if p < b.len() && b.len() - p >= 8 {
        let v = read_le_u64(vstd::slice::slice_subrange(b, p, p + 8));
        *pos = p + 8;
        Ok(v)
    } else {
        Err(AssocsError::Incomplete)
    }
}

fn parse_elems<C>(b: &[u8], pos: &mut usize, n: usize, count: usize) -> (r: Result<Vec<Num<C>>, AssocsError>)
    ensures
        match spec_elems::<C>(b@, *old(pos) as int, n as nat, count as nat) {
            Ok((s, q)) => r is Ok && r->Ok_0@ == s && *final(pos) == q,
            Err(e) => r == Err::<Vec<Num<C>>, AssocsError>(e),
        },
{
    let ghost start = *pos;
    let mut out: Vec<Num<C>> = Vec::new();
    let mut i: usize = 0;
    while i < n
        invariant
            i <= n,
            start == *old(pos),
            spec_elems::<C>(b@, start as int, i as nat, count as nat) == Ok::<(Seq<Num<C>>, int), AssocsError>(
                (out@, *pos as int),
            ),
        decreases n - i,
    {
        let p = *pos;
        if p >= b.len() {
            proof {
                lemma_elems_err::<C>(b@, start as int, (i + 1) as nat, n as nat, count as nat);
            }
            return Err(AssocsError::Incomplete);
        }
        let x = b[p];
        if (x as usize) >= count {
            proof {
                lemma_elems_err::<C>(b@, start as int, (i + 1) as nat, n as nat, count as nat);
            }
            return Err(AssocsError::Invalid);
        }
        out.push(to_num(x as usize));
        *pos = p + 1;
        i = i + 1;
    }
    Ok(out)
}

proof fn lemma_elems_err<C>(b: Seq<u8>, p: int, i: nat, n: nat, count: nat)
    requires
        i <= n,
        spec_elems::<C>(b, p, i, count) is Err,
    ensures
        spec_elems::<C>(b, p, n, count) == spec_elems::<C>(b, p, i, count),
    decreases n,
{
    if i < n {
        lemma_elems_err::<C>(b, p, i, (n - 1) as nat, count);
    }
}

proof fn lemma_assocs_err<C>(b: Seq<u8>, p: int, i: nat, n: nat, len: nat, count: nat)
    requires
        i <= n,
        spec_assocs::<C>(b, p, i, len, count) is Err,
    ensures
        spec_assocs::<C>(b, p, n, len, count) == spec_assocs::<C>(b, p, i, len, count),
    decreases n,
{
    if i < n {
        lemma_assocs_err::<C>(b, p, i, (n - 1) as nat, len, count);
    }
}

/// Reads associations of elements numbered below `count` from the start of `input`;
/// gives them with the number of bytes they took.
pub fn parse_assocs<C>(input: &[u8], count: usize) -> (r: Result<(usize, Assocs<C>), AssocsError>)
    ensures
        match spec_parse_assocs::<C>(input@, count as nat) {
            Ok(((len, v), q)) => r is Ok && r->Ok_0.0 == q && r->Ok_0.1.seq_len == len && assocs_view(
                r->Ok_0.1.vec@,
            ) == v,
            Err(e) => r == Err::<(usize, Assocs<C>), AssocsError>(e),
        },
{
    let mut pos: usize = 0;
    let num_assocs = parse_le_u64(input, &mut pos)?;
    let seq_len_bits = parse_le_u64(input, &mut pos)?;
    let n = #[verifier::truncate] (num_assocs as usize);
    let seq_len = #[verifier::truncate] (seq_len_bits as usize);
    let ghost start = pos;
    let mut vec: Vec<(Vec<Num<C>>, u64)> = Vec::new();
    let mut i: usize = 0;
    proof {
        assert(assocs_view(vec@) =~= Seq::<(Seq<Num<C>>, u64)>::empty());
        assert(n as nat == num_assocs as nat as u64 as usize as nat);
        assert(seq_len as nat == seq_len_bits as nat as u64 as usize as nat);
    }
    while i < n
        invariant
            i <= n,
            spec_le_u64(input@, 0) == Ok::<(nat, int), AssocsError>((num_assocs as nat, 8)),
            spec_le_u64(input@, 8) == Ok::<(nat, int), AssocsError>((seq_len_bits as nat, 16)),
            start == 16,
            n as nat == num_assocs as nat as u64 as usize as nat,
            seq_len as nat == seq_len_bits as nat as u64 as usize as nat,
            spec_assocs::<C>(input@, start as int, i as nat, seq_len as nat, count as nat) == Ok::<
                (Seq<(Seq<Num<C>>, u64)>, int),
                AssocsError,
            >((assocs_view(vec@), pos as int)),
        decreases n - i,
    {
        let ghost before = vec@;
        let seq = match parse_elems::<C>(input, &mut pos, seq_len, count) {
            Ok(s) => s,
            Err(e) => {
                proof {
                    lemma_assocs_err::<C>(input@, start as int, (i + 1) as nat, n as nat, seq_len as nat, count as nat);
                }
                return Err(e);
            },
        };
        let weight = match parse_le_u64(input, &mut pos) {
            Ok(w) => w,
            Err(e) => {
                proof {
                    lemma_assocs_err::<C>(input@, start as int, (i + 1) as nat, n as nat, seq_len as nat, count as nat);
                }
                return Err(e);
            },
        };
        let ghost seq_g = seq@;
        vec.push((seq, weight));
        proof {
            assert(assocs_view(vec@) =~= assocs_view(before).push((seq_g, weight)));
        }
        i = i + 1;
    }
    Ok((pos, Assocs { seq_len, vec }))
}

} // verus!
