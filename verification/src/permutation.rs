//! The ChaCha permutation: quarter-rounds, double-rounds, and the
//! permute-and-add that yields a keystream block.

use vstd::prelude::*;
use crate::words::byte_of_word;

verus! {

/// 32-bit wrapping sum.
pub open spec fn wadd(x: u32, y: u32) -> u32 {
    vstd::wrapping::u32_specs::wrapping_add(x, y)
}

/// Left rotation of a 32-bit word by `n` bits.
pub open spec fn rotl(x: u32, n: u32) -> u32
    recommends
        0 < n < 32,
{
    (x << n) | (x >> (32 - n) as u32)
}

/// One ChaCha quarter-round on four words.
pub open spec fn quarter(a: u32, b: u32, c: u32, d: u32) -> (u32, u32, u32, u32) {
    let a1 = wadd(a, b);
    let d1 = rotl(a1 ^ d, 16);
    let c1 = wadd(c, d1);
    let b1 = rotl(b ^ c1, 12);
    let a2 = wadd(a1, b1);
    let d2 = rotl(a2 ^ d1, 8);
    let c2 = wadd(c1, d2);
    let b2 = rotl(b1 ^ c2, 7);
    (a2, b2, c2, d2)
}

/// The quarter-round applied in place at four matrix positions.
pub open spec fn quarter_at(m: Seq<u32>, ai: int, bi: int, ci: int, di: int) -> Seq<u32>
    recommends
        m.len() == 16,
        0 <= ai < 16,
        0 <= bi < 16,
        0 <= ci < 16,
        0 <= di < 16,
{
    let q = quarter(m[ai], m[bi], m[ci], m[di]);
    m.update(ai, q.0).update(bi, q.1).update(ci, q.2).update(di, q.3)
}

/// The column pass: quarter-rounds down the four columns.
pub open spec fn column_round(m: Seq<u32>) -> Seq<u32> {
    quarter_at(quarter_at(quarter_at(quarter_at(m, 0, 4, 8, 12), 1, 5, 9, 13), 2, 6, 10, 14), 3, 7, 11, 15)
}

/// The diagonal pass: quarter-rounds down the four diagonals.
pub open spec fn diagonal_round(m: Seq<u32>) -> Seq<u32> {
    quarter_at(quarter_at(quarter_at(quarter_at(m, 0, 5, 10, 15), 1, 6, 11, 12), 2, 7, 8, 13), 3, 4, 9, 14)
}

/// One double-round: the column pass followed by the diagonal pass.
pub open spec fn double_round(m: Seq<u32>) -> Seq<u32> {
    diagonal_round(column_round(m))
}

/// `n` double-rounds applied to `m`.
pub open spec fn double_rounds(m: Seq<u32>, n: nat) -> Seq<u32>
    decreases n,
{
    if n == 0 {
        m
    } else {
        double_round(double_rounds(m, (n - 1) as nat))
    }
}

/// The permuted-and-added matrix: `n` double-rounds, then the original
/// matrix added word-wise with 32-bit wrapping.
pub open spec fn added_matrix(m: Seq<u32>, n: nat) -> Seq<u32> {
    Seq::new(16, |i: int| wadd(double_rounds(m, n)[i], m[i]))
}

/// The 64 keystream bytes a matrix produces: twenty rounds, the original
/// matrix added back, each word written as four little-endian bytes.
pub open spec fn block_bytes(m: Seq<u32>) -> Seq<u8> {
    Seq::new(64, |i: int| byte_of_word(added_matrix(m, 10)[i / 4], i % 4))
}

/// Rotates a 32-bit word left by `n` bits.
fn roll_left(x: u32, n: u32) -> (r: u32)
    requires
        0 < n < 32,
    ensures
        r == rotl(x, n),
{
    (x << n) | (x >> (32 - n))
}

/// One quarter-round, in place, at positions `ai, bi, ci, di`.
fn quarter_round(m: &mut [u32; 16], ai: usize, bi: usize, ci: usize, di: usize)
    requires
        ai < 16,
        bi < 16,
        ci < 16,
        di < 16,
        ai != bi,
        ai != ci,
        ai != di,
        bi != ci,
        bi != di,
        ci != di,
    ensures
        final(m)@ == quarter_at(old(m)@, ai as int, bi as int, ci as int, di as int),
{
    let a = m[ai];
    let b = m[bi];
    let c = m[ci];
    let d = m[di];
    let a = a.wrapping_add(b);
    let d = roll_left(a ^ d, 16);
    let c = c.wrapping_add(d);
    let b = roll_left(b ^ c, 12);
    let a = a.wrapping_add(b);
    let d = roll_left(a ^ d, 8);
    let c = c.wrapping_add(d);
    let b = roll_left(b ^ c, 7);
    m[ai] = a;
    m[bi] = b;
    m[ci] = c;
    m[di] = d;
    proof {
        assert(m@ =~= quarter_at(old(m)@, ai as int, bi as int, ci as int, di as int));
    }
}

/// One double-round, in place: columns, then diagonals.
fn double_round_in_place(m: &mut [u32; 16])
    ensures
        final(m)@ == double_round(old(m)@),
{
    quarter_round(m, 0, 4, 8, 12);
    quarter_round(m, 1, 5, 9, 13);
    quarter_round(m, 2, 6, 10, 14);
    quarter_round(m, 3, 7, 11, 15);
    quarter_round(m, 0, 5, 10, 15);
    quarter_round(m, 1, 6, 11, 12);
    quarter_round(m, 2, 7, 8, 13);
    quarter_round(m, 3, 4, 9, 14);
}

/// Applies `rounds / 2` double-rounds to `xs` in place, without the final
/// addition.
pub fn permute_only(rounds: u8, xs: &mut [u32; 16])
    requires
        rounds % 2 == 0,
    ensures
        final(xs)@ == double_rounds(old(xs)@, (rounds / 2) as nat),
{
    let n = rounds / 2;
    let ghost m0 = xs@;
    let mut i: u8 = 0;
    while i < n
        invariant
            i <= n,
            xs@ == double_rounds(m0, i as nat),
        decreases n - i,
    {
        double_round_in_place(xs);
        i = i + 1;
    }
}

/// Applies `rounds / 2` double-rounds to `xs` in place, then adds the
/// original matrix back word-wise with 32-bit wrapping.
pub fn permute_and_add(rounds: u8, xs: &mut [u32; 16])
    requires
        rounds % 2 == 0,
    ensures
        final(xs)@ == added_matrix(old(xs)@, (rounds / 2) as nat),
{
    let ghost m0 = xs@;
    let orig: [u32; 16] = *xs;
    permute_only(rounds, xs);
    let ghost n = (rounds / 2) as nat;
    let mut i: usize = 0;
    while i < 16
        invariant
            i <= 16,
            orig@ == m0,
            xs@.len() == 16,
            forall|j: int| 0 <= j < i ==> xs@[j] == added_matrix(m0, n)[j],
            forall|j: int| i <= j < 16 ==> xs@[j] == double_rounds(m0, n)[j],
        decreases 16 - i,
    {
        let w = xs[i];
        xs[i] = w.wrapping_add(orig[i]);
        i = i + 1;
    }
    proof {
        assert(xs@ =~= added_matrix(m0, n));
    }
}

} // verus!
