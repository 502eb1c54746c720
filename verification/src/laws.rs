//! Laws of the keystream: how reads compose, and how XOR undoes itself.

use vstd::prelude::*;
use crate::stream::keystream_bytes;
use crate::stream::xor_bytes;

verus! {

/// Chunking independence.  The keystream bytes covering two consecutive
/// reads concatenate to those of one combined read: splitting a read of
/// `n1 + n2` bytes at `n1` produces the same byte sequence.  `xor_read`
/// XORs `keystream_bytes(base, large, p, n)` into its buffer and moves
/// the position from `p` to `p + n`, so applying this repeatedly equates
/// every partition of a byte count with the single whole read.
pub proof fn lemma_chunking_independence(base: Seq<u32>, large: bool, p: nat, n1: nat, n2: nat)
    ensures
        keystream_bytes(base, large, p, (n1 + n2) as nat) == keystream_bytes(base, large, p, n1)
            + keystream_bytes(base, large, (p + n1) as nat, n2),
{
    assert(keystream_bytes(base, large, p, (n1 + n2) as nat) =~= keystream_bytes(
        base,
        large,
        p,
        n1,
    ) + keystream_bytes(base, large, (p + n1) as nat, n2));
}

/// XOR cancels itself on a single byte.
proof fn lemma_xor_cancel(x: u8, y: u8)
    by (bit_vector)
    ensures
        (x ^ y) ^ y == x,
{
}

/// XOR involution.  XORing the same keystream segment into a buffer twice
/// restores the buffer: two `xor_read`s over the same positions — reached
/// by seeking back to the same point — undo each other, so the cipher
/// decrypts exactly as it encrypts.
pub proof fn lemma_xor_involution(buf: Seq<u8>, base: Seq<u32>, large: bool, p: nat)
    ensures
        xor_bytes(
            xor_bytes(buf, keystream_bytes(base, large, p, buf.len())),
            keystream_bytes(base, large, p, buf.len()),
        ) == buf,
{
    let ks = keystream_bytes(base, large, p, buf.len());
    assert forall|i: int| 0 <= i < buf.len() implies (buf[i] ^ ks[i]) ^ ks[i] == buf[i] by {
        lemma_xor_cancel(buf[i], ks[i]);
    }
    assert(xor_bytes(xor_bytes(buf, ks), ks) =~= buf);
}

/// XORing the keystream into an all-zero buffer yields the keystream
/// itself: a read into zeroed memory returns bytes `p .. p + n` of the
/// stream, which is how a seek followed by a read reproduces the stream
/// at any position.
pub proof fn lemma_xor_zero(base: Seq<u32>, large: bool, p: nat, n: nat)
    ensures
        xor_bytes(Seq::new(n, |i: int| 0u8), keystream_bytes(base, large, p, n))
            == keystream_bytes(base, large, p, n),
{
    let ks = keystream_bytes(base, large, p, n);
    assert forall|i: int| 0 <= i < n implies 0u8 ^ ks[i] == ks[i] by {
        let y = ks[i];
        assert(0u8 ^ y == y) by (bit_vector);
    }
    assert(xor_bytes(Seq::new(n, |i: int| 0u8), ks) =~= ks);
}

} // verus!
