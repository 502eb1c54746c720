//! The stateful stream interface over the ChaCha permutation: block
//! generation, counter arithmetic, incremental XOR-reads, and seeking.

use vstd::prelude::*;
use vstd::arithmetic::div_mod::lemma_fundamental_div_mod_converse;
use vstd::arithmetic::div_mod::lemma_small_mod;
use vstd::arithmetic::div_mod::lemma_mod_multiples_vanish;
use crate::words::word_of_bytes;
use crate::words::load_word;
use crate::permutation::block_bytes;
use crate::permutation::permute_and_add;

verus! {

/// The one failure the stream reports: the requested position lies at or
/// past the end of the finite keystream.
#[derive(Clone, Copy, PartialEq, Eq, Structural, Debug)]
pub enum Error {
    EndReached,
}

/// A seekable ChaCha20 keystream.
///
/// `input` is the 4×4 word matrix (constants, key, counter, nonce);
/// `output` buffers the most recently generated block; `offset` is the next
/// unused byte of `output` (0..=64, or the sentinel 255 before the first
/// block); `large_block_counter` selects the 64-bit-counter original mode
/// over the 32-bit-counter IETF mode.
pub struct ChaChaState {
    input: [u32; 16],
    output: [u8; 64],
    offset: u8,
    large_block_counter: bool,
}

/// Total number of keystream bytes the mode can produce: 2^38 with the
/// 32-bit counter, 2^70 with the 64-bit one.
pub open spec fn stream_limit(large: bool) -> nat {
    if large {
        0x40_0000_0000_0000_0000
    } else {
        0x40_0000_0000
    }
}

/// A read of `n` bytes from position `p` crosses no original-mode counter
/// boundary: no positive multiple of 2^38 lies strictly inside the span of
/// positions `p .. p + n` it covers.  In IETF mode every read qualifies.
pub open spec fn reads_cleanly(large: bool, p: nat, n: nat) -> bool {
    large ==> forall|k: nat|
        (1 <= k && p < #[trigger] (k * 0x40_0000_0000)) ==> p + n <= k * 0x40_0000_0000
}

/// The input matrix positioned at block `b`: the counter words of `base`
/// replaced by the little-endian words of `b`.
pub open spec fn block_matrix(base: Seq<u32>, large: bool, b: nat) -> Seq<u32> {
    if large {
        base.update(12, (b % 0x1_0000_0000) as u32).update(
            13,
            ((b / 0x1_0000_0000) % 0x1_0000_0000) as u32,
        )
    } else {
        base.update(12, (b % 0x1_0000_0000) as u32)
    }
}

/// Byte `p` of the keystream determined by `base` and the counter mode.
pub open spec fn keystream_byte(base: Seq<u32>, large: bool, p: nat) -> u8 {
    block_bytes(block_matrix(base, large, p / 64))[(p % 64) as int]
}

/// Bytes `p .. p + n` of the keystream.
pub open spec fn keystream_bytes(base: Seq<u32>, large: bool, p: nat, n: nat) -> Seq<u8> {
    Seq::new(n, |i: int| keystream_byte(base, large, (p + i) as nat))
}

/// Two byte sequences of equal length combined with XOR, pointwise.
pub open spec fn xor_bytes(a: Seq<u8>, b: Seq<u8>) -> Seq<u8>
    recommends
        a.len() == b.len(),
{
    Seq::new(a.len(), |i: int| a[i] ^ b[i])
}

/// The matrix an IETF-mode constructor builds: the ChaCha constants, the
/// key as eight little-endian words, a zero counter word, and the nonce as
/// three little-endian words.
pub open spec fn ietf_matrix(key: Seq<u8>, nonce: Seq<u8>) -> Seq<u32>
    recommends
        key.len() == 32,
        nonce.len() == 12,
{
    seq![
        0x61707865u32,
        0x3320646eu32,
        0x79622d32u32,
        0x6b206574u32,
        word_of_bytes(key[0], key[1], key[2], key[3]),
        word_of_bytes(key[4], key[5], key[6], key[7]),
        word_of_bytes(key[8], key[9], key[10], key[11]),
        word_of_bytes(key[12], key[13], key[14], key[15]),
        word_of_bytes(key[16], key[17], key[18], key[19]),
        word_of_bytes(key[20], key[21], key[22], key[23]),
        word_of_bytes(key[24], key[25], key[26], key[27]),
        word_of_bytes(key[28], key[29], key[30], key[31]),
        0u32,
        word_of_bytes(nonce[0], nonce[1], nonce[2], nonce[3]),
        word_of_bytes(nonce[4], nonce[5], nonce[6], nonce[7]),
        word_of_bytes(nonce[8], nonce[9], nonce[10], nonce[11]),
    ]
}

/// The matrix an original-mode constructor builds: both counter words are
/// zero and the nonce fills the last two words.
pub open spec fn small_nonce_matrix(key: Seq<u8>, nonce: Seq<u8>) -> Seq<u32>
    recommends
        key.len() == 32,
        nonce.len() == 8,
{
    seq![
        0x61707865u32,
        0x3320646eu32,
        0x79622d32u32,
        0x6b206574u32,
        word_of_bytes(key[0], key[1], key[2], key[3]),
        word_of_bytes(key[4], key[5], key[6], key[7]),
        word_of_bytes(key[8], key[9], key[10], key[11]),
        word_of_bytes(key[12], key[13], key[14], key[15]),
        word_of_bytes(key[16], key[17], key[18], key[19]),
        word_of_bytes(key[20], key[21], key[22], key[23]),
        word_of_bytes(key[24], key[25], key[26], key[27]),
        word_of_bytes(key[28], key[29], key[30], key[31]),
        0u32,
        0u32,
        word_of_bytes(nonce[0], nonce[1], nonce[2], nonce[3]),
        word_of_bytes(nonce[4], nonce[5], nonce[6], nonce[7]),
    ]
}

impl ChaChaState {
    /// True in original mode (64-bit counter), false in IETF mode.
    pub closed spec fn large_counter(self) -> bool {
        self.large_block_counter
    }

    /// The input matrix with the counter words cleared: constants, key,
    /// and nonce.  Immutable for the life of the state.
    pub closed spec fn base(self) -> Seq<u32> {
        if self.large_block_counter {
            self.input@.update(12, 0u32).update(13, 0u32)
        } else {
            self.input@.update(12, 0u32)
        }
    }

    /// The block counter as the integer it denotes.
    pub closed spec fn counter(self) -> nat {
        if self.large_block_counter {
            (self.input@[12] + self.input@[13] * 0x1_0000_0000) as nat
        } else {
            self.input@[12] as nat
        }
    }

    /// Number of counter values before the counter wraps to zero.
    pub closed spec fn counter_span(self) -> nat {
        if self.large_block_counter {
            0x1_0000_0000_0000_0000
        } else {
            0x1_0000_0000
        }
    }

    /// The block the output buffer belongs to.  The counter is
    /// pre-incremented after each generation, so this is one block back,
    /// wrapping at the counter width.
    pub closed spec fn buffered_block(self) -> nat {
        (((self.counter() + self.counter_span()) - 1) % (self.counter_span() as int)) as nat
    }

    /// The logical stream position: the index of the next keystream byte
    /// this state will produce.
    pub closed spec fn pos(self) -> nat {
        if self.offset == 255 {
            0
        } else {
            (64 * self.buffered_block() + self.offset) as nat
        }
    }

    /// Structural well-formedness: the offset is 0..=64 or the
    /// fresh-state sentinel 255, and the sentinel only occurs with a zero
    /// counter.
    pub closed spec fn wf(self) -> bool {
        &&& self.offset <= 64 || self.offset == 255
        &&& self.offset == 255 ==> self.input@[12] == 0 && (self.large_block_counter
            ==> self.input@[13] == 0)
    }

    /// A well-formed state whose output buffer, when partially consumed,
    /// holds exactly the keystream block at the current position.
    pub closed spec fn clean(self) -> bool {
        &&& self.wf()
        &&& self.offset < 64 ==> self.output@ == block_bytes(
            block_matrix(self.base(), self.large_block_counter, self.buffered_block()),
        )
    }

    /// In original mode the engine does not advance the counter across a
    /// low-word wrap that a pump lands on exactly, so a read that pumps a
    /// block whose index is a positive multiple of 2^32 repeats a block.
    /// This predicate says a read of `n` bytes pumps no such block.
    /// It always holds in IETF mode.
    pub closed spec fn pump_ok(self, n: nat) -> bool {
        self.large_block_counter ==> forall|b: nat|
            (self.counter() <= b && b < self.counter_span() && self.pos() <= 64 * b && 64 * b
                < self.pos() + n && b != 0) ==> #[trigger] (b % 0x1_0000_0000) != 0
    }

    /// A clean state is in particular well-formed.
    pub proof fn lemma_clean_implies_wf(self)
        ensures
            self.clean() ==> self.wf(),
    {
    }

    /// In IETF mode every read pumps safely: the only counter wrap is the
    /// end of the stream itself.
    pub proof fn lemma_pump_ok_small_counter(self, n: nat)
        requires
            !self.large_counter(),
        ensures
            self.pump_ok(n),
    {
    }

    /// The counter always fits its span.
    proof fn lemma_counter_in_span(self)
        ensures
            self.counter() < self.counter_span(),
    {
    }

    /// The block the buffer belongs to, resolved: one before the counter,
    /// wrapping to the last block when the counter sits at zero.
    proof fn lemma_buffered_block(self)
        ensures
            self.counter() == 0 ==> self.buffered_block() == self.counter_span() - 1,
            self.counter() >= 1 ==> self.buffered_block() == self.counter() - 1,
    {
        let c = self.counter();
        let span = self.counter_span();
        if c == 0 {
            lemma_small_mod((span - 1) as nat, span);
        } else {
            self.lemma_counter_in_span();
            lemma_mod_multiples_vanish(1, c - 1, span as int);
            lemma_small_mod((c - 1) as nat, span);
        }
    }

    /// The live input matrix is the base matrix positioned at the current
    /// counter value.
    proof fn lemma_counter_matrix(self)
        ensures
            self.input@ == block_matrix(self.base(), self.large_block_counter, self.counter()),
    {
        let lo = self.input@[12];
        let hi = self.input@[13];
        let c = self.counter();
        if self.large_block_counter {
            lemma_fundamental_div_mod_converse(c as int, 0x1_0000_0000, hi as int, lo as int);
            lemma_small_mod((c / 0x1_0000_0000) as nat, 0x1_0000_0000);
            assert(self.input@ =~= block_matrix(
                self.base(),
                self.large_block_counter,
                self.counter(),
            ));
        } else {
            lemma_small_mod(c, 0x1_0000_0000);
            assert(self.input@ =~= block_matrix(
                self.base(),
                self.large_block_counter,
                self.counter(),
            ));
        }
    }

    /// Advances the block counter just after a block was generated: the
    /// pre-increment step of the pump.
    fn increment_counter(&mut self) -> (r: Result<(), Error>)
        requires
            old(self).wf(),
        ensures
            final(self).output == old(self).output,
            final(self).large_block_counter == old(self).large_block_counter,
            final(self).base() == old(self).base(),
            old(self).input@[12] != 0 ==> {
                &&& r is Ok
                &&& final(self).offset == old(self).offset
                &&& final(self).counter() == (old(self).counter() + 1) % old(
                    self,
                ).counter_span()
            },
            old(self).input@[12] == 0 && old(self).offset == 255 ==> {
                &&& r is Ok
                &&& final(self).offset == 64
                &&& final(self).counter() == 1
            },
            old(self).input@[12] == 0 && old(self).offset != 255 ==> {
                &&& final(self).offset == old(self).offset
                &&& final(self).counter() == old(self).counter()
                &&& (r is Ok <==> (old(self).large_block_counter
                    && old(self).input@[13] != 0))
                &&& (r is Err ==> r == Err::<(), Error>(Error::EndReached))
            },
    {
        if self.input[12] != 0 {
            let low = self.input[12];
            let incremented_low = low.wrapping_add(1);
            self.input[12] = incremented_low;
            if incremented_low == 0 && self.large_block_counter {
                let high = self.input[13];
                self.input[13] = high.wrapping_add(1);
                proof {
                    assert(low == 0xffff_ffffu32);
                    assert(self.base() =~= old(self).base());
                    if high == 0xffff_ffffu32 {
                        assert(self.counter() == 0);
                        assert((old(self).counter() + 1) % old(self).counter_span() == 0) by {
                            assert(old(self).counter() + 1 == old(self).counter_span());
                            lemma_mod_multiples_vanish(
                                1,
                                0,
                                old(self).counter_span() as int,
                            );
                        }
                    } else {
                        self.lemma_counter_in_span();
                        assert(self.counter() == old(self).counter() + 1);
                        lemma_small_mod(
                            (old(self).counter() + 1) as nat,
                            old(self).counter_span(),
                        );
                    }
                }
            } else {
                proof {
                    assert(self.base() =~= old(self).base());
                    if incremented_low == 0 {
                        // IETF mode: the 32-bit counter wrapped to zero.
                        assert(low == 0xffff_ffffu32);
                        lemma_mod_multiples_vanish(1, 0, old(self).counter_span() as int);
                    } else {
                        self.lemma_counter_in_span();
                        lemma_small_mod(
                            (old(self).counter() + 1) as nat,
                            old(self).counter_span(),
                        );
                    }
                }
            }
            Ok(())
        } else {
            if self.offset == 255 {
                self.input[12] = 1;
                self.offset = 64;
                proof {
                    assert(self.base() =~= old(self).base());
                }
                Ok(())
            } else if self.input[13] == 0 || !self.large_block_counter {
                Err(Error::EndReached)
            } else {
                Ok(())
            }
        }
    }

    /// XORs the next `dest.len()` bytes of the keystream into `dest`,
    /// advancing the stream position by that many bytes.  The partially
    /// consumed buffered block is drained first; further blocks are pumped
    /// as needed.  Fails with `EndReached` when the stream runs out before
    /// `dest` is covered; the bytes up to the end of the stream are still
    /// XORed in and the rest of `dest` is untouched.
    #[verifier::loop_isolation(false)]
    #[verifier::rlimit(100)]
    pub fn xor_read(&mut self, dest: &mut [u8]) -> (r: Result<(), Error>)
        requires
            old(self).wf(),
        ensures
            final(self).wf(),
            final(self).large_counter() == old(self).large_counter(),
            final(self).base() == old(self).base(),
            final(dest)@.len() == old(dest)@.len(),
            old(self).clean() && old(self).pump_ok(old(dest)@.len() as nat) ==> {
                let lg = old(self).large_counter();
                let limit = stream_limit(lg);
                let p = old(self).pos();
                let n = old(dest)@.len() as nat;
                &&& (r is Ok <==> p + n <= limit)
                &&& (r is Err ==> r == Err::<(), Error>(Error::EndReached))
                &&& final(self).clean()
                &&& final(self).pos() == (if p + n <= limit {
                    (p + n) as int
                } else {
                    limit as int
                })
                &&& forall|i: int|
                    0 <= i < n ==> final(dest)@[i] == (if p + i < limit {
                        old(dest)@[i] ^ keystream_byte(old(self).base(), lg, (p + i) as nat)
                    } else {
                        old(dest)@[i]
                    })
                &&& p + n <= limit ==> final(dest)@ == xor_bytes(
                    old(dest)@,
                    keystream_bytes(old(self).base(), lg, p, n),
                )
            },
    {
        let ghost g = self.clean() && self.pump_ok(dest@.len() as nat);
        let ghost bse = self.base();
        let ghost lg = self.large_block_counter;
        let ghost p0 = self.pos();
        let ghost d0 = dest@;
        let ghost limit = stream_limit(lg);
        let len = dest.len();
        let mut i: usize = 0;

        // Drain what is left of the buffered block.
        if self.offset < 64 {
            while self.offset < 64 && i < len
                invariant
                    i <= len,
                    dest@.len() == len,
                    self.input@ == old(self).input@,
                    self.output@ == old(self).output@,
                    self.large_block_counter == lg,
                    old(self).offset < 64,
                    self.offset <= 64,
                    self.offset as int == old(self).offset + i,
                    forall|j: int| i <= j < len ==> dest@[j] == d0[j],
                    g ==> forall|j: int|
                        0 <= j < i ==> dest@[j] == d0[j] ^ keystream_byte(
                            bse,
                            lg,
                            (p0 + j) as nat,
                        ),
                decreases 64 - self.offset,
            {
                proof {
                    if g {
                        self.lemma_buffered_block();
                        assert(old(self).buffered_block() == self.buffered_block());
                        assert(p0 == 64 * self.buffered_block() + old(self).offset);
                        lemma_fundamental_div_mod_converse(
                            (p0 + i) as int,
                            64,
                            self.buffered_block() as int,
                            self.offset as int,
                        );
                    }
                }
                let off = self.offset as usize;
                let b = dest[i];
                dest[i] = b ^ self.output[off];
                self.offset = self.offset + 1;
                i = i + 1;
            }
        }
        proof {
            if g {
                self.lemma_buffered_block();
            }
        }

        // Pump whole or partial blocks for the rest of `dest`.
        while i < len
            invariant
                i <= len,
                dest@.len() == len,
                self.wf(),
                self.large_block_counter == lg,
                self.base() == bse,
                i < len ==> (self.offset == 64 || self.offset == 255),
                forall|j: int| i <= j < len ==> dest@[j] == d0[j],
                g ==> {
                    &&& self.clean()
                    &&& self.pos() == p0 + i
                    &&& p0 + i <= limit
                    &&& self.pump_ok((len - i) as nat)
                    &&& forall|j: int|
                        0 <= j < i ==> dest@[j] == d0[j] ^ keystream_byte(
                            bse,
                            lg,
                            (p0 + j) as nat,
                        )
                },
            decreases len - i,
        {
            let ghost s_top = *self;
            let ghost c = self.counter();
            proof {
                if g {
                    self.lemma_counter_matrix();
                    self.lemma_counter_in_span();
                    self.lemma_buffered_block();
                    if self.offset == 255 {
                        assert(c == 0 && p0 + i == 64 * c);
                    } else {
                        if c == 0 {
                            assert(p0 + i == limit);
                        } else {
                            assert(p0 + i == 64 * c);
                        }
                    }
                }
            }
            let input_copy: [u32; 16] = self.input;
            let mut block_buf: [u8; 64] = self.output;
            generate_block(&input_copy, &mut block_buf);
            self.output = block_buf;
            let res = self.increment_counter();
            if let Err(e) = res {
                proof {
                    assert(self.large_block_counter == lg);
                    assert(self.base() == bse);
                    if g {
                        // Only an exhausted counter fails: the position is
                        // exactly the end of the stream.
                        assert(s_top.input@[12] == 0 && s_top.offset != 255);
                        assert(c == 0);
                        assert(self.offset == 64);
                        assert(p0 + i == limit);
                        self.lemma_buffered_block();
                        assert(self.pos() == limit);
                    }
                }
                return Err(e);
            }
            let remaining = len - i;
            let chunk = if remaining < 64 {
                remaining
            } else {
                64
            };
            proof {
                if g {
                    assert(res is Ok);
                    if s_top.input@[12] == 0 && s_top.offset != 255 {
                        // The pump would have repeated a block; pump_ok rules
                        // this state out.
                        assert(s_top.large_block_counter);
                        assert(c == s_top.input@[13] * 0x1_0000_0000);
                        lemma_mod_multiples_vanish(
                            s_top.input@[13] as int,
                            0,
                            0x1_0000_0000,
                        );
                        lemma_small_mod(0, 0x1_0000_0000);
                        assert(c % 0x1_0000_0000 == 0 && c != 0);
                        assert(p0 + i == 64 * c);
                        assert(false);
                    }
                    assert(self.offset == 64);
                    assert(p0 + i == 64 * c);
                    if c + 1 == s_top.counter_span() {
                        // the counter wrapped to zero past the last block
                        lemma_mod_multiples_vanish(1, 0, s_top.counter_span() as int);
                        lemma_small_mod(0, s_top.counter_span());
                        assert(self.counter() == 0);
                    } else {
                        lemma_small_mod((c + 1) as nat, s_top.counter_span());
                        assert(self.counter() == c + 1);
                    }
                    self.lemma_buffered_block();
                    assert(self.buffered_block() == c);
                }
            }
            let ghost s_mid = *self;
            let ghost d_top = dest@;
            let ghost i_top = i as int;
            let mut j: usize = 0;
            while j < chunk
                invariant
                    j <= chunk,
                    chunk <= 64,
                    i + chunk <= len,
                    i == i_top,
                    dest@.len() == len,
                    *self == s_mid,
                    forall|k: int|
                        0 <= k < len && !(i_top <= k < i_top + j) ==> dest@[k] == d_top[k],
                    forall|k: int|
                        i_top <= k < i_top + j ==> dest@[k] == d_top[k] ^ s_mid.output@[k - i_top],
                decreases chunk - j,
            {
                let b = dest[i + j];
                dest[i + j] = b ^ self.output[j];
                j = j + 1;
            }
            if chunk < 64 {
                self.offset = chunk as u8;
            }
            i = i + chunk;
            proof {
                if g {
                    assert(self.buffered_block() == c && self.counter() == s_mid.counter());
                    assert forall|jj: int|
                        0 <= jj < i implies dest@[jj] == d0[jj] ^ keystream_byte(
                        bse,
                        lg,
                        (p0 + jj) as nat,
                    ) by {
                        if i_top <= jj {
                            let k = jj - i_top;
                            assert(dest@[jj] == d_top[jj] ^ s_mid.output@[k]);
                            assert(d_top[jj] == d0[jj]);
                            assert(s_mid.output@ == block_bytes(block_matrix(bse, lg, c)));
                            lemma_fundamental_div_mod_converse((p0 + jj) as int, 64, c as int, k);
                            assert(keystream_byte(bse, lg, (p0 + jj) as nat)
                                == s_mid.output@[k]);
                        } else {
                            assert(dest@[jj] == d_top[jj]);
                        }
                    }
                    self.lemma_buffered_block();
                    assert(self.pos() == p0 + i);
                    assert(p0 + i <= limit);
                    assert forall|b: nat|
                        (self.counter() <= b && b < self.counter_span() && self.pos() <= 64 * b
                            && 64 * b < self.pos() + (len - i) && b != 0) implies #[trigger] (b
                        % 0x1_0000_0000) != 0 by {
                        if self.large_block_counter && b % 0x1_0000_0000 == 0 {
                            if c + 1 == self.counter_span() {
                                // the counter wrapped: the stream is spent and
                                // no further block fits below the limit
                                assert(self.pos() == limit);
                                assert(64 * b < 64 * self.counter_span());
                                assert(false);
                            } else {
                                assert(s_top.counter() <= b && s_top.pos() <= 64 * b && 64 * b
                                    < s_top.pos() + (len - i_top));
                                assert(false);
                            }
                        }
                    }
                }
            }
        }
        proof {
            if g {
                self.lemma_buffered_block();
                if p0 + len <= limit {
                    assert(dest@ =~= xor_bytes(d0, keystream_bytes(bse, lg, p0, len as nat)));
                }
            }
        }
        Ok(())
    }

    /// Repositions the stream to the absolute byte offset.  In IETF mode a
    /// position at or past 2^38 cannot be represented: the state parks at
    /// the end of the stream and the call fails.  Otherwise the block
    /// covering the offset is generated, the counter is advanced past it,
    /// and reads resume at the exact intra-block position.
    pub fn seek_to(&mut self, byte_offset: u64) -> (r: Result<(), Error>)
        ensures
            final(self).wf(),
            final(self).large_counter() == old(self).large_counter(),
            final(self).base() == old(self).base(),
            final(self).clean(),
            !old(self).large_counter() && byte_offset >= 0x40_0000_0000 ==> {
                &&& r == Err::<(), Error>(Error::EndReached)
                &&& final(self).pos() == stream_limit(false)
            },
            old(self).large_counter() || byte_offset < 0x40_0000_0000 ==> {
                &&& r == Ok::<(), Error>(())
                &&& final(self).pos() == byte_offset
                &&& forall|n: nat|
                    reads_cleanly(old(self).large_counter(), byte_offset as nat, n)
                        ==> final(self).pump_ok(n)
            },
    {
        let ghost block: nat = (byte_offset >> 6) as nat;
        if self.large_block_counter {
            self.input[12] = (byte_offset >> 6) as u32;
            self.input[13] = (byte_offset >> 38) as u32;
            proof {
                assert(self.base() =~= old(self).base());
                assert((byte_offset >> 6) < 0x400_0000_0000_0000u64 && ((byte_offset >> 6) as u32)
                    == (byte_offset >> 6) % 0x1_0000_0000 && ((byte_offset >> 38) as u32)
                    == (byte_offset >> 6) / 0x1_0000_0000 && (byte_offset >> 6)
                    == byte_offset / 64) by (bit_vector);
            }
        } else {
            if byte_offset >= 64 * 0x1_0000_0000 {
                // Park in the exhausted state: the next pump reports the end.
                self.input[12] = 0;
                self.offset = 64;
                proof {
                    assert(self.base() =~= old(self).base());
                    self.lemma_buffered_block();
                }
                return Err(Error::EndReached);
            }
            self.input[12] = (byte_offset >> 6) as u32;
            proof {
                assert(self.base() =~= old(self).base());
                assert(byte_offset < 0x4_0000_0000_0u64 ==> ((byte_offset >> 6) < 0x1_0000_0000
                    && ((byte_offset >> 6) as u32) == byte_offset >> 6 && (byte_offset >> 6)
                    == byte_offset / 64)) by (bit_vector);
            }
        }
        self.offset = (byte_offset & 0x3f) as u8;
        proof {
            assert((byte_offset & 0x3f) == byte_offset % 64 && (byte_offset & 0x3f) < 64)
                by (bit_vector);
            assert(self.counter() == block);
            self.lemma_counter_matrix();
        }
        let input_copy: [u32; 16] = self.input;
        generate_block(&input_copy, &mut self.output);
        let low = self.input[12];
        let incremented_low = low.wrapping_add(1);
        self.input[12] = incremented_low;
        if incremented_low == 0 && self.large_block_counter {
            let high = self.input[13];
            self.input[13] = high.wrapping_add(1);
        }
        proof {
            assert(self.base() =~= old(self).base());
            // The buffer belongs to the block just generated: the counter
            // sits one past it, wrapping only at the very last block.
            if self.large_block_counter {
                assert(block < 0x400_0000_0000_0000);
                vstd::arithmetic::div_mod::lemma_fundamental_div_mod(block as int, 0x1_0000_0000);
                if incremented_low == 0 {
                    // The low word wrapped; the bounded high word took the carry.
                    assert(low == 0xffff_ffffu32);
                    assert((block / 0x1_0000_0000) * 0x1_0000_0000 <= block);
                    assert(block / 0x1_0000_0000 < 0x400_0000);
                    assert(self.counter() == block + 1);
                } else {
                    assert(self.counter() == block + 1);
                }
            } else {
                if incremented_low == 0 {
                    assert(low == 0xffff_ffffu32);
                    assert(self.counter() == 0);
                } else {
                    assert(self.counter() == block + 1);
                }
            }
            self.lemma_buffered_block();
            assert(self.buffered_block() == block);
            assert(self.pos() == 64 * block + byte_offset % 64);
            vstd::arithmetic::div_mod::lemma_fundamental_div_mod(byte_offset as int, 64);
            assert(self.pos() == byte_offset);
            assert forall|n: nat|
                reads_cleanly(old(self).large_counter(), byte_offset as nat, n) implies self
                .pump_ok(n) by {
                if self.large_block_counter {
                    let p = byte_offset as nat;
                    assert forall|b: nat|
                        (self.counter() <= b && b < self.counter_span() && self.pos() <= 64 * b
                            && 64 * b < self.pos() + n && b != 0) implies #[trigger] (b
                        % 0x1_0000_0000) != 0 by {
                        if b % 0x1_0000_0000 == 0 {
                            let k = b / 0x1_0000_0000;
                            vstd::arithmetic::div_mod::lemma_fundamental_div_mod(
                                b as int,
                                0x1_0000_0000,
                            );
                            assert(b == k * 0x1_0000_0000);
                            assert(64 * b == k * 0x40_0000_0000) by (nonlinear_arith)
                                requires
                                    b == k * 0x1_0000_0000,
                            ;
                            assert(k >= 1);
                            assert(64 * b >= 64 * (block + 1));
                            assert(p < 64 * (block + 1));
                            assert(p < k * 0x40_0000_0000);
                            assert(p + n <= k * 0x40_0000_0000);
                            assert(false);
                        }
                    }
                }
            }
        }
        Ok(())
    }

    /// Creates an IETF-mode stream from a 32-byte key and a 12-byte
    /// nonce.  The 32-bit block counter starts at zero; the stream holds
    /// 2^38 bytes.
    pub fn new(key: &[u8; 32], nonce: &[u8; 12]) -> (s: ChaChaState)
        ensures
            s.wf(),
            s.clean(),
            !s.large_counter(),
            s.pos() == 0,
            s.base() == ietf_matrix(key@, nonce@),
    {
        let s = ChaChaState {
            input: [
                0x61707865,
                0x3320646e,
                0x79622d32,
                0x6b206574,
                load_word(key[0], key[1], key[2], key[3]),
                load_word(key[4], key[5], key[6], key[7]),
                load_word(key[8], key[9], key[10], key[11]),
                load_word(key[12], key[13], key[14], key[15]),
                load_word(key[16], key[17], key[18], key[19]),
                load_word(key[20], key[21], key[22], key[23]),
                load_word(key[24], key[25], key[26], key[27]),
                load_word(key[28], key[29], key[30], key[31]),
                0,
                load_word(nonce[0], nonce[1], nonce[2], nonce[3]),
                load_word(nonce[4], nonce[5], nonce[6], nonce[7]),
                load_word(nonce[8], nonce[9], nonce[10], nonce[11]),
            ],
            output: [0; 64],
            offset: 255,
            large_block_counter: false,
        };
        proof {
            assert(s.base() =~= ietf_matrix(key@, nonce@));
        }
        s
    }

    /// Creates an original-mode stream from a 32-byte key and an 8-byte
    /// nonce.  The 64-bit block counter starts at zero; the stream holds
    /// 2^70 bytes.
    pub fn new_with_small_nonce(key: &[u8; 32], nonce: &[u8; 8]) -> (s: ChaChaState)
        ensures
            s.wf(),
            s.clean(),
            s.large_counter(),
            s.pos() == 0,
            s.base() == small_nonce_matrix(key@, nonce@),
            forall|n: nat| reads_cleanly(true, 0, n) ==> s.pump_ok(n),
    {
        let s = ChaChaState {
            input: [
                0x61707865,
                0x3320646e,
                0x79622d32,
                0x6b206574,
                load_word(key[0], key[1], key[2], key[3]),
                load_word(key[4], key[5], key[6], key[7]),
                load_word(key[8], key[9], key[10], key[11]),
                load_word(key[12], key[13], key[14], key[15]),
                load_word(key[16], key[17], key[18], key[19]),
                load_word(key[20], key[21], key[22], key[23]),
                load_word(key[24], key[25], key[26], key[27]),
                load_word(key[28], key[29], key[30], key[31]),
                0,
                0,
                load_word(nonce[0], nonce[1], nonce[2], nonce[3]),
                load_word(nonce[4], nonce[5], nonce[6], nonce[7]),
            ],
            output: [0; 64],
            offset: 255,
            large_block_counter: true,
        };
        proof {
            assert(s.base() =~= small_nonce_matrix(key@, nonce@));
            assert forall|n: nat| reads_cleanly(true, 0, n) implies s.pump_ok(n) by {
                assert forall|b: nat|
                    (s.counter() <= b && b < s.counter_span() && s.pos() <= 64 * b && 64 * b
                        < s.pos() + n && b != 0) implies #[trigger] (b % 0x1_0000_0000) != 0 by {
                    if b % 0x1_0000_0000 == 0 {
                        let k = b / 0x1_0000_0000;
                        vstd::arithmetic::div_mod::lemma_fundamental_div_mod(
                            b as int,
                            0x1_0000_0000,
                        );
                        assert(b == k * 0x1_0000_0000);
                        assert(64 * b == k * 0x40_0000_0000) by (nonlinear_arith)
                            requires
                                b == k * 0x1_0000_0000,
                        ;
                        assert(k >= 1);
                        assert(0 < k * 0x40_0000_0000);
                        assert(n <= k * 0x40_0000_0000);
                        assert(false);
                    }
                }
            }
        }
        s
    }
}

/// Fills `out` with the keystream block for matrix `m`: twenty rounds,
/// permute-and-add, serialized little-endian.
fn generate_block(m: &[u32; 16], out: &mut [u8; 64])
    ensures
        final(out)@ == block_bytes(m@),
{
    let mut work: [u32; 16] = *m;
    permute_and_add(20, &mut work);
    let mut i: usize = 0;
    while i < 16
        invariant
            i <= 16,
            work@ == crate::permutation::added_matrix(m@, 10),
            out@.len() == 64,
            forall|j: int| 0 <= j < 4 * i ==> out@[j] == block_bytes(m@)[j],
        decreases 16 - i,
    {
        let w = work[i];
        out[4 * i] = (w & 0xff) as u8;
        out[4 * i + 1] = ((w >> 8) & 0xff) as u8;
        out[4 * i + 2] = ((w >> 16) & 0xff) as u8;
        out[4 * i + 3] = ((w >> 24) & 0xff) as u8;
        proof {
            assert(w & 0xff == (w >> 0) & 0xff) by (bit_vector);
            assert forall|j: int| 0 <= j < 4 * (i + 1) implies out@[j] == block_bytes(m@)[j] by {
                if 4 * i <= j {
                    let k = j - 4 * i;
                    lemma_fundamental_div_mod_converse(j, 4, i as int, k);
                }
            }
        }
        i = i + 1;
    }
    proof {
        assert(out@ =~= block_bytes(m@));
    }
}

} // verus!
