//! Bit-level reads over a byte slice, in the DEFLATE convention: within
//! each byte the least significant bit is consumed first, and multi-bit
//! fields are assembled least-significant-bit-first.

use vstd::prelude::*;
use vstd::arithmetic::power2::pow2;
use vstd::arithmetic::div_mod::lemma_fundamental_div_mod_converse;
use crate::error::ErrorKind;

verus! {

/// Bit `pos` of `data`: bit `pos % 8` (LSB first) of byte `pos / 8`.
pub open spec fn bit_at(data: Seq<u8>, pos: int) -> bool
    recommends
        0 <= pos < 8 * data.len(),
{
    (data[pos / 8] >> ((pos % 8) as u8)) & 1 == 1
}

/// The value of the `n` bits starting at bit `pos`, assembled LSB-first.
pub open spec fn bits_value(data: Seq<u8>, pos: int, n: nat) -> nat
    decreases n,
{
    if n == 0 {
        0
    } else {
        (if bit_at(data, pos) { 1nat } else { 0nat }) + 2 * bits_value(
            data,
            pos + 1,
            (n - 1) as nat,
        )
    }
}

/// The smallest multiple of 8 that is at least `pos`.
pub open spec fn align8(pos: int) -> int {
    ((pos + 7) / 8) * 8
}

/// `bits_value` is bounded by `pow2` of the bit count.
pub proof fn lemma_bits_value_bound(data: Seq<u8>, pos: int, n: nat)
    ensures
        bits_value(data, pos, n) < pow2(n),
    decreases n,
{
    if n == 0 {
        assert(pow2(0) == 1) by {
            vstd::arithmetic::power2::lemma2_to64();
        }
    } else {
        vstd::arithmetic::power2::lemma_pow2_unfold(n);
        lemma_bits_value_bound(data, pos + 1, (n - 1) as nat);
    }
}

/// Reading `m + n` bits equals reading `m` bits plus `pow2(m)` times the
/// following `n` bits.
pub proof fn lemma_bits_value_split(data: Seq<u8>, pos: int, m: nat, n: nat)
    ensures
        bits_value(data, pos, m + n) == bits_value(data, pos, m) + pow2(m) * bits_value(
            data,
            pos + m,
            n,
        ),
    decreases m,
{
    if m == 0 {
        assert(pow2(0) == 1) by {
            vstd::arithmetic::power2::lemma2_to64();
        }
    } else {
        lemma_bits_value_split(data, pos + 1, (m - 1) as nat, n);
        vstd::arithmetic::power2::lemma_pow2_unfold(m);
        let b: nat = if bit_at(data, pos) { 1 } else { 0 };
        let tail = bits_value(data, pos + 1, ((m - 1) + n) as nat);
        let v1 = bits_value(data, pos + 1, (m - 1) as nat);
        let v2 = bits_value(data, pos + m, n);
        assert(bits_value(data, pos, m + n) == b + 2 * tail);
        assert(tail == v1 + pow2((m - 1) as nat) * v2);
        assert(2 * (v1 + pow2((m - 1) as nat) * v2) == 2 * v1 + (2 * pow2((m - 1) as nat)) * v2)
            by (nonlinear_arith);
    }
}

/// Eight bits starting at a byte boundary read back the byte itself.
#[verifier::rlimit(60)]
#[verifier::spinoff_prover]
pub proof fn lemma_bits_value_byte(data: Seq<u8>, k: int)
    requires
        0 <= k < data.len(),
    ensures
        bits_value(data, 8 * k, 8) == data[k],
{
    let b = data[k];
    assert forall|i: int| 0 <= i < 8 implies #[trigger] bit_at(data, 8 * k + i) == ((b >> (
    i as u8)) & 1 == 1) by {
        lemma_fundamental_div_mod_converse(8 * k + i, 8, k, i);
    }
    let v0: nat = if (b >> 0u8) & 1 == 1 {
        1
    } else {
        0
    };
    let v1: nat = if (b >> 1u8) & 1 == 1 {
        1
    } else {
        0
    };
    let v2: nat = if (b >> 2u8) & 1 == 1 {
        1
    } else {
        0
    };
    let v3: nat = if (b >> 3u8) & 1 == 1 {
        1
    } else {
        0
    };
    let v4: nat = if (b >> 4u8) & 1 == 1 {
        1
    } else {
        0
    };
    let v5: nat = if (b >> 5u8) & 1 == 1 {
        1
    } else {
        0
    };
    let v6: nat = if (b >> 6u8) & 1 == 1 {
        1
    } else {
        0
    };
    let v7: nat = if (b >> 7u8) & 1 == 1 {
        1
    } else {
        0
    };
    assert(bits_value(data, 8 * k + 8, 0) == 0);
    assert(bits_value(data, 8 * k + 7, 1) == v7);
    assert(bits_value(data, 8 * k + 6, 2) == v6 + 2 * v7);
    assert(bits_value(data, 8 * k + 5, 3) == v5 + 2 * (v6 + 2 * v7));
    assert(bits_value(data, 8 * k + 4, 4) == v4 + 2 * (v5 + 2 * (v6 + 2 * v7)));
    assert(bits_value(data, 8 * k + 3, 5) == v3 + 2 * (v4 + 2 * (v5 + 2 * (v6 + 2 * v7))));
    assert(bits_value(data, 8 * k + 2, 6) == v2 + 2 * (v3 + 2 * (v4 + 2 * (v5 + 2 * (v6 + 2
        * v7)))));
    assert(bits_value(data, 8 * k + 1, 7) == v1 + 2 * (v2 + 2 * (v3 + 2 * (v4 + 2 * (v5 + 2 * (v6
        + 2 * v7))))));
    assert(bits_value(data, 8 * k, 8) == v0 + 2 * (v1 + 2 * (v2 + 2 * (v3 + 2 * (v4 + 2 * (v5 + 2
        * (v6 + 2 * v7)))))));
    assert(b == {
        let w0: u8 = if (b >> 0u8) & 1 == 1 {
            1
        } else {
            0
        };
        let w1: u8 = if (b >> 1u8) & 1 == 1 {
            1
        } else {
            0
        };
        let w2: u8 = if (b >> 2u8) & 1 == 1 {
            1
        } else {
            0
        };
        let w3: u8 = if (b >> 3u8) & 1 == 1 {
            1
        } else {
            0
        };
        let w4: u8 = if (b >> 4u8) & 1 == 1 {
            1
        } else {
            0
        };
        let w5: u8 = if (b >> 5u8) & 1 == 1 {
            1
        } else {
            0
        };
        let w6: u8 = if (b >> 6u8) & 1 == 1 {
            1
        } else {
            0
        };
        let w7: u8 = if (b >> 7u8) & 1 == 1 {
            1
        } else {
            0
        };
        (w0 + 2 * w1 + 4 * w2 + 8 * w3 + 16 * w4 + 32 * w5 + 64 * w6 + 128 * w7) as u8
    }) by (bit_vector);
}

/// A cursor delivering the bits of a byte slice LSB-first.
pub struct BitReader<'a> {
    data: &'a [u8],
    byte: usize,
    bit: u8,
}

impl<'a> BitReader<'a> {
    /// The intra-byte offset stays below 8 and the cursor stays inside
    /// the data.
    pub closed spec fn inv(self) -> bool {
        self.bit < 8 && 8 * self.byte + self.bit <= 8 * self.data@.len()
    }

    /// The cursor stays inside the data.
    pub open spec fn wf(self) -> bool {
        self.inv() && 0 <= self.pos() <= self.total_bits()
    }

    /// The underlying bytes.
    pub closed spec fn data_spec(self) -> Seq<u8> {
        self.data@
    }

    /// The current position, in bits from the start of the data.
    pub closed spec fn pos(self) -> int {
        8 * self.byte + self.bit
    }

    pub open spec fn total_bits(self) -> int {
        8 * self.data_spec().len() as int
    }

    /// The current bit position as a machine integer.
    pub fn bit_pos(&self) -> (r: u128)
        ensures
            r == self.pos(),
    {
        (self.byte as u128) * 8 + (self.bit as u128)
    }

    pub fn new(data: &'a [u8]) -> (r: BitReader<'a>)
        ensures
            r.wf(),
            r.data_spec() == data@,
            r.pos() == 0,
    {
        BitReader { data, byte: 0, bit: 0 }
    }

    /// Reads a single bit; fails with `InputTruncated` at the end of data.
    pub fn read_bit(&mut self) -> (r: Result<bool, ErrorKind>)
        requires
            old(self).wf(),
        ensures
            final(self).wf(),
            final(self).data_spec() == old(self).data_spec(),
            match r {
                Ok(b) => {
                    &&& old(self).pos() < old(self).total_bits()
                    &&& b == bit_at(old(self).data_spec(), old(self).pos())
                    &&& final(self).pos() == old(self).pos() + 1
                },
                Err(k) => {
                    &&& k == ErrorKind::InputTruncated
                    &&& old(self).pos() == old(self).total_bits()
                    &&& final(self).pos() == old(self).pos()
                },
            },
    {
        if self.byte >= self.data.len() {
            return Err(ErrorKind::InputTruncated);
        }
        let b = self.data[self.byte];
        let v = (b >> self.bit) & 1;
        proof {
            lemma_fundamental_div_mod_converse(
                8 * self.byte + self.bit as int,
                8,
                self.byte as int,
                self.bit as int,
            );
        }
        if self.bit == 7 {
            self.bit = 0;
            self.byte = self.byte + 1;
        } else {
            self.bit = self.bit + 1;
        }
        Ok(v == 1)
    }

    /// Reads `n` bits as an unsigned integer, LSB-first.
    #[verifier::loop_isolation(false)]
    pub fn read_bits(&mut self, n: usize) -> (r: Result<u32, ErrorKind>)
        requires
            old(self).wf(),
            n <= 32,
        ensures
            final(self).wf(),
            final(self).data_spec() == old(self).data_spec(),
            match r {
                Ok(v) => {
                    &&& old(self).pos() + n <= old(self).total_bits()
                    &&& v == bits_value(old(self).data_spec(), old(self).pos(), n as nat)
                    &&& final(self).pos() == old(self).pos() + n
                },
                Err(k) => {
                    &&& k == ErrorKind::InputTruncated
                    &&& old(self).pos() + n > old(self).total_bits()
                    &&& final(self).pos() == old(self).pos()
                },
            },
    {
        let ghost start = *self;
        let start_byte = self.byte;
        let start_bit = self.bit;
        let mut i: usize = 0;
        let mut acc: u64 = 0;
        let mut weight: u64 = 1;
        proof {
            assert(pow2(0) == 1) by {
                vstd::arithmetic::power2::lemma2_to64();
            }
            assert(pow2(32) == 0x1_0000_0000) by {
                vstd::arithmetic::power2::lemma2_to64();
            }
        }
        while i < n
            invariant
                self.wf(),
                start.wf(),
                n <= 32,
                i <= n,
                start_byte == start.byte,
                start_bit == start.bit,
                self.data == start.data,
                self.data_spec() == start.data_spec(),
                self.pos() == start.pos() + i,
                acc == bits_value(start.data_spec(), start.pos(), i as nat),
                weight == pow2(i as nat),
                acc < weight,
                pow2(32) == 0x1_0000_0000,
            decreases n - i,
        {
            let b = match self.read_bit() {
                Ok(b) => b,
                Err(_) => {
                    // not enough bits: put the cursor back where it started
                    self.byte = start_byte;
                    self.bit = start_bit;
                    return Err(ErrorKind::InputTruncated);
                },
            };
            proof {
                lemma_bits_value_split(start.data_spec(), start.pos(), i as nat, 1);
                assert(bits_value(start.data_spec(), start.pos() + i + 1, 0) == 0);
                assert(bits_value(start.data_spec(), start.pos() + i, 1) == (if bit_at(
                    start.data_spec(),
                    start.pos() + i,
                ) {
                    1nat
                } else {
                    0nat
                }));
                vstd::arithmetic::power2::lemma_pow2_unfold((i + 1) as nat);
                assert(pow2((i + 1) as nat) <= pow2(32)) by {
                    if i + 1 < 32 {
                        vstd::arithmetic::power2::lemma_pow2_strictly_increases((i + 1) as nat, 32);
                    }
                }
            }
            if b {
                acc = acc + weight;
            }
            i = i + 1;
            weight = weight * 2;
        }
        proof {
            lemma_bits_value_bound(start.data_spec(), start.pos(), n as nat);
            assert(pow2(n as nat) <= pow2(32)) by {
                if n < 32 {
                    vstd::arithmetic::power2::lemma_pow2_strictly_increases(n as nat, 32);
                }
            }
        }
        Ok(acc as u32)
    }

    /// Discards the remaining bits of the current byte, if any.
    #[verifier::rlimit(30)]
    pub fn byte_align(&mut self)
        requires
            old(self).wf(),
        ensures
            final(self).wf(),
            final(self).data_spec() == old(self).data_spec(),
            final(self).pos() == align8(old(self).pos()),
    {
        let _len: usize = self.data.len();
        if self.bit != 0 {
            proof {
                lemma_fundamental_div_mod_converse(
                    8 * self.byte + self.bit + 7,
                    8,
                    self.byte + 1,
                    self.bit - 1,
                );
                assert((8 * self.byte + self.bit + 7) / 8 == self.byte + 1);
            }
            self.bit = 0;
            self.byte = self.byte + 1;
        } else {
            proof {
                lemma_fundamental_div_mod_converse(8 * self.byte + 7, 8, self.byte as int, 7);
                assert((8 * self.byte + 7) / 8 == self.byte as int);
            }
        }
    }

    /// Reads `n` whole bytes; the cursor must be byte-aligned.
    #[verifier::loop_isolation(false)]
    pub fn read_bytes(&mut self, n: usize) -> (r: Result<Vec<u8>, ErrorKind>)
        requires
            old(self).wf(),
            old(self).pos() % 8 == 0,
        ensures
            final(self).wf(),
            final(self).data_spec() == old(self).data_spec(),
            match r {
                Ok(v) => {
                    &&& old(self).pos() + 8 * n <= old(self).total_bits()
                    &&& v@ == old(self).data_spec().subrange(
                        old(self).pos() / 8,
                        old(self).pos() / 8 + n,
                    )
                    &&& final(self).pos() == old(self).pos() + 8 * n
                },
                Err(k) => {
                    &&& k == ErrorKind::InputTruncated
                    &&& old(self).pos() + 8 * n > old(self).total_bits()
                    &&& final(self).pos() == old(self).pos()
                },
            },
    {
        proof {
            lemma_fundamental_div_mod_converse(
                8 * self.byte + self.bit as int,
                8,
                self.byte as int,
                self.bit as int,
            );
            assert(self.bit == 0);
        }
        if n > self.data.len() - self.byte {
            return Err(ErrorKind::InputTruncated);
        }
        let ghost start_byte = self.byte as int;
        let mut v: Vec<u8> = Vec::new();
        let mut i: usize = 0;
        while i < n
            invariant
                self.data == old(self).data,
                self.data@.len() <= usize::MAX,
                start_byte + n <= self.data@.len(),
                self.byte == start_byte + i,
                self.bit == 0,
                i <= n,
                v@ == self.data@.subrange(start_byte, start_byte + i),
            decreases n - i,
        {
            v.push(self.data[self.byte]);
            self.byte = self.byte + 1;
            i = i + 1;
            proof {
                assert(v@ =~= self.data@.subrange(start_byte, start_byte + i));
            }
        }
        Ok(v)
    }
}

} // verus!
