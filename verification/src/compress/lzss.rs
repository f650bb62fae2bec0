//! LZSS codes and the back-reference expander of RFC 1951 section 3.2.5:
//! base-plus-extra-bits decoding of lengths and distances, and the
//! sliding-window copy that materializes the original byte stream.

use vstd::prelude::*;
use vstd::arithmetic::power2::pow2;
use crate::bits::{BitReader, bits_value};
use crate::compress::huffman::{Node, decode_prefix, height};
use crate::error::ErrorKind;

verus! {

/// One decoded DEFLATE element: a literal byte or a back-reference of
/// `lenght` bytes starting `distance` bytes back.
#[derive(Debug, Clone, Copy, PartialEq, Eq, Structural)]
pub enum LzssCode {
    Val { code: u8 },
    Block { lenght: u16, distance: u16 },
}

/// How many extra bits follow a literal/length symbol.
pub open spec fn length_extra_bits(s: int) -> nat {
    if s <= 264 {
        0
    } else if s <= 268 {
        1
    } else if s <= 272 {
        2
    } else if s <= 276 {
        3
    } else if s <= 280 {
        4
    } else if s <= 284 {
        5
    } else {
        0
    }
}

/// The base length of a literal/length symbol in 257..=285.
pub open spec fn length_base(s: int) -> int {
    if s <= 264 {
        3 + (s - 257)
    } else if s <= 268 {
        11 + (s - 265) * 2
    } else if s <= 272 {
        19 + (s - 269) * 4
    } else if s <= 276 {
        35 + (s - 273) * 8
    } else if s <= 280 {
        67 + (s - 277) * 16
    } else if s <= 284 {
        131 + (s - 281) * 32
    } else {
        258
    }
}

/// How many extra bits follow a distance symbol.
pub open spec fn dist_extra_bits(d: int) -> nat {
    if d <= 3 {
        0
    } else {
        (d / 2 - 1) as nat
    }
}

/// The base distance of a distance symbol in 0..=29.
pub open spec fn dist_base(d: int) -> int {
    if d <= 3 {
        d + 1
    } else {
        pow2((dist_extra_bits(d) + 1) as nat) + (d % 2) * pow2(dist_extra_bits(d)) + 1
    }
}

/// Reading a (length, distance) pair after literal/length symbol `curr`:
/// the length's extra bits, then a distance symbol through `tree`, then
/// the distance's extra bits. Yields the new bit position and the pair.
pub open spec fn spec_block_length_distance(
    tree: Node<u32>,
    data: Seq<u8>,
    pos: int,
    curr: u16,
) -> Result<(int, u16, u16), ErrorKind> {
    let ebits = length_extra_bits(curr as int);
    if pos + ebits > 8 * data.len() {
        Err(ErrorKind::InputTruncated)
    } else {
        let lenght = length_base(curr as int) + bits_value(data, pos, ebits);
        let p1 = pos + ebits;
        match decode_prefix(tree, data, p1) {
            Err(k) => Err(k),
            Ok((p2, dsym)) => {
                if dsym > 29 {
                    Err(ErrorKind::InvalidCode)
                } else {
                    let dbits = dist_extra_bits(dsym as int);
                    if p2 + dbits > 8 * data.len() {
                        Err(ErrorKind::InputTruncated)
                    } else {
                        Ok(
                            (
                                p2 + dbits,
                                lenght as u16,
                                (dist_base(dsym as int) + bits_value(data, p2, dbits)) as u16,
                            ),
                        )
                    }
                }
            },
        }
    }
}

/// 2^e as a machine integer.
#[verifier::loop_isolation(false)]
fn exec_pow2(e: usize) -> (r: u32)
    requires
        e <= 15,
    ensures
        r == pow2(e as nat),
{
    let mut r: u32 = 1;
    let mut i: usize = 0;
    proof {
        vstd::arithmetic::power2::lemma2_to64();
    }
    while i < e
        invariant
            i <= e,
            r == pow2(i as nat),
            r <= 0x8000,
        decreases e - i,
    {
        proof {
            vstd::arithmetic::power2::lemma_pow2_unfold((i + 1) as nat);
            if i + 1 < 15 {
                vstd::arithmetic::power2::lemma_pow2_strictly_increases((i + 1) as nat, 15);
            }
        }
        r = r * 2;
        i = i + 1;
    }
    r
}

/// Decodes the length for symbol `curr` and then a full distance through
/// `distance_tree`, per the base and extra-bits tables of RFC 1951.
pub fn get_block_lenght_and_distance(
    curr: u16,
    distance_tree: &Node<u32>,
    compressed_data: &mut BitReader,
) -> (r: Result<(u16, u16), ErrorKind>)
    requires
        old(compressed_data).wf(),
        257 <= curr <= 285,
        height(*distance_tree) <= 32,
    ensures
        final(compressed_data).wf(),
        final(compressed_data).data_spec() == old(compressed_data).data_spec(),
        final(compressed_data).pos() >= old(compressed_data).pos(),
        match r {
            Ok((lenght, distance)) => spec_block_length_distance(
                *distance_tree,
                old(compressed_data).data_spec(),
                old(compressed_data).pos(),
                curr,
            ) == Ok::<_, ErrorKind>((final(compressed_data).pos(), lenght, distance)),
            Err(k) => spec_block_length_distance(
                *distance_tree,
                old(compressed_data).data_spec(),
                old(compressed_data).pos(),
                curr,
            ) == Err::<(int, u16, u16), _>(k),
        },
{
    let ghost data = old(compressed_data).data_spec();
    let ghost pos0 = old(compressed_data).pos();
    let ebits: usize = if curr <= 264 {
        0
    } else if curr <= 268 {
        1
    } else if curr <= 272 {
        2
    } else if curr <= 276 {
        3
    } else if curr <= 280 {
        4
    } else if curr <= 284 {
        5
    } else {
        0
    };
    let add: u32 = match compressed_data.read_bits(ebits) {
        Ok(v) => v,
        Err(k) => {
            return Err(k);
        },
    };
    let base: u16 = if curr <= 264 {
        3 + (curr - 257)
    } else if curr <= 268 {
        11 + (curr - 265) * 2
    } else if curr <= 272 {
        19 + (curr - 269) * 4
    } else if curr <= 276 {
        35 + (curr - 273) * 8
    } else if curr <= 280 {
        67 + (curr - 277) * 16
    } else if curr <= 284 {
        131 + (curr - 281) * 32
    } else {
        258
    };
    proof {
        crate::bits::lemma_bits_value_bound(data, pos0, ebits as nat);
        vstd::arithmetic::power2::lemma2_to64();
    }
    let lenght: u16 = base + add as u16;
    let (dsym_res, dsym): (u32, u32) = match distance_tree.read_one(compressed_data) {
        Ok((l, v)) => (l, v),
        Err(e) => {
            return Err(e.kind);
        },
    };
    if dsym > 29 {
        return Err(ErrorKind::InvalidCode);
    }
    let ghost p2 = compressed_data.pos();
    let distance: u16;
    if dsym <= 3 {
        proof {
            assert(bits_value(data, p2, 0) == 0);
            assert(dist_base(dsym as int) == dsym + 1);
        }
        distance = (dsym as u16) + 1;
    } else {
        let extra_bits: usize = (dsym as usize) / 2 - 1;
        let dadd: u32 = match compressed_data.read_bits(extra_bits) {
            Ok(v) => v,
            Err(k) => {
                return Err(k);
            },
        };
        proof {
            crate::bits::lemma_bits_value_bound(data, p2, extra_bits as nat);
            vstd::arithmetic::power2::lemma2_to64();
            if extra_bits < 13 {
                vstd::arithmetic::power2::lemma_pow2_strictly_increases(extra_bits as nat, 13);
            }
            if extra_bits + 1 < 14 {
                vstd::arithmetic::power2::lemma_pow2_strictly_increases(
                    (extra_bits + 1) as nat,
                    14,
                );
            }
        }
        let high = exec_pow2(extra_bits + 1);
        let mid = if dsym % 2 == 1 {
            exec_pow2(extra_bits)
        } else {
            0
        };
        proof {
            assert(dist_extra_bits(dsym as int) == extra_bits as nat);
            let m2 = dsym as int % 2;
            if dsym % 2 == 1 {
                assert(m2 == 1);
                assert(m2 * pow2(extra_bits as nat) == pow2(extra_bits as nat))
                    by (nonlinear_arith)
                    requires
                        m2 == 1,
                ;
            } else {
                assert(m2 == 0);
                assert(m2 * pow2(extra_bits as nat) == 0) by (nonlinear_arith)
                    requires
                        m2 == 0,
                ;
            }
            assert(mid == (dsym as int % 2) * pow2(extra_bits as nat));
            assert(dist_base(dsym as int) == pow2((extra_bits + 1) as nat) + (dsym as int % 2)
                * pow2(extra_bits as nat) + 1);
            assert(high + mid + 1 + dadd == dist_base(dsym as int) + bits_value(
                data,
                p2,
                dist_extra_bits(dsym as int),
            ));
        }
        distance = (high + mid + 1 + dadd) as u16;
    }
    Ok((lenght, distance))
}

/// The bytes a back-reference appends: byte `i` of the copy is read from
/// position `out.len() - dist + (i % dist)`, so the copy wraps when the
/// length exceeds the distance.
pub open spec fn back_copy(out: Seq<u8>, len: nat, dist: nat) -> Seq<u8>
    recommends
        1 <= dist <= out.len(),
{
    Seq::new(len, |i: int| out[out.len() - dist + (i % dist as int)])
}

/// Expanding a code sequence onto an output prefix: literals are
/// appended, back-references copy from the output produced so far, and a
/// distance of zero, above 32768, or beyond the bytes produced so far is
/// `InvalidDistance`.
pub open spec fn lzss_spec(codes: Seq<LzssCode>, out: Seq<u8>) -> Result<Seq<u8>, ErrorKind>
    decreases codes.len(),
{
    if codes.len() == 0 {
        Ok(out)
    } else {
        match codes[0] {
            LzssCode::Val { code } => lzss_spec(codes.drop_first(), out.push(code)),
            LzssCode::Block { lenght, distance } => {
                if distance < 1 || distance > 32768 || distance > out.len() {
                    Err(ErrorKind::InvalidDistance)
                } else {
                    lzss_spec(
                        codes.drop_first(),
                        out + back_copy(out, lenght as nat, distance as nat),
                    )
                }
            },
        }
    }
}

/// Expands a sequence of LZSS codes into the byte stream they describe.
#[verifier::loop_isolation(false)]
pub fn lzss_decode(raw: &Vec<LzssCode>) -> (r: Result<Vec<u8>, ErrorKind>)
    ensures
        match r {
            Ok(v) => lzss_spec(raw@, Seq::empty()) == Ok::<_, ErrorKind>(v@),
            Err(k) => lzss_spec(raw@, Seq::empty()) == Err::<Seq<u8>, _>(k),
        },
{
    let mut ret: Vec<u8> = Vec::new();
    let mut i: usize = 0;
    proof {
        assert(raw@.skip(0) =~= raw@);
    }
    while i < raw.len()
        invariant
            i <= raw@.len(),
            lzss_spec(raw@, Seq::empty()) == lzss_spec(raw@.skip(i as int), ret@),
        decreases raw@.len() - i,
    {
        let ghost pre = ret@;
        proof {
            assert(raw@.skip(i as int)[0] == raw@[i as int]);
            assert(raw@.skip(i as int).drop_first() =~= raw@.skip(i + 1));
        }
        match raw[i] {
            LzssCode::Val { code } => {
                ret.push(code);
            },
            LzssCode::Block { lenght, distance } => {
                if distance < 1 || distance > 32768 || (distance as usize) > ret.len() {
                    return Err(ErrorKind::InvalidDistance);
                }
                let dist = distance as usize;
                let start = ret.len() - dist;
                let mut j: usize = 0;
                while j < lenght as usize
                    invariant
                        dist == distance,
                        1 <= dist <= pre.len(),
                        start == pre.len() - dist,
                        j <= lenght,
                        ret@ == pre + back_copy(pre, j as nat, dist as nat),
                    decreases lenght - j,
                {
                    let b = ret[start + (j % dist)];
                    proof {
                        assert(0 <= start + (j % dist) < pre.len());
                        assert(ret@[start + (j % dist) as int] == pre[start + (j % dist) as int]);
                    }
                    ret.push(b);
                    j = j + 1;
                    proof {
                        assert(ret@ =~= pre + back_copy(pre, j as nat, dist as nat));
                    }
                }
            },
        }
        i = i + 1;
    }
    proof {
        assert(raw@.skip(raw@.len() as int) =~= Seq::<LzssCode>::empty());
    }
    Ok(ret)
}

} // verus!
