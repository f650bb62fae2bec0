//! The DEFLATE block decoder (RFC 1951) and the zlib frame around it
//! (RFC 1950).
//!
//! A stream is a sequence of blocks: stored (raw bytes), fixed-Huffman,
//! or dynamic-Huffman, the last introduced by code-length tables that are
//! themselves Huffman-coded. Every block's symbols are collected into one
//! LZSS code sequence, which is expanded at the end so that
//! back-references may reach across block boundaries.

use vstd::prelude::*;
use crate::bits::{BitReader, bit_at, bits_value, align8};
use crate::compress::huffman::{
    Node,
    decode_prefix,
    height,
    build_tree,
    generate_tree,
    generate_fixed_deflate_tree,
    generate_fixed_deflate_distance_tree,
    fixed_lit_tree,
    fixed_dist_tree,
};
use crate::compress::lzss::{
    LzssCode,
    lzss_spec,
    lzss_decode,
    spec_block_length_distance,
    get_block_lenght_and_distance,
};
use crate::error::ErrorKind;
use crate::hashs::adler32::{Adler32, adler32_of};

verus! {

/// Decoding the body of a Huffman block, symbol by symbol, onto the code
/// sequence `acc`: literals and back-references accumulate until the
/// end-of-block symbol 256. Yields the bit position after the block.
pub open spec fn spec_symbols(
    lit: Node<u32>,
    dist: Node<u32>,
    data: Seq<u8>,
    pos: int,
    acc: Seq<LzssCode>,
) -> Result<(int, Seq<LzssCode>), ErrorKind>
    decreases 8 * data.len() - pos,
{
    if pos < 0 || pos > 8 * data.len() {
        Err(ErrorKind::InvalidCode)
    } else {
        match decode_prefix(lit, data, pos) {
            Err(k) => Err(k),
            Ok((p1, sym)) => {
                if sym <= 255 {
                    if p1 <= pos || p1 > 8 * data.len() {
                        Err(ErrorKind::InvalidCode)
                    } else {
                        spec_symbols(lit, dist, data, p1, acc.push(LzssCode::Val { code: sym as u8 }))
                    }
                } else if sym == 256 {
                    Ok((p1, acc))
                } else if sym <= 285 {
                    match spec_block_length_distance(dist, data, p1, sym as u16) {
                        Err(k) => Err(k),
                        Ok((p2, lenght, distance)) => {
                            if p2 <= pos || p2 > 8 * data.len() {
                                Err(ErrorKind::InvalidCode)
                            } else {
                                spec_symbols(
                                    lit,
                                    dist,
                                    data,
                                    p2,
                                    acc.push(LzssCode::Block { lenght, distance }),
                                )
                            }
                        },
                    }
                } else {
                    Err(ErrorKind::InvalidCode)
                }
            },
        }
    }
}

/// Reading a stored block at `pos`: align to the next byte, read LEN and
/// its complement NLEN, then LEN raw bytes.
pub open spec fn spec_stored(data: Seq<u8>, pos: int) -> Result<(int, Seq<u8>), ErrorKind> {
    let p = align8(pos);
    if p + 32 > 8 * data.len() {
        Err(ErrorKind::InputTruncated)
    } else {
        let len = bits_value(data, p, 16);
        let nlen = bits_value(data, p + 16, 16);
        if len + nlen != 0xFFFF {
            Err(ErrorKind::InvalidStoredLength)
        } else {
            let p2 = p + 32;
            if p2 + 8 * len > 8 * data.len() {
                Err(ErrorKind::InputTruncated)
            } else {
                Ok((p2 + 8 * len, data.subrange(p2 / 8, p2 / 8 + len)))
            }
        }
    }
}

/// The fixed order in which the code-lengths alphabet's own lengths are
/// stored in a dynamic block header.
pub open spec fn cl_perm() -> Seq<int> {
    seq![16, 17, 18, 0, 8, 7, 9, 6, 10, 5, 11, 4, 12, 3, 13, 2, 14, 1, 15]
}

/// The 19 code lengths of the code-lengths alphabet after reading `k`
/// 3-bit fields, placed in permutation order; unread entries are 0.
pub open spec fn cl_fill(data: Seq<u8>, pos: int, k: int) -> Seq<u8>
    decreases k,
{
    if k <= 0 {
        Seq::new(19, |i: int| 0u8)
    } else {
        cl_fill(data, pos, k - 1).update(
            cl_perm()[k - 1],
            bits_value(data, pos + 3 * (k - 1), 3) as u8,
        )
    }
}

/// Decoding `count` code lengths through the code-lengths tree `t`,
/// where symbols 0..=15 are literal lengths, 16 repeats the previous
/// length 3..=6 times, 17 writes 3..=10 zeros and 18 writes 11..=138
/// zeros. Symbol 16 with nothing before it, or a run that overshoots
/// `count`, is `InvalidHuffmanTable`.
pub open spec fn spec_read_lengths(
    t: Node<u32>,
    data: Seq<u8>,
    pos: int,
    acc: Seq<u8>,
    count: int,
) -> Result<(int, Seq<u8>), ErrorKind>
    decreases 8 * data.len() - pos,
{
    if acc.len() == count {
        Ok((pos, acc))
    } else if acc.len() > count {
        Err(ErrorKind::InvalidHuffmanTable)
    } else if pos < 0 || pos > 8 * data.len() {
        Err(ErrorKind::InvalidCode)
    } else {
        match decode_prefix(t, data, pos) {
            Err(k) => Err(k),
            Ok((p1, sym)) => {
                if p1 <= pos || p1 > 8 * data.len() {
                    Err(ErrorKind::InvalidCode)
                } else if sym <= 15 {
                    spec_read_lengths(t, data, p1, acc.push(sym as u8), count)
                } else if sym == 16 {
                    if acc.len() == 0 {
                        Err(ErrorKind::InvalidHuffmanTable)
                    } else if p1 + 2 > 8 * data.len() {
                        Err(ErrorKind::InputTruncated)
                    } else {
                        let rep = 3 + bits_value(data, p1, 2);
                        spec_read_lengths(
                            t,
                            data,
                            p1 + 2,
                            acc + Seq::new(rep, |i: int| acc.last()),
                            count,
                        )
                    }
                } else if sym == 17 {
                    if p1 + 3 > 8 * data.len() {
                        Err(ErrorKind::InputTruncated)
                    } else {
                        let rep = 3 + bits_value(data, p1, 3);
                        spec_read_lengths(t, data, p1 + 3, acc + Seq::new(rep, |i: int| 0u8), count)
                    }
                } else if sym == 18 {
                    if p1 + 7 > 8 * data.len() {
                        Err(ErrorKind::InputTruncated)
                    } else {
                        let rep = 11 + bits_value(data, p1, 7);
                        spec_read_lengths(t, data, p1 + 7, acc + Seq::new(rep, |i: int| 0u8), count)
                    }
                } else {
                    Err(ErrorKind::InvalidCode)
                }
            },
        }
    }
}

/// Reading the two Huffman tables of a dynamic block: HLIT, HDIST and
/// HCLEN, the code-lengths table, and then the literal/length and
/// distance tables decoded through it.
pub open spec fn spec_dynamic_trees(data: Seq<u8>, pos: int) -> Result<
    (int, Node<u32>, Node<u32>),
    ErrorKind,
> {
    if pos < 0 || pos + 14 > 8 * data.len() {
        Err(ErrorKind::InputTruncated)
    } else {
        let hlit = bits_value(data, pos, 5) + 257;
        let hdist = bits_value(data, pos + 5, 5) + 1;
        let hclen = bits_value(data, pos + 10, 4) + 4;
        let p0 = pos + 14;
        if p0 + 3 * hclen > 8 * data.len() {
            Err(ErrorKind::InputTruncated)
        } else {
            let cl_lengths = cl_fill(data, p0, hclen as int);
            match build_tree(cl_lengths) {
                Option::None => Err(ErrorKind::InvalidHuffmanTable),
                Option::Some(cl_tree) => {
                    match spec_read_lengths(
                        cl_tree,
                        data,
                        p0 + 3 * hclen,
                        Seq::empty(),
                        hlit + hdist as int,
                    ) {
                        Err(k) => Err(k),
                        Ok((p2, all)) => {
                            match build_tree(all.take(hlit as int)) {
                                Option::None => Err(ErrorKind::InvalidHuffmanTable),
                                Option::Some(lit) => {
                                    match build_tree(all.skip(hlit as int)) {
                                        Option::None => Err(ErrorKind::InvalidHuffmanTable),
                                        Option::Some(dist) => Ok((p2, lit, dist)),
                                    }
                                },
                            }
                        },
                    }
                },
            }
        }
    }
}

/// The whole block loop: read BFINAL and BTYPE, decode the block body
/// onto `acc`, and repeat until a final block has been consumed.
pub open spec fn spec_blocks(data: Seq<u8>, pos: int, acc: Seq<LzssCode>) -> Result<
    Seq<LzssCode>,
    ErrorKind,
>
    decreases 8 * data.len() - pos,
{
    if pos < 0 || pos + 3 > 8 * data.len() {
        Err(ErrorKind::InputTruncated)
    } else {
        let bfinal = bit_at(data, pos);
        let btype = bits_value(data, pos + 1, 2);
        let step: Result<(int, Seq<LzssCode>), ErrorKind> = if btype == 0 {
            match spec_stored(data, pos + 3) {
                Err(k) => Err(k),
                Ok((p2, bytes)) => Ok(
                    (p2, acc + bytes.map_values(|b: u8| LzssCode::Val { code: b })),
                ),
            }
        } else if btype == 1 {
            spec_symbols(fixed_lit_tree(), fixed_dist_tree(), data, pos + 3, acc)
        } else if btype == 2 {
            match spec_dynamic_trees(data, pos + 3) {
                Err(k) => Err(k),
                Ok((p1, lit, dist)) => spec_symbols(lit, dist, data, p1, acc),
            }
        } else {
            Err(ErrorKind::InvalidBlockType)
        };
        match step {
            Err(k) => Err(k),
            Ok((p2, acc2)) => {
                if bfinal {
                    Ok(acc2)
                } else if p2 <= pos || p2 > 8 * data.len() {
                    Err(ErrorKind::InvalidCode)
                } else {
                    spec_blocks(data, p2, acc2)
                }
            },
        }
    }
}

/// Inflating a raw DEFLATE stream: parse every block's symbols, then
/// expand the LZSS codes over a single sliding window.
pub open spec fn spec_inflate(data: Seq<u8>) -> Result<Seq<u8>, ErrorKind> {
    match spec_blocks(data, 0, Seq::empty()) {
        Err(k) => Err(k),
        Ok(codes) => lzss_spec(codes, Seq::empty()),
    }
}

/// The zlib CMF/FLG sanity checks: deflate method, window size at most
/// 32 KiB, the check bits, and no preset dictionary.
pub open spec fn zlib_header_ok(cmf: u8, flg: u8) -> bool {
    &&& cmf & 0x0F == 8
    &&& (cmf >> 4) <= 7
    &&& ((cmf as int) * 256 + flg) % 31 == 0
    &&& (flg >> 5) & 1 == 0
}

/// A 32-bit big-endian integer at byte position `pos`.
pub open spec fn be32_at(data: Seq<u8>, pos: int) -> int {
    data[pos] * 0x100_0000 + data[pos + 1] * 0x1_0000 + data[pos + 2] * 0x100 + data[pos + 3]
}

/// Unwrapping a zlib stream: the CMF/FLG checks come first, as soon as
/// those two bytes are present; only then is the stream required to be
/// long enough for a body and trailer. Inflate the body and verify the
/// Adler-32 trailer against the inflated output.
pub open spec fn spec_decode_zlib(data: Seq<u8>) -> Result<Seq<u8>, ErrorKind> {
    if data.len() < 2 {
        Err(ErrorKind::InputTruncated)
    } else if !zlib_header_ok(data[0], data[1]) {
        Err(ErrorKind::ZlibFraming)
    } else if data.len() < 6 {
        Err(ErrorKind::InputTruncated)
    } else {
        match spec_inflate(data.subrange(2, data.len() - 4)) {
            Err(k) => Err(k),
            Ok(out) => {
                if adler32_of(out) == be32_at(data, data.len() - 4) {
                    Ok(out)
                } else {
                    Err(ErrorKind::AdlerMismatch)
                }
            },
        }
    }
}

/// The big-endian Adler-32 trailer of a payload.
pub open spec fn adler_be_bytes(d: Seq<u8>) -> Seq<u8> {
    let a = adler32_of(d);
    seq![
        (a / 0x100_0000) as u8,
        ((a / 0x1_0000) % 0x100) as u8,
        ((a / 0x100) % 0x100) as u8,
        (a % 0x100) as u8,
    ]
}

/// One stored block: the header byte (BFINAL in bit 0, BTYPE 00), LEN
/// and NLEN little-endian, then the raw bytes.
pub open spec fn stored_block(last: bool, c: Seq<u8>) -> Seq<u8>
    recommends
        c.len() <= 0xFFFF,
{
    seq![
        if last {
            0x01u8
        } else {
            0x00u8
        },
        (c.len() % 256) as u8,
        ((c.len() / 256) % 256) as u8,
        (255 - c.len() % 256) as u8,
        (255 - (c.len() / 256) % 256) as u8,
    ] + c
}

/// The concatenation of a list of payload chunks.
pub open spec fn concat_chunks(cs: Seq<Seq<u8>>) -> Seq<u8>
    decreases cs.len(),
{
    if cs.len() == 0 {
        Seq::empty()
    } else {
        cs[0] + concat_chunks(cs.drop_first())
    }
}

/// A raw DEFLATE stream of stored blocks only, one block per chunk, the
/// last block final.
pub open spec fn stored_chunks(cs: Seq<Seq<u8>>) -> Seq<u8>
    recommends
        cs.len() >= 1,
    decreases cs.len(),
{
    if cs.len() <= 1 {
        stored_block(true, cs[0])
    } else {
        stored_block(false, cs[0]) + stored_chunks(cs.drop_first())
    }
}

/// The literal codes of a byte sequence.
pub open spec fn vals_of(d: Seq<u8>) -> Seq<LzssCode> {
    d.map_values(|b: u8| LzssCode::Val { code: b })
}

/// A zlib stream that carries `d` in a single stored block under the
/// customary 0x78 0x01 header.
pub open spec fn wrap_stored(d: Seq<u8>) -> Seq<u8>
    recommends
        d.len() <= 0xFFFF,
{
    seq![0x78u8, 0x01u8] + stored_block(true, d) + adler_be_bytes(d)
}

/// Expanding a sequence of literals appends exactly those bytes.
proof fn lemma_lzss_vals(d: Seq<u8>, acc: Seq<u8>)
    ensures
        lzss_spec(vals_of(d), acc) == Ok::<_, ErrorKind>(acc + d),
    decreases d.len(),
{
    let codes = vals_of(d);
    if d.len() == 0 {
        assert(acc + d =~= acc);
        assert(codes.len() == 0);
    } else {
        assert(codes[0] == LzssCode::Val { code: d[0] });
        assert(codes.drop_first() =~= vals_of(d.drop_first()));
        lemma_lzss_vals(d.drop_first(), acc.push(d[0]));
        assert(acc.push(d[0]) + d.drop_first() =~= acc + d);
    }
}

/// Parsing the stored block that sits at byte `p` of the stream: its
/// BFINAL bit, its stored block type, and its payload.
#[verifier::rlimit(100)]
#[verifier::spinoff_prover]
proof fn lemma_stored_block_at(data: Seq<u8>, p: int, last: bool, c: Seq<u8>)
    requires
        c.len() <= 0xFFFF,
        0 <= p,
        p + 5 + c.len() <= data.len(),
        data.subrange(p, p + 5 + c.len()) == stored_block(last, c),
    ensures
        bit_at(data, 8 * p) == last,
        bits_value(data, 8 * p + 1, 2) == 0,
        spec_stored(data, 8 * p + 3) == Ok::<_, ErrorKind>((8 * (p + 5 + c.len()), c)),
{
    let n = c.len() as int;
    let hdr: u8 = if last {
        0x01
    } else {
        0x00
    };
    let sb = stored_block(last, c);
    assert forall|j: int| 0 <= j < 5 + n implies data[p + j] == sb[j] by {
        assert(data.subrange(p, p + 5 + n)[j] == data[p + j]);
    }
    assert(sb[0] == hdr);
    assert(data[p] == hdr);
    vstd::arithmetic::div_mod::lemma_fundamental_div_mod_converse(8 * p, 8, p, 0);
    vstd::arithmetic::div_mod::lemma_fundamental_div_mod_converse(8 * p + 1, 8, p, 1);
    vstd::arithmetic::div_mod::lemma_fundamental_div_mod_converse(8 * p + 2, 8, p, 2);
    assert((0x01u8 >> 0u8) & 1 == 1) by (bit_vector);
    assert((0x00u8 >> 0u8) & 1 == 0) by (bit_vector);
    assert((0x01u8 >> 1u8) & 1 == 0) by (bit_vector);
    assert((0x00u8 >> 1u8) & 1 == 0) by (bit_vector);
    assert((0x01u8 >> 2u8) & 1 == 0) by (bit_vector);
    assert((0x00u8 >> 2u8) & 1 == 0) by (bit_vector);
    assert(bit_at(data, 8 * p) == last);
    assert(!bit_at(data, 8 * p + 1));
    assert(!bit_at(data, 8 * p + 2));
    assert(bits_value(data, 8 * p + 3, 0) == 0);
    assert(bits_value(data, 8 * p + 2, 1) == 0);
    assert(bits_value(data, 8 * p + 1, 2) == 0);
    // the stored reader aligns to the next byte boundary
    vstd::arithmetic::div_mod::lemma_fundamental_div_mod_converse(8 * p + 10, 8, p + 1, 2);
    assert(align8(8 * p + 3) == 8 * (p + 1));
    // LEN and NLEN
    vstd::arithmetic::power2::lemma2_to64();
    assert(sb[1] == (c.len() % 256) as u8 && sb[2] == ((c.len() / 256) % 256) as u8 && sb[3]
        == (255 - c.len() % 256) as u8 && sb[4] == (255 - (c.len() / 256) % 256) as u8);
    assert(data[p + 1] == (c.len() % 256) as u8);
    assert(data[p + 2] == ((c.len() / 256) % 256) as u8);
    assert(data[p + 3] == (255 - c.len() % 256) as u8);
    assert(data[p + 4] == (255 - (c.len() / 256) % 256) as u8);
    crate::bits::lemma_bits_value_byte(data, p + 1);
    crate::bits::lemma_bits_value_byte(data, p + 2);
    crate::bits::lemma_bits_value_split(data, 8 * (p + 1), 8, 8);
    crate::bits::lemma_bits_value_byte(data, p + 3);
    crate::bits::lemma_bits_value_byte(data, p + 4);
    crate::bits::lemma_bits_value_split(data, 8 * (p + 3), 8, 8);
    vstd::arithmetic::div_mod::lemma_fundamental_div_mod(n, 256);
    vstd::arithmetic::div_mod::lemma_div_is_ordered(n, 0xFFFF, 256);
    assert(n / 256 <= 255);
    assert(n / 256 % 256 == n / 256);
    assert(bits_value(data, 8 * (p + 1), 16) == n % 256 + 256 * (n / 256));
    assert(bits_value(data, 8 * (p + 1), 16) == n);
    assert(bits_value(data, 8 * (p + 3), 16) == (255 - n % 256) + 256 * (255 - n / 256));
    assert(bits_value(data, 8 * (p + 1), 16) + bits_value(data, 8 * (p + 3), 16) == 0xFFFF);
    // the payload bytes
    vstd::arithmetic::div_mod::lemma_fundamental_div_mod_converse(8 * (p + 5), 8, p + 5, 0);
    assert forall|j: int| 0 <= j < n implies data[p + 5 + j] == c[j] by {
        assert(sb[5 + j] == c[j]);
    }
    assert(data.subrange(p + 5, p + 5 + n) =~= c);
    assert(8 * (p + 1) + 32 + 8 * n == 8 * (p + 5 + n));
    assert(spec_stored(data, 8 * p + 3) == Ok::<_, ErrorKind>((8 * (p + 5 + n), c)));
}

/// A window of an already-pinned window of `data` is pinned as well.
proof fn lemma_prefix_eq(data: Seq<u8>, p: int, whole: Seq<u8>, part: Seq<u8>, off: int)
    requires
        0 <= p,
        p + whole.len() <= data.len(),
        data.subrange(p, p + whole.len() as int) == whole,
        0 <= off,
        off + part.len() <= whole.len(),
        forall|j: int| 0 <= j < part.len() ==> whole[off + j] == #[trigger] part[j],
    ensures
        data.subrange(p + off, p + off + part.len() as int) == part,
{
    assert forall|j: int|
        0 <= j < part.len() implies data.subrange(p + off, p + off + part.len() as int)[j]
        == part[j] by {
        assert(data.subrange(p, p + whole.len() as int)[off + j] == data[p + off + j]);
    }
    assert(data.subrange(p + off, p + off + part.len() as int) =~= part);
}

/// A stream of stored blocks starting at byte `p` parses to the literal
/// codes of the concatenated payloads.
#[verifier::rlimit(100)]
#[verifier::spinoff_prover]
proof fn lemma_stored_chunks_parse(
    data: Seq<u8>,
    p: int,
    chunks: Seq<Seq<u8>>,
    acc: Seq<LzssCode>,
)
    requires
        chunks.len() >= 1,
        forall|i: int| 0 <= i < chunks.len() ==> (#[trigger] chunks[i]).len() <= 0xFFFF,
        0 <= p,
        p + stored_chunks(chunks).len() <= data.len(),
        data.subrange(p, p + stored_chunks(chunks).len() as int) == stored_chunks(chunks),
    ensures
        spec_blocks(data, 8 * p, acc) == Ok::<_, ErrorKind>(acc + vals_of(concat_chunks(chunks))),
    decreases chunks.len(),
{
    let c0 = chunks[0];
    let n0 = c0.len() as int;
    let last = chunks.len() == 1;
    let sc = stored_chunks(chunks);
    let sb = stored_block(last, c0);
    assert(sb.len() == 5 + n0);
    assert forall|j: int| 0 <= j < sb.len() implies sc[j] == #[trigger] sb[j] by {
        if !last {
            assert(sc == sb + stored_chunks(chunks.drop_first()));
        }
    }
    lemma_prefix_eq(data, p, sc, sb, 0);
    lemma_stored_block_at(data, p, last, c0);
    let p2 = 8 * (p + 5 + n0);
    assert(acc + c0.map_values(|b: u8| LzssCode::Val { code: b }) =~= acc + vals_of(c0));
    if last {
        assert(concat_chunks(chunks.drop_first()) == Seq::<u8>::empty());
        assert(concat_chunks(chunks) =~= c0);
        assert(spec_blocks(data, 8 * p, acc) == Ok::<_, ErrorKind>(acc + vals_of(c0)));
    } else {
        let rest = chunks.drop_first();
        let scr = stored_chunks(rest);
        assert(sc == sb + scr);
        assert(scr.len() >= 5);
        assert forall|j: int| 0 <= j < scr.len() implies sc[5 + n0 + j] == #[trigger] scr[j] by {
            assert((sb + scr)[5 + n0 + j] == scr[j]);
        }
        lemma_prefix_eq(data, p, sc, scr, 5 + n0);
        lemma_stored_chunks_parse(data, p + 5 + n0, rest, acc + vals_of(c0));
        assert(acc + vals_of(c0) + vals_of(concat_chunks(rest)) =~= acc + vals_of(
            concat_chunks(chunks),
        ));
        assert(p2 > 8 * p && p2 <= 8 * data.len());
        assert(spec_blocks(data, 8 * p, acc) == spec_blocks(data, p2, acc + vals_of(c0)));
    }
}

/// Four bytes holding the big-endian Adler-32 of `d` read back as that
/// checksum.
#[verifier::spinoff_prover]
proof fn lemma_adler_trailer(w: Seq<u8>, pos: int, d: Seq<u8>)
    requires
        0 <= pos,
        pos + 4 <= w.len(),
        w.subrange(pos, pos + 4) == adler_be_bytes(d),
    ensures
        be32_at(w, pos) == adler32_of(d),
{
    let a = adler32_of(d);
    crate::hashs::adler32::lemma_adler32_range(d);
    assert(w[pos] == (a / 0x100_0000) as u8);
    assert(w[pos + 1] == ((a / 0x1_0000) % 0x100) as u8);
    assert(w[pos + 2] == ((a / 0x100) % 0x100) as u8);
    assert(w[pos + 3] == (a % 0x100) as u8);
    let ai = a as int;
    vstd::arithmetic::div_mod::lemma_fundamental_div_mod(ai, 0x100);
    let q1 = ai / 0x100;
    vstd::arithmetic::div_mod::lemma_fundamental_div_mod(q1, 0x100);
    let q2 = q1 / 0x100;
    vstd::arithmetic::div_mod::lemma_fundamental_div_mod(q2, 0x100);
    let q3 = q2 / 0x100;
    vstd::arithmetic::div_mod::lemma_div_denominator(ai, 0x100, 0x100);
    assert(q2 == ai / 0x1_0000);
    vstd::arithmetic::div_mod::lemma_div_denominator(ai, 0x1_0000, 0x100);
    assert((ai / 0x1_0000) / 0x100 == ai / 0x100_0000);
    assert(q3 == ai / 0x100_0000);
    vstd::arithmetic::div_mod::lemma_div_is_ordered(ai, 0xFFFF_FFFF, 0x100_0000);
    assert(q3 < 0x100);
    assert(ai == q3 * 0x100_0000 + (q2 % 0x100) * 0x1_0000 + (q1 % 0x100) * 0x100 + ai % 0x100);
    assert(be32_at(w, pos) == a);
}

/// Law: decoding any stored-block-only zlib stream round-trips. For any
/// chunking of a payload into blocks of at most 65535 bytes and any
/// CMF/FLG pair that passes the header checks, the stream made of that
/// header, those stored blocks and the payload's Adler-32 trailer decodes
/// to the concatenated payload.
#[verifier::rlimit(100)]
#[verifier::spinoff_prover]
pub proof fn lemma_stored_stream_roundtrip(cmf: u8, flg: u8, chunks: Seq<Seq<u8>>)
    requires
        zlib_header_ok(cmf, flg),
        chunks.len() >= 1,
        forall|i: int| 0 <= i < chunks.len() ==> (#[trigger] chunks[i]).len() <= 0xFFFF,
    ensures
        spec_decode_zlib(
            seq![cmf, flg] + stored_chunks(chunks) + adler_be_bytes(concat_chunks(chunks)),
        ) == Ok::<_, ErrorKind>(concat_chunks(chunks)),
{
    let d = concat_chunks(chunks);
    let sc = stored_chunks(chunks);
    let w = seq![cmf, flg] + sc + adler_be_bytes(d);
    assert(sc.len() >= 5);
    assert(w.len() == 2 + sc.len() + 4);
    assert(w[0] == cmf && w[1] == flg);
    let body = w.subrange(2, w.len() - 4);
    assert(body == sc) by {
        assert(body =~= sc);
    }
    assert(body.subrange(0, sc.len() as int) == sc) by {
        assert(body.subrange(0, sc.len() as int) =~= sc);
    }
    lemma_stored_chunks_parse(body, 0, chunks, Seq::empty());
    assert(spec_inflate(body) == Ok::<_, ErrorKind>(d)) by {
        assert(Seq::<LzssCode>::empty() + vals_of(d) =~= vals_of(d));
        lemma_lzss_vals(d, Seq::empty());
        assert(Seq::<u8>::empty() + d =~= d);
    }
    assert(be32_at(w, w.len() - 4) == adler32_of(d)) by {
        assert(w.subrange(w.len() - 4, w.len() as int) =~= adler_be_bytes(d));
        lemma_adler_trailer(w, w.len() - 4, d);
    }
    assert(spec_decode_zlib(w) == Ok::<_, ErrorKind>(d));
}

/// Law: the canonical single-block wrap decodes back to its payload.
pub proof fn lemma_stored_roundtrip(d: Seq<u8>)
    requires
        d.len() <= 0xFFFF,
    ensures
        spec_decode_zlib(wrap_stored(d)) == Ok::<_, ErrorKind>(d),
{
    assert(0x78u8 & 0x0F == 8) by (bit_vector);
    assert(0x78u8 >> 4u8 == 7) by (bit_vector);
    assert((0x78 * 256 + 0x01int) % 31 == 0);
    assert((0x01u8 >> 5u8) & 1 == 0) by (bit_vector);
    assert(zlib_header_ok(0x78, 0x01));
    let chunks = seq![d];
    assert(chunks[0] == d);
    lemma_stored_stream_roundtrip(0x78, 0x01, chunks);
    assert(concat_chunks(chunks.drop_first()) == Seq::<u8>::empty());
    assert(concat_chunks(chunks) =~= d);
    assert(concat_chunks(chunks) == d);
    assert(stored_chunks(chunks) == stored_block(true, d));
    assert(wrap_stored(d) == seq![0x78u8, 0x01u8] + stored_chunks(chunks) + adler_be_bytes(
        concat_chunks(chunks),
    ));
}

/// The permutation order as a lookup.
fn cl_perm_exec(k: usize) -> (r: usize)
    requires
        k < 19,
    ensures
        r == cl_perm()[k as int],
        r < 19,
{
    let r = match k {
        0 => 16,
        1 => 17,
        2 => 18,
        3 => 0,
        4 => 8,
        5 => 7,
        6 => 9,
        7 => 6,
        8 => 10,
        9 => 5,
        10 => 11,
        11 => 4,
        12 => 12,
        13 => 3,
        14 => 13,
        15 => 2,
        16 => 14,
        _ => {
            if k == 17 {
                1
            } else {
                15
            }
        },
    };
    proof {
        reveal(cl_perm);
    }
    r
}

/// Reads the HLIT/HDIST/HCLEN header of a dynamic block and builds the
/// code-lengths table, then the literal/length and distance tables.
#[verifier::loop_isolation(false)]
#[verifier::rlimit(60)]
fn read_dynamic_trees(br: &mut BitReader) -> (r: Result<(Node<u32>, Node<u32>), ErrorKind>)
    requires
        old(br).wf(),
    ensures
        final(br).wf(),
        final(br).data_spec() == old(br).data_spec(),
        match r {
            Ok((lit, dist)) => {
                &&& spec_dynamic_trees(old(br).data_spec(), old(br).pos()) == Ok::<_, ErrorKind>(
                    (final(br).pos(), lit, dist),
                )
                &&& height(lit) <= 32
                &&& height(dist) <= 32
                &&& final(br).pos() > old(br).pos()
            },
            Err(k) => spec_dynamic_trees(old(br).data_spec(), old(br).pos()) == Err::<
                (int, Node<u32>, Node<u32>),
                _,
            >(k),
        },
{
    let ghost data = old(br).data_spec();
    let ghost pos0 = old(br).pos();
    let hlit_v = match br.read_bits(5) {
        Ok(v) => v,
        Err(k) => {
            return Err(k);
        },
    };
    let hdist_v = match br.read_bits(5) {
        Ok(v) => v,
        Err(k) => {
            return Err(k);
        },
    };
    let hclen_v = match br.read_bits(4) {
        Ok(v) => v,
        Err(k) => {
            return Err(k);
        },
    };
    proof {
        crate::bits::lemma_bits_value_bound(data, pos0, 5);
        crate::bits::lemma_bits_value_bound(data, pos0 + 5, 5);
        crate::bits::lemma_bits_value_bound(data, pos0 + 10, 4);
        vstd::arithmetic::power2::lemma2_to64();
    }
    let hlit: usize = hlit_v as usize + 257;
    let hdist: usize = hdist_v as usize + 1;
    let hclen: usize = hclen_v as usize + 4;
    proof {
        crate::bits::lemma_bits_value_split(data, pos0, 5, 5);
        crate::bits::lemma_bits_value_split(data, pos0, 10, 4);
        crate::bits::lemma_bits_value_split(data, pos0, 5, 9);
        crate::bits::lemma_bits_value_bound(data, pos0, 5);
        crate::bits::lemma_bits_value_bound(data, pos0 + 5, 5);
        crate::bits::lemma_bits_value_bound(data, pos0 + 10, 4);
        vstd::arithmetic::power2::lemma2_to64();
        assert(hlit == bits_value(data, pos0, 5) + 257);
        assert(hdist == bits_value(data, pos0 + 5, 5) + 1);
        assert(hclen == bits_value(data, pos0 + 10, 4) + 4);
        assert(hclen <= 19);
        assert(hlit + hdist <= 320);
    }
    let ghost p0 = pos0 + 14;
    let mut lengths: Vec<u8> = vec![0; 19];
    proof {
        assert(lengths@ =~= cl_fill(data, p0, 0));
    }
    let mut k: usize = 0;
    while k < hclen
        invariant
            k <= hclen,
            hclen <= 19,
            br.wf(),
            br.data_spec() == data,
            br.pos() == p0 + 3 * k,
            lengths@.len() == 19,
            lengths@ == cl_fill(data, p0, k as int),
        decreases hclen - k,
    {
        let v = match br.read_bits(3) {
            Ok(v) => v,
            Err(_) => {
                return Err(ErrorKind::InputTruncated);
            },
        };
        let idx = cl_perm_exec(k);
        proof {
            crate::bits::lemma_bits_value_bound(data, p0 + 3 * k, 3);
            vstd::arithmetic::power2::lemma2_to64();
        }
        lengths.set(idx, v as u8);
        k = k + 1;
        proof {
            assert(lengths@ =~= cl_fill(data, p0, k as int));
        }
    }
    let cl_tree = match generate_tree(lengths) {
        Ok(t) => t,
        Err(k) => {
            return Err(k);
        },
    };
    let count = hlit + hdist;
    let mut all_lengths: Vec<u8> = Vec::new();
    let ghost p1 = br.pos();
    while all_lengths.len() < count
        invariant
            br.wf(),
            br.data_spec() == data,
            br.pos() >= p1,
            height(cl_tree) < 16,
            count <= 320,
            spec_read_lengths(cl_tree, data, p1, Seq::empty(), count as int)
                == spec_read_lengths(cl_tree, data, br.pos(), all_lengths@, count as int),
        decreases 8 * data.len() - br.pos(),
    {
        let ghost cur = br.pos();
        let ghost acc_pre = all_lengths@;
        let (l, sym) = match cl_tree.read_one(br) {
            Ok(x) => x,
            Err(e) => {
                return Err(e.kind);
            },
        };
        if l == 0 {
            return Err(ErrorKind::InvalidCode);
        }
        if sym <= 15 {
            all_lengths.push(sym as u8);
        } else if sym == 16 {
            if all_lengths.len() == 0 {
                return Err(ErrorKind::InvalidHuffmanTable);
            }
            let rep_v = match br.read_bits(2) {
                Ok(v) => v,
                Err(k) => {
                    return Err(k);
                },
            };
            proof {
                crate::bits::lemma_bits_value_bound(data, br.pos() - 2, 2);
                vstd::arithmetic::power2::lemma2_to64();
            }
            let rep: usize = rep_v as usize + 3;
            let last = all_lengths[all_lengths.len() - 1];
            let mut j: usize = 0;
            while j < rep
                invariant
                    j <= rep,
                    all_lengths@ == acc_pre + Seq::new(j as nat, |i: int| acc_pre.last()),
                    acc_pre.len() > 0,
                    last == acc_pre.last(),
                decreases rep - j,
            {
                all_lengths.push(last);
                j = j + 1;
                proof {
                    assert(all_lengths@ =~= acc_pre + Seq::new(j as nat, |i: int| acc_pre.last()));
                }
            }
        } else if sym == 17 {
            let rep_v = match br.read_bits(3) {
                Ok(v) => v,
                Err(k) => {
                    return Err(k);
                },
            };
            proof {
                crate::bits::lemma_bits_value_bound(data, br.pos() - 3, 3);
                vstd::arithmetic::power2::lemma2_to64();
            }
            let rep: usize = rep_v as usize + 3;
            let mut j: usize = 0;
            while j < rep
                invariant
                    j <= rep,
                    all_lengths@ == acc_pre + Seq::new(j as nat, |i: int| 0u8),
                decreases rep - j,
            {
                all_lengths.push(0);
                j = j + 1;
                proof {
                    assert(all_lengths@ =~= acc_pre + Seq::new(j as nat, |i: int| 0u8));
                }
            }
        } else if sym == 18 {
            let rep_v = match br.read_bits(7) {
                Ok(v) => v,
                Err(k) => {
                    return Err(k);
                },
            };
            proof {
                crate::bits::lemma_bits_value_bound(data, br.pos() - 7, 7);
                vstd::arithmetic::power2::lemma2_to64();
            }
            let rep: usize = rep_v as usize + 11;
            let mut j: usize = 0;
            while j < rep
                invariant
                    j <= rep,
                    all_lengths@ == acc_pre + Seq::new(j as nat, |i: int| 0u8),
                decreases rep - j,
            {
                all_lengths.push(0);
                j = j + 1;
                proof {
                    assert(all_lengths@ =~= acc_pre + Seq::new(j as nat, |i: int| 0u8));
                }
            }
        } else {
            return Err(ErrorKind::InvalidCode);
        }
    }
    if all_lengths.len() > count {
        return Err(ErrorKind::InvalidHuffmanTable);
    }
    let ghost all = all_lengths@;
    let mut lit_lengths = all_lengths;
    let dist_lengths = lit_lengths.split_off(hlit);
    proof {
        assert(lit_lengths@ =~= all.take(hlit as int));
        assert(dist_lengths@ =~= all.skip(hlit as int));
    }
    let lit_tree = match generate_tree(lit_lengths) {
        Ok(t) => t,
        Err(k) => {
            return Err(k);
        },
    };
    let dist_tree = match generate_tree(dist_lengths) {
        Ok(t) => t,
        Err(k) => {
            return Err(k);
        },
    };
    Ok((lit_tree, dist_tree))
}

/// Decodes one Huffman block body: reads literal/length symbols through
/// `lit`, back-reference pairs through `dist`, and appends the resulting
/// codes to `raw` until the end-of-block symbol.
#[verifier::loop_isolation(false)]
fn decode_block_symbols(
    lit: &Node<u32>,
    dist: &Node<u32>,
    br: &mut BitReader,
    raw: &mut Vec<LzssCode>,
) -> (r: Result<(), ErrorKind>)
    requires
        old(br).wf(),
        height(*lit) <= 32,
        height(*dist) <= 32,
    ensures
        final(br).wf(),
        final(br).data_spec() == old(br).data_spec(),
        final(br).pos() >= old(br).pos(),
        match r {
            Ok(()) => spec_symbols(
                *lit,
                *dist,
                old(br).data_spec(),
                old(br).pos(),
                old(raw)@,
            ) == Ok::<_, ErrorKind>((final(br).pos(), final(raw)@)),
            Err(k) => spec_symbols(*lit, *dist, old(br).data_spec(), old(br).pos(), old(raw)@)
                == Err::<(int, Seq<LzssCode>), _>(k),
        },
{
    let ghost data = old(br).data_spec();
    let ghost pos0 = old(br).pos();
    let mut done = false;
    while !done
        invariant
            br.wf(),
            br.data_spec() == data,
            br.pos() >= pos0,
            height(*lit) <= 32,
            height(*dist) <= 32,
            !done ==> spec_symbols(*lit, *dist, data, pos0, old(raw)@) == spec_symbols(
                *lit,
                *dist,
                data,
                br.pos(),
                raw@,
            ),
            done ==> spec_symbols(*lit, *dist, data, pos0, old(raw)@) == Ok::<_, ErrorKind>(
                (br.pos(), raw@),
            ),
        decreases 8 * data.len() - br.pos() + (if done {
            0int
        } else {
            1int
        }),
    {
        let ghost cur = br.pos();
        let ghost acc_pre = raw@;
        let before = br.bit_pos();
        let (l, sym) = match lit.read_one(br) {
            Ok(x) => x,
            Err(e) => {
                proof {
                    assert(decode_prefix(*lit, data, cur) == Err::<(int, u32), _>(e.kind));
                    assert(spec_symbols(*lit, *dist, data, cur, acc_pre) == Err::<
                        (int, Seq<LzssCode>),
                        _,
                    >(e.kind));
                }
                return Err(e.kind);
            },
        };
        let ghost p1 = br.pos();
        proof {
            assert(decode_prefix(*lit, data, cur) == Ok::<_, ErrorKind>((p1, sym)));
            assert(p1 == cur + l);
            assert(p1 <= 8 * data.len());
        }
        if sym <= 255 {
            if l == 0 {
                proof {
                    assert(spec_symbols(*lit, *dist, data, cur, acc_pre) == Err::<
                        (int, Seq<LzssCode>),
                        _,
                    >(ErrorKind::InvalidCode));
                }
                return Err(ErrorKind::InvalidCode);
            }
            raw.push(LzssCode::Val { code: sym as u8 });
            proof {
                assert(spec_symbols(*lit, *dist, data, cur, acc_pre) == spec_symbols(
                    *lit,
                    *dist,
                    data,
                    p1,
                    acc_pre.push(LzssCode::Val { code: sym as u8 }),
                ));
            }
        } else if sym == 256 {
            proof {
                assert(spec_symbols(*lit, *dist, data, cur, acc_pre) == Ok::<_, ErrorKind>(
                    (p1, acc_pre),
                ));
            }
            done = true;
        } else if sym <= 285 {
            let (lenght, distance) = match get_block_lenght_and_distance(sym as u16, dist, br) {
                Ok(x) => x,
                Err(k) => {
                    proof {
                        assert(spec_block_length_distance(*dist, data, p1, sym as u16) == Err::<
                            (int, u16, u16),
                            _,
                        >(k));
                        assert(spec_symbols(*lit, *dist, data, cur, acc_pre) == Err::<
                            (int, Seq<LzssCode>),
                            _,
                        >(k));
                    }
                    return Err(k);
                },
            };
            let ghost p2 = br.pos();
            proof {
                assert(spec_block_length_distance(*dist, data, p1, sym as u16) == Ok::<
                    _,
                    ErrorKind,
                >((p2, lenght, distance)));
            }
            let after = br.bit_pos();
            if after <= before {
                proof {
                    assert(p2 <= cur);
                    assert(spec_symbols(*lit, *dist, data, cur, acc_pre) == Err::<
                        (int, Seq<LzssCode>),
                        _,
                    >(ErrorKind::InvalidCode));
                }
                return Err(ErrorKind::InvalidCode);
            }
            raw.push(LzssCode::Block { lenght, distance });
            proof {
                assert(p2 > cur && p2 <= 8 * data.len());
                assert(spec_symbols(*lit, *dist, data, cur, acc_pre) == spec_symbols(
                    *lit,
                    *dist,
                    data,
                    p2,
                    acc_pre.push(LzssCode::Block { lenght, distance }),
                ));
            }
        } else {
            proof {
                assert(spec_symbols(*lit, *dist, data, cur, acc_pre) == Err::<
                    (int, Seq<LzssCode>),
                    _,
                >(ErrorKind::InvalidCode));
            }
            return Err(ErrorKind::InvalidCode);
        }
    }
    Ok(())
}

/// Decodes a raw DEFLATE stream: the block loop of RFC 1951, gathering
/// every block's codes and expanding them over one shared window.
#[verifier::loop_isolation(false)]
#[verifier::rlimit(60)]
pub fn decode(data: &[u8]) -> (r: Result<Vec<u8>, ErrorKind>)
    ensures
        match r {
            Ok(v) => spec_inflate(data@) == Ok::<_, ErrorKind>(v@),
            Err(k) => spec_inflate(data@) == Err::<Seq<u8>, _>(k),
        },
{
    let mut br = BitReader::new(data);
    let mut raw: Vec<LzssCode> = Vec::new();
    let mut done = false;
    while !done
        invariant
            br.wf(),
            br.data_spec() == data@,
            !done ==> spec_blocks(data@, 0, Seq::empty()) == spec_blocks(data@, br.pos(), raw@),
            done ==> spec_blocks(data@, 0, Seq::empty()) == Ok::<_, ErrorKind>(raw@),
        decreases 8 * data@.len() - br.pos() + (if done {
            0int
        } else {
            1int
        }),
    {
        let ghost pos0 = br.pos();
        let header = match br.read_bits(3) {
            Ok(v) => v,
            Err(_) => {
                return Err(ErrorKind::InputTruncated);
            },
        };
        let bfinal = header % 2 == 1;
        let btype = header / 2;
        proof {
            crate::bits::lemma_bits_value_split(data@, pos0, 1, 2);
            crate::bits::lemma_bits_value_bound(data@, pos0 + 1, 2);
            vstd::arithmetic::power2::lemma2_to64();
            assert(bits_value(data@, pos0, 1) == (if bit_at(data@, pos0) {
                1nat
            } else {
                0nat
            }));
            assert(bfinal == bit_at(data@, pos0));
            assert(btype == bits_value(data@, pos0 + 1, 2));
        }
        if btype == 0 {
            br.byte_align();
            let ghost p = br.pos();
            proof {
                assert(p == align8(pos0 + 3));
            }
            let len = match br.read_bits(16) {
                Ok(v) => v,
                Err(_) => {
                    return Err(ErrorKind::InputTruncated);
                },
            };
            let nlen = match br.read_bits(16) {
                Ok(v) => v,
                Err(_) => {
                    return Err(ErrorKind::InputTruncated);
                },
            };
            proof {
                crate::bits::lemma_bits_value_bound(data@, p, 16);
                crate::bits::lemma_bits_value_bound(data@, p + 16, 16);
                vstd::arithmetic::power2::lemma2_to64();
            }
            if len + nlen != 0xFFFF {
                return Err(ErrorKind::InvalidStoredLength);
            }
            proof {
                let q = (pos0 + 3 + 7) / 8;
                assert(p == 8 * q);
                assert((8 * q + 32) % 8 == 0) by {
                    assert(8 * q + 32 == 8 * (q + 4));
                    vstd::arithmetic::div_mod::lemma_mod_multiples_basic(q + 4, 8);
                }
            }
            let bytes = match br.read_bytes(len as usize) {
                Ok(v) => v,
                Err(_) => {
                    return Err(ErrorKind::InputTruncated);
                },
            };
            let ghost pre = raw@;
            let mut i: usize = 0;
            while i < bytes.len()
                invariant
                    i <= bytes@.len(),
                    raw@ == pre + bytes@.take(i as int).map_values(
                        |b: u8| LzssCode::Val { code: b },
                    ),
                decreases bytes@.len() - i,
            {
                raw.push(LzssCode::Val { code: bytes[i] });
                i = i + 1;
                proof {
                    assert(raw@ =~= pre + bytes@.take(i as int).map_values(
                        |b: u8| LzssCode::Val { code: b },
                    ));
                }
            }
            proof {
                assert(bytes@.take(bytes@.len() as int) =~= bytes@);
                assert(raw@ =~= pre + bytes@.map_values(|b: u8| LzssCode::Val { code: b }));
            }
        } else if btype == 1 {
            let lit = generate_fixed_deflate_tree();
            let dist = generate_fixed_deflate_distance_tree();
            match decode_block_symbols(&lit, &dist, &mut br, &mut raw) {
                Ok(()) => {},
                Err(k) => {
                    return Err(k);
                },
            }
        } else if btype == 2 {
            let (lit, dist) = match read_dynamic_trees(&mut br) {
                Ok(x) => x,
                Err(k) => {
                    return Err(k);
                },
            };
            match decode_block_symbols(&lit, &dist, &mut br, &mut raw) {
                Ok(()) => {},
                Err(k) => {
                    return Err(k);
                },
            }
        } else {
            return Err(ErrorKind::InvalidBlockType);
        }
        if bfinal {
            done = true;
        }
    }
    match lzss_decode(&raw) {
        Ok(v) => Ok(v),
        Err(k) => Err(k),
    }
}

/// Decodes a zlib stream: CMF/FLG validation, the DEFLATE body, and the
/// big-endian Adler-32 trailer checked against the inflated output.
pub fn decode_zlib(data: &[u8]) -> (r: Result<Vec<u8>, ErrorKind>)
    ensures
        match r {
            Ok(v) => spec_decode_zlib(data@) == Ok::<_, ErrorKind>(v@),
            Err(k) => spec_decode_zlib(data@) == Err::<Seq<u8>, _>(k),
        },
{
    let n = data.len();
    if n < 2 {
        return Err(ErrorKind::InputTruncated);
    }
    let cmf = data[0];
    let flg = data[1];
    let header_ok = cmf & 0x0F == 8 && (cmf >> 4) <= 7 && ((cmf as u32) * 256 + flg as u32) % 31
        == 0 && (flg >> 5) & 1 == 0;
    if !header_ok {
        return Err(ErrorKind::ZlibFraming);
    }
    if n < 6 {
        return Err(ErrorKind::InputTruncated);
    }
    let body = &data[2..n - 4];
    let out = match decode(body) {
        Ok(v) => v,
        Err(k) => {
            return Err(k);
        },
    };
    let mut h = Adler32::new();
    h.update(out.as_slice());
    let calc = h.finalise();
    let adler: u32 = ((data[n - 4] as u32) * 0x100_0000) + ((data[n - 3] as u32) * 0x1_0000) + ((
    data[n - 2] as u32) * 0x100) + (data[n - 1] as u32);
    proof {
        assert(calc == adler32_of(out@));
        assert(adler == be32_at(data@, n - 4));
    }
    if calc != adler {
        return Err(ErrorKind::AdlerMismatch);
    }
    Ok(out)
}

} // verus!
