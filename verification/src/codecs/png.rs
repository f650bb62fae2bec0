//! The PNG decoder (RFC 2083): signature and chunk framing with CRC-32
//! verification, IHDR validation, IDAT concatenation, zlib inflation,
//! scanline defiltering, and color conversion to a packed RGB buffer.

use vstd::prelude::*;
use crate::compress::deflate::{be32_at, spec_decode_zlib, decode_zlib};
use crate::error::{DecodingError, ErrorKind, ImageError};
use crate::hashs::crc32::{crc32_of, chunk_crc};
use crate::image::{GenericImage, GenericImageColors};

verus! {

/// The color model a PNG declares in its header.
#[derive(Debug, Clone, Copy, PartialEq, Eq, Structural)]
pub enum ColorType {
    GrayScale,
    TrueColor,
    IndexedColor,
    GrayScaleAlpha,
    TrueColorAlpha,
}

/// The per-row filter of the scanline stream.
#[derive(Debug, Clone, Copy, PartialEq, Eq, Structural)]
pub enum FilterType {
    NoFilter,
    Sub,
    Up,
    Average,
    Paeth,
}

/// A framed PNG chunk: length, four-byte name, payload and stored CRC.
pub struct Chunk {
    pub len: u32,
    pub name: Vec<u8>,
    pub data: Vec<u8>,
    pub crc: u32,
}

/// The validated image header.
#[derive(Debug, Clone, Copy, PartialEq, Eq, Structural)]
pub struct IHDR {
    pub width: u32,
    pub height: u32,
    pub bit_depth: u8,
    pub color_type: ColorType,
    pub compression_method: u8,
    pub filter_method: u8,
    pub interlace_method: u8,
}

/// The color model for a color-type byte, when legal.
pub open spec fn color_type_of(v: u8) -> ColorType {
    if v == 0 {
        ColorType::GrayScale
    } else if v == 2 {
        ColorType::TrueColor
    } else if v == 3 {
        ColorType::IndexedColor
    } else if v == 4 {
        ColorType::GrayScaleAlpha
    } else {
        ColorType::TrueColorAlpha
    }
}

/// Components per pixel at bit depth 8.
pub open spec fn components(ct: ColorType) -> nat {
    match ct {
        ColorType::GrayScale => 1,
        ColorType::GrayScaleAlpha => 2,
        ColorType::TrueColor => 3,
        ColorType::TrueColorAlpha => 4,
        ColorType::IndexedColor => 1,
    }
}

/// Validating the 13 IHDR bytes, per the legal sets of RFC 2083 and this
/// decoder's supported subset (bit depth 8, no interlacing).
pub open spec fn spec_parse_ihdr(d: Seq<u8>) -> Result<IHDR, ErrorKind> {
    if d.len() != 13 {
        Err(ErrorKind::MalformedHeader)
    } else {
        let width = be32_at(d, 0);
        let height = be32_at(d, 4);
        let bit_depth = d[8];
        let color = d[9];
        let comp = d[10];
        let filt = d[11];
        let inter = d[12];
        if !(bit_depth == 1 || bit_depth == 2 || bit_depth == 4 || bit_depth == 8 || bit_depth
            == 16) {
            Err(ErrorKind::MalformedHeader)
        } else if bit_depth != 8 {
            Err(ErrorKind::Unsupported)
        } else if !(color == 0 || color == 2 || color == 3 || color == 4 || color == 6) {
            Err(ErrorKind::MalformedHeader)
        } else if !(inter == 0 || inter == 1) {
            Err(ErrorKind::MalformedHeader)
        } else if inter != 0 {
            Err(ErrorKind::Unsupported)
        } else if comp != 0 {
            Err(ErrorKind::MalformedHeader)
        } else if filt != 0 {
            Err(ErrorKind::MalformedHeader)
        } else if width == 0 || height == 0 {
            Err(ErrorKind::MalformedHeader)
        } else {
            Ok(
                IHDR {
                    width: width as u32,
                    height: height as u32,
                    bit_depth,
                    color_type: color_type_of(color),
                    compression_method: comp,
                    filter_method: filt,
                    interlace_method: inter,
                },
            )
        }
    }
}

/// The abstract state a PNG chunk stream builds up.
#[verifier::ext_equal]
pub struct PngView {
    pub ihdr: Option<IHDR>,
    pub idat: Seq<u8>,
    pub color_index: Option<Seq<(u8, u8, u8)>>,
    pub background: Option<(u8, u8, u8)>,
    pub bpp: nat,
    pub has_end: bool,
    pub idat_closed: bool,
}

pub open spec fn initial_png() -> PngView {
    PngView {
        ihdr: Option::None,
        idat: Seq::empty(),
        color_index: Option::None,
        background: Option::None,
        bpp: 0,
        has_end: false,
        idat_closed: false,
    }
}

pub open spec fn png_signature() -> Seq<u8> {
    seq![0x89u8, 0x50u8, 0x4Eu8, 0x47u8, 0x0Du8, 0x0Au8, 0x1Au8, 0x0Au8]
}

/// One chunk framed at byte `pos`: big-endian length, four-byte name,
/// payload, and a CRC that must match the CRC-32 of name plus payload.
pub open spec fn spec_chunk_at(data: Seq<u8>, pos: int) -> Result<
    (Seq<u8>, Seq<u8>, int),
    ErrorKind,
> {
    if pos + 8 > data.len() {
        Err(ErrorKind::InputTruncated)
    } else {
        let len = be32_at(data, pos);
        if pos + 12 + len > data.len() {
            Err(ErrorKind::InputTruncated)
        } else {
            let name = data.subrange(pos + 4, pos + 8);
            let payload = data.subrange(pos + 8, pos + 8 + len);
            let crc = be32_at(data, pos + 8 + len);
            if crc32_of(name + payload) != crc {
                Err(ErrorKind::ChunkCrcMismatch)
            } else {
                Ok((name, payload, pos + 12 + len))
            }
        }
    }
}

/// The palette triplets of a PLTE payload.
pub open spec fn spec_triplets(d: Seq<u8>) -> Seq<(u8, u8, u8)> {
    Seq::new(d.len() / 3, |i: int| (d[3 * i], d[3 * i + 1], d[3 * i + 2]))
}

/// Validating a PLTE payload: whole triplets, at most 256 of them, only
/// for color models that may carry a palette, and only before IDAT.
pub open spec fn spec_parse_plte(st: PngView, payload: Seq<u8>) -> Result<
    Seq<(u8, u8, u8)>,
    ErrorKind,
> {
    let h = st.ihdr->Some_0;
    if st.idat.len() > 0 {
        Err(ErrorKind::MalformedHeader)
    } else if !(h.color_type == ColorType::IndexedColor || h.color_type == ColorType::TrueColor
        || h.color_type == ColorType::TrueColorAlpha) {
        Err(ErrorKind::MalformedHeader)
    } else if payload.len() % 3 != 0 || payload.len() / 3 > 256 {
        Err(ErrorKind::MalformedHeader)
    } else {
        Ok(spec_triplets(payload))
    }
}

/// The background color a bKGD payload denotes, by color model; an
/// indexed background without a palette entry falls back to white.
pub open spec fn spec_parse_bkgd(
    payload: Seq<u8>,
    ct: ColorType,
    pal: Option<Seq<(u8, u8, u8)>>,
) -> Result<(u8, u8, u8), ErrorKind> {
    match ct {
        ColorType::TrueColor | ColorType::TrueColorAlpha => {
            if payload.len() < 3 {
                Err(ErrorKind::MalformedHeader)
            } else {
                Ok((payload[0], payload[1], payload[2]))
            }
        },
        ColorType::GrayScale | ColorType::GrayScaleAlpha => {
            if payload.len() < 1 {
                Err(ErrorKind::MalformedHeader)
            } else {
                Ok((payload[0], payload[0], payload[0]))
            }
        },
        ColorType::IndexedColor => {
            if payload.len() < 1 {
                Err(ErrorKind::MalformedHeader)
            } else {
                match pal {
                    Option::None => Ok((255, 255, 255)),
                    Option::Some(idx) => {
                        if payload[0] < idx.len() {
                            Ok(idx[payload[0] as int])
                        } else {
                            Ok((255, 255, 255))
                        }
                    },
                }
            }
        },
    }
}

pub open spec fn name_ihdr() -> Seq<u8> {
    seq![0x49u8, 0x48u8, 0x44u8, 0x52u8]
}

pub open spec fn name_idat() -> Seq<u8> {
    seq![0x49u8, 0x44u8, 0x41u8, 0x54u8]
}

pub open spec fn name_plte() -> Seq<u8> {
    seq![0x50u8, 0x4Cu8, 0x54u8, 0x45u8]
}

pub open spec fn name_iend() -> Seq<u8> {
    seq![0x49u8, 0x45u8, 0x4Eu8, 0x44u8]
}

pub open spec fn name_bkgd() -> Seq<u8> {
    seq![0x62u8, 0x4Bu8, 0x47u8, 0x44u8]
}

pub open spec fn name_text() -> Seq<u8> {
    seq![0x74u8, 0x45u8, 0x58u8, 0x74u8]
}

pub open spec fn name_ztxt() -> Seq<u8> {
    seq![0x7Au8, 0x54u8, 0x58u8, 0x74u8]
}

pub open spec fn name_phys() -> Seq<u8> {
    seq![0x70u8, 0x48u8, 0x59u8, 0x73u8]
}

pub open spec fn name_time() -> Seq<u8> {
    seq![0x74u8, 0x49u8, 0x4Du8, 0x45u8]
}

/// Folding one chunk into the stream state. IHDR must come first and
/// exactly once; IDAT chunks must be contiguous; recognized ancillary
/// chunks are skipped; unknown chunks fail when critical (uppercase first
/// letter) and are skipped otherwise.
pub open spec fn spec_png_step(st: PngView, name: Seq<u8>, payload: Seq<u8>) -> Result<
    PngView,
    ErrorKind,
> {
    if name == name_ihdr() {
        if st.ihdr is Some {
            Err(ErrorKind::MalformedHeader)
        } else {
            match spec_parse_ihdr(payload) {
                Err(k) => Err(k),
                Ok(h) => Ok(
                    PngView { ihdr: Option::Some(h), bpp: components(h.color_type), ..st },
                ),
            }
        }
    } else if st.ihdr is None {
        Err(ErrorKind::MalformedHeader)
    } else if name == name_idat() {
        if st.idat_closed {
            Err(ErrorKind::MalformedHeader)
        } else {
            Ok(PngView { idat: st.idat + payload, ..st })
        }
    } else {
        let st = PngView { idat_closed: st.idat_closed || st.idat.len() > 0, ..st };
        if name == name_plte() {
            match spec_parse_plte(st, payload) {
                Err(k) => Err(k),
                Ok(pal) => Ok(PngView { color_index: Option::Some(pal), ..st }),
            }
        } else if name == name_iend() {
            if payload.len() != 0 {
                Err(ErrorKind::MalformedHeader)
            } else {
                Ok(PngView { has_end: true, ..st })
            }
        } else if name == name_bkgd() {
            match spec_parse_bkgd(payload, st.ihdr->Some_0.color_type, st.color_index) {
                Err(k) => Err(k),
                Ok(c) => Ok(PngView { background: Option::Some(c), ..st }),
            }
        } else if name == name_text() || name == name_ztxt() || name == name_phys() || name
            == name_time() {
            Ok(st)
        } else if name.len() == 4 && 0x41 <= name[0] <= 0x5A {
            Err(ErrorKind::UnknownCriticalChunk)
        } else {
            Ok(st)
        }
    }
}

/// Folding every chunk from byte `pos` to the end of the file.
pub open spec fn spec_parse_chunks(data: Seq<u8>, pos: int, st: PngView) -> Result<
    PngView,
    ErrorKind,
>
    decreases data.len() - pos,
{
    if pos < 0 || pos > data.len() {
        Err(ErrorKind::InputTruncated)
    } else if pos == data.len() {
        Ok(st)
    } else {
        match spec_chunk_at(data, pos) {
            Err(k) => Err(k),
            Ok((name, payload, next)) => {
                if next <= pos || next > data.len() {
                    Err(ErrorKind::InputTruncated)
                } else {
                    match spec_png_step(st, name, payload) {
                        Err(k) => Err(k),
                        Ok(st2) => spec_parse_chunks(data, next, st2),
                    }
                }
            },
        }
    }
}

/// Parsing a PNG byte stream: the eight-byte signature, then chunks to
/// the end of the file.
pub open spec fn spec_parse_png(data: Seq<u8>) -> Result<PngView, ErrorKind> {
    if data.len() < 8 || data.subrange(0, 8) != png_signature() {
        Err(ErrorKind::BadSignature)
    } else {
        spec_parse_chunks(data, 8, initial_png())
    }
}

/// The Paeth predictor: whichever of `a` (left), `b` (up), `c` (upper
/// left) lies closest to `a + b - c`, ties broken in that order.
pub open spec fn paeth_spec(a: int, b: int, c: int) -> int {
    let p = a + b - c;
    let pa = if p - a >= 0 {
        p - a
    } else {
        a - p
    };
    let pb = if p - b >= 0 {
        p - b
    } else {
        b - p
    };
    let pc = if p - c >= 0 {
        p - c
    } else {
        c - p
    };
    if pa <= pb && pa <= pc {
        a
    } else if pb <= pc {
        b
    } else {
        c
    }
}

/// Reconstructed byte `i` of a filtered row: `raw` is the filtered row,
/// `prev` the reconstructed previous row (all zeros for the first row),
/// `bpp` the bytes per pixel. All arithmetic is modulo 256.
pub open spec fn recon_at(ft: u8, raw: Seq<u8>, prev: Seq<u8>, bpp: int, i: int) -> u8
    decreases i,
{
    let left: int = if bpp >= 1 && i >= bpp {
        recon_at(ft, raw, prev, bpp, i - bpp) as int
    } else {
        0
    };
    let up: int = if 0 <= i < prev.len() {
        prev[i] as int
    } else {
        0
    };
    let upleft: int = if bpp >= 1 && i >= bpp && 0 <= i - bpp < prev.len() {
        prev[i - bpp] as int
    } else {
        0
    };
    if ft == 0 {
        raw[i]
    } else if ft == 1 {
        ((raw[i] + left) % 256) as u8
    } else if ft == 2 {
        ((raw[i] + up) % 256) as u8
    } else if ft == 3 {
        ((raw[i] + (left + up) / 2) % 256) as u8
    } else {
        ((raw[i] + paeth_spec(left, up, upleft)) % 256) as u8
    }
}

/// A whole reconstructed row.
pub open spec fn recon_row(ft: u8, raw: Seq<u8>, prev: Seq<u8>, bpp: int) -> Seq<u8> {
    Seq::new(raw.len(), |i: int| recon_at(ft, raw, prev, bpp, i))
}

/// Law: reconstruction under the None filter is the identity.
pub proof fn lemma_recon_none_identity(raw: Seq<u8>, prev: Seq<u8>, bpp: int)
    ensures
        recon_row(0, raw, prev, bpp) =~= raw,
{
}

/// Reconstructing the scanlines of the inflated stream, row by row: each
/// row is one filter byte followed by `row_len` filtered bytes.
pub open spec fn recon_rows(
    inflated: Seq<u8>,
    row: int,
    prev: Seq<u8>,
    acc: Seq<u8>,
    row_len: int,
    bpp: int,
    h: int,
) -> Result<Seq<u8>, ErrorKind>
    decreases h - row,
{
    if row >= h {
        Ok(acc)
    } else {
        let base = row * (1 + row_len);
        let ft = inflated[base];
        if ft > 4 {
            Err(ErrorKind::InvalidFilter)
        } else {
            let raw = inflated.subrange(base + 1, base + 1 + row_len);
            let rec = recon_row(ft, raw, prev, bpp);
            recon_rows(inflated, row + 1, rec, acc + rec, row_len, bpp, h)
        }
    }
}

/// The defiltered pixel stream of a header and an inflated IDAT stream,
/// whose length must be exactly `height * (1 + width * components)`.
pub open spec fn spec_scanlines(inflated: Seq<u8>, h: IHDR) -> Result<Seq<u8>, ErrorKind> {
    let row_len = h.width * components(h.color_type);
    if inflated.len() != h.height * (1 + row_len) {
        Err(ErrorKind::InputTruncated)
    } else {
        recon_rows(
            inflated,
            0,
            Seq::new(row_len as nat, |i: int| 0u8),
            Seq::empty(),
            row_len as int,
            components(h.color_type) as int,
            h.height as int,
        )
    }
}

/// Alpha compositing of a foreground sample over a background sample:
/// `floor((a/255)*fg + (1 - a/255)*bg)`, in integer arithmetic.
pub open spec fn blend(a: u8, fg: u8, bg: u8) -> u8 {
    ((a * fg + (255 - a) * bg) / 255) as u8
}

/// The RGB triple of pixel `p`, by color model.
pub open spec fn pixel_rgb(
    ct: ColorType,
    img: Seq<u8>,
    pal: Seq<(u8, u8, u8)>,
    back: (u8, u8, u8),
    p: int,
) -> (u8, u8, u8) {
    match ct {
        ColorType::TrueColor => (img[3 * p], img[3 * p + 1], img[3 * p + 2]),
        ColorType::TrueColorAlpha => {
            let a = img[4 * p + 3];
            if a == 255 {
                (img[4 * p], img[4 * p + 1], img[4 * p + 2])
            } else {
                (
                    blend(a, img[4 * p], back.0),
                    blend(a, img[4 * p + 1], back.1),
                    blend(a, img[4 * p + 2], back.2),
                )
            }
        },
        ColorType::GrayScale => (img[p], img[p], img[p]),
        ColorType::GrayScaleAlpha => {
            let a = img[2 * p + 1];
            let g = img[2 * p];
            if a == 255 {
                (g, g, g)
            } else {
                let v = blend(a, g, back.0);
                (v, v, v)
            }
        },
        ColorType::IndexedColor => pal[img[p] as int],
    }
}

/// The packed RGB buffer: three bytes per pixel, row-major.
pub open spec fn rgb_bytes(
    ct: ColorType,
    img: Seq<u8>,
    pal: Seq<(u8, u8, u8)>,
    back: (u8, u8, u8),
    npix: nat,
) -> Seq<u8> {
    Seq::new(
        3 * npix,
        |k: int|
            {
                let px = pixel_rgb(ct, img, pal, back, k / 3);
                if k % 3 == 0 {
                    px.0
                } else if k % 3 == 1 {
                    px.1
                } else {
                    px.2
                }
            },
    )
}

/// Every indexed sample points inside the palette.
pub open spec fn palette_ok(img: Seq<u8>, pal: Seq<(u8, u8, u8)>) -> bool {
    forall|i: int| 0 <= i < img.len() ==> (#[trigger] img[i]) < pal.len()
}

/// The background to composite against: white unless a bKGD chunk was
/// seen.
pub open spec fn back_or_white(b: Option<(u8, u8, u8)>) -> (u8, u8, u8) {
    match b {
        Option::Some(c) => c,
        Option::None => (255, 255, 255),
    }
}

/// The full pixel pipeline of a parsed PNG: the file must be complete
/// (IEND seen), the IDAT stream inflates through zlib, the scanlines
/// defilter, and the color model reduces to packed RGB.
pub open spec fn spec_decode_to_rgb(st: PngView) -> Result<Seq<u8>, ErrorKind> {
    match st.ihdr {
        Option::None => Err(ErrorKind::MalformedHeader),
        Option::Some(h) => {
            if !st.has_end {
                Err(ErrorKind::InputTruncated)
            } else {
                match spec_decode_zlib(st.idat) {
                    Err(k) => Err(k),
                    Ok(inflated) => {
                        match spec_scanlines(inflated, h) {
                            Err(k) => Err(k),
                            Ok(img) => {
                                let npix = (h.width * h.height) as nat;
                                match h.color_type {
                                    ColorType::IndexedColor => {
                                        match st.color_index {
                                            Option::None => Err(ErrorKind::MalformedHeader),
                                            Option::Some(pal) => {
                                                if !palette_ok(img, pal) {
                                                    Err(ErrorKind::MalformedHeader)
                                                } else {
                                                    Ok(
                                                        rgb_bytes(
                                                            h.color_type,
                                                            img,
                                                            pal,
                                                            back_or_white(st.background),
                                                            npix,
                                                        ),
                                                    )
                                                }
                                            },
                                        }
                                    },
                                    _ => Ok(
                                        rgb_bytes(
                                            h.color_type,
                                            img,
                                            Seq::empty(),
                                            back_or_white(st.background),
                                            npix,
                                        ),
                                    ),
                                }
                            },
                        }
                    },
                }
            }
        },
    }
}

impl ColorType {
    /// Maps a color-type byte to its model; a byte outside the legal set
    /// is `MalformedHeader`.
    pub fn from_u8(val: u8) -> (r: Result<Self, ErrorKind>)
        ensures
            match r {
                Ok(ct) => (val == 0 || val == 2 || val == 3 || val == 4 || val == 6) && ct
                    == color_type_of(val),
                Err(k) => !(val == 0 || val == 2 || val == 3 || val == 4 || val == 6) && k
                    == ErrorKind::MalformedHeader,
            },
    {
        match val {
            0 => Ok(ColorType::GrayScale),
            2 => Ok(ColorType::TrueColor),
            3 => Ok(ColorType::IndexedColor),
            4 => Ok(ColorType::GrayScaleAlpha),
            6 => Ok(ColorType::TrueColorAlpha),
            _ => Err(ErrorKind::MalformedHeader),
        }
    }
}

/// The filter code of a filter type.
pub open spec fn filter_code(ft: FilterType) -> u8 {
    match ft {
        FilterType::NoFilter => 0,
        FilterType::Sub => 1,
        FilterType::Up => 2,
        FilterType::Average => 3,
        FilterType::Paeth => 4,
    }
}

impl FilterType {
    /// Maps a filter byte to its filter; a byte above 4 is
    /// `InvalidFilter`.
    pub fn from_u8(val: u8) -> (r: Result<Self, ErrorKind>)
        ensures
            match r {
                Ok(ft) => val <= 4 && filter_code(ft) == val,
                Err(k) => val > 4 && k == ErrorKind::InvalidFilter,
            },
    {
        match val {
            0 => Ok(FilterType::NoFilter),
            1 => Ok(FilterType::Sub),
            2 => Ok(FilterType::Up),
            3 => Ok(FilterType::Average),
            4 => Ok(FilterType::Paeth),
            _ => Err(ErrorKind::InvalidFilter),
        }
    }
}

/// Reads a 32-bit big-endian integer at byte `pos`.
fn be32_slice(d: &[u8], pos: usize) -> (r: u32)
    requires
        pos + 4 <= d@.len(),
    ensures
        r == be32_at(d@, pos as int),
{
    ((d[pos] as u32) * 0x100_0000) + ((d[pos + 1] as u32) * 0x1_0000) + ((d[pos + 2] as u32)
        * 0x100) + (d[pos + 3] as u32)
}

impl Chunk {
    /// The chunk is properly framed: a four-byte name and a payload of
    /// the declared length.
    pub open spec fn wf(self) -> bool {
        self.name@.len() == 4 && self.data@.len() == self.len
    }

    /// Computes the CRC-32 over name and payload and compares it with
    /// the stored CRC.
    pub fn check_crc(&self) -> (r: bool)
        requires
            self.name@.len() + self.data@.len() <= usize::MAX,
        ensures
            r == (crc32_of(self.name@ + self.data@) == self.crc),
    {
        let computed_crc: u32 = chunk_crc(self.name.as_slice(), self.data.as_slice());
        computed_crc == self.crc
    }
}

/// Frames the chunk that starts at byte `pos` and verifies its CRC.
#[verifier::loop_isolation(false)]
pub fn parse_chunk(data: &[u8], pos: usize) -> (r: Result<(Chunk, usize), ErrorKind>)
    requires
        pos <= data@.len(),
    ensures
        match r {
            Ok((chunk, next)) => {
                &&& spec_chunk_at(data@, pos as int) == Ok::<_, ErrorKind>(
                    (chunk.name@, chunk.data@, next as int),
                )
                &&& chunk.wf()
                &&& chunk.crc == be32_at(data@, pos + 8 + chunk.data@.len())
                &&& pos < next <= data@.len()
            },
            Err(k) => spec_chunk_at(data@, pos as int) == Err::<(Seq<u8>, Seq<u8>, int), _>(k),
        },
{
    if data.len() - pos < 8 {
        return Err(ErrorKind::InputTruncated);
    }
    let len = be32_slice(data, pos);
    if data.len() - pos < 12 || (len as usize) > data.len() - pos - 12 {
        return Err(ErrorKind::InputTruncated);
    }
    let mut name: Vec<u8> = Vec::new();
    name.push(data[pos + 4]);
    name.push(data[pos + 5]);
    name.push(data[pos + 6]);
    name.push(data[pos + 7]);
    proof {
        assert(name@ =~= data@.subrange(pos + 4, pos + 8));
    }
    let mut payload: Vec<u8> = Vec::new();
    let mut i: usize = 0;
    while i < len as usize
        invariant
            i <= len,
            pos + 12 + len <= data@.len(),
            payload@ == data@.subrange(pos + 8, pos + 8 + i),
        decreases len - i,
    {
        payload.push(data[pos + 8 + i]);
        i = i + 1;
        proof {
            assert(payload@ =~= data@.subrange(pos + 8, pos + 8 + i));
        }
    }
    let crc = be32_slice(data, pos + 8 + len as usize);
    let chunk = Chunk { len, name, data: payload, crc };
    if !chunk.check_crc() {
        return Err(ErrorKind::ChunkCrcMismatch);
    }
    Ok((chunk, pos + 12 + len as usize))
}

/// Parses and validates an IHDR payload.
pub fn parse_ihdr(ihdr_chunk: Chunk) -> (r: Result<IHDR, ErrorKind>)
    ensures
        match r {
            Ok(h) => spec_parse_ihdr(ihdr_chunk.data@) == Ok::<_, ErrorKind>(h),
            Err(k) => spec_parse_ihdr(ihdr_chunk.data@) == Err::<IHDR, _>(k),
        },
{
    let d = &ihdr_chunk.data;
    if d.len() != 13 {
        return Err(ErrorKind::MalformedHeader);
    }
    let width = be32_slice(d.as_slice(), 0);
    let height = be32_slice(d.as_slice(), 4);
    let bit_depth = d[8];
    let color = d[9];
    let comp = d[10];
    let filt = d[11];
    let inter = d[12];
    if !(bit_depth == 1 || bit_depth == 2 || bit_depth == 4 || bit_depth == 8 || bit_depth
        == 16) {
        return Err(ErrorKind::MalformedHeader);
    }
    if bit_depth != 8 {
        return Err(ErrorKind::Unsupported);
    }
    let color_type = match ColorType::from_u8(color) {
        Ok(ct) => ct,
        Err(k) => {
            return Err(k);
        },
    };
    if !(inter == 0 || inter == 1) {
        return Err(ErrorKind::MalformedHeader);
    }
    if inter != 0 {
        return Err(ErrorKind::Unsupported);
    }
    if comp != 0 {
        return Err(ErrorKind::MalformedHeader);
    }
    if filt != 0 {
        return Err(ErrorKind::MalformedHeader);
    }
    if width == 0 || height == 0 {
        return Err(ErrorKind::MalformedHeader);
    }
    Ok(
        IHDR {
            width,
            height,
            bit_depth,
            color_type,
            compression_method: comp,
            filter_method: filt,
            interlace_method: inter,
        },
    )
}

/// Checks the zero-length IEND terminator.
pub fn parse_iend(iend_chunk: Chunk) -> (r: Result<bool, ErrorKind>)
    ensures
        match r {
            Ok(b) => b && iend_chunk.data@.len() == 0,
            Err(k) => iend_chunk.data@.len() != 0 && k == ErrorKind::MalformedHeader,
        },
{
    if iend_chunk.data.len() != 0 {
        return Err(ErrorKind::MalformedHeader);
    }
    Ok(true)
}

/// Parses a PLTE payload into its palette triplets.
#[verifier::loop_isolation(false)]
pub fn parse_plte(chunk: Chunk) -> (r: Result<Vec<(u8, u8, u8)>, ErrorKind>)
    ensures
        match r {
            Ok(pal) => {
                &&& chunk.data@.len() % 3 == 0
                &&& chunk.data@.len() / 3 <= 256
                &&& pal@ == spec_triplets(chunk.data@)
            },
            Err(k) => (chunk.data@.len() % 3 != 0 || chunk.data@.len() / 3 > 256) && k
                == ErrorKind::MalformedHeader,
        },
{
    let d = &chunk.data;
    if d.len() % 3 != 0 || d.len() / 3 > 256 {
        return Err(ErrorKind::MalformedHeader);
    }
    let nb_colors = d.len() / 3;
    let mut colors: Vec<(u8, u8, u8)> = Vec::new();
    let mut i: usize = 0;
    while i < nb_colors
        invariant
            i <= nb_colors,
            nb_colors == d@.len() / 3,
            d@.len() % 3 == 0,
            colors@ == spec_triplets(d@).take(i as int),
        decreases nb_colors - i,
    {
        colors.push((d[3 * i], d[3 * i + 1], d[3 * i + 2]));
        i = i + 1;
        proof {
            assert(colors@ =~= spec_triplets(d@).take(i as int));
        }
    }
    proof {
        assert(spec_triplets(d@).take(nb_colors as int) =~= spec_triplets(d@));
    }
    Ok(colors)
}

/// The view of an optional palette.
pub open spec fn opt_pal_view(p: Option<Vec<(u8, u8, u8)>>) -> Option<Seq<(u8, u8, u8)>> {
    match p {
        Option::None => Option::None,
        Option::Some(v) => Option::Some(v@),
    }
}

/// Interprets a bKGD payload for the given color model.
pub fn parse_bkgd(
    chunk: Chunk,
    color_type: ColorType,
    indexed_colors: &Option<Vec<(u8, u8, u8)>>,
) -> (r: Result<(u8, u8, u8), ErrorKind>)
    ensures
        match r {
            Ok(c) => spec_parse_bkgd(chunk.data@, color_type, opt_pal_view(*indexed_colors))
                == Ok::<_, ErrorKind>(c),
            Err(k) => spec_parse_bkgd(chunk.data@, color_type, opt_pal_view(*indexed_colors))
                == Err::<(u8, u8, u8), _>(k),
        },
{
    let d = &chunk.data;
    match color_type {
        ColorType::TrueColor | ColorType::TrueColorAlpha => {
            if d.len() < 3 {
                Err(ErrorKind::MalformedHeader)
            } else {
                Ok((d[0], d[1], d[2]))
            }
        },
        ColorType::GrayScale | ColorType::GrayScaleAlpha => {
            if d.len() < 1 {
                Err(ErrorKind::MalformedHeader)
            } else {
                Ok((d[0], d[0], d[0]))
            }
        },
        ColorType::IndexedColor => {
            if d.len() < 1 {
                Err(ErrorKind::MalformedHeader)
            } else {
                match indexed_colors {
                    Option::None => Ok((255, 255, 255)),
                    Option::Some(index) => {
                        let color_index = d[0];
                        if (color_index as usize) < index.len() {
                            Ok(index[color_index as usize])
                        } else {
                            Ok((255, 255, 255))
                        }
                    },
                }
            }
        },
    }
}

/// Parses a pHYs payload: pixels per unit on each axis and whether the
/// unit is the metre.
pub fn parse_phys(chunk: Chunk) -> (r: Result<(u32, u32, bool), ErrorKind>)
    ensures
        match r {
            Ok((ppux, ppuy, metre)) => {
                &&& chunk.data@.len() == 9
                &&& chunk.data@[8] <= 1
                &&& ppux == be32_at(chunk.data@, 0)
                &&& ppuy == be32_at(chunk.data@, 4)
                &&& metre == (chunk.data@[8] == 1)
            },
            Err(k) => (chunk.data@.len() != 9 || chunk.data@[8] > 1) && k
                == ErrorKind::MalformedHeader,
        },
{
    let d = &chunk.data;
    if d.len() != 9 {
        return Err(ErrorKind::MalformedHeader);
    }
    let ppux = be32_slice(d.as_slice(), 0);
    let ppuy = be32_slice(d.as_slice(), 4);
    let unit = d[8];
    if unit > 1 {
        return Err(ErrorKind::MalformedHeader);
    }
    Ok((ppux, ppuy, unit == 1))
}

/// Parses a tIME payload: year, month, day, hour, minute, second.
pub fn parse_time(chunk: Chunk) -> (r: Result<(u16, u8, u8, u8, u8, u8), ErrorKind>)
    ensures
        match r {
            Ok((year, month, day, hour, minute, second)) => {
                &&& chunk.data@.len() == 7
                &&& year == chunk.data@[0] * 256 + chunk.data@[1]
                &&& month == chunk.data@[2]
                &&& day == chunk.data@[3]
                &&& hour == chunk.data@[4]
                &&& minute == chunk.data@[5]
                &&& second == chunk.data@[6]
            },
            Err(k) => chunk.data@.len() != 7 && k == ErrorKind::MalformedHeader,
        },
{
    let d = &chunk.data;
    if d.len() != 7 {
        return Err(ErrorKind::MalformedHeader);
    }
    let year: u16 = (d[0] as u16) * 256 + (d[1] as u16);
    Ok((year, d[2], d[3], d[4], d[5], d[6]))
}

/// A parsed PNG file: header, concatenated compressed pixel data,
/// optional palette and background, and bookkeeping for chunk ordering.
pub struct PngImage {
    ihdr: Option<IHDR>,
    idat: Vec<u8>,
    color_index: Option<Vec<(u8, u8, u8)>>,
    background: Option<(u8, u8, u8)>,
    bpp: usize,
    has_end: bool,
    idat_closed: bool,
}

impl View for PngImage {
    type V = PngView;

    closed spec fn view(&self) -> PngView {
        PngView {
            ihdr: self.ihdr,
            idat: self.idat@,
            color_index: opt_pal_view(self.color_index),
            background: self.background,
            bpp: self.bpp as nat,
            has_end: self.has_end,
            idat_closed: self.idat_closed,
        }
    }
}

/// The bytes-per-pixel field agrees with the header, and a header that
/// has been accepted has positive dimensions.
pub open spec fn png_wf(v: PngView) -> bool {
    match v.ihdr {
        Option::None => v.bpp == 0,
        Option::Some(h) => v.bpp == components(h.color_type) && h.width >= 1 && h.height >= 1,
    }
}

/// Compares a four-byte chunk name against a literal name.
fn name_is(name: &Vec<u8>, a: u8, b: u8, c: u8, d: u8) -> (r: bool)
    requires
        name@.len() == 4,
    ensures
        r == (name@ == seq![a, b, c, d]),
{
    let eq = name[0] == a && name[1] == b && name[2] == c && name[3] == d;
    proof {
        if eq {
            assert(name@ =~= seq![a, b, c, d]);
        } else {
            assert(name@ != seq![a, b, c, d]);
        }
    }
    eq
}

impl PngImage {
    /// The in-memory state is consistent with its abstract view.
    pub open spec fn wf(self) -> bool {
        png_wf(self@)
    }

    fn new() -> (r: PngImage)
        ensures
            r@ == initial_png(),
            r.wf(),
    {
        let r = PngImage {
            ihdr: Option::None,
            idat: Vec::new(),
            color_index: Option::None,
            background: Option::None,
            bpp: 0,
            has_end: false,
            idat_closed: false,
        };
        proof {
            assert(r@ =~= initial_png());
        }
        r
    }

    fn scanline_nb_pixel_components_inner(&self) -> (r: u32)
        requires
            (self@.ihdr is Some),
        ensures
            r == components(self@.ihdr->Some_0.color_type),
    {
        match self.ihdr {
            Option::Some(h) => match h.color_type {
                ColorType::GrayScale => 1,
                ColorType::GrayScaleAlpha => 2,
                ColorType::TrueColor => 3,
                ColorType::TrueColorAlpha => 4,
                ColorType::IndexedColor => 1,
            },
            Option::None => 0,
        }
    }

    /// Derives the bytes-per-pixel field from the header.
    fn calculate_bpp(&mut self)
        requires
            (old(self)@.ihdr is Some),
        ensures
            *final(self) == (PngImage {
                bpp: components(old(self)@.ihdr->Some_0.color_type) as usize,
                ..*old(self)
            }),
    {
        self.bpp = self.scanline_nb_pixel_components_inner() as usize;
    }

    /// Folds one chunk into the image state, as `spec_png_step` says.
    #[verifier::rlimit(100)]
    fn apply_chunk(&mut self, chunk: Chunk) -> (r: Result<(), ErrorKind>)
        requires
            old(self).wf(),
            chunk.wf(),
        ensures
            final(self).wf(),
            match r {
                Ok(()) => spec_png_step(old(self)@, chunk.name@, chunk.data@) == Ok::<
                    _,
                    ErrorKind,
                >(final(self)@),
                Err(k) => spec_png_step(old(self)@, chunk.name@, chunk.data@) == Err::<
                    PngView,
                    _,
                >(k),
            },
    {
        let ghost st0 = self@;
        if name_is(&chunk.name, 0x49, 0x48, 0x44, 0x52) {
            if match self.ihdr {
                Option::Some(_) => true,
                Option::None => false,
            } {
                return Err(ErrorKind::MalformedHeader);
            }
            let h = match parse_ihdr(chunk) {
                Ok(h) => h,
                Err(k) => {
                    return Err(k);
                },
            };
            proof {
                assert(h.width >= 1 && h.height >= 1);
            }
            self.ihdr = Option::Some(h);
            self.calculate_bpp();
            proof {
                assert(self@ =~= PngView {
                    ihdr: Option::Some(h),
                    bpp: components(h.color_type),
                    ..st0
                });
            }
            return Ok(());
        }
        if match self.ihdr {
            Option::None => true,
            Option::Some(_) => false,
        } {
            return Err(ErrorKind::MalformedHeader);
        }
        if name_is(&chunk.name, 0x49, 0x44, 0x41, 0x54) {
            if self.idat_closed {
                return Err(ErrorKind::MalformedHeader);
            }
            self.idat.extend_from_slice(chunk.data.as_slice());
            proof {
                assert(self@ =~= PngView { idat: st0.idat + chunk.data@, ..st0 });
            }
            return Ok(());
        }
        let had_idat = self.idat.len() > 0;
        if had_idat {
            self.idat_closed = true;
        }
        let ghost st1 = PngView { idat_closed: st0.idat_closed || st0.idat.len() > 0, ..st0 };
        proof {
            assert(self@ =~= st1);
        }
        if name_is(&chunk.name, 0x50, 0x4C, 0x54, 0x45) {
            if self.idat.len() > 0 {
                return Err(ErrorKind::MalformedHeader);
            }
            let ct_ok = match self.ihdr {
                Option::Some(h) => match h.color_type {
                    ColorType::IndexedColor => true,
                    ColorType::TrueColor => true,
                    ColorType::TrueColorAlpha => true,
                    _ => false,
                },
                Option::None => false,
            };
            if !ct_ok {
                return Err(ErrorKind::MalformedHeader);
            }
            let pal = match parse_plte(chunk) {
                Ok(p) => p,
                Err(k) => {
                    return Err(k);
                },
            };
            self.color_index = Option::Some(pal);
            proof {
                assert(self@ =~= PngView { color_index: self@.color_index, ..st1 });
            }
            return Ok(());
        }
        if name_is(&chunk.name, 0x49, 0x45, 0x4E, 0x44) {
            match parse_iend(chunk) {
                Ok(_) => {},
                Err(k) => {
                    return Err(k);
                },
            }
            self.has_end = true;
            proof {
                assert(self@ =~= PngView { has_end: true, ..st1 });
            }
            return Ok(());
        }
        if name_is(&chunk.name, 0x62, 0x4B, 0x47, 0x44) {
            let ct = match self.ihdr {
                Option::Some(h) => h.color_type,
                Option::None => ColorType::GrayScale,
            };
            let bcolor = match parse_bkgd(chunk, ct, &self.color_index) {
                Ok(c) => c,
                Err(k) => {
                    return Err(k);
                },
            };
            self.background = Option::Some(bcolor);
            proof {
                assert(self@ =~= PngView { background: Option::Some(bcolor), ..st1 });
            }
            return Ok(());
        }
        if name_is(&chunk.name, 0x74, 0x45, 0x58, 0x74) || name_is(
            &chunk.name,
            0x7A,
            0x54,
            0x58,
            0x74,
        ) || name_is(&chunk.name, 0x70, 0x48, 0x59, 0x73) || name_is(
            &chunk.name,
            0x74,
            0x49,
            0x4D,
            0x45,
        ) {
            return Ok(());
        }
        let first = chunk.name[0];
        if 0x41 <= first && first <= 0x5A {
            return Err(ErrorKind::UnknownCriticalChunk);
        }
        Ok(())
    }
}

/// Parses a complete PNG byte stream: the signature, then every chunk in
/// order, enforcing that IHDR comes first and exactly once, that IDAT
/// chunks are contiguous, and that every CRC matches.
#[verifier::loop_isolation(false)]
pub fn parse_png(data: &[u8]) -> (r: Result<PngImage, ErrorKind>)
    ensures
        match r {
            Ok(img) => spec_parse_png(data@) == Ok::<_, ErrorKind>(img@) && img.wf(),
            Err(k) => spec_parse_png(data@) == Err::<PngView, _>(k),
        },
{
    if data.len() < 8 || data[0] != 0x89 || data[1] != 0x50 || data[2] != 0x4E || data[3] != 0x47
        || data[4] != 0x0D || data[5] != 0x0A || data[6] != 0x1A || data[7] != 0x0A {
        proof {
            if data@.len() >= 8 {
                assert(data@.subrange(0, 8) != png_signature()) by {
                    if data@.subrange(0, 8) == png_signature() {
                        assert(data@.subrange(0, 8)[0] == 0x89u8);
                        assert(data@.subrange(0, 8)[1] == 0x50u8);
                        assert(data@.subrange(0, 8)[2] == 0x4Eu8);
                        assert(data@.subrange(0, 8)[3] == 0x47u8);
                        assert(data@.subrange(0, 8)[4] == 0x0Du8);
                        assert(data@.subrange(0, 8)[5] == 0x0Au8);
                        assert(data@.subrange(0, 8)[6] == 0x1Au8);
                        assert(data@.subrange(0, 8)[7] == 0x0Au8);
                    }
                }
            }
        }
        return Err(ErrorKind::BadSignature);
    }
    proof {
        assert(data@.subrange(0, 8) =~= png_signature());
    }
    let mut image = PngImage::new();
    let mut pos: usize = 8;
    while pos < data.len()
        invariant
            8 <= pos <= data@.len(),
            image.wf(),
            spec_parse_chunks(data@, 8, initial_png()) == spec_parse_chunks(
                data@,
                pos as int,
                image@,
            ),
        decreases data@.len() - pos,
    {
        let (chunk, next) = match parse_chunk(data, pos) {
            Ok(x) => x,
            Err(k) => {
                return Err(k);
            },
        };
        match image.apply_chunk(chunk) {
            Ok(()) => {},
            Err(k) => {
                return Err(k);
            },
        }
        pos = next;
    }
    Ok(image)
}

/// The Paeth predictor over one byte of left, up and upper-left context.
/// It always answers with one of its three inputs.
pub fn peath_predictor(a: i16, b: i16, c: i16) -> (r: u8)
    requires
        0 <= a <= 255,
        0 <= b <= 255,
        0 <= c <= 255,
    ensures
        r == paeth_spec(a as int, b as int, c as int),
        r == a || r == b || r == c,
{
    let p = a + b - c;
    let pa = if p - a >= 0 {
        p - a
    } else {
        a - p
    };
    let pb = if p - b >= 0 {
        p - b
    } else {
        b - p
    };
    let pc = if p - c >= 0 {
        p - c
    } else {
        c - p
    };
    let ret: i16;
    if pa <= pb && pa <= pc {
        ret = a;
    } else if pb <= pc {
        ret = b;
    } else {
        ret = c;
    }
    ret as u8
}

impl PngImage {
    /// The number of pixels of the image.
    pub fn nb_pixels(&self) -> (r: u64)
        requires
            (self@.ihdr is Some),
        ensures
            r == self@.ihdr->Some_0.width * self@.ihdr->Some_0.height,
    {
        let h = match &self.ihdr {
            Option::Some(h) => *h,
            Option::None => {
                proof {
                    assert(false);
                }
                IHDR {
                    width: 0,
                    height: 0,
                    bit_depth: 0,
                    color_type: ColorType::GrayScale,
                    compression_method: 0,
                    filter_method: 0,
                    interlace_method: 0,
                }
            },
        };
        proof {
            assert(h.height * h.width <= 0xFFFF_FFFFu64 * 0xFFFF_FFFFu64) by (nonlinear_arith)
                requires
                    h.height <= 0xFFFF_FFFFu64 && h.width <= 0xFFFF_FFFFu64,
            ;
            assert(h.height * h.width == self@.ihdr->Some_0.width * self@.ihdr->Some_0.height)
                by (nonlinear_arith)
                requires
                    h.height == self@.ihdr->Some_0.height && h.width == self@.ihdr->Some_0.width,
            ;
        }
        (h.height as u64) * (h.width as u64)
    }

    /// Components per pixel for the image's color model.
    pub fn scanline_nb_pixel_components(&self) -> (r: u32)
        requires
            (self@.ihdr is Some),
        ensures
            r == components(self@.ihdr->Some_0.color_type),
            1 <= r <= 4,
    {
        self.scanline_nb_pixel_components_inner()
    }

    /// The total number of defiltered pixel bytes.
    pub fn scanline_pixel_data_size(&self) -> (r: u128)
        requires
            (self@.ihdr is Some),
        ensures
            r == self@.ihdr->Some_0.width * self@.ihdr->Some_0.height * components(
                self@.ihdr->Some_0.color_type,
            ),
    {
        let n = self.nb_pixels();
        let c = self.scanline_nb_pixel_components();
        proof {
            let h = self@.ihdr->Some_0;
            assert(n * c <= 0xFFFF_FFFF_FFFF_FFFFu128 * 4) by (nonlinear_arith)
                requires
                    n <= 0xFFFF_FFFF_FFFF_FFFFu128 && c <= 4,
            ;
            assert((h.width * h.height) * c == h.width * h.height * components(h.color_type))
                by (nonlinear_arith)
                requires
                    n == h.width * h.height && c == components(h.color_type),
            ;
        }
        (n as u128) * (c as u128)
    }

    /// The number of pixel bytes in one row.
    pub fn scanline_len(&self) -> (r: u64)
        requires
            (self@.ihdr is Some),
        ensures
            r == self@.ihdr->Some_0.width * components(self@.ihdr->Some_0.color_type),
    {
        let h = match &self.ihdr {
            Option::Some(h) => h,
            Option::None => {
                return 0;
            },
        };
        let c = self.scanline_nb_pixel_components();
        (h.width as u64) * (c as u64)
    }

    /// Reconstructs one filtered scanline in place: `prev` is the
    /// reconstructed previous row (all zeros for the first row). Both
    /// rows are exactly one scanline of pixel bytes wide.
    #[verifier::loop_isolation(false)]
    pub fn filter_scanline(&self, prev: &Vec<u8>, sl: &mut Vec<u8>, filter_method: FilterType)
        requires
            self.wf(),
            (self@.ihdr is Some),
            old(sl)@.len() == self@.ihdr->Some_0.width * components(self@.ihdr->Some_0.color_type),
            prev@.len() == old(sl)@.len(),
        ensures
            final(sl)@ == recon_row(
                filter_code(filter_method),
                old(sl)@,
                prev@,
                components(self@.ihdr->Some_0.color_type) as int,
            ),
    {
        let bpp = self.scanline_nb_pixel_components() as usize;
        let ghost code = filter_code(filter_method);
        let ghost raw = sl@;
        let ghost bppi = bpp as int;
        let n = sl.len();
        let mut out: Vec<u8> = Vec::new();
        let mut i: usize = 0;
        while i < n
            invariant
                out@.len() == i,
                i <= n,
                forall|j: int| 0 <= j < i ==> out@[j] == recon_at(code, raw, prev@, bppi, j),
                sl@ == raw,
            decreases n - i,
        {
            let x: u8 = match filter_method {
                FilterType::NoFilter => 0,
                FilterType::Sub => if i >= bpp {
                    out[i - bpp]
                } else {
                    0
                },
                FilterType::Up => prev[i],
                FilterType::Average => {
                    let l: u16 = if i >= bpp {
                        out[i - bpp] as u16
                    } else {
                        0
                    };
                    ((l + prev[i] as u16) / 2) as u8
                },
                FilterType::Paeth => {
                    let l: i16 = if i >= bpp {
                        out[i - bpp] as i16
                    } else {
                        0
                    };
                    let ul: i16 = if i >= bpp {
                        prev[i - bpp] as i16
                    } else {
                        0
                    };
                    peath_predictor(l, prev[i] as i16, ul)
                },
            };
            let v = sl[i].wrapping_add(x);
            proof {
                assert(v == ((raw[i as int] + x) % 256) as u8);
                assert(v == recon_at(code, raw, prev@, bppi, i as int));
            }
            out.push(v);
            i = i + 1;
        }
        *sl = out;
        proof {
            assert(sl@ =~= recon_row(code, raw, prev@, bppi));
        }
    }

    /// Inflates the IDAT stream through zlib and defilters every
    /// scanline, yielding the raw pixel bytes.
    #[verifier::loop_isolation(false)]
    #[verifier::rlimit(60)]
    pub fn decode_scanlines(&self) -> (r: Result<Vec<u8>, ErrorKind>)
        requires
            self.wf(),
            (self@.ihdr is Some),
        ensures
            ({
                let pipeline = match spec_decode_zlib(self@.idat) {
                    Err(k) => Err(k),
                    Ok(inflated) => spec_scanlines(inflated, self@.ihdr->Some_0),
                };
                match r {
                    Ok(v) => pipeline == Ok::<_, ErrorKind>(v@),
                    Err(k) => pipeline == Err::<Seq<u8>, _>(k),
                }
            }),
    {
        let ghost h = self@.ihdr->Some_0;
        let decoded = match decode_zlib(self.idat.as_slice()) {
            Ok(v) => v,
            Err(k) => {
                return Err(k);
            },
        };
        let row_len64 = self.scanline_len();
        let height = match &self.ihdr {
            Option::Some(hh) => hh.height,
            Option::None => 0,
        };
        proof {
            assert((height as int) * (1 + row_len64 as int) <= 0xFFFF_FFFFu128
                * 0x1_0000_0000_0000_0000u128) by (nonlinear_arith)
                requires
                    height <= 0xFFFF_FFFFu128 && row_len64 <= 0xFFFF_FFFF_FFFF_FFFFu128,
            ;
        }
        let expected: u128 = (height as u128) * (1u128 + row_len64 as u128);
        if (decoded.len() as u128) != expected {
            return Err(ErrorKind::InputTruncated);
        }
        proof {
            assert(decoded@.len() == h.height * (1 + h.width * components(h.color_type)));
            assert(1 + row_len64 <= expected) by (nonlinear_arith)
                requires
                    height >= 1 && expected == (height as int) * (1 + row_len64 as int),
            ;
        }
        let row_len = row_len64 as usize;
        let bpp = self.scanline_nb_pixel_components() as usize;
        let ghost row_leni = row_len as int;
        let mut prev: Vec<u8> = Vec::new();
        let mut z: usize = 0;
        while z < row_len
            invariant
                z <= row_len,
                prev@ =~= Seq::new(z as nat, |i: int| 0u8),
            decreases row_len - z,
        {
            prev.push(0);
            z = z + 1;
            proof {
                assert(prev@ =~= Seq::new(z as nat, |i: int| 0u8));
            }
        }
        let mut ret: Vec<u8> = Vec::new();
        let mut row: usize = 0;
        let hu = height as usize;
        proof {
            assert(h.height * (1 + row_leni) == decoded@.len());
            assert(hu * (1 + row_leni) == decoded@.len());
        }
        while row < hu
            invariant
                row <= hu,
                hu * (1 + row_leni) == decoded@.len(),
                row_leni == h.width * components(h.color_type),
                bpp == components(h.color_type),
                prev@.len() == row_len,
                recon_rows(
                    decoded@,
                    0,
                    Seq::new(row_leni as nat, |i: int| 0u8),
                    Seq::empty(),
                    row_leni,
                    bpp as int,
                    hu as int,
                ) == recon_rows(decoded@, row as int, prev@, ret@, row_leni, bpp as int, hu as int),
            decreases hu - row,
        {
            proof {
                assert(row * (1 + row_leni) + (1 + row_leni) <= hu * (1 + row_leni))
                    by (nonlinear_arith)
                    requires
                        row < hu && row_leni >= 0,
                ;
            }
            let base = row * (1 + row_len);
            let ft_byte = decoded[base];
            let ft = match FilterType::from_u8(ft_byte) {
                Ok(f) => f,
                Err(k) => {
                    return Err(k);
                },
            };
            let mut sl: Vec<u8> = Vec::new();
            let mut j: usize = 0;
            while j < row_len
                invariant
                    j <= row_len,
                    base + 1 + row_len <= decoded@.len(),
                    sl@ == decoded@.subrange(base as int + 1, base + 1 + j),
                decreases row_len - j,
            {
                sl.push(decoded[base + 1 + j]);
                j = j + 1;
                proof {
                    assert(sl@ =~= decoded@.subrange(base as int + 1, base + 1 + j));
                }
            }
            let ghost raw_row = sl@;
            let ghost ret_pre = ret@;
            self.filter_scanline(&prev, &mut sl, ft);
            ret.extend_from_slice(sl.as_slice());
            proof {
                let basei = row * (1 + row_leni);
                assert(decoded@[basei] == ft_byte);
                assert(raw_row =~= decoded@.subrange(basei + 1, basei + 1 + row_leni));
                assert(sl@ == recon_row(ft_byte, raw_row, prev@, bpp as int));
                assert(recon_rows(decoded@, row as int, prev@, ret_pre, row_leni, bpp as int, hu as int)
                    == recon_rows(
                    decoded@,
                    row + 1,
                    sl@,
                    ret_pre + sl@,
                    row_leni,
                    bpp as int,
                    hu as int,
                ));
            }
            prev = sl;
            row = row + 1;
            proof {
                assert(ret@ == ret_pre + prev@);
                assert(recon_rows(
                    decoded@,
                    0,
                    Seq::new(row_leni as nat, |i: int| 0u8),
                    Seq::empty(),
                    row_leni,
                    bpp as int,
                    hu as int,
                ) == recon_rows(
                    decoded@,
                    row as int,
                    prev@,
                    ret@,
                    row_leni,
                    bpp as int,
                    hu as int,
                ));
            }
        }
        Ok(ret)
    }
}

/// The pixel pipeline without the completeness check: inflate, defilter,
/// convert.
pub open spec fn spec_rgb_pixels(st: PngView) -> Result<Seq<u8>, ErrorKind> {
    match st.ihdr {
        Option::None => Err(ErrorKind::MalformedHeader),
        Option::Some(h) => {
            match spec_decode_zlib(st.idat) {
                Err(k) => Err(k),
                Ok(inflated) => {
                    match spec_scanlines(inflated, h) {
                        Err(k) => Err(k),
                        Ok(img) => {
                            let npix = (h.width * h.height) as nat;
                            match h.color_type {
                                ColorType::IndexedColor => {
                                    match st.color_index {
                                        Option::None => Err(ErrorKind::MalformedHeader),
                                        Option::Some(pal) => {
                                            if !palette_ok(img, pal) {
                                                Err(ErrorKind::MalformedHeader)
                                            } else {
                                                Ok(
                                                    rgb_bytes(
                                                        h.color_type,
                                                        img,
                                                        pal,
                                                        back_or_white(st.background),
                                                        npix,
                                                    ),
                                                )
                                            }
                                        },
                                    }
                                },
                                _ => Ok(
                                    rgb_bytes(
                                        h.color_type,
                                        img,
                                        Seq::empty(),
                                        back_or_white(st.background),
                                        npix,
                                    ),
                                ),
                            }
                        },
                    }
                },
            }
        },
    }
}

/// A reconstruction that succeeds yields one row of pixels per scanline.
proof fn lemma_recon_rows_len(
    inflated: Seq<u8>,
    row: int,
    prev: Seq<u8>,
    acc: Seq<u8>,
    row_len: int,
    bpp: int,
    h: int,
)
    requires
        0 <= row <= h,
        row_len >= 0,
        inflated.len() == h * (1 + row_len),
        (recon_rows(inflated, row, prev, acc, row_len, bpp, h) is Ok),
    ensures
        recon_rows(inflated, row, prev, acc, row_len, bpp, h)->Ok_0.len() == acc.len() + (h - row)
            * row_len,
    decreases h - row,
{
    if row >= h {
        assert((h - row) * row_len == 0) by (nonlinear_arith)
            requires
                h == row,
        ;
    } else {
        let base = row * (1 + row_len);
        assert(0 <= base && base + 1 + row_len <= h * (1 + row_len)) by (nonlinear_arith)
            requires
                0 <= row < h && row_len >= 0 && base == row * (1 + row_len),
        ;
        let ft = inflated[base];
        let raw = inflated.subrange(base + 1, base + 1 + row_len);
        let rec = recon_row(ft, raw, prev, bpp);
        assert(rec.len() == row_len);
        assert(ft <= 4);
        assert(recon_rows(inflated, row, prev, acc, row_len, bpp, h) == recon_rows(
            inflated,
            row + 1,
            rec,
            acc + rec,
            row_len,
            bpp,
            h,
        ));
        assert((acc + rec).len() == acc.len() + row_len);
        lemma_recon_rows_len(inflated, row + 1, rec, acc + rec, row_len, bpp, h);
        assert((h - row) * row_len == (h - row - 1) * row_len + row_len) by (nonlinear_arith);
    }
}

/// Composites a foreground sample over a background sample with the
/// given alpha.
pub fn alpha_blend(component_a: u8, component_b: u8, alpha: u8) -> (r: u8)
    ensures
        r == blend(alpha, component_a, component_b),
{
    let fg = component_a as u32;
    let bg = component_b as u32;
    let a = alpha as u32;
    proof {
        assert(a * fg + (255 - a) * bg <= 255 * 255u32) by (nonlinear_arith)
            requires
                a <= 255u32 && fg <= 255u32 && bg <= 255u32,
        ;
    }
    ((a * fg + (255 - a) * bg) / 255) as u8
}

/// Maps every indexed sample through the palette; a sample outside the
/// palette is `MalformedHeader`.
#[verifier::loop_isolation(false)]
pub fn map_indexed_color(index: &Vec<(u8, u8, u8)>, img: &Vec<u8>, size: usize) -> (r: Result<
    Vec<u8>,
    ErrorKind,
>)
    ensures
        match r {
            Ok(v) => palette_ok(img@, index@) && v@ == rgb_bytes(
                ColorType::IndexedColor,
                img@,
                index@,
                (255, 255, 255),
                img@.len(),
            ),
            Err(k) => !palette_ok(img@, index@) && k == ErrorKind::MalformedHeader,
        },
{
    let ghost target = rgb_bytes(ColorType::IndexedColor, img@, index@, (255, 255, 255), img@.len());
    let mut ret: Vec<u8> = Vec::with_capacity(size);
    let mut i: usize = 0;
    while i < img.len()
        invariant
            i <= img@.len(),
            ret@.len() == 3 * i,
            forall|j: int| 0 <= j < i ==> (#[trigger] img@[j]) < index@.len(),
            forall|k: int| 0 <= k < 3 * i ==> ret@[k] == target[k],
        decreases img@.len() - i,
    {
        let b = img[i];
        if (b as usize) >= index.len() {
            return Err(ErrorKind::MalformedHeader);
        }
        let (cr, cg, cb) = index[b as usize];
        ret.push(cr);
        ret.push(cg);
        ret.push(cb);
        proof {
            vstd::arithmetic::div_mod::lemma_fundamental_div_mod_converse(3 * i as int, 3, i as int, 0);
            vstd::arithmetic::div_mod::lemma_fundamental_div_mod_converse(
                3 * i as int + 1,
                3,
                i as int,
                1,
            );
            vstd::arithmetic::div_mod::lemma_fundamental_div_mod_converse(
                3 * i as int + 2,
                3,
                i as int,
                2,
            );
        }
        i = i + 1;
    }
    proof {
        assert(ret@ =~= target);
    }
    Ok(ret)
}

impl PngImage {
    /// Converts the defiltered pixel stream to a packed RGB buffer, per
    /// the image's color model.
    #[verifier::loop_isolation(false)]
    #[verifier::rlimit(100)]
    pub fn decode_to_rgb(&self) -> (r: Result<Vec<u8>, ErrorKind>)
        requires
            self.wf(),
            (self@.ihdr is Some),
        ensures
            match r {
                Ok(v) => spec_rgb_pixels(self@) == Ok::<_, ErrorKind>(v@),
                Err(k) => spec_rgb_pixels(self@) == Err::<Seq<u8>, _>(k),
            },
    {
        let ghost h = self@.ihdr->Some_0;
        let img = match self.decode_scanlines() {
            Ok(v) => v,
            Err(k) => {
                return Err(k);
            },
        };
        let c = self.scanline_nb_pixel_components() as usize;
        proof {
            let infl = spec_decode_zlib(self@.idat)->Ok_0;
            let row_leni = h.width * components(h.color_type);
            lemma_recon_rows_len(
                infl,
                0,
                Seq::new(row_leni as nat, |i: int| 0u8),
                Seq::empty(),
                row_leni as int,
                components(h.color_type) as int,
                h.height as int,
            );
            assert(img@.len() == h.height * (h.width * components(h.color_type)));
            assert(h.height * (h.width * components(h.color_type)) == (h.width * h.height)
                * components(h.color_type)) by (nonlinear_arith);
        }
        let ghost npix = (h.width * h.height) as nat;
        let ghost back = back_or_white(self@.background);
        proof {
            assert(img@.len() == npix * c);
            vstd::arithmetic::div_mod::lemma_div_multiples_vanish(npix as int, c as int);
            vstd::arithmetic::div_mod::lemma_mod_multiples_basic(npix as int, c as int);
            assert(c * npix == npix * c) by (nonlinear_arith);
        }
        let npix_e = img.len() / c;
        proof {
            assert(npix_e == npix);
        }
        let ct = match &self.ihdr {
            Option::Some(hh) => hh.color_type,
            Option::None => ColorType::GrayScale,
        };
        match ct {
            ColorType::TrueColor => {
                proof {
                    assert(img@ =~= rgb_bytes(ct, img@, Seq::empty(), back, npix)) by {
                        assert forall|k: int|
                            0 <= k < 3 * npix implies rgb_bytes(ct, img@, Seq::empty(), back, npix)[k]
                            == img@[k] by {
                            vstd::arithmetic::div_mod::lemma_fundamental_div_mod(k, 3);
                        }
                    }
                }
                Ok(img)
            },
            ColorType::IndexedColor => {
                let pal = match &self.color_index {
                    Option::Some(p) => p,
                    Option::None => {
                        return Err(ErrorKind::MalformedHeader);
                    },
                };
                let size = img.len();
                let out = match map_indexed_color(pal, &img, size) {
                    Ok(v) => v,
                    Err(k) => {
                        return Err(k);
                    },
                };
                proof {
                    assert(img@.len() == npix * 1) by (nonlinear_arith)
                        requires
                            img@.len() == npix * c && c == 1,
                    ;
                    assert(img@.len() == npix);
                    assert(out@ =~= rgb_bytes(ct, img@, pal@, back, npix));
                }
                Ok(out)
            },
            ColorType::GrayScale => {
                let ghost target = rgb_bytes(ct, img@, Seq::empty(), back, npix);
                let mut ret: Vec<u8> = Vec::new();
                let mut p: usize = 0;
                while p < npix_e
                    invariant
                        p <= npix_e,
                        npix_e == npix,
                        img@.len() == npix,
                        ret@.len() == 3 * p,
                        forall|k: int| 0 <= k < 3 * p ==> ret@[k] == target[k],
                    decreases npix_e - p,
                {
                    let g = img[p];
                    ret.push(g);
                    ret.push(g);
                    ret.push(g);
                    proof {
                        lemma_rgb_indices(p as int);
                    }
                    p = p + 1;
                }
                proof {
                    assert(ret@ =~= target);
                }
                Ok(ret)
            },
            ColorType::GrayScaleAlpha => {
                let ghost target = rgb_bytes(ct, img@, Seq::empty(), back, npix);
                let (br_, bg_, bb_) = match self.background {
                    Option::Some(b) => b,
                    Option::None => (255, 255, 255),
                };
                let mut ret: Vec<u8> = Vec::new();
                let mut p: usize = 0;
                while p < npix_e
                    invariant
                        p <= npix_e,
                        npix_e == npix,
                        img@.len() == npix * 2,
                        back == (br_, bg_, bb_),
                        ret@.len() == 3 * p,
                        forall|k: int| 0 <= k < 3 * p ==> ret@[k] == target[k],
                    decreases npix_e - p,
                {
                    proof {
                        assert(2 * p + 1 < 2 * npix) by (nonlinear_arith)
                            requires
                                p < npix,
                        ;
                    }
                    let g = img[2 * p];
                    let a = img[2 * p + 1];
                    let v = if a == 255 {
                        g
                    } else {
                        alpha_blend(g, br_, a)
                    };
                    ret.push(v);
                    ret.push(v);
                    ret.push(v);
                    proof {
                        lemma_rgb_indices(p as int);
                    }
                    p = p + 1;
                }
                proof {
                    assert(ret@ =~= target);
                }
                Ok(ret)
            },
            ColorType::TrueColorAlpha => {
                let ghost target = rgb_bytes(ct, img@, Seq::empty(), back, npix);
                let (br_, bg_, bb_) = match self.background {
                    Option::Some(b) => b,
                    Option::None => (255, 255, 255),
                };
                let mut ret: Vec<u8> = Vec::new();
                let mut p: usize = 0;
                while p < npix_e
                    invariant
                        p <= npix_e,
                        npix_e == npix,
                        img@.len() == npix * 4,
                        back == (br_, bg_, bb_),
                        ret@.len() == 3 * p,
                        forall|k: int| 0 <= k < 3 * p ==> ret@[k] == target[k],
                    decreases npix_e - p,
                {
                    proof {
                        assert(4 * p + 3 < 4 * npix) by (nonlinear_arith)
                            requires
                                p < npix,
                        ;
                    }
                    let a = img[4 * p + 3];
                    if a == 255 {
                        ret.push(img[4 * p]);
                        ret.push(img[4 * p + 1]);
                        ret.push(img[4 * p + 2]);
                    } else {
                        ret.push(alpha_blend(img[4 * p], br_, a));
                        ret.push(alpha_blend(img[4 * p + 1], bg_, a));
                        ret.push(alpha_blend(img[4 * p + 2], bb_, a));
                    }
                    proof {
                        lemma_rgb_indices(p as int);
                    }
                    p = p + 1;
                }
                proof {
                    assert(ret@ =~= target);
                }
                Ok(ret)
            },
        }
    }
}

/// Division facts for the three channel positions of pixel `p`.
proof fn lemma_rgb_indices(p: int)
    requires
        p >= 0,
    ensures
        (3 * p) / 3 == p && (3 * p) % 3 == 0,
        (3 * p + 1) / 3 == p && (3 * p + 1) % 3 == 1,
        (3 * p + 2) / 3 == p && (3 * p + 2) % 3 == 2,
{
    vstd::arithmetic::div_mod::lemma_fundamental_div_mod_converse(3 * p, 3, p, 0);
    vstd::arithmetic::div_mod::lemma_fundamental_div_mod_converse(3 * p + 1, 3, p, 1);
    vstd::arithmetic::div_mod::lemma_fundamental_div_mod_converse(3 * p + 2, 3, p, 2);
}

/// The whole decode: the file must be complete, then the pixel pipeline
/// runs.
pub open spec fn spec_to_rgb(st: PngView) -> Result<Seq<u8>, ErrorKind> {
    if st.ihdr is None {
        Err(ErrorKind::MalformedHeader)
    } else if !st.has_end {
        Err(ErrorKind::InputTruncated)
    } else {
        spec_rgb_pixels(st)
    }
}

impl PngImage {
    /// Decodes the image to a packed RGB buffer of exactly
    /// `3 * width * height` bytes.
    pub fn to_rgb(&self) -> (r: Result<GenericImage, ImageError>)
        requires
            self.wf(),
        ensures
            match r {
                Ok(img) => {
                    &&& (self@.ihdr is Some)
                    &&& spec_to_rgb(self@) == Ok::<_, ErrorKind>(img.data@)
                    &&& img.width == self@.ihdr->Some_0.width
                    &&& img.height == self@.ihdr->Some_0.height
                    &&& img.colors == GenericImageColors::RGB
                    &&& img.data@.len() == 3 * self@.ihdr->Some_0.width
                        * self@.ihdr->Some_0.height
                },
                Err(e) => e matches ImageError::Decoding(d) && spec_to_rgb(self@) == Err::<
                    Seq<u8>,
                    _,
                >(d.kind),
            },
    {
        let h = match &self.ihdr {
            Option::Some(h) => *h,
            Option::None => {
                return Err(ImageError::of_kind(ErrorKind::MalformedHeader));
            },
        };
        if !self.has_end {
            return Err(ImageError::of_kind(ErrorKind::InputTruncated));
        }
        let data = match self.decode_to_rgb() {
            Ok(v) => v,
            Err(k) => {
                return Err(ImageError::of_kind(k));
            },
        };
        proof {
            assert(data@.len() == 3 * ((h.width * h.height) as nat));
            assert(3 * (h.width * h.height) == 3 * h.width * h.height) by (nonlinear_arith);
        }
        Ok(GenericImage { data, colors: GenericImageColors::RGB, height: h.height, width: h.width })
    }

    /// RGBA output is not offered by this decoder.
    pub fn to_rgba(&self) -> (r: Result<GenericImage, ImageError>)
        ensures
            (r matches Err(ImageError::Decoding(d)) && d.kind == ErrorKind::Unsupported),
    {
        Err(ImageError::of_kind(ErrorKind::Unsupported))
    }

    /// Grayscale output is not offered by this decoder.
    pub fn to_g(&self) -> (r: Result<GenericImage, ImageError>)
        ensures
            (r matches Err(ImageError::Decoding(d)) && d.kind == ErrorKind::Unsupported),
    {
        Err(ImageError::of_kind(ErrorKind::Unsupported))
    }
}

#[verifier::external_type_specification]
#[verifier::external_body]
pub struct ExDecompressError(miniz_oxide::inflate::DecompressError);

/// The bytes that a well-formed zlib stream inflates to.
pub uninterp spec fn zlib_inflate_of(data: Seq<u8>) -> Seq<u8>;

/// Whether the bytes form a zlib stream that inflates successfully.
pub uninterp spec fn zlib_inflate_ok(data: Seq<u8>) -> bool;

/// Relies on miniz_oxide::inflate::decompress_to_vec_zlib: whether the
/// call succeeds, and on success the inflated bytes, are both functions
/// of the compressed input alone.
#[verifier::external_body]
fn inflate_zlib_extern(data: &[u8]) -> (r: Result<
    Vec<u8>,
    miniz_oxide::inflate::DecompressError,
>)
    ensures
        (r is Ok) == zlib_inflate_ok(data@),
        (r matches Ok(v) ==> v@ == zlib_inflate_of(data@)),
{
    miniz_oxide::inflate::decompress_to_vec_zlib(data)
}

/// The position of the first zero byte, or the length if there is none.
pub open spec fn first_zero(d: Seq<u8>) -> int
    decreases d.len(),
{
    if d.len() == 0 {
        0
    } else if d[0] == 0 {
        0
    } else {
        1 + first_zero(d.drop_first())
    }
}

proof fn lemma_first_zero(d: Seq<u8>)
    ensures
        0 <= first_zero(d) <= d.len(),
        forall|j: int| 0 <= j < first_zero(d) ==> d[j] != 0,
        first_zero(d) < d.len() ==> d[first_zero(d)] == 0,
    decreases d.len(),
{
    if d.len() > 0 && d[0] != 0 {
        lemma_first_zero(d.drop_first());
        assert forall|j: int| 0 <= j < first_zero(d) implies d[j] != 0 by {
            if j > 0 {
                assert(d.drop_first()[j - 1] == d[j]);
            }
        }
    }
}

/// A zTXt payload is well-formed when a NUL-terminated keyword is
/// followed by compression method 0 and the compressed text.
pub open spec fn ztxt_ok(d: Seq<u8>) -> bool {
    let i = first_zero(d);
    i + 1 < d.len() && d[i + 1] == 0
}

/// Splits a zTXt payload into its keyword and its inflated text. It
/// succeeds if and only if a NUL-terminated keyword is followed by
/// compression method 0 and the rest inflates as a zlib stream; a failed
/// inflation is `ZlibFraming`.
#[verifier::loop_isolation(false)]
pub fn parse_ztxt(text_chunk: &Chunk) -> (r: Result<(Vec<u8>, Vec<u8>), ErrorKind>)
    ensures
        (r is Ok) == (ztxt_ok(text_chunk.data@) && zlib_inflate_ok(
            text_chunk.data@.skip(first_zero(text_chunk.data@) + 2),
        )),
        match r {
            Ok((kw, txt)) => {
                &&& kw@ == text_chunk.data@.take(first_zero(text_chunk.data@))
                &&& txt@ == zlib_inflate_of(
                    text_chunk.data@.skip(first_zero(text_chunk.data@) + 2),
                )
            },
            Err(k) => (!ztxt_ok(text_chunk.data@) && k == ErrorKind::MalformedHeader) || (
            ztxt_ok(text_chunk.data@) && k == ErrorKind::ZlibFraming),
        },
{
    let d = &text_chunk.data;
    proof {
        lemma_first_zero(d@);
    }
    let mut i: usize = 0;
    while i < d.len() && d[i] != 0
        invariant
            i <= d@.len(),
            forall|j: int| 0 <= j < i ==> d@[j] != 0,
        decreases d@.len() - i,
    {
        i = i + 1;
    }
    proof {
        assert(i == first_zero(d@)) by {
            if i < first_zero(d@) {
                assert(d@[i as int] != 0);
            }
            if first_zero(d@) < i {
                assert(d@[first_zero(d@)] != 0);
            }
        }
    }
    if d.len() - i <= 1 {
        return Err(ErrorKind::MalformedHeader);
    }
    if d[i + 1] != 0 {
        return Err(ErrorKind::MalformedHeader);
    }
    let mut keyword: Vec<u8> = Vec::new();
    let mut j: usize = 0;
    while j < i
        invariant
            j <= i,
            i < d@.len(),
            keyword@ == d@.take(i as int).take(j as int),
        decreases i - j,
    {
        keyword.push(d[j]);
        j = j + 1;
        proof {
            assert(keyword@ =~= d@.take(i as int).take(j as int));
        }
    }
    proof {
        assert(keyword@ =~= d@.take(i as int));
    }
    let mut rest: Vec<u8> = Vec::new();
    let mut m: usize = i + 2;
    while m < d.len()
        invariant
            i + 2 <= m <= d@.len(),
            rest@ == d@.subrange(i + 2, m as int),
        decreases d@.len() - m,
    {
        rest.push(d[m]);
        m = m + 1;
        proof {
            assert(rest@ =~= d@.subrange(i + 2, m as int));
        }
    }
    proof {
        assert(rest@ =~= d@.skip(i + 2));
    }
    let decoded = match inflate_zlib_extern(rest.as_slice()) {
        Ok(v) => v,
        Err(_) => {
            return Err(ErrorKind::ZlibFraming);
        },
    };
    Ok((keyword, decoded))
}

} // verus!
