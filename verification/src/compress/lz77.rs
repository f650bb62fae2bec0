//! A sliding-window LZ77 compressor and its decompressor. The compressor
//! emits (match position, match length, next byte) triples against a
//! bounded window of recently consumed bytes; matches may overlap the
//! window boundary, wrapping with the window period.

use vstd::prelude::*;

verus! {

/// How far the prefix of `d` matches inside `w` starting at window
/// offset `i`, wrapping with period `w.len() - i`: the first `j` at which
/// the pattern stops matching (or `d.len()` when all of `d` matches).
pub open spec fn match_len_at(d: Seq<u8>, w: Seq<u8>, i: int, j: int) -> int
    decreases d.len() - j,
{
    if j < 0 || j >= d.len() {
        j
    } else if w[i + (j % (w.len() - i))] != d[j] {
        j
    } else {
        match_len_at(d, w, i, j + 1)
    }
}

/// The scan over candidate window offsets: the earliest offset with the
/// strictly longest overlapping match, or nothing when no offset starts
/// with the first byte of `d`.
pub open spec fn posl_at(
    d: Seq<u8>,
    w: Seq<u8>,
    i: int,
    best_pos: int,
    best_l: int,
    found: bool,
) -> Option<(int, int)>
    decreases w.len() - i,
{
    if i < 0 || i >= w.len() {
        if found {
            Option::Some((best_pos, best_l))
        } else {
            Option::None
        }
    } else if w[i] == d[0] {
        let l = match_len_at(d, w, i, 0);
        if l > best_l {
            posl_at(d, w, i + 1, i, l, true)
        } else {
            posl_at(d, w, i + 1, best_pos, best_l, true)
        }
    } else {
        posl_at(d, w, i + 1, best_pos, best_l, found)
    }
}

/// The longest overlapping occurrence of a prefix of `d` in `w`.
pub open spec fn spec_posl(d: Seq<u8>, w: Seq<u8>) -> Option<(int, int)> {
    if w.len() == 0 || d.len() == 0 {
        Option::None
    } else {
        posl_at(d, w, 0, 0, 0, false)
    }
}

/// Finds the position and length of the longest match of a prefix of `d`
/// inside the window `w`; the match may run past the end of `w`, wrapping
/// back to its own start.
#[verifier::loop_isolation(false)]
pub fn posl_substr_overlap(d: &[u8], w: &[u8]) -> (r: Option<(usize, usize)>)
    ensures
        match r {
            Option::Some((pos, l)) => spec_posl(d@, w@) == Option::Some((pos as int, l as int)),
            Option::None => spec_posl(d@, w@) == Option::<(int, int)>::None,
        },
{
    let wlenght = w.len();
    let dlenght = d.len();
    if wlenght == 0 || dlenght == 0 {
        return Option::None;
    }
    let mut pos: usize = 0;
    let mut l: usize = 0;
    let mut found: bool = false;
    let mut i: usize = 0;
    while i < wlenght
        invariant
            i <= wlenght,
            wlenght == w@.len(),
            dlenght == d@.len(),
            dlenght > 0,
            l <= dlenght,
            pos <= wlenght,
            posl_at(d@, w@, 0, 0, 0, false) == posl_at(
                d@,
                w@,
                i as int,
                pos as int,
                l as int,
                found,
            ),
        decreases wlenght - i,
    {
        if w[i] == d[0] {
            let mut j: usize = 0;
            while j < dlenght && w[i + (j % (wlenght - i))] == d[j]
                invariant
                    i < wlenght,
                    j <= dlenght,
                    match_len_at(d@, w@, i as int, 0) == match_len_at(d@, w@, i as int, j as int),
                decreases dlenght - j,
            {
                j = j + 1;
            }
            proof {
                assert(match_len_at(d@, w@, i as int, j as int) == j);
            }
            found = true;
            if j > l {
                l = j;
                pos = i;
            }
        }
        i = i + 1;
    }
    if !found {
        return Option::None;
    }
    Option::Some((pos, l))
}

proof fn lemma_match_len_bounds(d: Seq<u8>, w: Seq<u8>, i: int, j: int)
    requires
        0 <= j <= d.len(),
    ensures
        j <= match_len_at(d, w, i, j) <= d.len(),
    decreases d.len() - j,
{
    if j < d.len() && w[i + (j % (w.len() - i))] == d[j] {
        lemma_match_len_bounds(d, w, i, j + 1);
    }
}

proof fn lemma_posl_at_bounds(d: Seq<u8>, w: Seq<u8>, i: int, bp: int, bl: int, found: bool)
    requires
        0 <= i <= w.len(),
        d.len() > 0,
        w.len() > 0,
        found ==> (1 <= bl <= d.len() && 0 <= bp < w.len()),
        !found ==> (bl == 0 && bp == 0),
    ensures
        (posl_at(d, w, i, bp, bl, found) matches Option::Some(r) ==> 1 <= r.1 <= d.len() && 0
            <= r.0 < w.len()),
    decreases w.len() - i,
{
    if 0 <= i < w.len() {
        if w[i] == d[0] {
            lemma_match_len_bounds(d, w, i, 0);
            let l = match_len_at(d, w, i, 0);
            assert(0int % (w.len() - i) == 0);
            assert(w[i + (0int % (w.len() - i))] == d[0]);
            assert(l == match_len_at(d, w, i, 1));
            lemma_match_len_bounds(d, w, i, 1);
            if l > bl {
                lemma_posl_at_bounds(d, w, i + 1, i, l, true);
            } else {
                lemma_posl_at_bounds(d, w, i + 1, bp, bl, true);
            }
        } else {
            lemma_posl_at_bounds(d, w, i + 1, bp, bl, found);
        }
    }
}

/// A found match starts inside the window, is at least one byte long, and
/// never longer than the data.
pub proof fn lemma_posl_bounds(d: Seq<u8>, w: Seq<u8>)
    ensures
        (spec_posl(d, w) matches Option::Some(r) ==> 1 <= r.1 <= d.len() && 0 <= r.0 < w.len()),
{
    if w.len() > 0 && d.len() > 0 {
        lemma_posl_at_bounds(d, w, 0, 0, 0, false);
    }
}

/// The triples the compressor emits for `d` against the current window.
pub open spec fn compress_spec(d: Seq<u8>, window: Seq<u8>, wsize: int) -> Seq<(usize, usize, u8)>
    decreases d.len(),
{
    if d.len() == 0 {
        Seq::empty()
    } else {
        let step: (int, int, u8) = match spec_posl(d, window) {
            Option::None => (0, 0, d[0]),
            Option::Some((p, l)) => {
                if l < d.len() {
                    (p, l, d[l])
                } else {
                    (p, l - 1, d[l - 1])
                }
            },
        };
        let lom = if step.1 < 0 {
            0
        } else {
            step.1
        };
        let split = if lom + 1 > d.len() {
            d.len() as int
        } else {
            lom + 1
        };
        let popped = if window.len() + split > wsize {
            if split > window.len() {
                window.skip(window.len() as int)
            } else {
                window.skip(split)
            }
        } else {
            window
        };
        let window2 = popped + d.take(split);
        seq![(step.0 as usize, step.1 as usize, step.2)] + compress_spec(d.skip(split), window2, wsize)
    }
}

/// Compresses `data` against a sliding window of at most `window_size`
/// bytes, emitting (position, length, next byte) triples.
#[verifier::loop_isolation(false)]
#[verifier::rlimit(60)]
pub fn compress(data: &[u8], window_size: usize) -> (r: Vec<(usize, usize, u8)>)
    requires
        window_size >= 2,
    ensures
        r@ == compress_spec(data@, Seq::empty(), window_size as int),
{
    let mut window: Vec<u8> = Vec::new();
    let mut ret: Vec<(usize, usize, u8)> = Vec::new();
    let mut k: usize = 0;
    proof {
        assert(data@.skip(0) =~= data@);
    }
    while k < data.len()
        invariant
            k <= data@.len(),
            compress_spec(data@, Seq::empty(), window_size as int) == ret@ + compress_spec(
                data@.skip(k as int),
                window@,
                window_size as int,
            ),
        decreases data@.len() - k,
    {
        let ghost dd = data@.skip(k as int);
        let ghost w0 = window@;
        let d = &data[k..data.len()];
        proof {
            assert(d@ =~= dd);
        }
        let start_of_match: usize;
        let lenght_of_match: usize;
        let c: u8;
        proof {
            lemma_posl_bounds(dd, w0);
        }
        match posl_substr_overlap(d, window.as_slice()) {
            Option::Some(mat) => {
                start_of_match = mat.0;
                if mat.1 < d.len() {
                    lenght_of_match = mat.1;
                    c = d[lenght_of_match];
                } else {
                    lenght_of_match = mat.1 - 1;
                    c = d[lenght_of_match];
                }
            },
            Option::None => {
                start_of_match = 0;
                lenght_of_match = 0;
                c = d[0];
            },
        }
        ret.push((start_of_match, lenght_of_match, c));
        let split_point = lenght_of_match + 1;
        if window.len() > window_size || split_point > window_size - window.len() {
            let mut t: usize = 0;
            let ghost wpre = window@;
            while t < split_point && window.len() > 0
                invariant
                    t <= split_point,
                    window@ == (if t <= wpre.len() {
                        wpre.skip(t as int)
                    } else {
                        wpre.skip(wpre.len() as int)
                    }),
                decreases split_point - t,
            {
                window.remove(0);
                t = t + 1;
                proof {
                    assert(window@ =~= wpre.skip(t as int));
                }
            }
            proof {
                if split_point > wpre.len() {
                    assert(window@ =~= wpre.skip(wpre.len() as int));
                } else {
                    assert(window@ =~= wpre.skip(split_point as int));
                }
            }
        }
        let mut n: usize = 0;
        let ghost wmid = window@;
        while n < split_point
            invariant
                n <= split_point,
                k + split_point <= data@.len(),
                window@ == wmid + data@.subrange(k as int, k + n),
            decreases split_point - n,
        {
            window.push(data[k + n]);
            n = n + 1;
            proof {
                assert(window@ =~= wmid + data@.subrange(k as int, k + n));
            }
        }
        proof {
            assert(data@.subrange(k as int, k + split_point) =~= dd.take(split_point as int));
            assert(dd.skip(split_point as int) =~= data@.skip(k + split_point));
        }
        k = k + split_point;
    }
    proof {
        assert(data@.skip(data@.len() as int) =~= Seq::<u8>::empty());
        assert(ret@ =~= ret@ + compress_spec(
            Seq::<u8>::empty(),
            window@,
            window_size as int,
        ));
    }
    ret
}

/// The bytes a decompression step appends for a back-reference that
/// starts at `start` in `out` and may overlap its own output.
pub open spec fn copy_from(out: Seq<u8>, start: int, len: int) -> Seq<u8>
    recommends
        0 <= start < out.len(),
{
    Seq::new(len as nat, |i: int| out[start + (i % (out.len() - start))])
}

/// Every triple's back-reference stays inside the output produced before
/// it, given the window bound.
pub open spec fn lz77_valid_from(
    codes: Seq<(usize, usize, u8)>,
    k: int,
    outlen: int,
    curr: int,
    wsize: int,
) -> bool
    decreases codes.len() - k,
{
    if k < 0 || k >= codes.len() {
        true
    } else {
        let (pos, len, ch) = codes[k];
        let ok = len == 0 || (0 <= curr + pos < outlen);
        let outlen2 = outlen + len + 1;
        let curr2 = if outlen2 > wsize {
            curr + len + 1
        } else {
            curr
        };
        ok && lz77_valid_from(codes, k + 1, outlen2, curr2, wsize)
    }
}

/// The whole code sequence is decompressible.
pub open spec fn lz77_valid(codes: Seq<(usize, usize, u8)>, wsize: int) -> bool {
    lz77_valid_from(codes, 0, 0, 0, wsize)
}

/// The stream a code sequence decompresses to.
pub open spec fn lz77_decompress_spec(codes: Seq<(usize, usize, u8)>, wsize: int) -> Seq<u8> {
    decomp_from(codes, 0, Seq::empty(), 0, wsize)
}

/// The decompressed stream: each triple copies `len` bytes from the
/// window position, then appends its literal byte; the window start
/// advances once the output exceeds the window size.
pub open spec fn decomp_from(
    codes: Seq<(usize, usize, u8)>,
    k: int,
    out: Seq<u8>,
    curr: int,
    wsize: int,
) -> Seq<u8>
    decreases codes.len() - k,
{
    if k < 0 || k >= codes.len() {
        out
    } else {
        let (pos, len, ch) = codes[k];
        let out2 = out + copy_from(out, curr + pos, len as int);
        let out3 = out2.push(ch);
        let curr2 = if out3.len() > wsize {
            curr + len + 1
        } else {
            curr
        };
        decomp_from(codes, k + 1, out3, curr2, wsize)
    }
}

/// Reconstructs the byte stream from (position, length, next byte)
/// triples; every back-reference must land inside the bytes already
/// produced.
#[verifier::loop_isolation(false)]
pub fn decompress(compressed_data: Vec<(usize, usize, u8)>, window_size: usize) -> (r: Vec<u8>)
    requires
        window_size >= 2,
        lz77_valid(compressed_data@, window_size as int),
    ensures
        r@ == lz77_decompress_spec(compressed_data@, window_size as int),
{
    let mut ret: Vec<u8> = Vec::new();
    let mut curr: usize = 0;
    let mut k: usize = 0;
    while k < compressed_data.len()
        invariant
            k <= compressed_data@.len(),
            curr <= ret@.len(),
            lz77_valid_from(compressed_data@, k as int, ret@.len() as int, curr as int,
                window_size as int,
            ),
            lz77_decompress_spec(compressed_data@, window_size as int) == decomp_from(
                compressed_data@,
                k as int,
                ret@,
                curr as int,
                window_size as int,
            ),
        decreases compressed_data@.len() - k,
    {
        let (pos, len, d) = compressed_data[k];
        let ghost out0 = ret@;
        proof {
            assert(compressed_data@[k as int] == (pos, len, d));
            assert(len == 0 || (0 <= curr + pos < out0.len()));
        }
        if len > 0 {
            let retlen = ret.len();
            let start = curr + pos;
            let period = retlen - start;
            let mut i: usize = 0;
            while i < len
                invariant
                    i <= len,
                    start < out0.len(),
                    period == out0.len() - start,
                    ret@ == out0 + copy_from(out0, start as int, i as int),
                decreases len - i,
            {
                let b = ret[start + (i % period)];
                proof {
                    assert(ret@[start + (i % period) as int] == out0[start + (i % period) as int]);
                }
                ret.push(b);
                i = i + 1;
                proof {
                    assert(ret@ =~= out0 + copy_from(out0, start as int, i as int));
                }
            }
        } else {
            proof {
                assert(copy_from(out0, curr + pos, 0) =~= Seq::<u8>::empty());
                assert(ret@ =~= out0 + copy_from(out0, curr + pos, 0));
            }
        }
        ret.push(d);
        proof {
            assert(ret@ =~= (out0 + copy_from(out0, curr + pos, len as int)).push(d));
        }
        let retlen2 = ret.len();
        proof {
            assert(retlen2 == out0.len() + len + 1);
        }
        if retlen2 > window_size {
            curr = curr + len + 1;
        }
        k = k + 1;
    }
    ret
}

} // verus!
