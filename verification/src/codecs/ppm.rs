//! The binary PPM (P6) serializer: `P6\n<width> <height>\n255\n`
//! followed by the raw RGB bytes.

use vstd::prelude::*;
use crate::image::GenericImage;

verus! {

/// The decimal digits of `n`, most significant first, as ASCII bytes.
pub open spec fn dec_digits(n: nat) -> Seq<u8>
    decreases n,
{
    if n < 10 {
        seq![(0x30 + n) as u8]
    } else {
        dec_digits(n / 10).push((0x30 + n % 10) as u8)
    }
}

/// The P6 header for a `w` by `h` image with 8-bit samples.
pub open spec fn ppm_header(w: nat, h: nat) -> Seq<u8> {
    seq![0x50u8, 0x36u8, 0x0Au8] + dec_digits(w) + seq![0x20u8] + dec_digits(h) + seq![0x0Au8]
        + dec_digits(255) + seq![0x0Au8]
}

/// Appends the decimal rendering of `n`.
fn push_dec(n: u32, out: &mut Vec<u8>)
    ensures
        final(out)@ == old(out)@ + dec_digits(n as nat),
    decreases n,
{
    let ghost pre = out@;
    if n < 10 {
        out.push(0x30 + n as u8);
        proof {
            assert(out@ =~= pre + dec_digits(n as nat));
        }
    } else {
        push_dec(n / 10, out);
        out.push(0x30 + (n % 10) as u8);
        proof {
            assert(out@ =~= pre + dec_digits(n as nat));
        }
    }
}

/// The PPM image format.
pub struct PpmImage {}

impl PpmImage {
    /// Serializes an RGB image as a binary P6 file.
    pub fn ppm_bytes(image: &GenericImage) -> (r: Vec<u8>)
        ensures
            r@ == ppm_header(image.width as nat, image.height as nat) + image.data@,
    {
        let mut out: Vec<u8> = Vec::new();
        out.push(0x50);
        out.push(0x36);
        out.push(0x0A);
        push_dec(image.width, &mut out);
        out.push(0x20);
        push_dec(image.height, &mut out);
        out.push(0x0A);
        push_dec(255, &mut out);
        out.push(0x0A);
        let mut i: usize = 0;
        let ghost header = out@;
        while i < image.data.len()
            invariant
                i <= image.data@.len(),
                out@ == header + image.data@.take(i as int),
            decreases image.data@.len() - i,
        {
            out.push(image.data[i]);
            i = i + 1;
            proof {
                assert(out@ =~= header + image.data@.take(i as int));
            }
        }
        proof {
            assert(image.data@.take(image.data@.len() as int) =~= image.data@);
            assert(header =~= ppm_header(image.width as nat, image.height as nat));
        }
        out
    }
}

} // verus!
