//! CRC-32 (IEEE 802.3, reflected) over PNG chunk name and payload. The
//! checksum itself is computed by the `crc32fast` crate; its value is a
//! function of the input bytes alone and is referred to as `crc32_of`.

use vstd::prelude::*;

verus! {

/// The IEEE CRC-32 of `data`: polynomial 0xEDB88320, reflected, initial
/// value 0xFFFFFFFF, final XOR 0xFFFFFFFF.
pub uninterp spec fn crc32_of(data: Seq<u8>) -> u32;

/// Relies on crc32fast::Hasher (new, update, finalize): the CRC-32 of the
/// bytes fed to the hasher, a function of those bytes alone.
#[verifier::external_body]
fn crc32_bytes(data: &[u8]) -> (r: u32)
    ensures
        r == crc32_of(data@),
{
    let mut h = crc32fast::Hasher::new();
    h.update(data);
    h.finalize()
}

/// The CRC-32 that a PNG chunk stores: computed over the 4-byte chunk name
/// followed by the payload.
#[verifier::loop_isolation(false)]
pub fn chunk_crc(name: &[u8], data: &[u8]) -> (r: u32)
    requires
        name@.len() + data@.len() <= usize::MAX,
    ensures
        r == crc32_of(name@ + data@),
{
    let mut buf: Vec<u8> = Vec::new();
    let mut i: usize = 0;
    while i < name.len()
        invariant
            i <= name@.len(),
            buf@ == name@.take(i as int),
        decreases name@.len() - i,
    {
        buf.push(name[i]);
        proof {
            assert(buf@ =~= name@.take(i + 1));
        }
        i = i + 1;
    }
    proof {
        assert(buf@ =~= name@ + data@.take(0));
    }
    let mut j: usize = 0;
    while j < data.len()
        invariant
            j <= data@.len(),
            buf@ == name@ + data@.take(j as int),
        decreases data@.len() - j,
    {
        buf.push(data[j]);
        proof {
            assert(buf@ =~= name@ + data@.take(j + 1));
        }
        j = j + 1;
    }
    proof {
        assert(buf@ =~= name@ + data@);
    }
    crc32_bytes(buf.as_slice())
}

} // verus!
