//! Adler-32 (RFC 1950): two running sums modulo 65521, combined as
//! `(s2 << 16) | s1`. Used to validate the zlib trailer.

use vstd::prelude::*;

verus! {

pub open spec fn adler_modulus() -> int {
    65521
}

/// One byte of input folded into the running state `(s1, s2)`.
pub open spec fn adler_step(s: (int, int), b: u8) -> (int, int) {
    (((s.0 + b) % 65521), ((s.1 + (s.0 + b) % 65521) % 65521))
}

/// The state after folding every byte of `data` into `s`, front to back.
pub open spec fn adler_run(s: (int, int), data: Seq<u8>) -> (int, int)
    decreases data.len(),
{
    if data.len() == 0 {
        s
    } else {
        adler_run(adler_step(s, data[0]), data.drop_first())
    }
}

/// The Adler-32 checksum of `data`.
pub open spec fn adler32_of(data: Seq<u8>) -> int {
    let s = adler_run((1, 0), data);
    s.1 * 0x10000 + s.0
}

/// Running the checksum over a concatenation equals running it over the
/// parts in turn: the checksum of `a + b` is derivable from the state
/// reached after `a`.
pub proof fn lemma_adler_run_concat(s: (int, int), a: Seq<u8>, b: Seq<u8>)
    ensures
        adler_run(s, a + b) == adler_run(adler_run(s, a), b),
    decreases a.len(),
{
    if a.len() == 0 {
        assert(a + b =~= b);
    } else {
        assert((a + b).drop_first() =~= a.drop_first() + b);
        lemma_adler_run_concat(adler_step(s, a[0]), a.drop_first(), b);
    }
}

/// Folding one more byte at the back steps the state once.
pub proof fn lemma_adler_run_push(s: (int, int), a: Seq<u8>, b: u8)
    ensures
        adler_run(s, a.push(b)) == adler_step(adler_run(s, a), b),
{
    let single = seq![b];
    assert(a.push(b) =~= a + single);
    lemma_adler_run_concat(s, a, single);
    let s2 = adler_run(s, a);
    assert(single.drop_first() =~= Seq::<u8>::empty());
    assert(single[0] == b);
    assert(adler_run(adler_step(s2, b), Seq::<u8>::empty()) == adler_step(s2, b));
    assert(adler_run(s2, single) == adler_step(s2, b));
}

/// Adler-32 of the empty sequence is 1.
pub proof fn lemma_adler32_empty()
    ensures
        adler32_of(Seq::<u8>::empty()) == 1,
{
    assert(adler_run((1, 0), Seq::<u8>::empty()) == (1int, 0int));
}

/// Both running sums stay reduced modulo 65521.
pub proof fn lemma_adler_run_bounds(s: (int, int), data: Seq<u8>)
    requires
        0 <= s.0 < 65521,
        0 <= s.1 < 65521,
    ensures
        0 <= adler_run(s, data).0 < 65521,
        0 <= adler_run(s, data).1 < 65521,
    decreases data.len(),
{
    if data.len() > 0 {
        lemma_adler_run_bounds(adler_step(s, data[0]), data.drop_first());
    }
}

/// The combined checksum fits in 32 bits.
pub proof fn lemma_adler32_range(data: Seq<u8>)
    ensures
        0 <= adler32_of(data) < 0x1_0000_0000,
{
    lemma_adler_run_bounds((1, 0), data);
}

/// A rolling Adler-32 state.
pub struct Adler32 {
    s1: u32,
    s2: u32,
}

impl Adler32 {
    /// Both sums stay reduced modulo 65521.
    pub closed spec fn wf(self) -> bool {
        self.s1 < 65521 && self.s2 < 65521
    }

    /// The current state as a mathematical pair.
    pub closed spec fn state(self) -> (int, int) {
        (self.s1 as int, self.s2 as int)
    }

    pub fn new() -> (r: Adler32)
        ensures
            r.wf(),
            r.state() == (1int, 0int),
    {
        Adler32 { s1: 1, s2: 0 }
    }

    /// Folds `data` into the running state, byte by byte.
    #[verifier::loop_isolation(false)]
    pub fn update(&mut self, data: &[u8])
        requires
            old(self).wf(),
        ensures
            final(self).wf(),
            final(self).state() == adler_run(old(self).state(), data@),
    {
        let n = data.len();
        let mut i: usize = 0;
        while i < n
            invariant
                i <= n,
                self.wf(),
                self.state() == adler_run(old(self).state(), data@.take(i as int)),
            decreases n - i,
        {
            let d = data[i];
            self.s1 = (self.s1 + d as u32) % 65521;
            self.s2 = (self.s2 + self.s1) % 65521;
            proof {
                lemma_adler_run_push(old(self).state(), data@.take(i as int), data@[i as int]);
                assert(data@.take(i + 1) =~= data@.take(i as int).push(data@[i as int]));
            }
            i = i + 1;
        }
        proof {
            assert(data@.take(n as int) =~= data@);
        }
    }

    /// The combined checksum `(s2 << 16) | s1` of everything folded so far.
    pub fn finalise(&mut self) -> (r: u32)
        requires
            old(self).wf(),
        ensures
            *final(self) == *old(self),
            r == old(self).state().1 * 0x10000 + old(self).state().0,
    {
        self.s2 * 0x10000 + self.s1
    }
}

} // verus!
