//! Canonical Huffman code construction and prefix-tree lookup, per
//! RFC 1951 section 3.2.2.
//!
//! A table is built from a vector of code lengths: symbols at each length
//! are assigned consecutive code values, shifted left by one when moving
//! to the next length. Codes are read MSB-first while the bit reader
//! delivers bits LSB-first within each byte, so lookup consumes single
//! bits and walks a binary prefix tree.

use vstd::prelude::*;
use crate::bits::{BitReader, bit_at};
use crate::error::ErrorKind;

verus! {

/// Code lengths must stay below this bound (RFC 1951 caps them at 15).
pub const MAX_BITS: usize = 16;

/// A binary prefix tree: a code maps to the leaf reached by walking its
/// bits MSB-first, left on 0 and right on 1.
#[derive(Debug)]
pub enum Node<T> {
    Branch { left: Box<Node<T>>, right: Box<Node<T>> },
    Leaf { val: T },
    Nil,
}

/// Lookup failed: either the bits ran out or the walk reached an
/// uninhabited subtree.
#[derive(Debug, Clone, Copy, PartialEq, Eq, Structural)]
pub struct TreeReadError {
    pub kind: ErrorKind,
}

/// The bits of `code`, MSB of the `len`-bit code first.
pub open spec fn path_of(code: u32, len: nat) -> Seq<bool>
    recommends
        len <= 32,
{
    Seq::new(len, |i: int| (code >> ((len - 1 - i) as u32)) & 1 == 1)
}

/// The depth of the deepest leaf reachable in `t`.
pub open spec fn height<T>(t: Node<T>) -> nat
    decreases t,
{
    match t {
        Node::Branch { left, right } => 1 + (if height(*left) > height(*right) {
            height(*left)
        } else {
            height(*right)
        }),
        Node::Leaf { .. } => 0,
        Node::Nil => 0,
    }
}

/// Inserting `v` at `path`: `Option::None` when the path crosses or ends
/// on an existing leaf or stops short at a branch, i.e. when the new code
/// would violate the prefix property.
pub open spec fn spec_insert<T>(t: Node<T>, path: Seq<bool>, v: T) -> Option<Node<T>>
    decreases path.len(),
{
    match t {
        Node::Leaf { .. } => Option::None,
        Node::Nil => {
            if path.len() == 0 {
                Option::Some(Node::Leaf { val: v })
            } else {
                match spec_insert(Node::Nil, path.drop_first(), v) {
                    Option::None => Option::None,
                    Option::Some(s) => Option::Some(
                        if path[0] {
                            Node::Branch { left: Box::new(Node::Nil), right: Box::new(s) }
                        } else {
                            Node::Branch { left: Box::new(s), right: Box::new(Node::Nil) }
                        },
                    ),
                }
            }
        },
        Node::Branch { left, right } => {
            if path.len() == 0 {
                Option::None
            } else if path[0] {
                match spec_insert(*right, path.drop_first(), v) {
                    Option::None => Option::None,
                    Option::Some(s) => Option::Some(
                        Node::Branch { left, right: Box::new(s) },
                    ),
                }
            } else {
                match spec_insert(*left, path.drop_first(), v) {
                    Option::None => Option::None,
                    Option::Some(s) => Option::Some(
                        Node::Branch { left: Box::new(s), right },
                    ),
                }
            }
        },
    }
}

/// Walking `t` along `p`: the number of bits consumed and the leaf value,
/// or nothing when the walk fails or `p` is too short.
pub open spec fn follow<T>(t: Node<T>, p: Seq<bool>) -> Option<(nat, T)>
    decreases t,
{
    match t {
        Node::Leaf { val } => Option::Some((0nat, val)),
        Node::Nil => Option::None,
        Node::Branch { left, right } => {
            if p.len() == 0 {
                Option::None
            } else {
                match follow(if p[0] {
                    *right
                } else {
                    *left
                }, p.drop_first()) {
                    Option::None => Option::None,
                    Option::Some((n, v)) => Option::Some((n + 1, v)),
                }
            }
        },
    }
}

/// Decoding one symbol from the bit stream `data` starting at bit `pos`:
/// the new position and the symbol, or the exact failure.
pub open spec fn decode_prefix<T>(t: Node<T>, data: Seq<u8>, pos: int) -> Result<
    (int, T),
    ErrorKind,
>
    decreases t,
{
    match t {
        Node::Leaf { val } => Ok((pos, val)),
        Node::Nil => Err(ErrorKind::InvalidCode),
        Node::Branch { left, right } => {
            if pos < 0 || pos >= 8 * data.len() {
                Err(ErrorKind::InputTruncated)
            } else {
                if bit_at(data, pos) {
                    decode_prefix(*right, data, pos + 1)
                } else {
                    decode_prefix(*left, data, pos + 1)
                }
            }
        },
    }
}

/// A successful insert grows the height at most to the path length.
pub proof fn lemma_insert_height<T>(t: Node<T>, path: Seq<bool>, v: T, t2: Node<T>)
    requires
        spec_insert(t, path, v) == Option::Some(t2),
    ensures
        height(t2) <= height(t) || height(t2) <= path.len(),
        height(t2) <= (if height(t) > path.len() {
            height(t)
        } else {
            path.len()
        }),
    decreases path.len(),
{
    match t {
        Node::Leaf { .. } => {},
        Node::Nil => {
            if path.len() == 0 {
            } else {
                let sub = spec_insert(Node::<T>::Nil, path.drop_first(), v);
                lemma_insert_height(Node::<T>::Nil, path.drop_first(), v, sub->Some_0);
            }
        },
        Node::Branch { left, right } => {
            if path.len() == 0 {
            } else if path[0] {
                let sub = spec_insert(*right, path.drop_first(), v);
                lemma_insert_height(*right, path.drop_first(), v, sub->Some_0);
            } else {
                let sub = spec_insert(*left, path.drop_first(), v);
                lemma_insert_height(*left, path.drop_first(), v, sub->Some_0);
            }
        },
    }
}

/// After a successful insert, walking the inserted path finds the new
/// leaf exactly at its end.
pub proof fn lemma_insert_follow_hit<T>(t: Node<T>, path: Seq<bool>, v: T, t2: Node<T>)
    requires
        spec_insert(t, path, v) == Option::Some(t2),
    ensures
        follow(t2, path) == Option::Some((path.len(), v)),
    decreases path.len(),
{
    match t {
        Node::Leaf { .. } => {},
        Node::Nil => {
            if path.len() == 0 {
            } else {
                let sub = spec_insert(Node::<T>::Nil, path.drop_first(), v);
                lemma_insert_follow_hit(Node::<T>::Nil, path.drop_first(), v, sub->Some_0);
            }
        },
        Node::Branch { left, right } => {
            if path.len() == 0 {
            } else if path[0] {
                let sub = spec_insert(*right, path.drop_first(), v);
                lemma_insert_follow_hit(*right, path.drop_first(), v, sub->Some_0);
            } else {
                let sub = spec_insert(*left, path.drop_first(), v);
                lemma_insert_follow_hit(*left, path.drop_first(), v, sub->Some_0);
            }
        },
    }
}

/// A successful insert never disturbs a walk that succeeded before it.
pub proof fn lemma_insert_follow_preserved<T>(
    t: Node<T>,
    path: Seq<bool>,
    v: T,
    t2: Node<T>,
    q: Seq<bool>,
    res: (nat, T),
)
    requires
        spec_insert(t, path, v) == Option::Some(t2),
        follow(t, q) == Option::Some(res),
    ensures
        follow(t2, q) == Option::Some(res),
    decreases path.len(),
{
    match t {
        Node::Leaf { .. } => {},
        Node::Nil => {},
        Node::Branch { left, right } => {
            if path.len() == 0 {
            } else {
                // q.len() > 0 because follow on a branch with an empty
                // path fails
                let qb = q[0];
                let pb = path[0];
                if pb {
                    let sub = spec_insert(*right, path.drop_first(), v);
                    if qb {
                        let subres = follow(*right, q.drop_first())->Some_0;
                        lemma_insert_follow_preserved(
                            *right,
                            path.drop_first(),
                            v,
                            sub->Some_0,
                            q.drop_first(),
                            subres,
                        );
                    }
                } else {
                    let sub = spec_insert(*left, path.drop_first(), v);
                    if !qb {
                        let subres = follow(*left, q.drop_first())->Some_0;
                        lemma_insert_follow_preserved(
                            *left,
                            path.drop_first(),
                            v,
                            sub->Some_0,
                            q.drop_first(),
                            subres,
                        );
                    }
                }
            }
        },
    }
}

/// How many of the first `n` symbols have code length `l`.
pub open spec fn count_upto(lengths: Seq<u8>, l: u8, n: int) -> nat
    decreases n,
{
    if n <= 0 {
        0
    } else {
        count_upto(lengths, l, n - 1) + (if lengths[n - 1] == l {
            1nat
        } else {
            0nat
        })
    }
}

/// How many symbols have code length `l`.
pub open spec fn bl_count_spec(lengths: Seq<u8>, l: u8) -> nat {
    count_upto(lengths, l, lengths.len() as int)
}

/// The running code value of the canonical construction over an explicit
/// per-length count vector: each length starts where the previous one
/// ended, shifted left by one.
pub open spec fn code_at(blc: Seq<u32>, b: int) -> nat
    decreases b,
{
    if b <= 1 {
        0
    } else {
        ((code_at(blc, b - 1) + blc[b - 1]) * 2) as nat
    }
}

/// The first canonical code of length `l`, derived from the lengths
/// themselves.
pub open spec fn canonical_base(lengths: Seq<u8>, l: int) -> nat
    decreases l,
{
    if l <= 1 {
        0
    } else {
        (canonical_base(lengths, l - 1) + bl_count_spec(lengths, (l - 1) as u8)) * 2
    }
}

/// The canonical code assigned to symbol `n`: the base code of its length
/// plus the number of earlier symbols of the same length.
pub open spec fn canonical_code(lengths: Seq<u8>, n: int) -> nat {
    canonical_base(lengths, lengths[n] as int) + count_upto(lengths, lengths[n], n)
}

pub proof fn lemma_count_upto_bound(lengths: Seq<u8>, l: u8, n: int)
    requires
        0 <= n <= lengths.len(),
    ensures
        count_upto(lengths, l, n) <= n,
    decreases n,
{
    if n > 0 {
        lemma_count_upto_bound(lengths, l, n - 1);
    }
}

pub proof fn lemma_count_upto_mono(lengths: Seq<u8>, l: u8, m: int, n: int)
    requires
        0 <= m <= n,
    ensures
        count_upto(lengths, l, m) <= count_upto(lengths, l, n),
    decreases n,
{
    if n > m {
        lemma_count_upto_mono(lengths, l, m, n - 1);
    }
}

/// Over a count vector that agrees with the lengths, the running code
/// value is the canonical base.
pub proof fn lemma_code_at_canonical(lengths: Seq<u8>, blc: Seq<u32>, b: int)
    requires
        forall|l: int| 1 <= l < blc.len() ==> blc[l] == bl_count_spec(lengths, l as u8),
        b <= blc.len(),
    ensures
        code_at(blc, b) == canonical_base(lengths, b),
    decreases b,
{
    if b > 1 {
        lemma_code_at_canonical(lengths, blc, b - 1);
    }
}

/// The running code value stays below `(2^(b-1) - 1) * 2^17` as long as
/// every count is at most `0xFFFF`.
pub proof fn lemma_code_at_bound(blc: Seq<u32>, b: int)
    requires
        forall|l: int| 0 <= l < blc.len() ==> blc[l] <= 0xFFFF,
        1 <= b <= blc.len(),
    ensures
        code_at(blc, b) <= (vstd::arithmetic::power2::pow2((b - 1) as nat) - 1) * 0x2_0000,
    decreases b,
{
    vstd::arithmetic::power2::lemma2_to64();
    if b > 1 {
        lemma_code_at_bound(blc, b - 1);
        vstd::arithmetic::power2::lemma_pow2_unfold((b - 1) as nat);
        let p = vstd::arithmetic::power2::pow2((b - 2) as nat) as int;
        assert(2 * ((p - 1) * 0x2_0000) + 0x2_0000 == (2 * p - 1) * 0x2_0000) by (nonlinear_arith);
    }
}

/// A successful walk along bits that are present in the data stream is a
/// successful decode of those bits.
pub proof fn lemma_follow_decode<T>(t: Node<T>, p: Seq<bool>, data: Seq<u8>, pos: int, res: (
    nat,
    T,
))
    requires
        follow(t, p) == Option::Some(res),
        0 <= pos,
        pos + res.0 <= 8 * data.len(),
        forall|i: int| 0 <= i < p.len() ==> bit_at(data, pos + i) == p[i],
        res.0 <= p.len(),
    ensures
        decode_prefix(t, data, pos) == Ok::<_, ErrorKind>((pos + res.0, res.1)),
    decreases t,
{
    match t {
        Node::Leaf { .. } => {},
        Node::Nil => {},
        Node::Branch { left, right } => {
            let sub = if p[0] {
                *right
            } else {
                *left
            };
            let subres = follow(sub, p.drop_first())->Some_0;
            assert(bit_at(data, pos) == p[0]);
            assert(forall|i: int|
                0 <= i < p.drop_first().len() ==> bit_at(data, pos + 1 + i) == p.drop_first()[i]);
            lemma_follow_decode(sub, p.drop_first(), data, pos + 1, subres);
        },
    }
}

/// Counts how many symbols have each code length below `nbits`.
#[verifier::loop_isolation(false)]
fn count_lengths(code_lenghts: &Vec<u8>, nbits: usize) -> (r: Vec<u32>)
    requires
        nbits <= MAX_BITS,
        code_lenghts@.len() <= 0xFFFF,
        forall|i: int| 0 <= i < code_lenghts@.len() ==> code_lenghts@[i] < nbits,
    ensures
        r@.len() == nbits,
        forall|l: int| 0 <= l < nbits ==> r@[l] == bl_count_spec(code_lenghts@, l as u8),
        forall|l: int| 0 <= l < nbits ==> r@[l] <= code_lenghts@.len(),
{
    let mut bl_count: Vec<u32> = vec![0; nbits];
    let mut i: usize = 0;
    while i < code_lenghts.len()
        invariant
            i <= code_lenghts@.len(),
            bl_count@.len() == nbits,
            forall|l: int| 0 <= l < nbits ==> bl_count@[l] == count_upto(
                code_lenghts@,
                l as u8,
                i as int,
            ),
        decreases code_lenghts@.len() - i,
    {
        let cl = code_lenghts[i];
        proof {
            lemma_count_upto_bound(code_lenghts@, cl, i as int);
        }
        bl_count.set(cl as usize, bl_count[cl as usize] + 1);
        i = i + 1;
        proof {
            assert forall|l: int| 0 <= l < nbits implies bl_count@[l] == count_upto(
                code_lenghts@,
                l as u8,
                i as int,
            ) by {
                assert(count_upto(code_lenghts@, l as u8, i as int) == count_upto(
                    code_lenghts@,
                    l as u8,
                    i - 1,
                ) + (if code_lenghts@[i - 1] == l as u8 {
                    1nat
                } else {
                    0nat
                }));
            }
        }
    }
    proof {
        assert forall|l: int| 0 <= l < nbits implies bl_count@[l]
            <= code_lenghts@.len() by {
            lemma_count_upto_bound(code_lenghts@, l as u8, code_lenghts@.len() as int);
        }
    }
    bl_count
}

/// Counts how many symbols have each code length, in a ten-entry table —
/// the widest code of the fixed DEFLATE alphabets is nine bits. The
/// decoder itself counts up to `MAX_BITS` entries.
pub fn gen_bl_count(code_lenghts: &Vec<u8>) -> (r: Vec<u32>)
    requires
        code_lenghts@.len() <= 0xFFFF,
        forall|i: int| 0 <= i < code_lenghts@.len() ==> code_lenghts@[i] < 10,
    ensures
        r@.len() == 10,
        forall|l: int| 0 <= l < 10 ==> r@[l] == bl_count_spec(code_lenghts@, l as u8),
        forall|l: int| 0 <= l < 10 ==> r@[l] <= code_lenghts@.len(),
{
    count_lengths(code_lenghts, 10)
}

/// Assigns the starting code value for each code length: one entry per
/// entry of the count table.
#[verifier::loop_isolation(false)]
pub fn gen_next_code(bl_count2: &Vec<u32>) -> (r: Vec<u32>)
    requires
        bl_count2@.len() <= MAX_BITS,
        forall|i: int| 0 <= i < bl_count2@.len() ==> bl_count2@[i] <= 0xFFFF,
    ensures
        r@.len() == bl_count2@.len(),
        forall|b: int|
            0 <= b < bl_count2@.len() ==> r@[b] == (if 1 <= b && bl_count2@[b] != 0 {
                code_at(bl_count2@, b)
            } else {
                0nat
            }),
        forall|b: int| 0 <= b < bl_count2@.len() ==> r@[b] <= 0x8000_0000,
{
    let n = bl_count2.len();
    let mut next_code: Vec<u32> = vec![0; n];
    let mut code: u32 = 0;
    let mut bits: usize = 1;
    while bits < n
        invariant
            1 <= bits,
            n >= 1 ==> bits <= n,
            n == bl_count2@.len() <= MAX_BITS,
            next_code@.len() == n,
            code == (if bits == 1 {
                0nat
            } else {
                code_at(bl_count2@, bits - 1)
            }),
            code <= 0x8000_0000,
            forall|b: int|
                0 <= b < bits && b < n ==> next_code@[b] == (if 1 <= b && bl_count2@[b] != 0 {
                    code_at(bl_count2@, b)
                } else {
                    0nat
                }),
            forall|b: int| bits <= b < n ==> next_code@[b] == 0,
            forall|b: int| 0 <= b < n ==> next_code@[b] <= 0x8000_0000,
        decreases n - bits,
    {
        let add = if bits == 1 {
            0
        } else {
            bl_count2[bits - 1]
        };
        proof {
            lemma_code_at_bound(bl_count2@, bits as int);
            vstd::arithmetic::power2::lemma2_to64();
            if bits - 1 < 14 {
                vstd::arithmetic::power2::lemma_pow2_strictly_increases((bits - 1) as nat, 14);
            }
            assert(vstd::arithmetic::power2::pow2((bits - 1) as nat) <= 16384);
            assert(code_at(bl_count2@, bits as int) <= 16383 * 0x2_0000);
            assert(code_at(bl_count2@, bits as int) == ((code + add) * 2) as nat);
        }
        code = (code + add) * 2;
        if bl_count2[bits] != 0 {
            next_code.set(bits, code);
        }
        bits = bits + 1;
    }
    next_code
}

/// Assigns each symbol its canonical code value: symbols of the same
/// length get consecutive codes in ascending symbol order.
#[verifier::loop_isolation(false)]
pub fn gen_code_values(bit_lenght: &Vec<u8>, next_code: &Vec<u32>, alphabet_size: usize) -> (r:
    Vec<u32>)
    requires
        alphabet_size <= bit_lenght@.len(),
        alphabet_size <= 0xFFFF,
        forall|i: int| 0 <= i < alphabet_size ==> {
            &&& bit_lenght@[i] < 16
            &&& (bit_lenght@[i] as int) < next_code@.len()
        },
        forall|l: int| 0 <= l < next_code@.len() ==> next_code@[l] + alphabet_size <= u32::MAX,
    ensures
        r@.len() == alphabet_size,
        forall|n: int| 0 <= n < alphabet_size ==> r@[n] == (if bit_lenght@[n] == 0 {
            0nat
        } else {
            (next_code@[bit_lenght@[n] as int] + count_upto(bit_lenght@, bit_lenght@[n], n)) as nat
        }),
{
    let mut tree: Vec<u32> = vec![0; alphabet_size];
    let mut nc = next_code.clone();
    let mut n: usize = 0;
    while n < alphabet_size
        invariant
            n <= alphabet_size,
            tree@.len() == alphabet_size,
            nc@.len() == next_code@.len(),
            forall|l: int| 1 <= l < 16 && l < nc@.len() ==> nc@[l] == next_code@[l] + count_upto(
                bit_lenght@,
                l as u8,
                n as int,
            ),
            forall|l: int| 0 <= l < nc@.len() && (l == 0 || l >= 16) ==> nc@[l] == next_code@[l],
            forall|j: int| n <= j < alphabet_size ==> tree@[j] == 0,
            forall|j: int| 0 <= j < n ==> tree@[j] == (if bit_lenght@[j] == 0 {
                0nat
            } else {
                (next_code@[bit_lenght@[j] as int] + count_upto(
                    bit_lenght@,
                    bit_lenght@[j],
                    j,
                )) as nat
            }),
        decreases alphabet_size - n,
    {
        let len = bit_lenght[n];
        proof {
            lemma_count_upto_bound(bit_lenght@, len, n as int);
        }
        if len != 0 {
            tree.set(n, nc[len as usize]);
            nc.set(len as usize, nc[len as usize] + 1);
        }
        n = n + 1;
        proof {
            assert forall|l: int| 1 <= l < 16 && l < nc@.len() implies nc@[l] == next_code@[l]
                + count_upto(bit_lenght@, l as u8, n as int) by {
                assert(count_upto(bit_lenght@, l as u8, n as int) == count_upto(
                    bit_lenght@,
                    l as u8,
                    n - 1,
                ) + (if bit_lenght@[n - 1] == l as u8 {
                    1nat
                } else {
                    0nat
                }));
            }
        }
    }
    tree
}

/// The tree after inserting the canonical codes of the first `n` symbols,
/// or `Option::None` once an insert conflicts.
pub open spec fn build_upto(lengths: Seq<u8>, n: int) -> Option<Node<u32>>
    decreases n,
{
    if n <= 0 {
        Option::Some(Node::Nil)
    } else {
        match build_upto(lengths, n - 1) {
            Option::None => Option::None,
            Option::Some(t) => {
                if lengths[n - 1] == 0 {
                    Option::Some(t)
                } else {
                    spec_insert(
                        t,
                        path_of(canonical_code(lengths, n - 1) as u32, lengths[n - 1] as nat),
                        (n - 1) as u32,
                    )
                }
            },
        }
    }
}

/// The prefix tree that a code-length vector determines, when one exists.
pub open spec fn build_tree(lengths: Seq<u8>) -> Option<Node<u32>> {
    if exists|i: int| 0 <= i < lengths.len() && lengths[i] >= 16 {
        Option::None
    } else {
        build_upto(lengths, lengths.len() as int)
    }
}

/// A failed build stays failed as more symbols are inserted.
pub proof fn lemma_build_upto_none(lengths: Seq<u8>, m: int, n: int)
    requires
        0 <= m <= n,
        build_upto(lengths, m) == Option::<Node<u32>>::None,
    ensures
        build_upto(lengths, n) == Option::<Node<u32>>::None,
    decreases n,
{
    if n > m {
        lemma_build_upto_none(lengths, m, n - 1);
    }
}

/// Inserts `nval` under the `code_lenght`-bit code `branch`, read
/// MSB-first; the flag reports whether the insert fit the tree.
fn insert_val<T>(t: Node<T>, branch: u32, code_lenght: u32, nval: T) -> (r: (Node<T>, bool))
    requires
        code_lenght <= 32,
    ensures
        match spec_insert(t, path_of(branch, code_lenght as nat), nval) {
            Option::Some(t2) => r == (t2, true),
            Option::None => r == (t, false),
        },
    decreases code_lenght,
{
    let ghost path = path_of(branch, code_lenght as nat);
    proof {
        if code_lenght > 0 {
            assert(path.drop_first() =~= path_of(branch, (code_lenght - 1) as nat));
            assert(path[0] == ((branch >> ((code_lenght - 1) as u32)) & 1 == 1));
        }
    }
    match t {
        Node::Leaf { val } => (Node::Leaf { val }, false),
        Node::Nil => {
            if code_lenght == 0 {
                (Node::Leaf { val: nval }, true)
            } else {
                let b = (branch >> (code_lenght - 1)) & 1 == 1;
                let (sub, ok) = insert_val(Node::Nil, branch, code_lenght - 1, nval);
                proof {
                    lemma_insert_nil_some(path.drop_first(), nval);
                }
                if b {
                    (Node::Branch { left: Box::new(Node::Nil), right: Box::new(sub) }, ok)
                } else {
                    (Node::Branch { left: Box::new(sub), right: Box::new(Node::Nil) }, ok)
                }
            }
        },
        Node::Branch { left, right } => {
            if code_lenght == 0 {
                (Node::Branch { left, right }, false)
            } else {
                let b = (branch >> (code_lenght - 1)) & 1 == 1;
                if b {
                    let (sub, ok) = insert_val(*right, branch, code_lenght - 1, nval);
                    (Node::Branch { left, right: Box::new(sub) }, ok)
                } else {
                    let (sub, ok) = insert_val(*left, branch, code_lenght - 1, nval);
                    (Node::Branch { left: Box::new(sub), right }, ok)
                }
            }
        },
    }
}

/// Inserting into an empty tree always fits.
proof fn lemma_insert_nil_some<T>(path: Seq<bool>, v: T)
    ensures
        spec_insert(Node::<T>::Nil, path, v) is Some,
    decreases path.len(),
{
    if path.len() > 0 {
        lemma_insert_nil_some(path.drop_first(), v);
    }
}

impl<T: Copy> Node<T> {
    /// An empty tree.
    pub fn new() -> (r: Self)
        ensures
            r == Node::<T>::Nil,
    {
        Node::Nil
    }

    /// Inserts `nval` under the `code_lenght`-bit code `branch`; fails
    /// with `InvalidHuffmanTable` when the code would violate the prefix
    /// property, leaving the tree unchanged.
    pub fn insert(&mut self, branch: u32, code_lenght: u32, nval: T) -> (r: Result<
        (),
        ErrorKind,
    >)
        requires
            code_lenght <= 32,
        ensures
            match spec_insert(*old(self), path_of(branch, code_lenght as nat), nval) {
                Option::Some(t2) => *final(self) == t2 && r is Ok,
                Option::None => *final(self) == *old(self) && r == Err::<
                    (),
                    _,
                >(ErrorKind::InvalidHuffmanTable),
            },
    {
        let mut tmp = Node::Nil;
        core::mem::swap(self, &mut tmp);
        let (t2, ok) = insert_val(tmp, branch, code_lenght, nval);
        *self = t2;
        if ok {
            Ok(())
        } else {
            Err(ErrorKind::InvalidHuffmanTable)
        }
    }

    /// Reads one symbol from the bit stream: walks the tree by single
    /// bits, left on 0 and right on 1, and returns how many bits were
    /// consumed together with the leaf value.
    pub fn read_one(&self, br: &mut BitReader) -> (r: Result<(u32, T), TreeReadError>)
        requires
            old(br).wf(),
            height(*self) <= 32,
        ensures
            final(br).wf(),
            final(br).data_spec() == old(br).data_spec(),
            old(br).pos() <= final(br).pos() <= old(br).pos() + height(*self),
            match r {
                Ok((l, v)) => {
                    &&& decode_prefix(*self, old(br).data_spec(), old(br).pos()) == Ok::<
                        _,
                        ErrorKind,
                    >((old(br).pos() + l, v))
                    &&& final(br).pos() == old(br).pos() + l
                    &&& l <= height(*self)
                },
                Err(e) => decode_prefix(*self, old(br).data_spec(), old(br).pos()) == Err::<
                    (int, T),
                    _,
                >(e.kind),
            },
        decreases *self,
    {
        let ghost data = old(br).data_spec();
        let ghost pos0 = old(br).pos();
        match self {
            Node::Leaf { val } => {
                proof {
                    assert(decode_prefix(*self, data, pos0) == Ok::<_, ErrorKind>((pos0, *val)));
                }
                Ok((0, *val))
            },
            Node::Nil => {
                proof {
                    assert(decode_prefix(*self, data, pos0) == Err::<(int, T), _>(
                        ErrorKind::InvalidCode,
                    ));
                }
                Err(TreeReadError { kind: ErrorKind::InvalidCode })
            },
            Node::Branch { left, right } => {
                match br.read_bit() {
                    Err(_) => {
                        proof {
                            assert(pos0 >= 8 * data.len());
                            assert(decode_prefix(*self, data, pos0) == Err::<(int, T), _>(
                                ErrorKind::InputTruncated,
                            ));
                        }
                        Err(TreeReadError { kind: ErrorKind::InputTruncated })
                    },
                    Ok(b) => {
                        let sub: &Node<T> = if b {
                            right
                        } else {
                            left
                        };
                        proof {
                            assert(0 <= pos0 < 8 * data.len());
                            assert(decode_prefix(*self, data, pos0) == decode_prefix(
                                *sub,
                                data,
                                pos0 + 1,
                            ));
                        }
                        match sub.read_one(br) {
                            Ok((l, v)) => Ok((l + 1, v)),
                            Err(e) => Err(e),
                        }
                    },
                }
            },
        }
    }
}

/// Builds the prefix tree for a code-length vector by canonical
/// construction; fails with `InvalidHuffmanTable` when a length is out of
/// range or the codes do not form a prefix code.
#[verifier::loop_isolation(false)]
pub fn generate_tree(code_lenghts: Vec<u8>) -> (r: Result<Node<u32>, ErrorKind>)
    requires
        code_lenghts@.len() <= 0xFFFF,
    ensures
        match r {
            Ok(t) => build_tree(code_lenghts@) == Option::Some(t) && height(t) < 16,
            Err(k) => k == ErrorKind::InvalidHuffmanTable && build_tree(code_lenghts@)
                is None,
        },
{
    let n = code_lenghts.len();
    let mut i: usize = 0;
    while i < n
        invariant
            i <= n,
            forall|j: int| 0 <= j < i ==> code_lenghts@[j] < 16,
        decreases n - i,
    {
        if code_lenghts[i] >= 16 {
            proof {
                assert(0 <= i < code_lenghts@.len() && code_lenghts@[i as int] >= 16);
            }
            return Err(ErrorKind::InvalidHuffmanTable);
        }
        i = i + 1;
    }
    let bl_count = count_lengths(&code_lenghts, MAX_BITS);
    let next_code = gen_next_code(&bl_count);
    let code_values = gen_code_values(&code_lenghts, &next_code, n);
    let mut tree: Node<u32> = Node::Nil;
    let mut k: usize = 0;
    while k < n
        invariant
            k <= n,
            build_upto(code_lenghts@, k as int) == Option::Some(tree),
            height(tree) < 16,
        decreases n - k,
    {
        let cl = code_lenghts[k];
        if cl != 0 {
            proof {
                lemma_count_upto_mono(code_lenghts@, cl, k + 1, n as int);
                assert(count_upto(code_lenghts@, cl, k + 1) == count_upto(code_lenghts@, cl, k as int)
                    + 1);
                assert(bl_count_spec(code_lenghts@, cl) >= 1);
                lemma_code_at_canonical(code_lenghts@, bl_count@, cl as int);
                lemma_count_upto_bound(code_lenghts@, cl, k as int);
                assert(code_values@[k as int] == canonical_code(code_lenghts@, k as int));
                assert(canonical_code(code_lenghts@, k as int) < 0x1_0000_0000);
                assert(canonical_code(code_lenghts@, k as int) as u32 == code_values@[k as int]);
            }
            let (t2, ok) = insert_val(tree, code_values[k], cl as u32, k as u32);
            if !ok {
                proof {
                    lemma_build_upto_none(code_lenghts@, k + 1, n as int);
                }
                return Err(ErrorKind::InvalidHuffmanTable);
            }
            proof {
                lemma_insert_height(
                    tree,
                    path_of(canonical_code(code_lenghts@, k as int) as u32, cl as nat),
                    k as u32,
                    t2,
                );
            }
            tree = t2;
        }
        k = k + 1;
    }
    Ok(tree)
}

/// The code lengths of the fixed literal/length alphabet (RFC 1951
/// section 3.2.6): 288 symbols.
pub open spec fn fixed_lit_lengths() -> Seq<u8> {
    Seq::new(
        288,
        |i: int|
            if i < 144 {
                8u8
            } else if i < 256 {
                9u8
            } else if i < 280 {
                7u8
            } else {
                8u8
            },
    )
}

/// The code lengths of the fixed distance alphabet: 30 symbols, all five
/// bits wide.
pub open spec fn fixed_dist_lengths() -> Seq<u8> {
    Seq::new(30, |i: int| 5u8)
}

/// The fixed literal/length tree; `Nil` never arises, but the fallback
/// keeps the definition total.
pub open spec fn fixed_lit_tree() -> Node<u32> {
    match build_tree(fixed_lit_lengths()) {
        Option::Some(t) => t,
        Option::None => Node::Nil,
    }
}

/// The fixed distance tree.
pub open spec fn fixed_dist_tree() -> Node<u32> {
    match build_tree(fixed_dist_lengths()) {
        Option::Some(t) => t,
        Option::None => Node::Nil,
    }
}

/// Builds the fixed literal/length table of RFC 1951: lengths 8, 9, 7
/// and 8 for the four symbol ranges.
#[verifier::loop_isolation(false)]
pub fn generate_fixed_deflate_tree() -> (r: Node<u32>)
    ensures
        r == fixed_lit_tree(),
        height(r) <= 32,
{
    let mut lengths: Vec<u8> = Vec::new();
    let mut i: usize = 0;
    while i < 288
        invariant
            i <= 288,
            lengths@.len() == i,
            forall|j: int| 0 <= j < i ==> lengths@[j] == fixed_lit_lengths()[j],
        decreases 288 - i,
    {
        if i < 144 {
            lengths.push(8);
        } else if i < 256 {
            lengths.push(9);
        } else if i < 280 {
            lengths.push(7);
        } else {
            lengths.push(8);
        }
        i = i + 1;
    }
    proof {
        assert(lengths@ =~= fixed_lit_lengths());
    }
    match generate_tree(lengths) {
        Ok(t) => t,
        Err(_) => Node::Nil,
    }
}

/// Builds the fixed distance table of RFC 1951: 30 five-bit codes.
#[verifier::loop_isolation(false)]
pub fn generate_fixed_deflate_distance_tree() -> (r: Node<u32>)
    ensures
        r == fixed_dist_tree(),
        height(r) <= 32,
{
    let mut lengths: Vec<u8> = Vec::new();
    let mut i: usize = 0;
    while i < 30
        invariant
            i <= 30,
            lengths@.len() == i,
            forall|j: int| 0 <= j < i ==> lengths@[j] == 5,
        decreases 30 - i,
    {
        lengths.push(5);
        i = i + 1;
    }
    proof {
        assert(lengths@ =~= fixed_dist_lengths());
    }
    match generate_tree(lengths) {
        Ok(t) => t,
        Err(_) => Node::Nil,
    }
}

/// Every canonical code inserted while building up the table can be
/// walked back to its symbol.
proof fn lemma_build_upto_follow(lengths: Seq<u8>, m: int, t: Node<u32>)
    requires
        0 <= m <= lengths.len(),
        build_upto(lengths, m) == Option::Some(t),
    ensures
        forall|j: int|
            0 <= j < m && lengths[j] > 0 ==> #[trigger] follow(
                t,
                path_of(canonical_code(lengths, j) as u32, lengths[j] as nat),
            ) == Option::Some((lengths[j] as nat, j as u32)),
    decreases m,
{
    if m > 0 {
        let prev = build_upto(lengths, m - 1)->Some_0;
        lemma_build_upto_follow(lengths, m - 1, prev);
        if lengths[m - 1] == 0 {
        } else {
            let p = path_of(canonical_code(lengths, m - 1) as u32, lengths[m - 1] as nat);
            lemma_insert_follow_hit(prev, p, (m - 1) as u32, t);
            assert forall|j: int|
                0 <= j < m - 1 && lengths[j] > 0 implies #[trigger] follow(
                t,
                path_of(canonical_code(lengths, j) as u32, lengths[j] as nat),
            ) == Option::Some((lengths[j] as nat, j as u32)) by {
                lemma_insert_follow_preserved(
                    prev,
                    p,
                    (m - 1) as u32,
                    t,
                    path_of(canonical_code(lengths, j) as u32, lengths[j] as nat),
                    (lengths[j] as nat, j as u32),
                );
            }
        }
    }
}

/// Law: building a table and then decoding round-trips. For any
/// code-length vector from which a table builds, feeding the bits of the
/// canonical code of a symbol back through lookup yields exactly that
/// symbol, consuming exactly its code length.
pub proof fn lemma_build_tree_roundtrip(
    lengths: Seq<u8>,
    tree: Node<u32>,
    n: int,
    data: Seq<u8>,
    pos: int,
)
    requires
        build_tree(lengths) == Option::Some(tree),
        0 <= n < lengths.len(),
        lengths[n] > 0,
        0 <= pos,
        pos + lengths[n] <= 8 * data.len(),
        forall|i: int|
            0 <= i < lengths[n] ==> #[trigger] bit_at(data, pos + i) == path_of(
                canonical_code(lengths, n) as u32,
                lengths[n] as nat,
            )[i],
    ensures
        decode_prefix(tree, data, pos) == Ok::<_, ErrorKind>((pos + lengths[n], n as u32)),
{
    lemma_build_upto_follow(lengths, lengths.len() as int, tree);
    let p = path_of(canonical_code(lengths, n) as u32, lengths[n] as nat);
    assert(follow(tree, p) == Option::Some((lengths[n] as nat, n as u32)));
    lemma_follow_decode(tree, p, data, pos, (lengths[n] as nat, n as u32));
}

} // verus!