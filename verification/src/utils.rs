//! Byte primitives: big-endian integer extraction and null-terminated
//! byte-string extraction from a slice at a given offset.

use vstd::prelude::*;
use vstd::slice::{slice_index_get, slice_subrange};

verus! {

broadcast use vstd::slice::group_slice_axioms;

/// The big-endian 32-bit value encoded at `off` in `b`, as a mathematical integer.
pub open spec fn be_u32_at(b: Seq<u8>, off: int) -> int {
    b[off] as int * 0x1000000 + b[off + 1] as int * 0x10000 + b[off + 2] as int * 0x100 + b[off
        + 3] as int
}

/// The big-endian 64-bit value encoded at `off` in `b`, as a mathematical integer.
pub open spec fn be_u64_at(b: Seq<u8>, off: int) -> int {
    be_u32_at(b, off) * 0x100000000 + be_u32_at(b, off + 4)
}

/// The null-terminated byte string starting at `off` in `b` (terminator
/// excluded), or `None` if no zero byte follows `off`.
pub open spec fn c_str_at(b: Seq<u8>, off: int) -> Option<Seq<u8>>
    decreases b.len() - off,
{
    if off < 0 || off >= b.len() {
        None
    } else if b[off] == 0 {
        Some(Seq::empty())
    } else {
        match c_str_at(b, off + 1) {
            None => None,
            Some(s) => Some(seq![b[off]] + s),
        }
    }
}

/// When a terminated string exists at `off`, it is exactly the bytes up to
/// the first zero byte at or after `off`.
pub proof fn lemma_c_str_some(b: Seq<u8>, off: int)
    requires
        0 <= off <= b.len(),
        c_str_at(b, off) is Some,
    ensures
        ({
            let s = c_str_at(b, off)->Some_0;
            &&& off + s.len() < b.len()
            &&& b[off + s.len()] == 0
            &&& s =~= b.subrange(off, off + s.len())
            &&& forall|i: int| off <= i < off + s.len() ==> b[i] != 0
        }),
    decreases b.len() - off,
{
    let s = c_str_at(b, off)->Some_0;
    if b[off] == 0 {
    } else {
        lemma_c_str_some(b, off + 1);
        let s1 = c_str_at(b, off + 1)->Some_0;
        assert(s =~= seq![b[off]] + s1);
        assert(s.subrange(1, s.len() as int) =~= s1);
        assert(b.subrange(off, off + s.len()) =~= seq![b[off]] + b.subrange(
            off + 1,
            off + 1 + s1.len(),
        ));
    }
}

/// A zero byte at `end`, with none before it, pins the string at `off`.
pub proof fn lemma_c_str_found(b: Seq<u8>, off: int, end: int)
    requires
        0 <= off <= end < b.len(),
        b[end] == 0,
        forall|i: int| off <= i < end ==> b[i] != 0,
    ensures
        c_str_at(b, off) == Some(b.subrange(off, end)),
    decreases end - off,
{
    if off == end {
        assert(b.subrange(off, end) =~= Seq::empty());
    } else {
        lemma_c_str_found(b, off + 1, end);
        assert(b.subrange(off, end) =~= seq![b[off]] + b.subrange(off + 1, end));
    }
}

/// With no zero byte at or after `off`, there is no string at `off`.
pub proof fn lemma_c_str_none(b: Seq<u8>, off: int)
    requires
        0 <= off <= b.len(),
        forall|i: int| off <= i < b.len() ==> b[i] != 0,
    ensures
        c_str_at(b, off) is None,
    decreases b.len() - off,
{
    if off < b.len() {
        lemma_c_str_none(b, off + 1);
    }
}

/// Reads 4 bytes at `offs` as a big-endian 32-bit integer.
pub fn read_fdt_u32(buf: &[u8], offs: usize) -> (r: u32)
    requires
        offs + 4 <= buf@.len(),
    ensures
        r as int == be_u32_at(buf@, offs as int),
{
    proof {
        assert(buf.len() == buf@.len());
    }
    let b0 = *slice_index_get(buf, offs) as u32;
    let b1 = *slice_index_get(buf, offs + 1) as u32;
    let b2 = *slice_index_get(buf, offs + 2) as u32;
    let b3 = *slice_index_get(buf, offs + 3) as u32;
    b0 * 0x1000000 + b1 * 0x10000 + b2 * 0x100 + b3
}

/// Reads 8 bytes at `offs` as a big-endian 64-bit integer.
pub fn read_fdt_u64(buf: &[u8], offs: usize) -> (r: u64)
    requires
        offs + 8 <= buf@.len(),
    ensures
        r as int == be_u64_at(buf@, offs as int),
{
    proof {
        assert(buf.len() == buf@.len());
    }
    let hi = read_fdt_u32(buf, offs) as u64;
    let lo = read_fdt_u32(buf, offs + 4) as u64;
    hi * 0x100000000 + lo
}

/// Scans forward from `offs` for a zero byte; returns the bytes before it
/// (borrowed from `buf`, terminator excluded), or `None` if the buffer ends
/// without one.
pub fn get_fdt_string<'a>(buf: &'a [u8], offs: usize) -> (r: Option<&'a [u8]>)
    requires
        offs <= buf@.len(),
    ensures
        match r {
            Some(s) => c_str_at(buf@, offs as int) == Some(s@),
            None => c_str_at(buf@, offs as int) is None,
        },
{
    let mut i = offs;
    while i < buf.len()
        invariant
            offs <= i <= buf@.len(),
            forall|j: int| offs <= j < i ==> buf@[j] != 0,
        decreases buf@.len() - i,
    {
        if *slice_index_get(buf, i) == 0 {
            proof {
                lemma_c_str_found(buf@, offs as int, i as int);
            }
            return Some(slice_subrange(buf, offs, i));
        }
        i += 1;
    }
    proof {
        lemma_c_str_none(buf@, offs as int);
    }
    None
}

} // verus!
