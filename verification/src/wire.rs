//! Fixed-width integer fields inside byte buffers.

use vstd::prelude::*;

verus! {

/// Value of the big-endian 32-bit field that starts at `i`.
pub open spec fn be_u32_at(b: Seq<u8>, i: int) -> int {
    b[i] * 0x1000000 + b[i + 1] * 0x10000 + b[i + 2] * 0x100 + b[i + 3]
}

/// Value of the little-endian 32-bit field that starts at `i`.
pub open spec fn le_u32_at(b: Seq<u8>, i: int) -> int {
    b[i] + b[i + 1] * 0x100 + b[i + 2] * 0x10000 + b[i + 3] * 0x1000000
}

/// Value of the little-endian 64-bit field that starts at `i`.
pub open spec fn le_u64_at(b: Seq<u8>, i: int) -> int {
    le_u32_at(b, i) + le_u32_at(b, i + 4) * 0x1_0000_0000
}

/// Reads the big-endian 32-bit field at `i`.
pub fn read_be_u32(data: &[u8], i: usize) -> (r: u32)
    requires
        i + 4 <= data@.len(),
    ensures
        r as int == be_u32_at(data@, i as int),
{
    (data[i] as u32) * 0x1000000 + (data[i + 1] as u32) * 0x10000 + (data[i + 2] as u32) * 0x100
        + (data[i + 3] as u32)
}

/// Reads the little-endian 32-bit field at `i`.
pub fn read_le_u32(data: &[u8], i: usize) -> (r: u32)
    requires
        i + 4 <= data@.len(),
    ensures
        r as int == le_u32_at(data@, i as int),
{
    (data[i] as u32) + (data[i + 1] as u32) * 0x100 + (data[i + 2] as u32) * 0x10000
        + (data[i + 3] as u32) * 0x1000000
}

/// Reads the little-endian 64-bit field at `i`.
pub fn read_le_u64(data: &[u8], i: usize) -> (r: u64)
    requires
        i + 8 <= data@.len(),
    ensures
        r as int == le_u64_at(data@, i as int),
{
    let n = data.len();
    let lo = read_le_u32(data, i) as u64;
    let hi = read_le_u32(data, i + 4) as u64;
    lo + hi * 0x1_0000_0000
}

/// A vector of bytes is its own deep view.
pub proof fn lemma_bytes_deep_view(v: Vec<u8>)
    ensures
        v.deep_view() == v@,
{
    assert(v.deep_view() =~= v@);
}

/// Copies `data[start..end]` into a fresh vector.
pub fn copy_range(data: &[u8], start: usize, end: usize) -> (v: Vec<u8>)
    requires
        start <= end <= data@.len(),
    ensures
        v@ == data@.subrange(start as int, end as int),
{
    let mut v: Vec<u8> = Vec::with_capacity(end - start);
    let mut i: usize = start;
    while i < end
        invariant
            start <= i <= end <= data@.len(),
            v@ == data@.subrange(start as int, i as int),
        decreases end - i,
    {
        v.push(data[i]);
        i = i + 1;
    }
    v
}


/// The consecutive `size`-byte windows of `c`, a shorter tail left out.
pub open spec fn windows(c: Seq<u8>, size: nat) -> Seq<Seq<u8>>
    decreases c.len(),
{
    if size == 0 || c.len() < size {
        seq![]
    } else {
        seq![c.take(size as int)] + windows(c.skip(size as int), size)
    }
}

/// `d` cut into consecutive chunks of `chunk` bytes (the last one shorter).
pub open spec fn chunks(d: Seq<u8>, chunk: nat) -> Seq<Seq<u8>>
    decreases d.len(),
{
    if chunk == 0 || d.len() == 0 {
        seq![]
    } else if d.len() <= chunk {
        seq![d]
    } else {
        seq![d.take(chunk as int)] + chunks(d.skip(chunk as int), chunk)
    }
}

/// The windows of each chunk of `d`, chunk after chunk.
pub open spec fn chunked_windows(d: Seq<u8>, chunk: nat, size: nat) -> Seq<Seq<u8>>
    decreases d.len(),
{
    if chunk == 0 || d.len() == 0 {
        seq![]
    } else if d.len() <= chunk {
        windows(d, size)
    } else {
        windows(d.take(chunk as int), size) + chunked_windows(d.skip(chunk as int), chunk, size)
    }
}

/// Windows of a prefix whose length is a multiple of the window size.
pub proof fn lemma_windows_split(a: Seq<u8>, b: Seq<u8>, size: nat)
    requires
        size > 0,
        a.len() % size == 0,
    ensures
        windows(a + b, size) == windows(a, size) + windows(b, size),
    decreases a.len(),
{
    if a.len() == 0 {
        assert(a + b =~= b);
        assert(windows(a, size) == Seq::<Seq<u8>>::empty());
        assert(Seq::<Seq<u8>>::empty() + windows(b, size) =~= windows(b, size));
    } else {
        assert(a.len() >= size) by (nonlinear_arith)
            requires
                a.len() % size == 0,
                a.len() > 0,
                size > 0,
        ;
        let a2 = a.skip(size as int);
        assert(a2.len() % size == 0) by (nonlinear_arith)
            requires
                a.len() % size == 0,
                a2.len() == a.len() - size,
                a.len() >= size,
                size > 0,
        ;
        lemma_windows_split(a2, b, size);
        assert((a + b).take(size as int) =~= a.take(size as int));
        assert((a + b).skip(size as int) =~= a2 + b);
        assert(seq![a.take(size as int)] + (windows(a2, size) + windows(b, size)) =~= (seq![
            a.take(size as int),
        ] + windows(a2, size)) + windows(b, size));
    }
}

/// When the window size divides the chunk size, chunking does not change the windows.
pub proof fn lemma_chunked_windows(d: Seq<u8>, chunk: nat, size: nat)
    requires
        size > 0,
        chunk > 0,
        chunk % size == 0,
    ensures
        chunked_windows(d, chunk, size) == windows(d, size),
    decreases d.len(),
{
    if d.len() == 0 {
    } else if d.len() <= chunk {
    } else {
        lemma_chunked_windows(d.skip(chunk as int), chunk, size);
        lemma_windows_split(d.take(chunk as int), d.skip(chunk as int), size);
        assert(d.take(chunk as int) + d.skip(chunk as int) =~= d);
    }
}

} // verus!
