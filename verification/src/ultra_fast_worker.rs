//! The fast path's computing part: how many files a batch takes, and raw data read as
//! 16-byte frames in 4 KiB chunks, stamped with their offset in the chunk.

use vstd::prelude::*;
use crate::frame_parser::ParsedFrame;
use crate::async_pipeline::{parse_chunk, stamped_windows, stamped_frames, lemma_stamped_frames_append};
use crate::high_performance_optimizer::{SIMDProcessor, next_byte};

verus! {

/// Files per batch: a quarter of the files per CPU, and at least 32.
pub fn optimal_batch_size(file_count: usize, cpu_count: usize) -> (r: usize)
    requires
        cpu_count >= 1,
        cpu_count * 4 <= usize::MAX,
    ensures
        r == if file_count as int / (cpu_count * 4) > 32 { file_count as int / (cpu_count * 4) } else { 32 },
{
    let per_batch = file_count / (cpu_count * 4);
    if per_batch > 32 {
        per_batch
    } else {
        32
    }
}

/// The stamped windows of `d` read in 4 KiB chunks, each chunk's timestamps starting at 0.
pub open spec fn ultra_windows(d: Seq<u8>) -> Seq<(Seq<u8>, int)>
    decreases d.len(),
{
    if d.len() == 0 {
        seq![]
    } else if d.len() <= 4096 {
        stamped_windows(d, 0)
    } else {
        stamped_windows(d.take(4096), 0) + ultra_windows(d.skip(4096))
    }
}

/// The frames of one chunk: one per whole 16-byte window, stamped with its offset.
pub fn parse_chunk_to_frames(chunk: &[u8]) -> (r: Vec<ParsedFrame>)
    ensures
        stamped_frames(r@, stamped_windows(chunk@, 0)),
{
    let n = chunk.len();
    assert(n <= u64::MAX);
    parse_chunk(chunk, 0)
}

/// The fast path's parse: 4 KiB chunks, each read by [`parse_chunk_to_frames`], the chunks'
/// frames in order.
pub fn parse_frames_optimized(data: &[u8]) -> (r: Vec<ParsedFrame>)
    ensures
        stamped_frames(r@, ultra_windows(data@)),
{
    let n = data.len();
    let mut frames: Vec<ParsedFrame> = Vec::new();
    let ghost mut acc: Seq<(Seq<u8>, int)> = seq![];
    let mut start: usize = 0;
    assert(data@.skip(0) =~= data@);
    while start < n
        invariant
            start <= n == data@.len(),
            ultra_windows(data@) == acc + ultra_windows(data@.skip(start as int)),
            stamped_frames(frames@, acc),
        decreases n - start,
    {
        let ghost t = data@.skip(start as int);
        let end = if n - start <= 4096 {
            n
        } else {
            start + 4096
        };
        let chunk = &data[start..end];
        let mut chunk_frames = parse_chunk_to_frames(chunk);
        proof {
            let sw = stamped_windows(chunk@, 0);
            if n - start <= 4096 {
                assert(chunk@ =~= t);
                assert(data@.skip(end as int) =~= Seq::<u8>::empty());
            } else {
                assert(chunk@ =~= t.take(4096));
                assert(t.skip(4096) =~= data@.skip(end as int));
            }
            lemma_stamped_frames_append(frames@, acc, chunk_frames@, sw);
            assert(acc + (sw + ultra_windows(data@.skip(end as int))) =~= (acc + sw) + ultra_windows(data@.skip(end as int)));
            acc = acc + sw;
        }
        frames.append(&mut chunk_frames);
        start = end;
    }
    assert(data@.skip(start as int) =~= Seq::<u8>::empty());
    assert(acc + Seq::<(Seq<u8>, int)>::empty() =~= acc);
    frames
}

/// The bytes of a file after the fast path's transform.
pub open spec fn transformed(d: Seq<u8>) -> Seq<u8> {
    d.map_values(|b: u8| next_byte(b))
}

/// The computing part of the fast path's handling of one file: the bytes transformed, then
/// read by [`parse_frames_optimized`].
pub fn process_data_ultra_fast(file_data: &[u8]) -> (r: Vec<ParsedFrame>)
    ensures
        stamped_frames(r@, ultra_windows(transformed(file_data@))),
{
    let processed = SIMDProcessor::process_bytes_simd(file_data);
    assert(processed@ =~= transformed(file_data@));
    parse_frames_optimized(processed.as_slice())
}

} // verus!
