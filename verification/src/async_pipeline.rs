//! The pipeline's settings and its CPU stage: raw data read as 16-byte frames in 64 KiB
//! chunks, each frame stamped with its chunk's number and its offset in the chunk.

use vstd::prelude::*;
use crate::wire::{le_u32_at, read_le_u32, copy_range};
use crate::frame_parser::ParsedFrame;

verus! {

/// Worker counts and channel size of the pipeline's stages.
#[derive(Clone, Copy, Debug)]
pub struct PipelineConfig {
    pub io_workers: usize,
    pub cpu_workers: usize,
    pub write_workers: usize,
    pub channel_buffer: usize,
}

impl PipelineConfig {
    /// The configuration for `cpu_count` CPUs: two readers per CPU (wrapping as release
    /// arithmetic does), one parser per CPU, one writer per two CPUs and room for 500 tasks
    /// in each channel.
    pub fn for_cpu_count(cpu_count: usize) -> (r: Self)
        ensures
            r.io_workers == cpu_count.wrapping_mul(2),
            r.cpu_workers == cpu_count,
            r.write_workers == cpu_count / 2,
            r.channel_buffer == 500,
    {
        PipelineConfig {
            io_workers: cpu_count.wrapping_mul(2),
            cpu_workers: cpu_count,
            write_workers: cpu_count / 2,
            channel_buffer: 500,
        }
    }
}

impl Default for PipelineConfig {
    /// The configuration for this machine's CPUs.
    fn default() -> (r: Self)
        ensures
            r.cpu_workers >= 1,
            r.io_workers == r.cpu_workers.wrapping_mul(2),
            r.write_workers == r.cpu_workers / 2,
            r.channel_buffer == 500,
    {
        Self::for_cpu_count(crate::platform::cpu_count())
    }
}

/// Bytes in one chunk of the CPU stage.
pub const PIPELINE_CHUNK_BYTES: usize = 65536;

/// The whole 16-byte windows of `c`, each with its timestamp: `base` plus its offset.
pub open spec fn stamped_windows(c: Seq<u8>, base: int) -> Seq<(Seq<u8>, int)> {
    Seq::new(c.len() / 16, |j: int| (c.subrange(16 * j, 16 * j + 16), base + 16 * j))
}

/// `f` is the frame read from window `w` stamped `ts`: a little-endian id at 0..4, the
/// payload at 4..12, and no signals.
pub open spec fn stamped_frame(f: ParsedFrame, w: Seq<u8>, ts: int) -> bool {
    &&& f.timestamp == ts
    &&& f.can_id == le_u32_at(w, 0)
    &&& f.data@ == w.subrange(4, 12)
    &&& f.signals@.len() == 0
}

/// `fs` are the frames read from the stamped windows `ws`.
pub open spec fn stamped_frames(fs: Seq<ParsedFrame>, ws: Seq<(Seq<u8>, int)>) -> bool {
    &&& fs.len() == ws.len()
    &&& forall|k: int| 0 <= k < fs.len() ==> stamped_frame(#[trigger] fs[k], ws[k].0, ws[k].1)
}

/// The stamped windows of `d` read in 64 KiB chunks, the first numbered `idx`; chunk `i`'s
/// timestamps start at `i * 1000`.
pub open spec fn pipeline_windows(d: Seq<u8>, idx: int) -> Seq<(Seq<u8>, int)>
    decreases d.len(),
{
    if d.len() == 0 {
        seq![]
    } else if d.len() <= 65536 {
        stamped_windows(d, idx * 1000)
    } else {
        stamped_windows(d.take(65536), idx * 1000) + pipeline_windows(d.skip(65536), idx + 1)
    }
}

/// Every chunk is read, each on its own: the stamped windows of `d` are all its whole
/// 16-byte windows in order, window `k` lying in chunk `idx + k / 4096` at offset
/// `16 * (k % 4096)` of that chunk, and stamped with the chunk's number times 1000 plus
/// that offset.
pub proof fn lemma_pipeline_windows_all_chunks(d: Seq<u8>, idx: int)
    ensures
        pipeline_windows(d, idx).len() == d.len() / 16,
        forall|k: int| 0 <= k < d.len() / 16 ==> #[trigger] pipeline_windows(d, idx)[k] == (
            d.subrange(16 * k, 16 * k + 16),
            1000 * (idx + k / 4096) + 16 * (k % 4096),
        ),
    decreases d.len(),
{
    if d.len() == 0 {
    } else if d.len() <= 65536 {
        assert forall|k: int| 0 <= k < d.len() / 16 implies #[trigger] pipeline_windows(d, idx)[k] == (
            d.subrange(16 * k, 16 * k + 16),
            1000 * (idx + k / 4096) + 16 * (k % 4096),
        ) by {
            assert(k < 4096);
            assert(k / 4096 == 0);
            assert(k % 4096 == k);
        }
    } else {
        let head = stamped_windows(d.take(65536), idx * 1000);
        let t = d.skip(65536);
        lemma_pipeline_windows_all_chunks(t, idx + 1);
        let rest = pipeline_windows(t, idx + 1);
        assert(head.len() == 4096);
        assert(t.len() == d.len() - 65536);
        assert((d.len() - 65536) / 16 + 4096 == d.len() / 16);
        assert forall|k: int| 0 <= k < d.len() / 16 implies #[trigger] pipeline_windows(d, idx)[k] == (
            d.subrange(16 * k, 16 * k + 16),
            1000 * (idx + k / 4096) + 16 * (k % 4096),
        ) by {
            if k < 4096 {
                assert(pipeline_windows(d, idx)[k] == head[k]);
                assert(d.take(65536).subrange(16 * k, 16 * k + 16) =~= d.subrange(16 * k, 16 * k + 16));
                assert(k / 4096 == 0);
                assert(k % 4096 == k);
            } else {
                let q = k - 4096;
                assert(pipeline_windows(d, idx)[k] == rest[q]);
                assert(0 <= q < t.len() / 16);
                assert(rest[q] == (t.subrange(16 * q, 16 * q + 16), 1000 * (idx + 1 + q / 4096) + 16 * (q % 4096)));
                assert(t.subrange(16 * q, 16 * q + 16) =~= d.subrange(16 * k, 16 * k + 16));
                assert(q / 4096 + 1 == k / 4096);
                assert(q % 4096 == k % 4096);
            }
        }
    }
}

/// Frames read from two runs of windows, joined, are the frames of the joined windows.
pub proof fn lemma_stamped_frames_append(
    fs: Seq<ParsedFrame>,
    ws: Seq<(Seq<u8>, int)>,
    gs: Seq<ParsedFrame>,
    vs: Seq<(Seq<u8>, int)>,
)
    requires
        stamped_frames(fs, ws),
        stamped_frames(gs, vs),
    ensures
        stamped_frames(fs + gs, ws + vs),
{
    assert forall|k: int| 0 <= k < (fs + gs).len() implies stamped_frame(#[trigger] (fs + gs)[k], (ws + vs)[k].0, (ws + vs)[k].1) by {
        if k < fs.len() {
            assert((fs + gs)[k] == fs[k]);
            assert((ws + vs)[k] == ws[k]);
        } else {
            assert((fs + gs)[k] == gs[k - fs.len()]);
            assert((ws + vs)[k] == vs[k - ws.len()]);
        }
    }
}

/// The frames of chunk number `chunk_idx`: one per whole 16-byte window, stamped with
/// `chunk_idx * 1000` plus the window's offset.
pub fn parse_chunk(chunk: &[u8], chunk_idx: usize) -> (r: Vec<ParsedFrame>)
    requires
        chunk_idx * 1000 <= usize::MAX,
        chunk_idx * 1000 + 16 * (chunk@.len() / 16) <= u64::MAX + 16,
    ensures
        stamped_frames(r@, stamped_windows(chunk@, chunk_idx * 1000)),
{
    let n = chunk.len();
    let base = (chunk_idx * 1000) as u64;
    let ghost ws = stamped_windows(chunk@, chunk_idx * 1000);
    let mut frames: Vec<ParsedFrame> = Vec::new();
    let mut offset: usize = 0;
    while offset <= n && 16 <= n - offset
        invariant
            n == chunk@.len(),
            base == chunk_idx * 1000,
            base + 16 * (n / 16) <= u64::MAX + 16,
            ws == stamped_windows(chunk@, chunk_idx * 1000),
            offset == 16 * frames@.len(),
            offset <= n,
            stamped_frames(frames@, ws.take(frames@.len() as int)),
        decreases n - offset,
    {
        let ghost k = frames@.len() as int;
        let ghost w = chunk@.subrange(16 * k, 16 * k + 16);
        let can_id = read_le_u32(chunk, offset);
        let data = copy_range(chunk, offset + 4, offset + 12);
        let frame = ParsedFrame { timestamp: base + offset as u64, can_id, data, signals: Vec::new() };
        proof {
            assert(k < n / 16);
            assert(ws[k] == (w, base + 16 * k));
            assert(le_u32_at(w, 0) == le_u32_at(chunk@, offset as int));
            assert(data@ =~= w.subrange(4, 12));
            lemma_stamped_frames_append(frames@, ws.take(k), seq![frame], seq![ws[k]]);
            assert(ws.take(k) + seq![ws[k]] =~= ws.take(k + 1));
        }
        frames.push(frame);
        offset = offset + 16;
    }
    assert(frames@.len() == n / 16);
    assert(ws.take(frames@.len() as int) =~= ws);
    frames
}

/// The CPU stage's parse of raw data: 64 KiB chunks, each read by [`parse_chunk`] with its
/// number, the chunks' frames in order.
pub fn parse_data_parallel(data: &[u8]) -> (r: Vec<ParsedFrame>)
    ensures
        stamped_frames(r@, pipeline_windows(data@, 0)),
{
    let n = data.len();
    let mut frames: Vec<ParsedFrame> = Vec::new();
    let ghost mut acc: Seq<(Seq<u8>, int)> = seq![];
    let mut start: usize = 0;
    let mut idx: usize = 0;
    assert(data@.skip(0) =~= data@);
    while start < n
        invariant
            start <= n == data@.len(),
            start < n ==> start == idx * 65536,
            pipeline_windows(data@, 0) == acc + pipeline_windows(data@.skip(start as int), idx as int),
            stamped_frames(frames@, acc),
        decreases n - start,
    {
        let ghost t = data@.skip(start as int);
        let end = if n - start <= PIPELINE_CHUNK_BYTES {
            n
        } else {
            start + PIPELINE_CHUNK_BYTES
        };
        assert(idx * 1000 <= start) by (nonlinear_arith)
            requires
                start == idx * 65536,
        ;
        let chunk = &data[start..end];
        let mut chunk_frames = parse_chunk(chunk, idx);
        proof {
            let sw = stamped_windows(chunk@, idx * 1000);
            if n - start <= 65536 {
                assert(chunk@ =~= t);
                assert(data@.skip(end as int) =~= Seq::<u8>::empty());
                assert(pipeline_windows(data@.skip(end as int), idx + 1) =~= Seq::<(Seq<u8>, int)>::empty());
            } else {
                assert(chunk@ =~= t.take(65536));
                assert(t.skip(65536) =~= data@.skip(end as int));
            }
            lemma_stamped_frames_append(frames@, acc, chunk_frames@, sw);
            assert(acc + (sw + pipeline_windows(data@.skip(end as int), idx + 1)) =~= (acc + sw) + pipeline_windows(data@.skip(end as int), idx + 1));
            acc = acc + sw;
        }
        frames.append(&mut chunk_frames);
        start = end;
        idx = idx + 1;
    }
    assert(data@.skip(start as int) =~= Seq::<u8>::empty());
    assert(acc + Seq::<(Seq<u8>, int)>::empty() =~= acc);
    frames
}

} // verus!
