//! The layered format read in batches sized by the blocks' compressed size.

use vstd::prelude::*;
use std::sync::Arc;
use crate::wire::{le_u32_at, le_u64_at, read_le_u32, read_le_u64, copy_range, windows, chunked_windows, lemma_chunked_windows, lemma_bytes_deep_view};
use crate::dbc_parser::DbcParser;
use crate::frame_parser::{FrameError, FileLevelData, ParsedFrame, file_blocks, blocks_match, split_file_blocks};
use crate::compression::{gzip_decode, decompress_gzip};
use crate::concurrent_frame_parser::{ConcurrentFrameParser, gunzip_all, compressed_of, file_compressed, lemma_gunzip_all_append, lemma_gunzip_all_len};

verus! {

/// Batch sizes and thresholds for the batch parser.
#[derive(Clone, Copy, Debug)]
pub struct BatchProcessConfig {
    /// How many small compressed blocks a batch holds.
    pub decompress_batch_size: usize,
    pub parse_batch_size: usize,
    pub frame_batch_size: usize,
    pub worker_threads: usize,
    /// Blocks below this many compressed bytes count as small.
    pub small_block_threshold: usize,
}

impl BatchProcessConfig {
    /// The configuration for `cpu_count` CPUs.
    pub fn for_cpu_count(cpu_count: usize) -> (r: Self)
        ensures
            r.decompress_batch_size == 32,
            r.parse_batch_size == 64,
            r.frame_batch_size == 128,
            r.worker_threads == cpu_count,
            r.small_block_threshold == 8192,
    {
        BatchProcessConfig {
            decompress_batch_size: 32,
            parse_batch_size: 64,
            frame_batch_size: 128,
            worker_threads: cpu_count,
            small_block_threshold: 8192,
        }
    }
}

impl Default for BatchProcessConfig {
    /// The configuration for this machine's CPUs.
    fn default() -> (r: Self)
        ensures
            r.decompress_batch_size == 32,
            r.parse_batch_size == 64,
            r.frame_batch_size == 128,
            r.worker_threads >= 1,
            r.small_block_threshold == 8192,
    {
        Self::for_cpu_count(crate::platform::cpu_count())
    }
}

/// A batch of items with its number and the total size it was estimated at.
#[derive(Clone, Debug)]
pub struct DataBatch<T> {
    pub items: Vec<T>,
    pub batch_id: usize,
    pub estimated_total_size: usize,
}

impl<T> DataBatch<T> {
    /// A batch of `items` numbered `batch_id`, not yet sized.
    pub fn new(items: Vec<T>, batch_id: usize) -> (r: Self)
        ensures
            r.items@ == items@,
            r.batch_id == batch_id,
            r.estimated_total_size == 0,
    {
        DataBatch { items, batch_id, estimated_total_size: 0 }
    }

    /// Number of items.
    pub fn len(&self) -> (r: usize)
        ensures
            r == self.items@.len(),
    {
        self.items.len()
    }

    /// Whether the batch holds nothing.
    pub fn is_empty(&self) -> (r: bool)
        ensures
            r == (self.items@.len() == 0),
    {
        self.items.len() == 0
    }
}

/// Parses `.bin` data in batches of blocks.
pub struct BatchConcurrentParser {
    dbc_parser: Arc<DbcParser>,
    config: BatchProcessConfig,
}

/// `f` is the frame read from window `w`: a little-endian timestamp at 0..8 and id at
/// 8..12, the rest of the window as payload, and no signals.
pub open spec fn window_frame(f: ParsedFrame, w: Seq<u8>) -> bool {
    &&& f.timestamp == le_u64_at(w, 0)
    &&& f.can_id == le_u32_at(w, 8)
    &&& f.data@ == w.skip(12)
    &&& f.signals@.len() == 0
}

/// `fs` are the frames read from windows `ws`.
pub open spec fn window_frames(fs: Seq<ParsedFrame>, ws: Seq<Seq<u8>>) -> bool {
    &&& fs.len() == ws.len()
    &&& forall|k: int| 0 <= k < fs.len() ==> window_frame(#[trigger] fs[k], ws[k])
}

/// Frames read from two runs of windows, joined, are the frames of the joined windows.
pub proof fn lemma_window_frames_append(
    fs: Seq<ParsedFrame>,
    ws: Seq<Seq<u8>>,
    gs: Seq<ParsedFrame>,
    vs: Seq<Seq<u8>>,
)
    requires
        window_frames(fs, ws),
        window_frames(gs, vs),
    ensures
        window_frames(fs + gs, ws + vs),
{
    assert forall|k: int| 0 <= k < (fs + gs).len() implies window_frame(#[trigger] (fs + gs)[k], (ws + vs)[k]) by {
        if k < fs.len() {
            assert((fs + gs)[k] == fs[k]);
            assert((ws + vs)[k] == ws[k]);
        } else {
            assert((fs + gs)[k] == gs[k - fs.len()]);
            assert((ws + vs)[k] == vs[k - ws.len()]);
        }
    }
}

impl BatchConcurrentParser {
    /// The frames of one chunk: one per whole `frame_size`-byte window.
    pub fn parse_chunk_to_frames_fast(chunk: &[u8], frame_size: usize) -> (r: Vec<ParsedFrame>)
        requires
            frame_size >= 12 || chunk@.len() < frame_size,
        ensures
            window_frames(r@, windows(chunk@, frame_size as nat)),
    {
        let n = chunk.len();
        let mut frames: Vec<ParsedFrame> = Vec::new();
        let ghost mut acc: Seq<Seq<u8>> = seq![];
        let mut offset: usize = 0;
        assert(chunk@.skip(0) =~= chunk@);
        while offset <= n && frame_size <= n - offset
            invariant
                frame_size >= 12 || n < frame_size,
                offset <= n == chunk@.len(),
                windows(chunk@, frame_size as nat) == acc + windows(chunk@.skip(offset as int), frame_size as nat),
                window_frames(frames@, acc),
            decreases n - offset,
        {
            let ghost t = chunk@.skip(offset as int);
            let ghost w = t.take(frame_size as int);
            let timestamp = read_le_u64(chunk, offset);
            let can_id = read_le_u32(chunk, offset + 8);
            let data = copy_range(chunk, offset + 12, offset + frame_size);
            let frame = ParsedFrame { timestamp, can_id, data, signals: Vec::new() };
            proof {
                assert(le_u64_at(w, 0) == le_u64_at(chunk@, offset as int));
                assert(le_u32_at(w, 8) == le_u32_at(chunk@, offset + 8));
                assert(data@ =~= w.skip(12));
                assert(t.skip(frame_size as int) =~= chunk@.skip(offset + frame_size));
                lemma_window_frames_append(frames@, acc, seq![frame], seq![w]);
                assert(acc + (seq![w] + windows(chunk@.skip(offset + frame_size), frame_size as nat)) =~= (acc + seq![w]) + windows(chunk@.skip(offset + frame_size), frame_size as nat));
                acc = acc + seq![w];
            }
            frames.push(frame);
            assert(frames@ =~= (frames@.drop_last() + seq![frame]));
            offset = offset + frame_size;
        }
        proof {
            assert(chunk@.skip(offset as int).len() < frame_size);
            assert(acc + Seq::<Seq<u8>>::empty() =~= acc);
        }
        frames
    }

    /// The frames of a decompressed block read in 1 KiB chunks of 16-byte frames.
    pub fn parse_decompressed_data_fast(data: &[u8]) -> (r: Vec<ParsedFrame>)
        ensures
            window_frames(r@, chunked_windows(data@, 1024, 16)),
            window_frames(r@, windows(data@, 16)),
    {
        let n = data.len();
        let mut frames: Vec<ParsedFrame> = Vec::new();
        let ghost mut acc: Seq<Seq<u8>> = seq![];
        let mut start: usize = 0;
        assert(data@.skip(0) =~= data@);
        while start < n
            invariant
                start <= n == data@.len(),
                chunked_windows(data@, 1024, 16) == acc + chunked_windows(data@.skip(start as int), 1024, 16),
                window_frames(frames@, acc),
            decreases n - start,
        {
            let ghost t = data@.skip(start as int);
            let end = if n - start <= 1024 {
                n
            } else {
                start + 1024
            };
            let chunk = &data[start..end];
            let mut chunk_frames = Self::parse_chunk_to_frames_fast(chunk, 16);
            proof {
                let cw = windows(chunk@, 16);
                if n - start <= 1024 {
                    assert(chunk@ =~= t);
                    assert(data@.skip(end as int) =~= Seq::<u8>::empty());
                } else {
                    assert(chunk@ =~= t.take(1024));
                    assert(t.skip(1024) =~= data@.skip(end as int));
                }
                lemma_window_frames_append(frames@, acc, chunk_frames@, cw);
                assert(acc + (cw + chunked_windows(data@.skip(end as int), 1024, 16)) =~= (acc + cw) + chunked_windows(data@.skip(end as int), 1024, 16));
                acc = acc + cw;
            }
            frames.append(&mut chunk_frames);
            start = end;
        }
        proof {
            assert(acc + Seq::<Seq<u8>>::empty() =~= acc);
            lemma_chunked_windows(data@, 1024, 16);
        }
        frames
    }
}


/// Compressed bytes held by `fs`.
pub open spec fn total_size(fs: Seq<FileLevelData>) -> int
    decreases fs.len(),
{
    if fs.len() == 0 {
        0
    } else {
        total_size(fs.drop_last()) + fs.last().compressed_data@.len()
    }
}

/// The compressed size of each block.
pub open spec fn block_sizes(fs: Seq<FileLevelData>) -> Seq<int> {
    fs.map_values(|f: FileLevelData| f.compressed_data@.len() as int)
}

/// Whether a block of `size` bytes opens a new batch after a batch of `cur_len` blocks and
/// `cur_size` bytes: small blocks are batched by count, large ones by size or half the count.
pub open spec fn starts_new_batch(size: int, cur_len: int, cur_size: int, cfg: BatchProcessConfig) -> bool {
    if size < cfg.small_block_threshold {
        cur_len >= cfg.decompress_batch_size
    } else {
        cur_size + size > cfg.small_block_threshold * 2 || cur_len >= cfg.decompress_batch_size / 2
    }
}

/// The block counts of the batches that blocks of `sizes` from `i` on form, the open batch
/// holding `cur_len` blocks of `cur_size` bytes.
pub open spec fn batch_counts(
    sizes: Seq<int>,
    i: int,
    cur_len: int,
    cur_size: int,
    cfg: BatchProcessConfig,
) -> Seq<int>
    decreases sizes.len() - i,
{
    if i < 0 || i >= sizes.len() {
        if cur_len > 0 {
            seq![cur_len]
        } else {
            seq![]
        }
    } else if starts_new_batch(sizes[i], cur_len, cur_size, cfg) && cur_len > 0 {
        seq![cur_len] + batch_counts(sizes, i + 1, 1, sizes[i], cfg)
    } else {
        batch_counts(sizes, i + 1, cur_len + 1, cur_size + sizes[i], cfg)
    }
}

/// The batch plan for `blocks`: how many blocks each batch takes, in order.
pub open spec fn batch_plan(blocks: Seq<FileLevelData>, cfg: BatchProcessConfig) -> Seq<int> {
    batch_counts(block_sizes(blocks), 0, 0, 0, cfg)
}

/// The items of `bs`, batch after batch.
pub open spec fn batch_items<T>(bs: Seq<DataBatch<T>>) -> Seq<T>
    decreases bs.len(),
{
    if bs.len() == 0 {
        seq![]
    } else {
        batch_items(bs.drop_last()) + bs.last().items@
    }
}

/// `bs` are batches numbered from 0, each sized at the compressed bytes it holds.
pub open spec fn batches_numbered(bs: Seq<DataBatch<FileLevelData>>) -> bool {
    forall|k: int|
        0 <= k < bs.len() ==> (#[trigger] bs[k]).batch_id == k && bs[k].estimated_total_size
            == total_size(bs[k].items@)
}

/// The block count of each batch.
pub open spec fn batch_lens<T>(bs: Seq<DataBatch<T>>) -> Seq<int> {
    bs.map_values(|b: DataBatch<T>| b.items@.len() as int)
}

proof fn lemma_total_size_push(fs: Seq<FileLevelData>, f: FileLevelData)
    ensures
        total_size(fs.push(f)) == total_size(fs) + f.compressed_data@.len(),
{
    assert(fs.push(f).drop_last() =~= fs);
}

proof fn lemma_total_size_prefix(fs: Seq<FileLevelData>, i: int)
    requires
        0 <= i <= fs.len(),
    ensures
        0 <= total_size(fs.take(i)) <= total_size(fs),
    decreases fs.len(),
{
    if i < fs.len() {
        lemma_total_size_prefix(fs.drop_last(), i);
        assert(fs.drop_last().take(i) =~= fs.take(i));
    } else {
        assert(fs.take(i) =~= fs);
        if fs.len() > 0 {
            lemma_total_size_prefix(fs.drop_last(), fs.len() - 1);
            assert(fs.drop_last().take(fs.len() - 1) =~= fs.drop_last());
        }
    }
}

impl BatchConcurrentParser {
    /// The parser's configuration.
    pub closed spec fn config_view(&self) -> BatchProcessConfig {
        self.config
    }

    /// Groups `blocks` into batches following [`batch_plan`]: the batches hold the blocks in
    /// order, are numbered from 0 and are sized at the compressed bytes they hold.
    pub fn create_smart_batches(&self, blocks: Vec<FileLevelData>) -> (r: Vec<DataBatch<FileLevelData>>)
        requires
            total_size(blocks@) <= usize::MAX,
        ensures
            batch_items(r@) == blocks@,
            batch_lens(r@) == batch_plan(blocks@, self.config_view()),
            batches_numbered(r@),
    {
        let cfg = self.config;
        let ghost all = blocks@;
        let ghost sizes = block_sizes(all);
        let mut batches: Vec<DataBatch<FileLevelData>> = Vec::new();
        let mut current_batch: Vec<FileLevelData> = Vec::new();
        let mut current_size: usize = 0;
        let mut batch_id: usize = 0;
        let ghost mut i: int = 0;
        for block in it: blocks
            invariant
                all == it.seq(),
                i == it.index(),
                0 <= i <= all.len(),
                sizes == block_sizes(all),
                cfg == self.config_view(),
                total_size(all) <= usize::MAX,
                batch_items(batches@) + current_batch@ == all.take(i),
                batch_counts(sizes, 0, 0, 0, cfg) == batch_lens(batches@) + batch_counts(sizes, i, current_batch@.len() as int, current_size as int, cfg),
                batches_numbered(batches@),
                batch_id == batches@.len(),
                current_size == total_size(current_batch@),
                total_size(current_batch@) <= total_size(all.take(i)),
                cfg.decompress_batch_size > 0 ==> current_batch@.len() <= cfg.decompress_batch_size,
        {
            proof {
                lemma_total_size_prefix(all, i + 1);
                assert(all.take(i + 1).drop_last() =~= all.take(i));
                assert(all[i] == block);
                assert(sizes[i] == block.compressed_data@.len());
            }
            let block_size = block.compressed_data.len();
            let should_start_new_batch = if block_size < cfg.small_block_threshold {
                current_batch.len() >= cfg.decompress_batch_size
            } else {
                let too_large = match cfg.small_block_threshold.checked_mul(2) {
                    Some(limit) => current_size + block_size > limit,
                    None => false,
                };
                too_large || current_batch.len() >= cfg.decompress_batch_size / 2
            };
            if should_start_new_batch && current_batch.len() > 0 {
                let ghost cur = current_batch@;
                let mut batch = DataBatch::new(current_batch, batch_id);
                batch.estimated_total_size = current_size;
                let ghost before = batches@;
                batches.push(batch);
                proof {
                    assert(batches@.drop_last() =~= before);
                    assert(batch_lens(batches@) =~= batch_lens(before).push(cur.len() as int));
                    assert(batch_lens(before) + (seq![cur.len() as int] + batch_counts(sizes, i + 1, 1, sizes[i], cfg)) =~= batch_lens(batches@) + batch_counts(sizes, i + 1, 1, sizes[i], cfg));
                }
                current_batch = Vec::new();
                current_size = 0;
                batch_id = batches.len();
                proof {
                    assert(batch_items(batches@) + current_batch@ =~= batch_items(before) + cur);
                }
            }
            let ghost before_items = current_batch@;
            current_batch.push(block);
            proof {
                lemma_total_size_push(before_items, block);
                assert(batch_items(batches@) + current_batch@ =~= (batch_items(batches@) + before_items).push(block));
            }
            current_size = current_size + block_size;
            proof {
                i = i + 1;
            }
        }
        if current_batch.len() > 0 {
            let ghost cur = current_batch@;
            let mut batch = DataBatch::new(current_batch, batch_id);
            batch.estimated_total_size = current_size;
            let ghost before = batches@;
            batches.push(batch);
            proof {
                assert(batches@.drop_last() =~= before);
                assert(batch_lens(batches@) =~= batch_lens(before).push(cur.len() as int));
                assert(batch_lens(before) + seq![cur.len() as int] =~= batch_lens(batches@));
            }
        } else {
            proof {
                assert(batch_lens(batches@) + Seq::<int>::empty() =~= batch_lens(batches@));
            }
        }
        proof {
            assert(all.take(all.len() as int) =~= all);
        }
        batches
    }
}


/// The decompressed data held by `bs`, batch after batch.
pub open spec fn batch_data(bs: Seq<DataBatch<Vec<u8>>>) -> Seq<Seq<u8>>
    decreases bs.len(),
{
    if bs.len() == 0 {
        seq![]
    } else {
        batch_data(bs.drop_last()) + bs.last().items.deep_view()
    }
}

/// The 16-byte windows of each of `ds`, one block after another.
pub open spec fn data_windows(ds: Seq<Seq<u8>>) -> Seq<Seq<u8>>
    decreases ds.len(),
{
    if ds.len() == 0 {
        seq![]
    } else {
        data_windows(ds.drop_last()) + windows(ds.last(), 16)
    }
}

/// The windows of one decompressed block are its 16-byte windows.
pub proof fn lemma_data_windows_one(d: Seq<u8>)
    ensures
        data_windows(seq![d]) == windows(d, 16),
{
    assert(seq![d].drop_last() =~= Seq::<Seq<u8>>::empty());
    assert(data_windows(seq![d].drop_last()) == Seq::<Seq<u8>>::empty());
    assert(seq![d].last() == d);
    assert(Seq::<Seq<u8>>::empty() + windows(d, 16) =~= windows(d, 16));
}

/// Every block is read: the windows of two runs of decompressed blocks, one after the
/// other, are the windows of the first run followed by those of the second.
pub proof fn lemma_data_windows_append(a: Seq<Seq<u8>>, b: Seq<Seq<u8>>)
    ensures
        data_windows(a + b) == data_windows(a) + data_windows(b),
    decreases b.len(),
{
    if b.len() == 0 {
        assert(a + b =~= a);
        assert(data_windows(a) + Seq::<Seq<u8>>::empty() =~= data_windows(a));
    } else {
        assert((a + b).drop_last() =~= a + b.drop_last());
        assert((a + b).last() == b.last());
        lemma_data_windows_append(a, b.drop_last());
        assert(data_windows(a) + data_windows(b.drop_last()) + windows(b.last(), 16)
            =~= data_windows(a) + (data_windows(b.drop_last()) + windows(b.last(), 16)));
    }
}

/// Joining two runs of batches joins their items.
pub proof fn lemma_batch_items_append<T>(a: Seq<DataBatch<T>>, b: Seq<DataBatch<T>>)
    ensures
        batch_items(a + b) == batch_items(a) + batch_items(b),
    decreases b.len(),
{
    if b.len() == 0 {
        assert(a + b =~= a);
        assert(batch_items(a) + Seq::<T>::empty() =~= batch_items(a));
    } else {
        lemma_batch_items_append(a, b.drop_last());
        assert((a + b).drop_last() =~= a + b.drop_last());
        assert((a + b).last() == b.last());
        assert(batch_items(a) + batch_items(b) =~= batch_items(a) + batch_items(b.drop_last())
            + b.last().items@);
    }
}

/// The data a run of batches holds is every item of every batch, in order, each taken by
/// its bytes.
pub proof fn lemma_batch_data_items(bs: Seq<DataBatch<Vec<u8>>>)
    ensures
        batch_data(bs) == batch_items(bs).map_values(|v: Vec<u8>| v@),
    decreases bs.len(),
{
    if bs.len() == 0 {
        assert(batch_items(bs).map_values(|v: Vec<u8>| v@) =~= Seq::<Seq<u8>>::empty());
    } else {
        let init = bs.drop_last();
        lemma_batch_data_items(init);
        lemma_batch_items_append(init, seq![bs.last()]);
        assert(init + seq![bs.last()] =~= bs);
        assert(seq![bs.last()].drop_last() =~= Seq::<DataBatch<Vec<u8>>>::empty());
        assert(batch_items(seq![bs.last()].drop_last()) == Seq::<Vec<u8>>::empty());
        assert(batch_items(seq![bs.last()]) =~= bs.last().items@);
        let its = bs.last().items;
        assert forall|k: int| 0 <= k < its@.len() implies #[trigger] its.deep_view()[k] == its@[k]@ by {
            lemma_bytes_deep_view(its@[k]);
        }
        assert(its.deep_view() =~= its@.map_values(|v: Vec<u8>| v@));
        assert(batch_items(bs).map_values(|v: Vec<u8>| v@) =~= batch_items(init).map_values(|v: Vec<u8>| v@)
            + bs.last().items@.map_values(|v: Vec<u8>| v@));
    }
}

proof fn lemma_compressed_of_append(a: Seq<FileLevelData>, b: Seq<FileLevelData>)
    ensures
        compressed_of(a + b) == compressed_of(a) + compressed_of(b),
{
    assert(compressed_of(a + b) =~= compressed_of(a) + compressed_of(b));
}

impl BatchConcurrentParser {
    /// A parser with `config`, or this machine's default configuration.
    pub fn new(dbc_parser: Arc<DbcParser>, config: Option<BatchProcessConfig>) -> (r: Self)
        ensures
            config matches Some(c) ==> r.config_view() == c,
            config is None ==> ({
                let c = r.config_view();
                &&& c.decompress_batch_size == 32
                &&& c.parse_batch_size == 64
                &&& c.frame_batch_size == 128
                &&& c.worker_threads >= 1
                &&& c.small_block_threshold == 8192
            }),
    {
        let config = match config {
            Some(c) => c,
            None => BatchProcessConfig::default(),
        };
        BatchConcurrentParser { dbc_parser, config }
    }

    /// Layer 0: the blocks of the file, up to the first one that is cut short.
    pub fn parse_file_level_fast(data: &[u8]) -> (r: Vec<FileLevelData>)
        ensures
            blocks_match(r@, file_blocks(data@)),
    {
        split_file_blocks(data)
    }

    /// Decompresses every batch, keeping each batch's number; fails when a block does not
    /// decompress.
    pub fn decompress_batches_concurrent(batches: &Vec<DataBatch<FileLevelData>>) -> (r: Result<Vec<DataBatch<Vec<u8>>>, FrameError>)
        ensures
            match gunzip_all(compressed_of(batch_items(batches@))) {
                Some(ds) => r matches Ok(v) && {
                    &&& batch_data(v@) == ds
                    &&& v@.len() == batches@.len()
                    &&& forall|k: int| 0 <= k < v@.len() ==> {
                        &&& (#[trigger] v@[k]).batch_id == batches@[k].batch_id
                        &&& v@[k].estimated_total_size == 0
                        &&& v@[k].items@.len() == batches@[k].items@.len()
                    }
                },
                None => r == Err::<Vec<DataBatch<Vec<u8>>>, FrameError>(FrameError::Decompress),
            },
    {
        let ghost bs = batches@;
        let mut out: Vec<DataBatch<Vec<u8>>> = Vec::new();
        let mut i: usize = 0;
        assert(batch_items(bs.take(0)) =~= Seq::<FileLevelData>::empty()) by {
            assert(bs.take(0) =~= Seq::<DataBatch<FileLevelData>>::empty());
        }
        assert(compressed_of(Seq::<FileLevelData>::empty()) =~= Seq::<Seq<u8>>::empty());
        while i < batches.len()
            invariant
                i <= bs.len(),
                bs == batches@,
                out@.len() == i,
                gunzip_all(compressed_of(batch_items(bs.take(i as int)))) == Some(batch_data(out@)),
                forall|k: int| 0 <= k < i ==> {
                    &&& (#[trigger] out@[k]).batch_id == bs[k].batch_id
                    &&& out@[k].estimated_total_size == 0
                    &&& out@[k].items@.len() == bs[k].items@.len()
                },
            decreases bs.len() - i,
        {
            let batch = &batches[i];
            let ghost pre = batch_items(bs.take(i as int));
            proof {
                assert(bs.take(i + 1).drop_last() =~= bs.take(i as int));
                assert(bs.take(i + 1).last() == bs[i as int]);
                lemma_compressed_of_append(pre, batch.items@);
                lemma_gunzip_all_append(compressed_of(pre), compressed_of(batch.items@));
                lemma_gunzip_all_len(compressed_of(batch.items@));
            }
            match ConcurrentFrameParser::decompress_blocks_concurrent(&batch.items) {
                Ok(items) => {
                    let ghost before = out@;
                    let decoded = DataBatch::new(items, batch.batch_id);
                    out.push(decoded);
                    assert(out@.drop_last() =~= before);
                },
                Err(e) => {
                    proof {
                        assert(bs =~= bs.take(i + 1) + bs.skip(i + 1));
                        lemma_batch_items_append(bs.take(i + 1), bs.skip(i + 1));
                        lemma_compressed_of_append(batch_items(bs.take(i + 1)), batch_items(bs.skip(i + 1)));
                        lemma_gunzip_all_append(compressed_of(batch_items(bs.take(i + 1))), compressed_of(batch_items(bs.skip(i + 1))));
                    }
                    return Err(e);
                },
            }
            i = i + 1;
        }
        assert(bs.take(i as int) =~= bs);
        Ok(out)
    }

    /// The frames of every decompressed block of every batch, in order.
    pub fn parse_batches_concurrent(batches: &Vec<DataBatch<Vec<u8>>>) -> (r: Vec<ParsedFrame>)
        ensures
            window_frames(r@, data_windows(batch_data(batches@))),
    {
        let ghost bs = batches@;
        let mut frames: Vec<ParsedFrame> = Vec::new();
        let mut i: usize = 0;
        assert(bs.take(0) =~= Seq::<DataBatch<Vec<u8>>>::empty());
        while i < batches.len()
            invariant
                i <= bs.len(),
                bs == batches@,
                window_frames(frames@, data_windows(batch_data(bs.take(i as int)))),
            decreases bs.len() - i,
        {
            let items = &batches[i].items;
            let ghost base = batch_data(bs.take(i as int));
            let ghost dv = items.deep_view();
            let mut j: usize = 0;
            assert(base + dv.take(0) =~= base);
            while j < items.len()
                invariant
                    j <= items@.len() == dv.len(),
                    dv == items.deep_view(),
                    window_frames(frames@, data_windows(base + dv.take(j as int))),
                decreases items@.len() - j,
            {
                let mut fs = Self::parse_decompressed_data_fast(items[j].as_slice());
                proof {
                    let ds = base + dv.take(j as int);
                    let ds2 = base + dv.take(j + 1);
                    assert(ds2.drop_last() =~= ds);
                    assert(ds2.last() == items@[j as int]@);
                    lemma_window_frames_append(frames@, data_windows(ds), fs@, windows(items@[j as int]@, 16));
                }
                frames.append(&mut fs);
                j = j + 1;
            }
            proof {
                assert(bs.take(i + 1).drop_last() =~= bs.take(i as int));
                assert(bs.take(i + 1).last() == bs[i as int]);
                assert(dv.take(j as int) =~= dv);
            }
            i = i + 1;
        }
        assert(bs.take(i as int) =~= bs);
        frames
    }
}

/// Compressed bytes of the blocks of `d` come to no more than `d`'s length.
proof fn lemma_file_blocks_total(fs: Seq<FileLevelData>, d: Seq<u8>)
    requires
        blocks_match(fs, file_blocks(d)),
    ensures
        total_size(fs) <= d.len(),
    decreases d.len(),
{
    if fs.len() > 0 {
        let len = 35 + crate::wire::be_u32_at(d, 31);
        let rest = d.skip(len);
        assert(file_blocks(d) == seq![d.take(len)] + file_blocks(rest));
        assert(blocks_match(fs.drop_first(), file_blocks(rest))) by {
            assert forall|k: int| 0 <= k < fs.drop_first().len() implies crate::frame_parser::block_of(#[trigger] fs.drop_first()[k], file_blocks(rest)[k]) by {
                assert(fs.drop_first()[k] == fs[k + 1]);
                assert(file_blocks(d)[k + 1] == file_blocks(rest)[k]);
            }
        }
        lemma_file_blocks_total(fs.drop_first(), rest);
        assert(crate::frame_parser::block_of(fs[0], file_blocks(d)[0]));
        lemma_total_size_first(fs);
    }
}

proof fn lemma_total_size_first(fs: Seq<FileLevelData>)
    requires
        fs.len() > 0,
    ensures
        total_size(fs) == fs[0].compressed_data@.len() + total_size(fs.drop_first()),
    decreases fs.len(),
{
    if fs.len() > 1 {
        lemma_total_size_first(fs.drop_last());
        assert(fs.drop_last().drop_first() =~= fs.drop_first().drop_last());
        assert(fs.drop_first().last() == fs.last());
    } else {
        assert(fs.drop_last() =~= Seq::<FileLevelData>::empty());
        assert(fs.drop_first() =~= Seq::<FileLevelData>::empty());
    }
}

impl BatchConcurrentParser {
    /// Parses a whole file's bytes in batches: the frames read from every decompressed block
    /// in order, or `Decompress` when a block does not decompress.
    pub fn parse_data_batch_concurrent(&self, file_data: &[u8]) -> (r: Result<Vec<ParsedFrame>, FrameError>)
        ensures
            match gunzip_all(file_compressed(file_data@)) {
                Some(ds) => r matches Ok(fs) && window_frames(fs@, data_windows(ds)),
                None => r == Err::<Vec<ParsedFrame>, FrameError>(FrameError::Decompress),
            },
    {
        let n = file_data.len();
        let blocks = Self::parse_file_level_fast(file_data);
        let ghost bl = blocks@;
        proof {
            lemma_file_blocks_total(bl, file_data@);
            let ws = file_blocks(file_data@);
            assert(compressed_of(bl) =~= file_compressed(file_data@)) by {
                assert forall|k: int| 0 <= k < ws.len() implies #[trigger] compressed_of(bl)[k] == file_compressed(file_data@)[k] by {
                    assert(crate::frame_parser::block_of(bl[k], ws[k]));
                }
            }
        }
        let batches = self.create_smart_batches(blocks);
        let decompressed = match Self::decompress_batches_concurrent(&batches) {
            Ok(v) => v,
            Err(e) => return Err(e),
        };
        Ok(Self::parse_batches_concurrent(&decompressed))
    }

    /// The parser's configuration.
    pub fn get_config(&self) -> (r: &BatchProcessConfig)
        ensures
            *r == self.config_view(),
    {
        &self.config
    }
}

/// The most blocks one batch takes: `decompress_batch_size`, and at least one.
pub open spec fn batch_limit(cfg: BatchProcessConfig) -> int {
    if cfg.decompress_batch_size == 0 {
        1
    } else {
        cfg.decompress_batch_size as int
    }
}

/// Every batch the plan forms holds at least one block and at most [`batch_limit`] blocks,
/// whatever the blocks' sizes.
pub proof fn lemma_batch_counts_bounded(
    sizes: Seq<int>,
    i: int,
    cur_len: int,
    cur_size: int,
    cfg: BatchProcessConfig,
)
    requires
        0 <= cur_len <= batch_limit(cfg),
    ensures
        forall|k: int|
            0 <= k < batch_counts(sizes, i, cur_len, cur_size, cfg).len() ==> 1 <= (
            #[trigger] batch_counts(sizes, i, cur_len, cur_size, cfg)[k]) <= batch_limit(cfg),
    decreases sizes.len() - i,
{
    if i < 0 || i >= sizes.len() {
        if cur_len > 0 {
            assert(batch_counts(sizes, i, cur_len, cur_size, cfg) == seq![cur_len]);
        } else {
            assert(batch_counts(sizes, i, cur_len, cur_size, cfg) == Seq::<int>::empty());
        }
    } else if starts_new_batch(sizes[i], cur_len, cur_size, cfg) && cur_len > 0 {
        lemma_batch_counts_bounded(sizes, i + 1, 1, sizes[i], cfg);
        let rest = batch_counts(sizes, i + 1, 1, sizes[i], cfg);
        assert(batch_counts(sizes, i, cur_len, cur_size, cfg) == seq![cur_len] + rest);
        assert forall|k: int| 0 <= k < (seq![cur_len] + rest).len() implies 1 <= #[trigger] (seq![cur_len] + rest)[k] <= batch_limit(cfg) by {
            if k > 0 {
                assert((seq![cur_len] + rest)[k] == rest[k - 1]);
            }
        }
    } else {
        assert(cur_len + 1 <= batch_limit(cfg));
        lemma_batch_counts_bounded(sizes, i + 1, cur_len + 1, cur_size + sizes[i], cfg);
        assert(batch_counts(sizes, i, cur_len, cur_size, cfg) == batch_counts(sizes, i + 1, cur_len + 1, cur_size + sizes[i], cfg));
    }
}

/// The batches that [`BatchConcurrentParser::create_smart_batches`] forms are never empty and
/// never hold more than [`batch_limit`] blocks.
pub proof fn lemma_batch_plan_bounded(blocks: Seq<FileLevelData>, cfg: BatchProcessConfig)
    ensures
        forall|k: int|
            0 <= k < batch_plan(blocks, cfg).len() ==> 1 <= #[trigger] batch_plan(blocks, cfg)[k]
                <= batch_limit(cfg),
{
    lemma_batch_counts_bounded(block_sizes(blocks), 0, 0, 0, cfg);
}

/// The sum of `s`.
pub open spec fn count_sum(s: Seq<int>) -> int
    decreases s.len(),
{
    if s.len() == 0 {
        0
    } else {
        s[0] + count_sum(s.drop_first())
    }
}

/// The batches the plan forms take every block exactly once: the open batch's blocks and
/// every block from `i` on.
pub proof fn lemma_batch_counts_total(
    sizes: Seq<int>,
    i: int,
    cur_len: int,
    cur_size: int,
    cfg: BatchProcessConfig,
)
    requires
        0 <= i <= sizes.len(),
        cur_len >= 0,
    ensures
        count_sum(batch_counts(sizes, i, cur_len, cur_size, cfg)) == cur_len + (sizes.len() - i),
    decreases sizes.len() - i,
{
    let r = batch_counts(sizes, i, cur_len, cur_size, cfg);
    if i >= sizes.len() {
        if cur_len > 0 {
            assert(r == seq![cur_len]);
            assert(r.drop_first() =~= Seq::<int>::empty());
            assert(count_sum(Seq::<int>::empty()) == 0);
            assert(count_sum(r) == r[0] + count_sum(r.drop_first()));
        } else {
            assert(r == Seq::<int>::empty());
        }
    } else if starts_new_batch(sizes[i], cur_len, cur_size, cfg) && cur_len > 0 {
        lemma_batch_counts_total(sizes, i + 1, 1, sizes[i], cfg);
        let rest = batch_counts(sizes, i + 1, 1, sizes[i], cfg);
        assert(r == seq![cur_len] + rest);
        assert((seq![cur_len] + rest).drop_first() =~= rest);
        assert(count_sum(r) == r[0] + count_sum(r.drop_first()));
    } else {
        lemma_batch_counts_total(sizes, i + 1, cur_len + 1, cur_size + sizes[i], cfg);
        assert(r == batch_counts(sizes, i + 1, cur_len + 1, cur_size + sizes[i], cfg));
    }
}

/// The batch plan of `blocks` is a split of them: every batch takes at least one block and
/// the batches' counts add up to the number of blocks, so the batches laid end to end give
/// back the blocks in order.
pub proof fn lemma_batch_plan_splits(blocks: Seq<FileLevelData>, cfg: BatchProcessConfig)
    ensures
        count_sum(batch_plan(blocks, cfg)) == blocks.len(),
        forall|k: int| 0 <= k < batch_plan(blocks, cfg).len() ==> #[trigger] batch_plan(blocks, cfg)[k] >= 1,
{
    lemma_batch_counts_total(block_sizes(blocks), 0, 0, 0, cfg);
    lemma_batch_plan_bounded(blocks, cfg);
}

/// The blocks read from whole blocks laid end to end, followed by a tail that holds no
/// whole block, give back each block's header, length and compressed data, in order.
pub proof fn lemma_file_level_concat(fs: Seq<FileLevelData>, bs: Seq<Seq<u8>>, t: Seq<u8>)
    requires
        forall|i: int| 0 <= i < bs.len() ==> crate::frame_parser::whole_block(#[trigger] bs[i]),
        t.len() < 35 || t.len() < 35 + crate::wire::be_u32_at(t, 31),
        blocks_match(fs, file_blocks(bs.flatten() + t)),
    ensures
        fs.len() == bs.len(),
        forall|i: int| 0 <= i < fs.len() ==> {
            &&& (#[trigger] fs[i]).header@ == bs[i].take(35)
            &&& fs[i].data_length == bs[i].len() - 35
            &&& fs[i].compressed_data@ == bs[i].skip(35)
        },
{
    crate::frame_parser::lemma_file_blocks_concat(bs, t);
    assert forall|i: int| 0 <= i < fs.len() implies {
        &&& (#[trigger] fs[i]).header@ == bs[i].take(35)
        &&& fs[i].data_length == bs[i].len() - 35
        &&& fs[i].compressed_data@ == bs[i].skip(35)
    } by {
        assert(crate::frame_parser::block_of(fs[i], bs[i]));
        assert(crate::frame_parser::whole_block(bs[i]));
    }
}

} // verus!
