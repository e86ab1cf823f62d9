//! The layered format read with 24-byte record headers, frames decoded from their own
//! little-endian fields, every layer of a block handled in turn.

use vstd::prelude::*;
use std::sync::Arc;
use crate::wire::{be_u32_at, le_u32_at, le_u64_at, read_be_u32, read_le_u32, read_le_u64, copy_range};
use crate::compression::{gzip_decode, decompress_gzip};
use crate::dbc_parser::DbcParser;
use crate::frame_parser::{
    FrameError, FileLevelData, ParsedFrame, FrameParser, file_blocks, blocks_match, block_of,
    block_from_bytes, split_file_blocks,
};

verus! {

/// Worker counts and batch size for the concurrent parser.
#[derive(Clone, Copy, Debug)]
pub struct ConcurrentParseConfig {
    pub decompress_workers: usize,
    pub parse_workers: usize,
    pub frame_workers: usize,
    pub batch_size: usize,
}

impl ConcurrentParseConfig {
    /// The configuration for `cpu_count` CPUs: one decompression worker per CPU, twice as
    /// many parse and frame workers (wrapping as release arithmetic does) and batches of 64.
    pub fn for_cpu_count(cpu_count: usize) -> (r: Self)
        ensures
            r.decompress_workers == cpu_count,
            r.parse_workers == cpu_count.wrapping_mul(2),
            r.frame_workers == cpu_count.wrapping_mul(2),
            r.batch_size == 64,
    {
        ConcurrentParseConfig {
            decompress_workers: cpu_count,
            parse_workers: cpu_count.wrapping_mul(2),
            frame_workers: cpu_count.wrapping_mul(2),
            batch_size: 64,
        }
    }
}

impl Default for ConcurrentParseConfig {
    /// The configuration for this machine's CPUs.
    fn default() -> (r: Self)
        ensures
            r.decompress_workers >= 1,
            r.parse_workers == r.decompress_workers.wrapping_mul(2),
            r.frame_workers == r.decompress_workers.wrapping_mul(2),
            r.batch_size == 64,
    {
        Self::for_cpu_count(crate::platform::cpu_count())
    }
}

/// The concurrent parser's settings, as reported.
#[derive(Clone, Copy, Debug)]
pub struct ConcurrentParseStats {
    pub decompress_workers: usize,
    pub parse_workers: usize,
    pub frame_workers: usize,
    pub batch_size: usize,
}

/// Parses `.bin` data layer by layer.
pub struct ConcurrentFrameParser {
    dbc_parser: Arc<DbcParser>,
    config: ConcurrentParseConfig,
}

/// Records with a 24-byte header (a 20-byte header and a big-endian length at 20..24),
/// the record's bytes following it; reading stops at a short tail or a record that does
/// not fit.
pub open spec fn records24(d: Seq<u8>) -> Seq<Seq<u8>>
    decreases d.len(),
{
    if d.len() < 24 {
        seq![]
    } else if d.len() < 24 + be_u32_at(d, 20) {
        seq![]
    } else {
        seq![d.subrange(24, 24 + be_u32_at(d, 20))] + records24(d.skip(24 + be_u32_at(d, 20)))
    }
}

/// The frame records of a run of sequences, in order.
pub open spec fn sequences_records(seqs: Seq<Seq<u8>>) -> Seq<Seq<u8>>
    decreases seqs.len(),
{
    if seqs.len() == 0 {
        seq![]
    } else {
        records24(seqs[0]) + sequences_records(seqs.drop_first())
    }
}

/// The frame records of one sequence are the records its bytes hold.
pub proof fn lemma_sequences_records_one(s: Seq<u8>)
    ensures
        sequences_records(seq![s]) == records24(s),
{
    assert(seq![s].drop_first() =~= Seq::<Seq<u8>>::empty());
    assert(sequences_records(seq![s].drop_first()) == Seq::<Seq<u8>>::empty());
    assert(seq![s][0] == s);
    assert(records24(s) + Seq::<Seq<u8>>::empty() =~= records24(s));
}

/// Every sequence is read: the frame records of two runs of sequences, one after the
/// other, are the records of the first run followed by those of the second.
pub proof fn lemma_sequences_records_append(a: Seq<Seq<u8>>, b: Seq<Seq<u8>>)
    ensures
        sequences_records(a + b) == sequences_records(a) + sequences_records(b),
    decreases a.len(),
{
    if a.len() == 0 {
        assert(a + b =~= b);
        assert(Seq::<Seq<u8>>::empty() + sequences_records(b) =~= sequences_records(b));
    } else {
        assert((a + b)[0] == a[0]);
        assert((a + b).drop_first() =~= a.drop_first() + b);
        lemma_sequences_records_append(a.drop_first(), b);
        assert(records24(a[0]) + (sequences_records(a.drop_first()) + sequences_records(b))
            =~= (records24(a[0]) + sequences_records(a.drop_first())) + sequences_records(b));
    }
}

/// `f` is the frame decoded from record `d`: a little-endian timestamp at 0..8 and id at
/// 8..12, then up to 8 payload bytes, and no signals.
pub open spec fn record_frame(f: ParsedFrame, d: Seq<u8>) -> bool {
    &&& f.timestamp == le_u64_at(d, 0)
    &&& f.can_id == le_u32_at(d, 8)
    &&& f.data@ == d.subrange(12, if d.len() - 12 < 8 {
        d.len() as int
    } else {
        20
    })
    &&& f.signals@.len() == 0
}

/// The records of `rs` that are long enough to hold a frame, in order.
pub open spec fn frame_records(rs: Seq<Seq<u8>>) -> Seq<Seq<u8>>
    decreases rs.len(),
{
    if rs.len() == 0 {
        seq![]
    } else if rs.last().len() >= 16 {
        frame_records(rs.drop_last()).push(rs.last())
    } else {
        frame_records(rs.drop_last())
    }
}

/// `fs` are the frames decoded from records `rs`.
pub open spec fn record_frames(fs: Seq<ParsedFrame>, rs: Seq<Seq<u8>>) -> bool {
    &&& fs.len() == rs.len()
    &&& forall|k: int| 0 <= k < fs.len() ==> record_frame(#[trigger] fs[k], rs[k])
}

/// The frame records of one decompressed block.
pub open spec fn block_records(block: Seq<u8>) -> Seq<Seq<u8>> {
    frame_records(sequences_records(records24(block)))
}

/// The frame records of every decompressed block, in order.
pub open spec fn blocks_records(blocks: Seq<Seq<u8>>) -> Seq<Seq<u8>>
    decreases blocks.len(),
{
    if blocks.len() == 0 {
        seq![]
    } else {
        block_records(blocks[0]) + blocks_records(blocks.drop_first())
    }
}

/// The decompressed data of each of `cs`, or `None` when one does not decompress.
pub open spec fn gunzip_all(cs: Seq<Seq<u8>>) -> Option<Seq<Seq<u8>>>
    decreases cs.len(),
{
    if cs.len() == 0 {
        Some(seq![])
    } else {
        match gunzip_all(cs.drop_last()) {
            None => None,
            Some(rest) => match gzip_decode(cs.last()) {
                None => None,
                Some(d) => Some(rest.push(d)),
            },
        }
    }
}

/// The compressed data of each block.
pub open spec fn compressed_of(fs: Seq<FileLevelData>) -> Seq<Seq<u8>> {
    fs.map_values(|f: FileLevelData| f.compressed_data@)
}

/// The compressed data of the blocks of a file.
pub open spec fn file_compressed(d: Seq<u8>) -> Seq<Seq<u8>> {
    file_blocks(d).map_values(|w: Seq<u8>| w.skip(35))
}

/// Frames decoded from two runs of records, joined, are the frames of the joined records.
pub proof fn lemma_record_frames_append(
    fs: Seq<ParsedFrame>,
    rs: Seq<Seq<u8>>,
    gs: Seq<ParsedFrame>,
    ss: Seq<Seq<u8>>,
)
    requires
        record_frames(fs, rs),
        record_frames(gs, ss),
    ensures
        record_frames(fs + gs, rs + ss),
{
    assert forall|k: int| 0 <= k < (fs + gs).len() implies record_frame(#[trigger] (fs + gs)[k], (rs + ss)[k]) by {
        if k < fs.len() {
            assert((fs + gs)[k] == fs[k]);
            assert((rs + ss)[k] == rs[k]);
        } else {
            assert((fs + gs)[k] == gs[k - fs.len()]);
            assert((rs + ss)[k] == ss[k - rs.len()]);
        }
    }
}

/// Splits `data` into its 24-byte-header records.
fn split_records24(data: &[u8]) -> (r: Vec<Vec<u8>>)
    ensures
        r.deep_view() == records24(data@),
{
    let n = data.len();
    let mut out: Vec<Vec<u8>> = Vec::new();
    let mut offset: usize = 0;
    assert(data@.skip(0) =~= data@);
    while offset < n
        invariant
            offset <= n == data@.len(),
            records24(data@) == out.deep_view() + records24(data@.skip(offset as int)),
        decreases n - offset,
    {
        let ghost t = data@.skip(offset as int);
        if n - offset < 24 {
            assert(out.deep_view() + Seq::<Seq<u8>>::empty() =~= out.deep_view());
            return out;
        }
        let data_length = read_be_u32(data, offset + 20);
        assert(be_u32_at(t, 20) == be_u32_at(data@, offset + 20));
        if ((n - offset) as u64) < 24 + data_length as u64 {
            assert(out.deep_view() + Seq::<Seq<u8>>::empty() =~= out.deep_view());
            return out;
        }
        let end = offset + 24 + data_length as usize;
        let record = copy_range(data, offset + 24, end);
        proof {
            assert(t.skip(24 + be_u32_at(t, 20)) =~= data@.skip(end as int));
            assert(t.subrange(24, 24 + be_u32_at(t, 20)) =~= record@);
            assert(record.deep_view() =~= record@);
        }
        let ghost before = out.deep_view();
        out.push(record);
        proof {
            assert(out.deep_view() =~= before.push(record@));
            assert(before + (seq![record@] + records24(data@.skip(end as int))) =~= out.deep_view()
                + records24(data@.skip(end as int)));
        }
        offset = end;
    }
    proof {
        assert(data@.skip(n as int) =~= Seq::<u8>::empty());
        assert(out.deep_view() + Seq::<Seq<u8>>::empty() =~= out.deep_view());
    }
    out
}


impl ConcurrentFrameParser {
    /// The parser's configuration.
    pub closed spec fn config_view(&self) -> ConcurrentParseConfig {
        self.config
    }

    /// A parser with `config`, or this machine's default configuration.
    pub fn new(dbc_parser: Arc<DbcParser>, config: Option<ConcurrentParseConfig>) -> (r: Self)
        ensures
            config matches Some(c) ==> r.config_view() == c,
            config is None ==> ({
                let c = r.config_view();
                &&& c.decompress_workers >= 1
                &&& c.parse_workers == c.decompress_workers.wrapping_mul(2)
                &&& c.frame_workers == c.decompress_workers.wrapping_mul(2)
                &&& c.batch_size == 64
            }),
    {
        let config = match config {
            Some(c) => c,
            None => ConcurrentParseConfig::default(),
        };
        ConcurrentFrameParser { dbc_parser, config }
    }

    /// Layer 0: the blocks of the file.
    pub fn parse_file_level_concurrent(data: &[u8]) -> (r: Vec<FileLevelData>)
        ensures
            blocks_match(r@, file_blocks(data@)),
    {
        split_file_blocks(data)
    }

    /// One block from its bytes.
    pub fn parse_single_file_block(data: &[u8]) -> (r: Result<FileLevelData, FrameError>)
        ensures
            data@.len() < 35 ==> r == Err::<FileLevelData, FrameError>(FrameError::FileHeaderTooShort),
            data@.len() >= 35 ==> (r matches Ok(f) && block_of(f, data@)),
    {
        block_from_bytes(data)
    }

    /// Decompresses every block; fails if one does not decompress.
    pub fn decompress_blocks_concurrent(blocks: &Vec<FileLevelData>) -> (r: Result<Vec<Vec<u8>>, FrameError>)
        ensures
            match gunzip_all(compressed_of(blocks@)) {
                Some(ds) => r matches Ok(v) && v.deep_view() == ds,
                None => r == Err::<Vec<Vec<u8>>, FrameError>(FrameError::Decompress),
            },
    {
        let ghost cs = compressed_of(blocks@);
        let mut out: Vec<Vec<u8>> = Vec::new();
        let mut i: usize = 0;
        while i < blocks.len()
            invariant
                i <= blocks@.len() == cs.len(),
                cs == compressed_of(blocks@),
                gunzip_all(cs.take(i as int)) == Some(out.deep_view()),
            decreases blocks@.len() - i,
        {
            assert(cs.take(i + 1).drop_last() =~= cs.take(i as int));
            assert(cs.take(i + 1).last() == blocks@[i as int].compressed_data@);
            match decompress_gzip(blocks[i].compressed_data.as_slice()) {
                Some(d) => {
                    let ghost before = out.deep_view();
                    proof {
                        crate::wire::lemma_bytes_deep_view(d);
                    }
                    out.push(d);
                    assert(out.deep_view() =~= before.push(d@));
                },
                None => {
                    proof {
                        lemma_gunzip_all_prefix_none(cs, i as int + 1);
                    }
                    return Err(FrameError::Decompress);
                },
            }
            i = i + 1;
        }
        assert(cs.take(i as int) =~= cs);
        Ok(out)
    }

    /// Layer 1: the frame sequences of a decompressed block.
    pub fn parse_frame_sequences_concurrent(data: &[u8]) -> (r: Vec<Vec<u8>>)
        ensures
            r.deep_view() == records24(data@),
    {
        split_records24(data)
    }

    /// Layer 2: the frame records of one sequence.
    pub fn parse_frames_from_sequence(sequence_data: &[u8]) -> (r: Vec<Vec<u8>>)
        ensures
            r.deep_view() == records24(sequence_data@),
    {
        split_records24(sequence_data)
    }

    /// Layer 2 for every sequence, in order.
    pub fn parse_frames_concurrent(sequences: &Vec<Vec<u8>>) -> (r: Vec<Vec<u8>>)
        ensures
            r.deep_view() == sequences_records(sequences.deep_view()),
    {
        let ghost ss = sequences.deep_view();
        let mut out: Vec<Vec<u8>> = Vec::new();
        let mut i: usize = 0;
        assert(ss.skip(0) =~= ss);
        while i < sequences.len()
            invariant
                i <= sequences@.len() == ss.len(),
                ss == sequences.deep_view(),
                sequences_records(ss) == out.deep_view() + sequences_records(ss.skip(i as int)),
            decreases sequences@.len() - i,
        {
            let ghost t = ss.skip(i as int);
            assert(t[0] == ss[i as int]);
            assert(t.drop_first() =~= ss.skip(i + 1));
            assert(ss[i as int] == sequences@[i as int]@);
            let mut frames = Self::parse_frames_from_sequence(sequences[i].as_slice());
            let ghost before = out.deep_view();
            let ghost added = frames.deep_view();
            out.append(&mut frames);
            assert(out.deep_view() =~= before + added);
            assert(before + (added + sequences_records(ss.skip(i + 1))) =~= (before + added)
                + sequences_records(ss.skip(i + 1)));
            i = i + 1;
        }
        assert(ss.skip(i as int) =~= Seq::<Seq<u8>>::empty());
        assert(out.deep_view() + Seq::<Seq<u8>>::empty() =~= out.deep_view());
        out
    }

    /// Layer 3: one frame from its record.
    pub fn parse_single_frame_sync(frame_data: &[u8]) -> (r: Result<ParsedFrame, FrameError>)
        ensures
            frame_data@.len() < 16 ==> r == Err::<ParsedFrame, FrameError>(FrameError::FrameRecordTooShort),
            frame_data@.len() >= 16 ==> (r matches Ok(f) && record_frame(f, frame_data@)),
    {
        let n = frame_data.len();
        if n < 16 {
            return Err(FrameError::FrameRecordTooShort);
        }
        let timestamp = read_le_u64(frame_data, 0);
        let can_id = read_le_u32(frame_data, 8);
        let data_len = if n - 12 < 8 {
            n - 12
        } else {
            8
        };
        let data = copy_range(frame_data, 12, 12 + data_len);
        Ok(ParsedFrame { timestamp, can_id, data, signals: Vec::new() })
    }

    /// Layer 3 for every record; records too short for a frame are passed over.
    pub fn parse_single_frames_concurrent(frame_data_list: &Vec<Vec<u8>>) -> (r: Vec<ParsedFrame>)
        ensures
            record_frames(r@, frame_records(frame_data_list.deep_view())),
    {
        let ghost rs = frame_data_list.deep_view();
        let mut out: Vec<ParsedFrame> = Vec::new();
        let mut i: usize = 0;
        while i < frame_data_list.len()
            invariant
                i <= frame_data_list@.len() == rs.len(),
                rs == frame_data_list.deep_view(),
                record_frames(out@, frame_records(rs.take(i as int))),
            decreases frame_data_list@.len() - i,
        {
            assert(rs.take(i + 1).drop_last() =~= rs.take(i as int));
            assert(rs[i as int] == frame_data_list@[i as int]@);
            match Self::parse_single_frame_sync(frame_data_list[i].as_slice()) {
                Ok(frame) => {
                    proof {
                        lemma_record_frames_append(out@, frame_records(rs.take(i as int)), seq![frame], seq![rs[i as int]]);
                        assert(frame_records(rs.take(i as int)) + seq![rs[i as int]] =~= frame_records(rs.take(i as int)).push(rs[i as int]));
                        assert(out@.push(frame) =~= out@ + seq![frame]);
                    }
                    out.push(frame);
                },
                Err(_) => {},
            }
            i = i + 1;
        }
        assert(rs.take(i as int) =~= rs);
        out
    }

    /// Every layer of one decompressed block.
    pub fn parse_block_layers_concurrent(block_data: &[u8]) -> (r: Vec<ParsedFrame>)
        ensures
            record_frames(r@, block_records(block_data@)),
    {
        let sequences = Self::parse_frame_sequences_concurrent(block_data);
        let frame_data = Self::parse_frames_concurrent(&sequences);
        Self::parse_single_frames_concurrent(&frame_data)
    }

    /// Every layer of every decompressed block; the blocks' frames in block order.
    pub fn parse_all_layers_concurrent(blocks: &Vec<Vec<u8>>) -> (r: Vec<ParsedFrame>)
        ensures
            record_frames(r@, blocks_records(blocks.deep_view())),
    {
        let ghost bs = blocks.deep_view();
        let mut out: Vec<ParsedFrame> = Vec::new();
        let ghost mut acc: Seq<Seq<u8>> = seq![];
        let mut i: usize = 0;
        assert(bs.skip(0) =~= bs);
        while i < blocks.len()
            invariant
                i <= blocks@.len() == bs.len(),
                bs == blocks.deep_view(),
                blocks_records(bs) == acc + blocks_records(bs.skip(i as int)),
                record_frames(out@, acc),
            decreases blocks@.len() - i,
        {
            let ghost t = bs.skip(i as int);
            assert(t[0] == bs[i as int]);
            assert(t.drop_first() =~= bs.skip(i + 1));
            assert(bs[i as int] == blocks@[i as int]@);
            let mut frames = Self::parse_block_layers_concurrent(blocks[i].as_slice());
            proof {
                let br = block_records(bs[i as int]);
                lemma_record_frames_append(out@, acc, frames@, br);
                assert(acc + (br + blocks_records(bs.skip(i + 1))) =~= (acc + br) + blocks_records(bs.skip(i + 1)));
                acc = acc + br;
            }
            out.append(&mut frames);
            i = i + 1;
        }
        assert(bs.skip(i as int) =~= Seq::<Seq<u8>>::empty());
        assert(acc + Seq::<Seq<u8>>::empty() =~= acc);
        out
    }

    /// Parses a whole file's bytes: the frames of every block in order, or `Decompress` when
    /// a block does not decompress.
    pub fn parse_data_concurrent(&self, file_data: &[u8]) -> (r: Result<Vec<ParsedFrame>, FrameError>)
        ensures
            match gunzip_all(file_compressed(file_data@)) {
                Some(ds) => r matches Ok(fs) && record_frames(fs@, blocks_records(ds)),
                None => r == Err::<Vec<ParsedFrame>, FrameError>(FrameError::Decompress),
            },
    {
        let blocks = Self::parse_file_level_concurrent(file_data);
        proof {
            let ws = file_blocks(file_data@);
            assert(compressed_of(blocks@) =~= file_compressed(file_data@)) by {
                assert forall|k: int| 0 <= k < ws.len() implies #[trigger] compressed_of(blocks@)[k] == file_compressed(file_data@)[k] by {
                    assert(block_of(blocks@[k], ws[k]));
                }
            }
        }
        let decompressed = match Self::decompress_blocks_concurrent(&blocks) {
            Ok(v) => v,
            Err(e) => return Err(e),
        };
        Ok(Self::parse_all_layers_concurrent(&decompressed))
    }

    /// The parser's configuration.
    pub fn get_config(&self) -> (r: &ConcurrentParseConfig)
        ensures
            *r == self.config_view(),
    {
        &self.config
    }

    /// The parser's settings.
    pub fn get_performance_stats(&self) -> (r: ConcurrentParseStats)
        ensures
            r.decompress_workers == self.config_view().decompress_workers,
            r.parse_workers == self.config_view().parse_workers,
            r.frame_workers == self.config_view().frame_workers,
            r.batch_size == self.config_view().batch_size,
    {
        ConcurrentParseStats {
            decompress_workers: self.config.decompress_workers,
            parse_workers: self.config.parse_workers,
            frame_workers: self.config.frame_workers,
            batch_size: self.config.batch_size,
        }
    }
}

/// A block that does not decompress makes the whole run fail.
pub proof fn lemma_gunzip_all_prefix_none(cs: Seq<Seq<u8>>, i: int)
    requires
        0 <= i <= cs.len(),
        gunzip_all(cs.take(i)) is None,
    ensures
        gunzip_all(cs) is None,
    decreases cs.len() - i,
{
    if i < cs.len() {
        assert(cs.take(i + 1).drop_last() =~= cs.take(i));
        lemma_gunzip_all_prefix_none(cs, i + 1);
    } else {
        assert(cs.take(i) =~= cs);
    }
}


/// Decompressing two runs of blocks one after the other gives the two results joined, and
/// fails when either fails.
pub proof fn lemma_gunzip_all_append(a: Seq<Seq<u8>>, b: Seq<Seq<u8>>)
    ensures
        gunzip_all(a + b) == (match (gunzip_all(a), gunzip_all(b)) {
            (Some(x), Some(y)) => Some(x + y),
            _ => None::<Seq<Seq<u8>>>,
        }),
    decreases b.len(),
{
    if b.len() == 0 {
        assert(a + b =~= a);
        if let Some(x) = gunzip_all(a) {
            assert(x + Seq::<Seq<u8>>::empty() =~= x);
        }
    } else {
        lemma_gunzip_all_append(a, b.drop_last());
        assert((a + b).drop_last() =~= a + b.drop_last());
        assert((a + b).last() == b.last());
        if let (Some(x), Some(y)) = (gunzip_all(a), gunzip_all(b.drop_last())) {
            if let Some(d) = gzip_decode(b.last()) {
                assert((x + y).push(d) =~= x + y.push(d));
            }
        }
    }
}

/// Decompressing a run of blocks gives one result per block.
pub proof fn lemma_gunzip_all_len(cs: Seq<Seq<u8>>)
    ensures
        gunzip_all(cs) matches Some(ds) ==> ds.len() == cs.len(),
    decreases cs.len(),
{
    if cs.len() > 0 {
        lemma_gunzip_all_len(cs.drop_last());
    }
}

/// `r` is one whole record with a 24-byte header: its length field counts exactly the
/// bytes after the header.
pub open spec fn whole_record24(r: Seq<u8>) -> bool {
    r.len() >= 24 && be_u32_at(r, 20) == r.len() - 24
}

/// Whole records laid end to end, followed by a tail that holds no whole record, read back
/// as the records' bytes, in order.
pub proof fn lemma_records24_concat(rs: Seq<Seq<u8>>, t: Seq<u8>)
    requires
        forall|i: int| 0 <= i < rs.len() ==> whole_record24(#[trigger] rs[i]),
        t.len() < 24 || t.len() < 24 + be_u32_at(t, 20),
    ensures
        records24(rs.flatten() + t) == rs.map_values(|r: Seq<u8>| r.skip(24)),
    decreases rs.len(),
{
    if rs.len() == 0 {
        assert(rs.flatten() + t =~= t);
        assert(rs.map_values(|r: Seq<u8>| r.skip(24)) =~= Seq::<Seq<u8>>::empty());
    } else {
        let r0 = rs[0];
        let rest = rs.drop_first();
        assert forall|i: int| 0 <= i < rest.len() implies whole_record24(#[trigger] rest[i]) by {
            assert(rest[i] == rs[i + 1]);
        }
        lemma_records24_concat(rest, t);
        let d = rs.flatten() + t;
        assert(whole_record24(r0));
        assert(d =~= r0 + (rest.flatten() + t));
        assert(be_u32_at(d, 20) == be_u32_at(r0, 20));
        assert(d.subrange(24, 24 + be_u32_at(d, 20)) =~= r0.skip(24));
        assert(d.skip(24 + be_u32_at(d, 20)) =~= rest.flatten() + t);
        assert(rs.map_values(|r: Seq<u8>| r.skip(24)) =~= seq![r0.skip(24)] + rest.map_values(
            |r: Seq<u8>| r.skip(24),
        ));
    }
}

} // verus!
