//! The layered `.bin` format read frame by frame.
//!
//! Layer 0 is a run of blocks: a 35-byte header, then the block's data, whose first four
//! bytes hold, big-endian, its length counted from the end of the header (the length field
//! included); the next block starts where that data ends. Decompressed, a block is a run of frame
//! sequences and each sequence a run of frames, both framed by a 20-byte header followed by
//! a big-endian length, the record's bytes starting right after the header. A frame is a
//! 4-byte header, a big-endian length and the frame content; a CAN frame's content is a
//! big-endian id followed by the payload.

use vstd::prelude::*;
use std::sync::Arc;
use crate::wire::{be_u32_at, read_be_u32, copy_range};
use crate::signal_decode::ValueType;
use crate::compression::{gzip_decode, decompress_gzip};
use crate::dbc_parser::{
    DbcParser, MessageSpec, SignalReading, ReadingSpec, reading_views, readings_of,
    message_signals, all_extractable,
};

verus! {

/// Why a file could not be parsed.
#[derive(Clone, Copy, Debug, PartialEq, Eq, Structural)]
pub enum FrameError {
    /// Fewer than 35 bytes are left for a block header.
    FileHeaderTooShort,
    /// A block's gzip data is shorter than its header says.
    CompressedDataTruncated,
    /// A block's gzip data does not decompress.
    Decompress,
    /// A record's length field runs past the end of the data.
    LengthFieldTruncated,
    /// Fewer than 4 bytes are left for a frame header.
    FrameHeaderTooShort,
    /// A frame's content is shorter than its header says.
    FrameContentTruncated,
    /// A CAN frame holds fewer than 8 bytes.
    CanFrameTooShort,
    /// A frame record holds fewer than 16 bytes.
    FrameRecordTooShort,
    /// A signal of the frame's message cannot be extracted from its payload without
    /// overflowing a fixed-width integer.
    SignalNotDecodable,
}

/// Layer 0: a block header and its compressed data.
#[derive(Clone, Debug)]
pub struct FileLevelData {
    pub header: [u8; 35],
    pub data_length: u32,
    pub compressed_data: Vec<u8>,
}

/// Layer 1: a frame sequence.
#[derive(Clone, Debug)]
pub struct FrameSequenceData {
    pub header: [u8; 20],
    pub data_length: u32,
    pub frame_sequences: Vec<u8>,
}

/// Layer 2: a run of frames.
#[derive(Clone, Debug)]
pub struct FramesData {
    pub header: [u8; 20],
    pub data_length: u32,
    pub frames: Vec<u8>,
}

/// Layer 3: one frame.
#[derive(Clone, Debug)]
pub struct FrameData {
    pub header: [u8; 4],
    pub data_length: u32,
    pub frame_content: Vec<u8>,
}

/// Decodes `.bin` files with a DBC database.
pub struct FrameParser {
    dbc_parser: Arc<DbcParser>,
}

/// A decoded CAN frame with the raw values of its signals.
#[derive(Clone, Debug)]
pub struct ParsedFrame {
    pub timestamp: u64,
    pub can_id: u32,
    pub data: Vec<u8>,
    pub signals: Vec<SignalReading>,
}

/// The block at the start of `d`: its data, from byte 35 for as many bytes as the big-endian
/// length at 35..39 says, and the length of the whole block (header and data).
pub open spec fn file_level(d: Seq<u8>) -> Result<(Seq<u8>, int), FrameError> {
    if d.len() < 35 {
        Err(FrameError::FileHeaderTooShort)
    } else if d.len() < 39 {
        Err(FrameError::LengthFieldTruncated)
    } else if d.len() < 35 + be_u32_at(d, 35) {
        Err(FrameError::CompressedDataTruncated)
    } else {
        Ok((d.subrange(35, 35 + be_u32_at(d, 35)), 35 + be_u32_at(d, 35)))
    }
}

/// The records of `d`, each a 20-byte header, a length at bytes 20..24 and the record's
/// bytes from offset 20 on; reading stops at a short tail or a record that does not fit,
/// and fails when the tail ends inside a length field.
pub open spec fn records(d: Seq<u8>) -> Option<Seq<Seq<u8>>>
    decreases d.len(),
{
    if d.len() < 20 {
        Some(seq![])
    } else if d.len() < 24 {
        None
    } else if d.len() < 20 + be_u32_at(d, 20) {
        Some(seq![])
    } else {
        match records(d.skip(20 + be_u32_at(d, 20))) {
            None => None,
            Some(rest) => Some(seq![d.subrange(20, 20 + be_u32_at(d, 20))] + rest),
        }
    }
}

/// The content of a frame record.
pub open spec fn frame_content(d: Seq<u8>) -> Result<Seq<u8>, FrameError> {
    if d.len() < 4 {
        Err(FrameError::FrameHeaderTooShort)
    } else if d.len() < 8 {
        Err(FrameError::LengthFieldTruncated)
    } else if d.len() < 4 + be_u32_at(d, 4) {
        Err(FrameError::FrameContentTruncated)
    } else {
        Ok(d.subrange(4, 4 + be_u32_at(d, 4)))
    }
}

/// The CAN id of a frame's content.
pub open spec fn content_can_id(c: Seq<u8>) -> u32 {
    be_u32_at(c, 0) as u32
}

/// The signals of the frame with content `c` can be extracted.
pub open spec fn content_decodable(c: Seq<u8>, db: Map<u32, MessageSpec>) -> bool {
    all_extractable(message_signals(db, content_can_id(c)), c.len() - 4)
}

/// The contents of the CAN frames among `recs`, in order; records that are not frames, or
/// whose content is too short for a CAN frame, are passed over.
pub open spec fn frame_contents(recs: Seq<Seq<u8>>, db: Map<u32, MessageSpec>) -> Result<
    Seq<Seq<u8>>,
    FrameError,
>
    decreases recs.len(),
{
    if recs.len() == 0 {
        Ok(seq![])
    } else {
        match frame_content(recs[0]) {
            Ok(c) => if c.len() >= 8 {
                if !content_decodable(c, db) {
                    Err(FrameError::SignalNotDecodable)
                } else {
                    match frame_contents(recs.drop_first(), db) {
                        Ok(rest) => Ok(seq![c] + rest),
                        Err(e) => Err(e),
                    }
                }
            } else {
                frame_contents(recs.drop_first(), db)
            },
            Err(_) => frame_contents(recs.drop_first(), db),
        }
    }
}

/// The frame contents of a block's frame sequences, in order.
pub open spec fn sequences_contents(seqs: Seq<Seq<u8>>, db: Map<u32, MessageSpec>) -> Result<
    Seq<Seq<u8>>,
    FrameError,
>
    decreases seqs.len(),
{
    if seqs.len() == 0 {
        Ok(seq![])
    } else {
        match records(seqs[0]) {
            None => Err(FrameError::LengthFieldTruncated),
            Some(recs) => match frame_contents(recs, db) {
                Err(e) => Err(e),
                Ok(cs) => match sequences_contents(seqs.drop_first(), db) {
                    Err(e) => Err(e),
                    Ok(rest) => Ok(cs + rest),
                },
            },
        }
    }
}

/// The frame contents of a compressed block.
pub open spec fn block_contents(block: Seq<u8>, db: Map<u32, MessageSpec>) -> Result<
    Seq<Seq<u8>>,
    FrameError,
> {
    match gzip_decode(block) {
        None => Err(FrameError::Decompress),
        Some(dec) => match records(dec) {
            None => Err(FrameError::LengthFieldTruncated),
            Some(seqs) => sequences_contents(seqs, db),
        },
    }
}

/// The frame contents of a whole file, block after block.
pub open spec fn file_contents(d: Seq<u8>, db: Map<u32, MessageSpec>) -> Result<Seq<Seq<u8>>, FrameError>
    decreases d.len(),
{
    if d.len() == 0 {
        Ok(seq![])
    } else {
        match file_level(d) {
            Err(e) => Err(e),
            Ok((block, total)) => match block_contents(block, db) {
                Err(e) => Err(e),
                Ok(cs) => match file_contents(d.skip(total), db) {
                    Err(e) => Err(e),
                    Ok(rest) => Ok(cs + rest),
                },
            },
        }
    }
}

/// `f` is the CAN frame with content `c`, its signals decoded with `db`.
pub open spec fn frame_of_content(f: ParsedFrame, c: Seq<u8>, db: Map<u32, MessageSpec>) -> bool {
    &&& f.can_id == content_can_id(c)
    &&& f.data@ == c.skip(4)
    &&& reading_views(f.signals@) == readings_of(message_signals(db, f.can_id), c.skip(4))
}


/// `fs` are the CAN frames with contents `cs`.
pub open spec fn frames_match(fs: Seq<ParsedFrame>, cs: Seq<Seq<u8>>, db: Map<u32, MessageSpec>) -> bool {
    &&& fs.len() == cs.len()
    &&& forall|k: int| 0 <= k < fs.len() ==> frame_of_content(#[trigger] fs[k], cs[k], db)
}

/// `acc` followed by what `r` holds, or the error of `r`.
pub open spec fn prepend_ok(acc: Seq<Seq<u8>>, r: Result<Seq<Seq<u8>>, FrameError>) -> Result<
    Seq<Seq<u8>>,
    FrameError,
> {
    match r {
        Ok(rest) => Ok(acc + rest),
        Err(e) => Err(e),
    }
}

proof fn lemma_frames_match_append(
    fs: Seq<ParsedFrame>,
    cs: Seq<Seq<u8>>,
    gs: Seq<ParsedFrame>,
    ds: Seq<Seq<u8>>,
    db: Map<u32, MessageSpec>,
)
    requires
        frames_match(fs, cs, db),
        frames_match(gs, ds, db),
    ensures
        frames_match(fs + gs, cs + ds, db),
{
    assert forall|k: int| 0 <= k < (fs + gs).len() implies frame_of_content(
        #[trigger] (fs + gs)[k],
        (cs + ds)[k],
        db,
    ) by {
        if k < fs.len() {
            assert((fs + gs)[k] == fs[k]);
            assert((cs + ds)[k] == cs[k]);
        } else {
            assert((fs + gs)[k] == gs[k - fs.len()]);
            assert((cs + ds)[k] == ds[k - cs.len()]);
        }
    }
}

/// Splits `data` into its length-prefixed records (20-byte header, length at 20..24).
fn split_records(data: &[u8]) -> (r: Result<Vec<Vec<u8>>, FrameError>)
    ensures
        match records(data@) {
            Some(rs) => r matches Ok(v) && v.deep_view() == rs,
            None => r == Err::<Vec<Vec<u8>>, FrameError>(FrameError::LengthFieldTruncated),
        },
{
    let n = data.len();
    let mut out: Vec<Vec<u8>> = Vec::new();
    let mut offset: usize = 0;
    assert(data@.skip(0) =~= data@);
    while offset < n
        invariant
            offset <= n == data@.len(),
            match records(data@.skip(offset as int)) {
                Some(rest) => records(data@) == Some(out.deep_view() + rest),
                None => records(data@) is None,
            },
        decreases n - offset,
    {
        let ghost t = data@.skip(offset as int);
        if n - offset < 20 {
            assert(records(t) == Some(Seq::<Seq<u8>>::empty()));
            assert(out.deep_view() + Seq::<Seq<u8>>::empty() =~= out.deep_view());
            return Ok(out);
        }
        if n - offset < 24 {
            return Err(FrameError::LengthFieldTruncated);
        }
        let data_length = read_be_u32(data, offset + 20);
        assert(be_u32_at(t, 20) == be_u32_at(data@, offset + 20));
        if ((n - offset) as u64) < 20 + data_length as u64 {
            assert(records(t) == Some(Seq::<Seq<u8>>::empty()));
            assert(out.deep_view() + Seq::<Seq<u8>>::empty() =~= out.deep_view());
            return Ok(out);
        }
        let end = offset + 20 + data_length as usize;
        let record = copy_range(data, offset + 20, end);
        proof {
            assert(t.skip(20 + be_u32_at(t, 20)) =~= data@.skip(end as int));
            assert(t.subrange(20, 20 + be_u32_at(t, 20)) =~= record@);
            assert(record.deep_view() =~= record@);
        }
        let ghost before = out.deep_view();
        out.push(record);
        proof {
            assert(out.deep_view() =~= before.push(record@));
            if let Some(rest) = records(data@.skip(end as int)) {
                assert(before + (seq![record@] + rest) =~= out.deep_view() + rest);
            }
        }
        offset = end;
    }
    proof {
        assert(data@.skip(n as int).len() == 0);
        assert(out.deep_view() + Seq::<Seq<u8>>::empty() =~= out.deep_view());
    }
    Ok(out)
}

impl FrameParser {
    /// The database the frames' signals are decoded with.
    pub closed spec fn db(&self) -> Map<u32, MessageSpec> {
        self.dbc_parser@
    }

    /// A parser that decodes signals with `dbc_parser`.
    pub fn new(dbc_parser: Arc<DbcParser>) -> (r: Self)
        ensures
            r.db() == dbc_parser@,
    {
        FrameParser { dbc_parser }
    }

    /// Layer 0: the block at the start of `data`.
    pub fn parse_file_level(data: &[u8]) -> (r: Result<FileLevelData, FrameError>)
        ensures
            match file_level(data@) {
                Ok((block, total)) => r matches Ok(f) && f.compressed_data@ == block
                    && f.header@ == data@.take(35) && f.data_length == be_u32_at(data@, 35),
                Err(e) => r == Err::<FileLevelData, FrameError>(e),
            },
    {
        let n = data.len();
        if n < 35 {
            return Err(FrameError::FileHeaderTooShort);
        }
        let mut header = [0u8; 35];
        let mut i: usize = 0;
        while i < 35
            invariant
                i <= 35 <= n == data@.len(),
                forall|k: int| 0 <= k < i ==> header@[k] == data@[k],
            decreases 35 - i,
        {
            header[i] = data[i];
            i = i + 1;
        }
        assert(header@ =~= data@.take(35));
        if n < 39 {
            return Err(FrameError::LengthFieldTruncated);
        }
        let data_length = read_be_u32(data, 35);
        if (n as u64) < 35 + data_length as u64 {
            return Err(FrameError::CompressedDataTruncated);
        }
        let compressed_data = copy_range(data, 35, 35 + data_length as usize);
        Ok(FileLevelData { header, data_length, compressed_data })
    }

    /// Decompresses a block's gzip data.
    pub fn decompress_data(compressed_data: &[u8]) -> (r: Result<Vec<u8>, FrameError>)
        ensures
            match gzip_decode(compressed_data@) {
                Some(d) => r matches Ok(v) && v@ == d,
                None => r == Err::<Vec<u8>, FrameError>(FrameError::Decompress),
            },
    {
        match decompress_gzip(compressed_data) {
            Some(v) => Ok(v),
            None => Err(FrameError::Decompress),
        }
    }

    /// Layer 1: the frame sequences of a decompressed block.
    pub fn parse_frame_sequences(data: &[u8]) -> (r: Result<Vec<Vec<u8>>, FrameError>)
        ensures
            match records(data@) {
                Some(rs) => r matches Ok(v) && v.deep_view() == rs,
                None => r == Err::<Vec<Vec<u8>>, FrameError>(FrameError::LengthFieldTruncated),
            },
    {
        split_records(data)
    }

    /// Layer 2: the frames of a frame sequence.
    pub fn parse_frames(data: &[u8]) -> (r: Result<Vec<Vec<u8>>, FrameError>)
        ensures
            match records(data@) {
                Some(rs) => r matches Ok(v) && v.deep_view() == rs,
                None => r == Err::<Vec<Vec<u8>>, FrameError>(FrameError::LengthFieldTruncated),
            },
    {
        split_records(data)
    }

    /// Layer 3: one frame's header and content.
    pub fn parse_frame_data(data: &[u8]) -> (r: Result<FrameData, FrameError>)
        ensures
            match frame_content(data@) {
                Ok(c) => r matches Ok(f) && f.frame_content@ == c && f.header@ == data@.take(4)
                    && f.data_length == be_u32_at(data@, 4),
                Err(e) => r == Err::<FrameData, FrameError>(e),
            },
    {
        let n = data.len();
        if n < 4 {
            return Err(FrameError::FrameHeaderTooShort);
        }
        if n < 8 {
            return Err(FrameError::LengthFieldTruncated);
        }
        let header: [u8; 4] = [data[0], data[1], data[2], data[3]];
        assert(header@ =~= data@.take(4));
        let data_length = read_be_u32(data, 4);
        if (n as u64) < 4 + data_length as u64 {
            return Err(FrameError::FrameContentTruncated);
        }
        let frame_content = copy_range(data, 4, 4 + data_length as usize);
        Ok(FrameData { header, data_length, frame_content })
    }

    /// Decodes a CAN frame read at `timestamp`: its id, payload and signals.
    pub fn parse_can_frame_at(&self, frame_data: &FrameData, timestamp: u64) -> (r: Result<
        ParsedFrame,
        FrameError,
    >)
        requires
            frame_data.frame_content@.len() >= 8 ==> content_decodable(
                frame_data.frame_content@,
                self.db(),
            ),
        ensures
            frame_data.frame_content@.len() < 8 ==> r == Err::<ParsedFrame, FrameError>(
                FrameError::CanFrameTooShort,
            ),
            frame_data.frame_content@.len() >= 8 ==> (r matches Ok(f) && f.timestamp == timestamp
                && frame_of_content(f, frame_data.frame_content@, self.db())),
    {
        let content = &frame_data.frame_content;
        let n = content.len();
        if n < 8 {
            return Err(FrameError::CanFrameTooShort);
        }
        let can_id = read_be_u32(content.as_slice(), 0);
        let data = copy_range(content.as_slice(), 4, n);
        assert(data@ =~= content@.skip(4));
        let signals = self.dbc_parser.parse_signals(can_id, data.as_slice());
        Ok(ParsedFrame { timestamp, can_id, data, signals })
    }

    /// Decodes a CAN frame, stamped with the current time in milliseconds since the Unix
    /// epoch (0 when the clock reads before the epoch).
    pub fn parse_can_frame(&self, frame_data: &FrameData) -> (r: Result<ParsedFrame, FrameError>)
        requires
            frame_data.frame_content@.len() >= 8 ==> content_decodable(
                frame_data.frame_content@,
                self.db(),
            ),
        ensures
            frame_data.frame_content@.len() < 8 ==> r == Err::<ParsedFrame, FrameError>(
                FrameError::CanFrameTooShort,
            ),
            frame_data.frame_content@.len() >= 8 ==> (r matches Ok(f) && frame_of_content(
                f,
                frame_data.frame_content@,
                self.db(),
            )),
    {
        let timestamp = match crate::platform::unix_time_millis() {
            Some(t) => t,
            None => 0,
        };
        self.parse_can_frame_at(frame_data, timestamp)
    }

    /// The CAN frames among a run of frame records; `SignalNotDecodable` stops the run.
    fn frames_of_records(&self, recs: &Vec<Vec<u8>>) -> (r: Result<Vec<ParsedFrame>, FrameError>)
        ensures
            match frame_contents(recs.deep_view(), self.db()) {
                Ok(cs) => r matches Ok(fs) && frames_match(fs@, cs, self.db()),
                Err(e) => r is Err && r == Err::<Vec<ParsedFrame>, FrameError>(e),
            },
    {
        let ghost rs = recs.deep_view();
        let ghost db = self.db();
        let mut out: Vec<ParsedFrame> = Vec::new();
        let ghost mut acc: Seq<Seq<u8>> = seq![];
        let n = recs.len();
        let mut i: usize = 0;
        assert(rs.skip(0) =~= rs);
        while i < n
            invariant
                i <= n == recs@.len() == rs.len(),
                rs == recs.deep_view(),
                db == self.db(),
                frame_contents(rs, db) == prepend_ok(acc, frame_contents(rs.skip(i as int), db)),
                frames_match(out@, acc, db),
            decreases n - i,
        {
            let ghost t = rs.skip(i as int);
            proof {
                assert(t[0] == rs[i as int]);
                assert(t.drop_first() =~= rs.skip(i + 1));
                assert(rs[i as int] == recs@[i as int]@);
            }
            match Self::parse_frame_data(recs[i].as_slice()) {
                Ok(fd) => {
                    if fd.frame_content.len() >= 8 {
                        let can_id = read_be_u32(fd.frame_content.as_slice(), 0);
                        if !self.dbc_parser.signals_decodable(can_id, fd.frame_content.len() - 4) {
                            return Err(FrameError::SignalNotDecodable);
                        }
                        match self.parse_can_frame(&fd) {
                            Ok(frame) => {
                                proof {
                                    let c = fd.frame_content@;
                                    assert(recs[i as int]@ == rs[i as int]);
                                    assert(frame_content(t[0]) == Ok::<Seq<u8>, FrameError>(c));
                                    assert(content_can_id(c) == can_id);
                                    assert(content_decodable(c, db));
                                    lemma_frames_match_append(out@, acc, seq![frame], seq![c], db);
                                    match frame_contents(rs.skip(i + 1), db) {
                                        Ok(rest) => {
                                            assert(frame_contents(t, db) == Ok::<Seq<Seq<u8>>, FrameError>(seq![c] + rest));
                                            assert(acc + (seq![c] + rest) =~= (acc + seq![c]) + rest);
                                        },
                                        Err(e) => {
                                            assert(frame_contents(t, db) == Err::<Seq<Seq<u8>>, FrameError>(e));
                                        },
                                    }
                                    acc = acc + seq![c];
                                }
                                out.push(frame);
                            },
                            Err(_) => {},
                        }
                    }
                },
                Err(_) => {},
            }
            i = i + 1;
        }
        proof {
            assert(rs.skip(n as int) =~= Seq::<Seq<u8>>::empty());
            assert(acc + Seq::<Seq<u8>>::empty() =~= acc);
        }
        Ok(out)
    }
}


impl FrameParser {
    /// The CAN frames of one compressed block.
    pub fn frames_of_block(&self, compressed: &[u8]) -> (r: Result<Vec<ParsedFrame>, FrameError>)
        ensures
            match block_contents(compressed@, self.db()) {
                Ok(cs) => r matches Ok(fs) && frames_match(fs@, cs, self.db()),
                Err(e) => r == Err::<Vec<ParsedFrame>, FrameError>(e),
            },
    {
        let ghost db = self.db();
        let decompressed = match Self::decompress_data(compressed) {
            Ok(v) => v,
            Err(e) => return Err(e),
        };
        let sequences = match Self::parse_frame_sequences(decompressed.as_slice()) {
            Ok(v) => v,
            Err(e) => return Err(e),
        };
        let ghost ss = sequences.deep_view();
        let mut out: Vec<ParsedFrame> = Vec::new();
        let ghost mut acc: Seq<Seq<u8>> = seq![];
        let n = sequences.len();
        let mut i: usize = 0;
        assert(ss.skip(0) =~= ss);
        while i < n
            invariant
                i <= n == sequences@.len() == ss.len(),
                ss == sequences.deep_view(),
                db == self.db(),
                block_contents(compressed@, db) == prepend_ok(acc, sequences_contents(ss.skip(i as int), db)),
                frames_match(out@, acc, db),
            decreases n - i,
        {
            let ghost t = ss.skip(i as int);
            proof {
                assert(t[0] == ss[i as int]);
                assert(t.drop_first() =~= ss.skip(i + 1));
                assert(ss[i as int] == sequences@[i as int]@);
            }
            let frames_data = match Self::parse_frames(sequences[i].as_slice()) {
                Ok(v) => v,
                Err(e) => return Err(e),
            };
            let mut frames = match self.frames_of_records(&frames_data) {
                Ok(v) => v,
                Err(e) => return Err(e),
            };
            proof {
                let cs = frame_contents(frames_data.deep_view(), db)->Ok_0;
                lemma_frames_match_append(out@, acc, frames@, cs, db);
                match sequences_contents(ss.skip(i + 1), db) {
                    Ok(rest) => {
                        assert(acc + (cs + rest) =~= (acc + cs) + rest);
                    },
                    Err(e) => {},
                }
                acc = acc + cs;
            }
            out.append(&mut frames);
            i = i + 1;
        }
        proof {
            assert(ss.skip(n as int) =~= Seq::<Seq<u8>>::empty());
            assert(acc + Seq::<Seq<u8>>::empty() =~= acc);
        }
        Ok(out)
    }

    /// Decodes the CAN frames of a whole `.bin` file's bytes, block after block: the frames
    /// in file order, or the first error. Timestamps are the time each frame was decoded.
    pub fn parse_file_data(&self, file_data: &[u8]) -> (r: Result<Vec<ParsedFrame>, FrameError>)
        ensures
            match file_contents(file_data@, self.db()) {
                Ok(cs) => r matches Ok(fs) && frames_match(fs@, cs, self.db()),
                Err(e) => r == Err::<Vec<ParsedFrame>, FrameError>(e),
            },
    {
        let ghost db = self.db();
        let n = file_data.len();
        let mut out: Vec<ParsedFrame> = Vec::new();
        let ghost mut acc: Seq<Seq<u8>> = seq![];
        let mut offset: usize = 0;
        assert(file_data@.skip(0) =~= file_data@);
        while offset < n
            invariant
                offset <= n == file_data@.len(),
                db == self.db(),
                file_contents(file_data@, db) == prepend_ok(acc, file_contents(file_data@.skip(offset as int), db)),
                frames_match(out@, acc, db),
            decreases n - offset,
        {
            let ghost t = file_data@.skip(offset as int);
            let rest = &file_data[offset..n];
            assert(rest@ =~= t);
            let file_level = match Self::parse_file_level(rest) {
                Ok(f) => f,
                Err(e) => return Err(e),
            };
            let mut frames = match self.frames_of_block(file_level.compressed_data.as_slice()) {
                Ok(v) => v,
                Err(e) => return Err(e),
            };
            let total = 35 + file_level.data_length as usize;
            proof {
                let cs = block_contents(file_level.compressed_data@, db)->Ok_0;
                assert(t.skip(total as int) =~= file_data@.skip(offset + total));
                lemma_frames_match_append(out@, acc, frames@, cs, db);
                match file_contents(file_data@.skip(offset + total), db) {
                    Ok(more) => {
                        assert(acc + (cs + more) =~= (acc + cs) + more);
                    },
                    Err(e) => {},
                }
                acc = acc + cs;
            }
            out.append(&mut frames);
            offset = offset + total;
        }
        proof {
            assert(file_data@.skip(n as int) =~= Seq::<u8>::empty());
            assert(acc + Seq::<Seq<u8>>::empty() =~= acc);
        }
        Ok(out)
    }
}


/// The blocks of `d`, each a 35-byte header whose bytes 31..35 hold, big-endian, the length
/// of the data that follows; reading stops at a tail too short for a header or a block.
pub open spec fn file_blocks(d: Seq<u8>) -> Seq<Seq<u8>>
    decreases d.len(),
{
    if d.len() < 35 {
        seq![]
    } else if d.len() < 35 + be_u32_at(d, 31) {
        seq![]
    } else {
        seq![d.take(35 + be_u32_at(d, 31))] + file_blocks(d.skip(35 + be_u32_at(d, 31)))
    }
}

/// `f` is the block whose bytes are `whole`.
pub open spec fn block_of(f: FileLevelData, whole: Seq<u8>) -> bool {
    &&& f.header@ == whole.take(35)
    &&& f.data_length == be_u32_at(whole, 31)
    &&& f.compressed_data@ == whole.skip(35)
}

/// `fs` are the blocks with bytes `ws`.
pub open spec fn blocks_match(fs: Seq<FileLevelData>, ws: Seq<Seq<u8>>) -> bool {
    &&& fs.len() == ws.len()
    &&& forall|k: int| 0 <= k < fs.len() ==> block_of(#[trigger] fs[k], ws[k])
}

/// A block's header and data, from the block's bytes.
pub fn block_from_bytes(data: &[u8]) -> (r: Result<FileLevelData, FrameError>)
    ensures
        data@.len() < 35 ==> r == Err::<FileLevelData, FrameError>(FrameError::FileHeaderTooShort),
        data@.len() >= 35 ==> (r matches Ok(f) && block_of(f, data@)),
{
    let n = data.len();
    if n < 35 {
        return Err(FrameError::FileHeaderTooShort);
    }
    let mut header = [0u8; 35];
    let mut i: usize = 0;
    while i < 35
        invariant
            i <= 35 <= n == data@.len(),
            forall|k: int| 0 <= k < i ==> header@[k] == data@[k],
        decreases 35 - i,
    {
        header[i] = data[i];
        i = i + 1;
    }
    assert(header@ =~= data@.take(35));
    let data_length = read_be_u32(data, 31);
    let compressed_data = copy_range(data, 35, n);
    assert(compressed_data@ =~= data@.skip(35));
    Ok(FileLevelData { header, data_length, compressed_data })
}

/// Splits `data` into its blocks.
pub fn split_file_blocks(data: &[u8]) -> (r: Vec<FileLevelData>)
    ensures
        blocks_match(r@, file_blocks(data@)),
{
    let n = data.len();
    let mut out: Vec<FileLevelData> = Vec::new();
    let ghost mut acc: Seq<Seq<u8>> = seq![];
    let mut offset: usize = 0;
    assert(data@.skip(0) =~= data@);
    while offset < n
        invariant
            offset <= n == data@.len(),
            file_blocks(data@) == acc + file_blocks(data@.skip(offset as int)),
            blocks_match(out@, acc),
        decreases n - offset,
    {
        let ghost t = data@.skip(offset as int);
        if n - offset < 35 {
            assert(file_blocks(t) == Seq::<Seq<u8>>::empty());
            assert(acc + Seq::<Seq<u8>>::empty() =~= acc);
            return out;
        }
        let data_length = read_be_u32(data, offset + 31);
        assert(be_u32_at(t, 31) == be_u32_at(data@, offset + 31));
        if ((n - offset) as u64) < 35 + data_length as u64 {
            assert(file_blocks(t) == Seq::<Seq<u8>>::empty());
            assert(acc + Seq::<Seq<u8>>::empty() =~= acc);
            return out;
        }
        let end = offset + 35 + data_length as usize;
        let block_bytes = &data[offset..end];
        let block = match block_from_bytes(block_bytes) {
            Ok(b) => b,
            Err(_) => return out,
        };
        proof {
            let w = t.take(35 + be_u32_at(t, 31));
            assert(block_bytes@ =~= w);
            assert(t.skip(35 + be_u32_at(t, 31)) =~= data@.skip(end as int));
            assert(acc + (seq![w] + file_blocks(data@.skip(end as int))) =~= (acc + seq![w])
                + file_blocks(data@.skip(end as int)));
            acc = acc + seq![w];
        }
        out.push(block);
        offset = end;
    }
    proof {
        assert(data@.skip(n as int) =~= Seq::<u8>::empty());
        assert(acc + Seq::<Seq<u8>>::empty() =~= acc);
    }
    out
}

/// Blocks are read independently: a file that reads without error, followed by any other
/// bytes, reads as its own frame contents followed by what those bytes read as.
pub proof fn lemma_file_contents_append(a: Seq<u8>, b: Seq<u8>, db: Map<u32, MessageSpec>)
    requires
        file_contents(a, db) is Ok,
    ensures
        file_contents(a + b, db) == prepend_ok(file_contents(a, db)->Ok_0, file_contents(b, db)),
    decreases a.len(),
{
    if a.len() == 0 {
        assert(a + b =~= b);
        if let Ok(rest) = file_contents(b, db) {
            assert(Seq::<Seq<u8>>::empty() + rest =~= rest);
        }
    } else {
        let ab = a + b;
        let len = 35 + be_u32_at(a, 35);
        assert(a.len() >= 39);
        assert(be_u32_at(ab, 35) == be_u32_at(a, 35));
        assert(ab.subrange(35, len) =~= a.subrange(35, len));
        assert(ab.skip(len) =~= a.skip(len) + b);
        let cs = block_contents(a.subrange(35, len), db)->Ok_0;
        lemma_file_contents_append(a.skip(len), b, db);
        let xs = file_contents(a.skip(len), db)->Ok_0;
        if let Ok(rest) = file_contents(b, db) {
            assert(cs + (xs + rest) =~= (cs + xs) + rest);
        }
    }
}

/// `b` is one whole layer-0 block: its header's length field counts exactly the bytes
/// after the 35-byte header.
pub open spec fn whole_block(b: Seq<u8>) -> bool {
    b.len() >= 35 && be_u32_at(b, 31) == b.len() - 35
}

/// Whole blocks laid end to end, followed by a tail that holds no whole block, split back
/// into those blocks, in order.
pub proof fn lemma_file_blocks_concat(bs: Seq<Seq<u8>>, t: Seq<u8>)
    requires
        forall|i: int| 0 <= i < bs.len() ==> whole_block(#[trigger] bs[i]),
        t.len() < 35 || t.len() < 35 + be_u32_at(t, 31),
    ensures
        file_blocks(bs.flatten() + t) == bs,
    decreases bs.len(),
{
    if bs.len() == 0 {
        assert(bs.flatten() + t =~= t);
        assert(bs =~= Seq::<Seq<u8>>::empty());
    } else {
        let b0 = bs[0];
        let rest = bs.drop_first();
        assert forall|i: int| 0 <= i < rest.len() implies whole_block(#[trigger] rest[i]) by {
            assert(rest[i] == bs[i + 1]);
        }
        lemma_file_blocks_concat(rest, t);
        let d = bs.flatten() + t;
        assert(whole_block(b0));
        assert(d =~= b0 + (rest.flatten() + t));
        assert(be_u32_at(d, 31) == be_u32_at(b0, 31));
        assert(d.take(35 + be_u32_at(d, 31)) =~= b0);
        assert(d.skip(35 + be_u32_at(d, 31)) =~= rest.flatten() + t);
        assert(bs =~= seq![b0] + rest);
    }
}

} // verus!
