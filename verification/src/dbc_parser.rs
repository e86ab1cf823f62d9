//! DBC signal database: messages, their signals, the line grammar they are read from and
//! the decoding of a frame's payload into signal values.

use vstd::prelude::*;
use std::collections::HashMap;
use vstd::std_specs::hash::spec_keys_iter;
use vstd::std_specs::iter::IteratorSpec;
use crate::text::{
    words, trim, has_prefix, split_in_two, find_char, parse_u32, strip_char, strip_end_char, lines,
    lemma_find_char, split_whitespace, parse_u32_chars, strip_end_chars, strip_chars, split_once_exact,
    position_of, copy_chars, string_from_chars, trim_chars, split_lines, chars_of, lemma_chars_deep_view,
};
use crate::signal_decode::{ByteOrder, ValueType, decoded_value, signal_in_range, extraction_defined};

verus! {

broadcast use vstd::std_specs::hash::group_hash_axioms;

/// Why a DBC text was rejected.
#[derive(Clone, Copy, Debug, PartialEq, Eq, Structural)]
pub enum DbcError {
    /// A `BO_` line with fewer than four fields.
    MessageLineTooShort,
    /// An `SG_` line with fewer than four fields.
    SignalLineTooShort,
    /// A bit definition that is not `start|length@order`.
    InvalidBitDefinition,
    /// A bit definition without the `@` that introduces the byte order.
    MissingByteOrder,
    /// A field that must be an unsigned 32-bit number is not one.
    InvalidNumber,
}

/// A signal definition. The scale, offset and range are kept as the text the DBC gives for
/// them (`None` where the line gives none); the numeric reading of that text is the caller's.
#[derive(Debug)]
pub struct Signal {
    pub name: String,
    pub start_bit: u32,
    pub length: u32,
    pub byte_order: ByteOrder,
    pub value_type: ValueType,
    pub factor_text: Option<String>,
    pub offset_text: Option<String>,
    pub min_text: Option<String>,
    pub max_text: Option<String>,
    pub unit: String,
}

/// The content of a [`Signal`].
pub struct SignalSpec {
    pub name: Seq<char>,
    pub start_bit: u32,
    pub length: u32,
    pub byte_order: ByteOrder,
    pub value_type: ValueType,
    pub factor_text: Option<Seq<char>>,
    pub offset_text: Option<Seq<char>>,
    pub min_text: Option<Seq<char>>,
    pub max_text: Option<Seq<char>>,
    pub unit: Seq<char>,
}

/// The text an optional string holds.
pub open spec fn opt_text(t: Option<String>) -> Option<Seq<char>> {
    match t {
        Some(s) => Some(s@),
        None => None,
    }
}

impl View for Signal {
    type V = SignalSpec;

    open spec fn view(&self) -> SignalSpec {
        SignalSpec {
            name: self.name@,
            start_bit: self.start_bit,
            length: self.length,
            byte_order: self.byte_order,
            value_type: self.value_type,
            factor_text: opt_text(self.factor_text),
            offset_text: opt_text(self.offset_text),
            min_text: opt_text(self.min_text),
            max_text: opt_text(self.max_text),
            unit: self.unit@,
        }
    }
}

fn clone_text(t: &Option<String>) -> (r: Option<String>)
    ensures
        opt_text(r) == opt_text(*t),
{
    match t {
        Some(s) => Some(s.clone()),
        None => None,
    }
}

impl Clone for Signal {
    fn clone(&self) -> (r: Self)
        ensures
            r@ == self@,
    {
        Signal {
            name: self.name.clone(),
            start_bit: self.start_bit,
            length: self.length,
            byte_order: self.byte_order,
            value_type: self.value_type,
            factor_text: clone_text(&self.factor_text),
            offset_text: clone_text(&self.offset_text),
            min_text: clone_text(&self.min_text),
            max_text: clone_text(&self.max_text),
            unit: self.unit.clone(),
        }
    }
}

/// A message definition with its signals.
#[derive(Debug)]
pub struct Message {
    pub id: u32,
    pub name: String,
    pub length: u32,
    pub signals: Vec<Signal>,
}

/// The content of a [`Message`].
pub struct MessageSpec {
    pub id: u32,
    pub name: Seq<char>,
    pub length: u32,
    pub signals: Seq<SignalSpec>,
}

/// The contents of the signals, in order.
pub open spec fn signal_views(v: Seq<Signal>) -> Seq<SignalSpec> {
    v.map_values(|s: Signal| s@)
}

impl View for Message {
    type V = MessageSpec;

    open spec fn view(&self) -> MessageSpec {
        MessageSpec {
            id: self.id,
            name: self.name@,
            length: self.length,
            signals: signal_views(self.signals@),
        }
    }
}

fn clone_signals(v: &Vec<Signal>) -> (r: Vec<Signal>)
    ensures
        signal_views(r@) == signal_views(v@),
{
    let mut r: Vec<Signal> = Vec::new();
    let mut i: usize = 0;
    while i < v.len()
        invariant
            i <= v@.len(),
            r@.len() == i,
            forall|k: int| 0 <= k < i ==> (#[trigger] r@[k])@ == v@[k]@,
        decreases v@.len() - i,
    {
        r.push(v[i].clone());
        i = i + 1;
    }
    assert(signal_views(r@) =~= signal_views(v@));
    r
}

impl Clone for Message {
    fn clone(&self) -> (r: Self)
        ensures
            r@ == self@,
    {
        Message {
            id: self.id,
            name: self.name.clone(),
            length: self.length,
            signals: clone_signals(&self.signals),
        }
    }
}

/// The DBC database: the messages read so far, each under its id.
pub struct DbcParser {
    messages: HashMap<u32, Message>,
}

/// The content of a [`DbcParser`]: the content of each message, under its id.
impl View for DbcParser {
    type V = Map<u32, MessageSpec>;

    closed spec fn view(&self) -> Map<u32, MessageSpec> {
        self.messages@.map_values(|m: Message| m@)
    }
}

/// The value of one signal read from a frame: the raw integer of its bits together with
/// the scale and offset text that turns it into a physical value.
#[derive(Clone, Debug)]
pub struct SignalReading {
    pub name: String,
    pub raw: i64,
    pub factor_text: Option<String>,
    pub offset_text: Option<String>,
}

/// The content of a [`SignalReading`].
pub struct ReadingSpec {
    pub name: Seq<char>,
    pub raw: int,
    pub factor_text: Option<Seq<char>>,
    pub offset_text: Option<Seq<char>>,
}

impl View for SignalReading {
    type V = ReadingSpec;

    open spec fn view(&self) -> ReadingSpec {
        ReadingSpec {
            name: self.name@,
            raw: self.raw as int,
            factor_text: opt_text(self.factor_text),
            offset_text: opt_text(self.offset_text),
        }
    }
}

/// The contents of the readings, in order.
pub open spec fn reading_views(v: Seq<SignalReading>) -> Seq<ReadingSpec> {
    v.map_values(|r: SignalReading| r@)
}


/// `BO_ <id> <name>: <length> ...`: a message line.
pub open spec fn message_definition(line: Seq<char>) -> Result<MessageSpec, DbcError> {
    let parts = words(line);
    if parts.len() < 4 {
        Err(DbcError::MessageLineTooShort)
    } else {
        match parse_u32(parts[1]) {
            None => Err(DbcError::InvalidNumber),
            Some(id) => match parse_u32(parts[3]) {
                None => Err(DbcError::InvalidNumber),
                Some(length) => Ok(
                    MessageSpec {
                        id,
                        name: strip_end_char(parts[2], ':'),
                        length,
                        signals: seq![],
                    },
                ),
            },
        }
    }
}

/// Text of a bracketed pair such as `(factor,offset)` split at its separator: `None`
/// unless the field exists, opens with `open` and, stripped of its brackets, holds
/// exactly one `sep`.
pub open spec fn bracketed_pair(
    parts: Seq<Seq<char>>,
    idx: int,
    open: char,
    close: char,
    sep: char,
) -> Option<(Seq<char>, Seq<char>)> {
    if parts.len() > idx && parts[idx].len() > 0 && parts[idx][0] == open {
        split_in_two(strip_char(strip_char(parts[idx], open), close), sep)
    } else {
        None
    }
}

/// The first text of a pair, if there is a pair.
pub open spec fn pair_first(p: Option<(Seq<char>, Seq<char>)>) -> Option<Seq<char>> {
    match p {
        Some((a, _)) => Some(a),
        None => None,
    }
}

/// The second text of a pair, if there is a pair.
pub open spec fn pair_second(p: Option<(Seq<char>, Seq<char>)>) -> Option<Seq<char>> {
    match p {
        Some((_, b)) => Some(b),
        None => None,
    }
}

/// `SG_ <name> : <start>|<length>@<order><sign> (<factor>,<offset>) [<min>|<max>] "<unit>" ...`:
/// a signal line.
pub open spec fn signal_definition(line: Seq<char>) -> Result<SignalSpec, DbcError> {
    let parts = words(line);
    if parts.len() < 4 {
        Err(DbcError::SignalLineTooShort)
    } else {
        match split_in_two(parts[3], '|') {
            None => Err(DbcError::InvalidBitDefinition),
            Some((start_text, length_order)) => match parse_u32(start_text) {
                None => Err(DbcError::InvalidNumber),
                Some(start_bit) => match find_char(length_order, '@') {
                    None => Err(DbcError::MissingByteOrder),
                    Some(at) => match parse_u32(length_order.take(at as int)) {
                        None => Err(DbcError::InvalidNumber),
                        Some(length) => {
                            let order_part = length_order.skip(at as int + 1);
                            let scale = bracketed_pair(parts, 4, '(', ')', ',');
                            let range = bracketed_pair(parts, 5, '[', ']', '|');
                            Ok(
                                SignalSpec {
                                    name: parts[1],
                                    start_bit,
                                    length,
                                    byte_order: if order_part.len() > 0 && order_part[0] == '0' {
                                        ByteOrder::LittleEndian
                                    } else {
                                        ByteOrder::BigEndian
                                    },
                                    value_type: if length_order.len() > 0 && length_order.last()
                                        == '+' {
                                        ValueType::Unsigned
                                    } else {
                                        ValueType::Signed
                                    },
                                    factor_text: pair_first(scale),
                                    offset_text: pair_second(scale),
                                    min_text: pair_first(range),
                                    max_text: pair_second(range),
                                    unit: if parts.len() > 6 {
                                        strip_char(parts[6], '"')
                                    } else {
                                        seq![]
                                    },
                                },
                            )
                        },
                    },
                },
            },
        }
    }
}

fn parse_pair(parts: &Vec<Vec<char>>, idx: usize, open: char, close: char, sep: char) -> (r:
    Option<(Vec<char>, Vec<char>)>)
    ensures
        r matches Some((a, b)) ==> bracketed_pair(parts.deep_view(), idx as int, open, close, sep)
            == Some((a@, b@)),
        r is None ==> bracketed_pair(parts.deep_view(), idx as int, open, close, sep) is None,
{
    if parts.len() > idx && parts[idx].len() > 0 && parts[idx][0] == open {
        proof {
            lemma_chars_deep_view(parts@[idx as int]);
        }
        let inner = strip_chars(parts[idx].as_slice(), open);
        let inner = strip_chars(inner.as_slice(), close);
        split_once_exact(inner.as_slice(), sep)
    } else {
        proof {
            if parts.len() > idx {
                lemma_chars_deep_view(parts@[idx as int]);
            }
        }
        None
    }
}

fn text_of_first(p: &Option<(Vec<char>, Vec<char>)>) -> (r: Option<String>)
    ensures
        opt_text(r) == pair_first(
            match p {
                Some((a, b)) => Some((a@, b@)),
                None => None,
            },
        ),
{
    match p {
        Some((a, _)) => Some(string_from_chars(a.as_slice())),
        None => None,
    }
}

fn text_of_second(p: &Option<(Vec<char>, Vec<char>)>) -> (r: Option<String>)
    ensures
        opt_text(r) == pair_second(
            match p {
                Some((a, b)) => Some((a@, b@)),
                None => None,
            },
        ),
{
    match p {
        Some((_, b)) => Some(string_from_chars(b.as_slice())),
        None => None,
    }
}

impl DbcParser {
    /// Reads a message line (already trimmed).
    pub fn parse_message_definition(line: &[char]) -> (r: Result<Message, DbcError>)
        ensures
            r matches Ok(m) ==> message_definition(line@) == Ok::<MessageSpec, DbcError>(m@),
            r matches Err(e) ==> message_definition(line@) == Err::<MessageSpec, DbcError>(e),
    {
        let parts = split_whitespace(line);
        if parts.len() < 4 {
            return Err(DbcError::MessageLineTooShort);
        }
        proof {
            lemma_chars_deep_view(parts@[1]);
            lemma_chars_deep_view(parts@[2]);
            lemma_chars_deep_view(parts@[3]);
        }
        let id = match parse_u32_chars(parts[1].as_slice()) {
            Some(v) => v,
            None => return Err(DbcError::InvalidNumber),
        };
        let length = match parse_u32_chars(parts[3].as_slice()) {
            Some(v) => v,
            None => return Err(DbcError::InvalidNumber),
        };
        let name = strip_end_chars(parts[2].as_slice(), ':');
        let m = Message { id, name: string_from_chars(name.as_slice()), length, signals: Vec::new() };
        assert(m@.signals =~= Seq::<SignalSpec>::empty());
        Ok(m)
    }

    /// Reads a signal line (already trimmed).
    pub fn parse_signal_definition(line: &[char]) -> (r: Result<Signal, DbcError>)
        ensures
            r matches Ok(s) ==> signal_definition(line@) == Ok::<SignalSpec, DbcError>(s@),
            r matches Err(e) ==> signal_definition(line@) == Err::<SignalSpec, DbcError>(e),
    {
        let parts = split_whitespace(line);
        if parts.len() < 4 {
            return Err(DbcError::SignalLineTooShort);
        }
        proof {
            lemma_chars_deep_view(parts@[1]);
            lemma_chars_deep_view(parts@[3]);
        }
        let (start_text, length_order) = match split_once_exact(parts[3].as_slice(), '|') {
            Some(p) => p,
            None => return Err(DbcError::InvalidBitDefinition),
        };
        let start_bit = match parse_u32_chars(start_text.as_slice()) {
            Some(v) => v,
            None => return Err(DbcError::InvalidNumber),
        };
        let at = match position_of(length_order.as_slice(), '@') {
            Some(k) => k,
            None => return Err(DbcError::MissingByteOrder),
        };
        proof {
            lemma_find_char(length_order@, '@');
        }
        let length_text = copy_chars(length_order.as_slice(), 0, at);
        assert(length_text@ =~= length_order@.take(at as int));
        let length = match parse_u32_chars(length_text.as_slice()) {
            Some(v) => v,
            None => return Err(DbcError::InvalidNumber),
        };
        let lo_len = length_order.len();
        let byte_order = if at + 1 < lo_len && length_order[at + 1] == '0' {
            ByteOrder::LittleEndian
        } else {
            ByteOrder::BigEndian
        };
        assert(length_order@.skip(at as int + 1).len() == lo_len - at - 1);
        let value_type = if lo_len > 0 && length_order[lo_len - 1] == '+' {
            ValueType::Unsigned
        } else {
            ValueType::Signed
        };
        let scale = parse_pair(&parts, 4, '(', ')', ',');
        let range = parse_pair(&parts, 5, '[', ']', '|');
        let unit = if parts.len() > 6 {
            proof {
                lemma_chars_deep_view(parts@[6]);
            }
            string_from_chars(strip_chars(parts[6].as_slice(), '"').as_slice())
        } else {
            string_from_chars(&[])
        };
        let sig = Signal {
            name: string_from_chars(parts[1].as_slice()),
            start_bit,
            length,
            byte_order,
            value_type,
            factor_text: text_of_first(&scale),
            offset_text: text_of_second(&scale),
            min_text: text_of_first(&range),
            max_text: text_of_second(&range),
            unit,
        };
        proof {
            if parts.len() <= 6 {
                assert(sig.unit@ =~= Seq::<char>::empty());
            }
        }
        Ok(sig)
    }
}


/// Index of the first signal named `name`.
pub open spec fn signal_index(sigs: Seq<SignalSpec>, name: Seq<char>) -> Option<nat>
    decreases sigs.len(),
{
    if sigs.len() == 0 {
        None
    } else if sigs[0].name == name {
        Some(0)
    } else {
        match signal_index(sigs.drop_first(), name) {
            Some(k) => Some(k + 1),
            None => None,
        }
    }
}

/// Adds `s`, replacing the signal of the same name.
pub open spec fn upsert_signal(sigs: Seq<SignalSpec>, s: SignalSpec) -> Seq<SignalSpec> {
    match signal_index(sigs, s.name) {
        Some(k) => sigs.update(k as int, s),
        None => sigs.push(s),
    }
}

/// Adds `m` under its id, replacing the message of the same id.
pub open spec fn upsert_message(ms: Map<u32, MessageSpec>, m: MessageSpec) -> Map<u32, MessageSpec> {
    ms.insert(m.id, m)
}

/// A `BO_` line.
pub open spec fn is_message_line(l: Seq<char>) -> bool {
    has_prefix(l, seq!['B', 'O', '_'])
}

/// An `SG_` line.
pub open spec fn is_signal_line(l: Seq<char>) -> bool {
    has_prefix(l, seq!['S', 'G', '_'])
}

/// The signals that follow a message line: from line `j` on, every `SG_` line until an
/// empty line, a `BO_` line or the end; other lines are passed over. The result holds the
/// signals and the index of the line that ended the block.
pub open spec fn signal_block(ls: Seq<Seq<char>>, j: int, sigs: Seq<SignalSpec>) -> Result<
    (Seq<SignalSpec>, int),
    DbcError,
>
    decreases ls.len() - j,
{
    if j < 0 || j >= ls.len() {
        Ok((sigs, j))
    } else {
        let l = trim(ls[j]);
        if is_signal_line(l) {
            match signal_definition(l) {
                Err(e) => Err(e),
                Ok(s) => signal_block(ls, j + 1, upsert_signal(sigs, s)),
            }
        } else if is_message_line(l) || l.len() == 0 {
            Ok((sigs, j))
        } else {
            signal_block(ls, j + 1, sigs)
        }
    }
}

/// A signal block ends at or after the line it starts on, and within the text.
pub proof fn lemma_signal_block_end(ls: Seq<Seq<char>>, j: int, sigs: Seq<SignalSpec>)
    ensures
        0 <= j <= ls.len() ==> (signal_block(ls, j, sigs) matches Ok((_, k)) ==> j <= k <= ls.len()),
    decreases ls.len() - j,
{
    if 0 <= j < ls.len() {
        let l = trim(ls[j]);
        if is_signal_line(l) {
            if let Ok(s) = signal_definition(l) {
                lemma_signal_block_end(ls, j + 1, upsert_signal(sigs, s));
            }
        } else if !(is_message_line(l) || l.len() == 0) {
            lemma_signal_block_end(ls, j + 1, sigs);
        }
    }
}

/// The database after reading `ls` from line `i` on into `ms`, and the error that stopped
/// the reading, if one did. Messages read before the error stay.
pub open spec fn dbc_from(ls: Seq<Seq<char>>, i: int, ms: Map<u32, MessageSpec>) -> (
    Map<u32, MessageSpec>,
    Option<DbcError>,
)
    decreases ls.len() - i,
{
    if i < 0 || i >= ls.len() {
        (ms, None)
    } else {
        let l = trim(ls[i]);
        if is_message_line(l) {
            match message_definition(l) {
                Err(e) => (ms, Some(e)),
                Ok(m) => match signal_block(ls, i + 1, seq![]) {
                    Err(e) => (ms, Some(e)),
                    Ok((sigs, k)) => {
                        proof {
                            lemma_signal_block_end(ls, i + 1, seq![]);
                        }
                        dbc_from(ls, k, upsert_message(ms, MessageSpec { signals: sigs, ..m }))
                    },
                },
            }
        } else {
            dbc_from(ls, i + 1, ms)
        }
    }
}

/// The database after reading the DBC text `content` into `ms`.
pub open spec fn dbc_read(content: Seq<char>, ms: Map<u32, MessageSpec>) -> (
    Map<u32, MessageSpec>,
    Option<DbcError>,
) {
    dbc_from(lines(content), 0, ms)
}

/// Every message is kept under its own id.
pub open spec fn keyed_by_id(ms: Map<u32, MessageSpec>) -> bool {
    forall|id: u32| #[trigger] ms.contains_key(id) ==> ms[id].id == id
}

/// No two signals share a name.
pub open spec fn distinct_names(ss: Seq<SignalSpec>) -> bool {
    forall|a: int, b: int| 0 <= a < b < ss.len() ==> ss[a].name != ss[b].name
}

/// The database invariant: every message is kept under its id, and signal names are
/// unique within each message.
pub open spec fn well_formed_db(ms: Map<u32, MessageSpec>) -> bool {
    &&& keyed_by_id(ms)
    &&& forall|id: u32| #[trigger] ms.contains_key(id) ==> distinct_names(ms[id].signals)
}

/// The index of a signal name, when there is one, points at a signal of that name, and
/// there is none exactly when no signal has the name.
pub proof fn lemma_signal_index(sigs: Seq<SignalSpec>, name: Seq<char>)
    ensures
        signal_index(sigs, name) matches Some(k) ==> k < sigs.len() && sigs[k as int].name
            == name && forall|j: int| 0 <= j < k ==> (#[trigger] sigs[j]).name != name,
        signal_index(sigs, name) is None ==> forall|j: int|
            0 <= j < sigs.len() ==> (#[trigger] sigs[j]).name != name,
    decreases sigs.len(),
{
    if sigs.len() > 0 {
        lemma_signal_index(sigs.drop_first(), name);
        assert forall|j: int| 1 <= j < sigs.len() implies #[trigger] sigs[j] == sigs.drop_first()[j
            - 1] by {}
    }
}

/// The signal at `k` is the one its name finds when no earlier signal has that name.
pub proof fn lemma_signal_index_at(sigs: Seq<SignalSpec>, name: Seq<char>, k: int)
    requires
        0 <= k < sigs.len(),
        sigs[k].name == name,
        forall|j: int| 0 <= j < k ==> (#[trigger] sigs[j]).name != name,
    ensures
        signal_index(sigs, name) == Some(k as nat),
{
    lemma_signal_index(sigs, name);
    if let Some(m) = signal_index(sigs, name) {
        if (m as int) < k {
            assert(sigs[m as int].name != name);
        } else if (m as int) > k {
            assert(sigs[k].name != name);
        }
    } else {
        assert(sigs[k].name != name);
    }
}

/// Adding a signal keeps names unique and leaves exactly the new signal under its name.
pub proof fn lemma_upsert_signal(sigs: Seq<SignalSpec>, s: SignalSpec)
    requires
        distinct_names(sigs),
    ensures
        distinct_names(upsert_signal(sigs, s)),
        signal_index(upsert_signal(sigs, s), s.name) matches Some(k) && upsert_signal(sigs, s)[k as int] == s,
        forall|n: Seq<char>| n != s.name ==> #[trigger] signal_index(upsert_signal(sigs, s), n)
            == signal_index(sigs, n),
{
    lemma_signal_index(sigs, s.name);
    let r = upsert_signal(sigs, s);
    lemma_signal_index(r, s.name);
    assert forall|n: Seq<char>| n != s.name implies #[trigger] signal_index(r, n) == signal_index(sigs, n) by {
        lemma_signal_index(sigs, n);
        lemma_signal_index(r, n);
        match signal_index(sigs, n) {
            Some(k) => {
                assert(r[k as int].name == n);
                match signal_index(r, n) {
                    Some(k2) => {
                        if k2 < k {
                            assert(sigs[k2 as int].name == n);
                        } else if k2 > k {
                            assert(r[k as int].name != n);
                        }
                    },
                    None => {
                        assert(r[k as int].name != n);
                    },
                }
            },
            None => {
                if let Some(k2) = signal_index(r, n) {
                    assert(r[k2 as int].name == n);
                    if k2 < sigs.len() {
                        assert(sigs[k2 as int].name != n);
                    }
                }
            },
        }
    }
    match signal_index(sigs, s.name) {
        Some(k) => {
            assert forall|j: int| 0 <= j < k implies (#[trigger] r[j]).name != s.name by {
                assert(r[j] == sigs[j]);
            }
            lemma_signal_index_at(r, s.name, k as int);
        },
        None => {
            assert forall|j: int| 0 <= j < sigs.len() implies (#[trigger] r[j]).name != s.name by {
                assert(r[j] == sigs[j]);
            }
            lemma_signal_index_at(r, s.name, sigs.len() as int);
        },
    }
    assert forall|a: int, b: int| 0 <= a < b < r.len() implies r[a].name != r[b].name by {
        match signal_index(sigs, s.name) {
            Some(k) => {
                if a == k {
                    assert(sigs[b].name != sigs[k as int].name);
                } else if b == k {
                    assert(sigs[a].name != sigs[k as int].name);
                }
            },
            None => {},
        }
    }
}

/// Adding a message keeps the database well formed, leaves exactly the new message under
/// its id and every other id as it was.
pub proof fn lemma_upsert_message(ms: Map<u32, MessageSpec>, m: MessageSpec)
    requires
        well_formed_db(ms),
        distinct_names(m.signals),
    ensures
        well_formed_db(upsert_message(ms, m)),
        upsert_message(ms, m).contains_key(m.id) && upsert_message(ms, m)[m.id] == m,
        forall|id: u32|
            id != m.id ==> (#[trigger] upsert_message(ms, m).contains_key(id) == ms.contains_key(id))
                && (ms.contains_key(id) ==> upsert_message(ms, m)[id] == ms[id]),
{
}

/// The messages a reading of `ls` from line `i` on adds, in order, and the error that
/// stops it: neither depends on the database the lines are read into.
pub open spec fn messages_read(ls: Seq<Seq<char>>, i: int) -> (Seq<MessageSpec>, Option<DbcError>)
    decreases ls.len() - i,
{
    if i < 0 || i >= ls.len() {
        (seq![], None)
    } else {
        let l = trim(ls[i]);
        if is_message_line(l) {
            match message_definition(l) {
                Err(e) => (seq![], Some(e)),
                Ok(m) => match signal_block(ls, i + 1, seq![]) {
                    Err(e) => (seq![], Some(e)),
                    Ok((sigs, k)) => {
                        proof {
                            lemma_signal_block_end(ls, i + 1, seq![]);
                        }
                        let rest = messages_read(ls, k);
                        (seq![MessageSpec { signals: sigs, ..m }] + rest.0, rest.1)
                    },
                },
            }
        } else {
            messages_read(ls, i + 1)
        }
    }
}

/// `ms` with each message of `l` added in turn.
pub open spec fn upsert_all(ms: Map<u32, MessageSpec>, l: Seq<MessageSpec>) -> Map<u32, MessageSpec>
    decreases l.len(),
{
    if l.len() == 0 {
        ms
    } else {
        upsert_all(upsert_message(ms, l[0]), l.drop_first())
    }
}

/// Reading lines into a database adds the messages the lines define, whatever the
/// database held.
pub proof fn lemma_dbc_from_upserts(ls: Seq<Seq<char>>, i: int, ms: Map<u32, MessageSpec>)
    ensures
        dbc_from(ls, i, ms) == (upsert_all(ms, messages_read(ls, i).0), messages_read(ls, i).1),
    decreases ls.len() - i,
{
    if 0 <= i < ls.len() {
        let l = trim(ls[i]);
        if is_message_line(l) {
            if let Ok(m) = message_definition(l) {
                if let Ok((sigs, k)) = signal_block(ls, i + 1, seq![]) {
                    lemma_signal_block_end(ls, i + 1, seq![]);
                    let mm = MessageSpec { signals: sigs, ..m };
                    lemma_dbc_from_upserts(ls, k, upsert_message(ms, mm));
                    let r = messages_read(ls, k).0;
                    assert((seq![mm] + r).drop_first() =~= r);
                    assert((seq![mm] + r)[0] == mm);
                }
            }
        } else {
            lemma_dbc_from_upserts(ls, i + 1, ms);
        }
    }
}

/// Adding a run of messages to a database lays over it what the run adds to an empty one.
pub proof fn lemma_upsert_all_union(ms: Map<u32, MessageSpec>, l: Seq<MessageSpec>)
    ensures
        upsert_all(ms, l) == ms.union_prefer_right(upsert_all(Map::empty(), l)),
    decreases l.len(),
{
    if l.len() == 0 {
        assert(ms.union_prefer_right(Map::<u32, MessageSpec>::empty()) =~= ms);
    } else {
        let m0 = l[0];
        let rest = l.drop_first();
        let one = Map::<u32, MessageSpec>::empty().insert(m0.id, m0);
        lemma_upsert_all_union(ms.insert(m0.id, m0), rest);
        lemma_upsert_all_union(one, rest);
        let f = upsert_all(Map::empty(), rest);
        assert(ms.insert(m0.id, m0).union_prefer_right(f) =~= ms.union_prefer_right(one.union_prefer_right(f)));
    }
}

/// Reading a DBC text a second time leaves the database as the first reading left it, and
/// stops with the same error.
pub proof fn lemma_dbc_read_idempotent(content: Seq<char>, ms: Map<u32, MessageSpec>)
    ensures
        dbc_read(content, dbc_read(content, ms).0) == dbc_read(content, ms),
{
    let ls = lines(content);
    let l = messages_read(ls, 0).0;
    lemma_dbc_from_upserts(ls, 0, ms);
    let f = upsert_all(ms, l);
    lemma_dbc_from_upserts(ls, 0, f);
    lemma_upsert_all_union(ms, l);
    lemma_upsert_all_union(f, l);
    let g = upsert_all(Map::<u32, MessageSpec>::empty(), l);
    assert(ms.union_prefer_right(g).union_prefer_right(g) =~= ms.union_prefer_right(g));
}

/// A `BO_` line is no `SG_` line.
proof fn lemma_message_line_not_signal(l: Seq<char>)
    requires
        is_message_line(l),
    ensures
        !is_signal_line(l),
        l.len() != 0,
{
    assert(l.take(3)[0] == 'B');
}

/// A signal block that runs into a `BO_` line ends at that line, so that the reading goes on
/// with it as the next message: when every line from `i` up to the `BO_` line at `j` is a
/// non-empty line other than a `BO_` line, a block read from `i` ends at `j`.
pub proof fn lemma_signal_block_stops_at_message(ls: Seq<Seq<char>>, i: int, j: int, sigs: Seq<SignalSpec>)
    requires
        0 <= i <= j < ls.len(),
        is_message_line(trim(ls[j])),
        forall|k: int| i <= k < j ==> !is_message_line(#[trigger] trim(ls[k])) && trim(ls[k]).len() != 0,
        signal_block(ls, i, sigs) is Ok,
    ensures
        signal_block(ls, i, sigs)->Ok_0.1 == j,
    decreases j - i,
{
    let l = trim(ls[i]);
    if i == j {
        lemma_message_line_not_signal(l);
    } else {
        assert(!is_message_line(l) && l.len() != 0);
        if is_signal_line(l) {
            let sg = signal_definition(l)->Ok_0;
            lemma_signal_block_stops_at_message(ls, i + 1, j, upsert_signal(sigs, sg));
        } else {
            lemma_signal_block_stops_at_message(ls, i + 1, j, sigs);
        }
    }
}

/// Reading never drops a message: every id of the database read into is still there.
pub proof fn lemma_dbc_from_keeps_ids(ls: Seq<Seq<char>>, i: int, ms: Map<u32, MessageSpec>, id: u32)
    requires
        ms.contains_key(id),
    ensures
        dbc_from(ls, i, ms).0.contains_key(id),
{
    lemma_dbc_from_upserts(ls, i, ms);
    lemma_upsert_all_union(ms, messages_read(ls, i).0);
}

/// A `BO_` line that directly follows the signal lines of the message before it (no empty
/// line between) is read as a message of its own, with its own signal block: both messages
/// are in the database, and the second is the next message read after the first.
pub proof fn lemma_message_after_block_is_read(ls: Seq<Seq<char>>, i: int, k: int, ms: Map<u32, MessageSpec>)
    requires
        0 <= i < k < ls.len(),
        is_message_line(trim(ls[i])),
        is_message_line(trim(ls[k])),
        forall|j: int| i < j < k ==> !is_message_line(#[trigger] trim(ls[j])) && trim(ls[j]).len() != 0,
        message_definition(trim(ls[i])) is Ok,
        signal_block(ls, i + 1, seq![]) is Ok,
        message_definition(trim(ls[k])) is Ok,
        signal_block(ls, k + 1, seq![]) is Ok,
    ensures
        messages_read(ls, i).0.len() >= 2,
        messages_read(ls, i).0[0] == (MessageSpec {
            signals: signal_block(ls, i + 1, seq![])->Ok_0.0,
            ..message_definition(trim(ls[i]))->Ok_0
        }),
        messages_read(ls, i).0[1] == (MessageSpec {
            signals: signal_block(ls, k + 1, seq![])->Ok_0.0,
            ..message_definition(trim(ls[k]))->Ok_0
        }),
        dbc_from(ls, i, ms).0.contains_key(message_definition(trim(ls[i]))->Ok_0.id),
        dbc_from(ls, i, ms).0.contains_key(message_definition(trim(ls[k]))->Ok_0.id),
{
    lemma_signal_block_stops_at_message(ls, i + 1, k, seq![]);
    lemma_signal_block_end(ls, k + 1, seq![]);
    let mi = MessageSpec { signals: signal_block(ls, i + 1, seq![])->Ok_0.0, ..message_definition(trim(ls[i]))->Ok_0 };
    let mk = MessageSpec { signals: signal_block(ls, k + 1, seq![])->Ok_0.0, ..message_definition(trim(ls[k]))->Ok_0 };
    let e = signal_block(ls, k + 1, seq![])->Ok_0.1;
    assert(messages_read(ls, i).0 == seq![mi] + messages_read(ls, k).0);
    assert(messages_read(ls, k).0 == seq![mk] + messages_read(ls, e).0);
    let m1 = upsert_message(ms, mi);
    assert(dbc_from(ls, i, ms) == dbc_from(ls, k, m1));
    let m2 = upsert_message(m1, mk);
    assert(dbc_from(ls, k, m1) == dbc_from(ls, e, m2));
    assert(m2.contains_key(mi.id));
    assert(m2.contains_key(mk.id));
    lemma_dbc_from_keeps_ids(ls, e, m2, mi.id);
    lemma_dbc_from_keeps_ids(ls, e, m2, mk.id);
}

fn has_prefix3(l: &[char], a: char, b: char, c: char) -> (r: bool)
    ensures
        r == has_prefix(l@, seq![a, b, c]),
{
    if l.len() >= 3 && l[0] == a && l[1] == b && l[2] == c {
        assert(l@.take(3) =~= seq![a, b, c]);
        true
    } else {
        proof {
            if l@.len() >= 3 && l@.take(3) == seq![a, b, c] {
                assert(l@.take(3)[0] == l@[0]);
                assert(l@.take(3)[1] == l@[1]);
                assert(l@.take(3)[2] == l@[2]);
            }
        }
        false
    }
}

fn upsert_signal_vec(sigs: &mut Vec<Signal>, s: Signal)
    ensures
        signal_views(final(sigs)@) == upsert_signal(signal_views(old(sigs)@), s@),
{
    let ghost old_views = signal_views(sigs@);
    let mut i: usize = 0;
    while i < sigs.len()
        invariant
            i <= sigs@.len(),
            sigs@ == old(sigs)@,
            old_views == signal_views(sigs@),
            forall|j: int| 0 <= j < i ==> (#[trigger] old_views[j]).name != s@.name,
        decreases sigs@.len() - i,
    {
        if sigs[i].name == s.name {
            proof {
                lemma_signal_index_at(old_views, s@.name, i as int);
            }
            sigs.set(i, s);
            assert(signal_views(sigs@) =~= old_views.update(i as int, s@));
            return;
        }
        i = i + 1;
    }
    proof {
        lemma_signal_index(old_views, s@.name);
        if let Some(k) = signal_index(old_views, s@.name) {
            assert(old_views[k as int].name != s@.name);
        }
    }
    sigs.push(s);
    assert(signal_views(sigs@) =~= old_views.push(s@));
}

impl DbcParser {
    /// The database invariant: every message is kept under its id, and signal names are
    /// unique within each message.
    pub open spec fn wf(&self) -> bool {
        well_formed_db(self@)
    }

    /// An empty database.
    pub fn new() -> (r: Self)
        ensures
            r@ == Map::<u32, MessageSpec>::empty(),
            r.wf(),
    {
        let r = DbcParser { messages: HashMap::new() };
        assert(r@ =~= Map::<u32, MessageSpec>::empty());
        r
    }

    fn insert_message(&mut self, m: Message)
        ensures
            final(self)@ == upsert_message(old(self)@, m@),
    {
        let ghost mv = m;
        let id = m.id;
        self.messages.insert(id, m);
        assert(self@ =~= old(self)@.insert(id, mv@));
    }

    /// Reads the DBC text `content` into the database: every `BO_` line with the `SG_` lines
    /// of its block. A message replaces the one of the same id, a signal the one of the same
    /// name. On a malformed line the reading stops with that error; what was read before it
    /// stays.
    pub fn parse_dbc_content(&mut self, content: &str) -> (r: Result<(), DbcError>)
        requires
            old(self).wf(),
        ensures
            final(self).wf(),
            final(self)@ == dbc_read(content@, old(self)@).0,
            r is Ok <==> dbc_read(content@, old(self)@).1 is None,
            r matches Err(e) ==> dbc_read(content@, old(self)@).1 == Some(e),
    {
        let chars = chars_of(content);
        let all_lines = split_lines(chars.as_slice());
        let ghost ls = all_lines.deep_view();
        assert(ls == lines(content@));
        let n = all_lines.len();
        let mut i: usize = 0;
        while i < n
            invariant
                i <= n == all_lines@.len() == ls.len(),
                ls == all_lines.deep_view(),
                ls == lines(content@),
                self.wf(),
                dbc_from(ls, i as int, self@) == dbc_from(ls, 0, old(self)@),
            decreases n - i,
        {
            proof {
                lemma_chars_deep_view(all_lines@[i as int]);
            }
            let line = trim_chars(all_lines[i].as_slice());
            if has_prefix3(line.as_slice(), 'B', 'O', '_') {
                let mut message = match Self::parse_message_definition(line.as_slice()) {
                    Ok(m) => m,
                    Err(e) => return Err(e),
                };
                let mut signals: Vec<Signal> = Vec::new();
                assert(signal_views(signals@) =~= Seq::<SignalSpec>::empty());
                let start = i + 1;
                i = i + 1;
                loop
                    invariant
                        1 <= start <= i <= n == all_lines@.len() == ls.len(),
                        ls == all_lines.deep_view(),
                        ls == lines(content@),
                        self.wf(),
                        dbc_from(ls, start - 1, self@) == dbc_from(ls, 0, old(self)@),
                        is_message_line(trim(ls[start - 1])),
                        message_definition(trim(ls[start - 1])) is Ok,
                        distinct_names(signal_views(signals@)),
                        signal_block(ls, i as int, signal_views(signals@)) == signal_block(
                            ls,
                            start as int,
                            seq![],
                        ),
                    ensures
                        start <= i <= n,
                        signal_block(ls, i as int, signal_views(signals@)) == Ok::<
                            (Seq<SignalSpec>, int),
                            DbcError,
                        >((signal_views(signals@), i as int)),
                        distinct_names(signal_views(signals@)),
                    decreases n - i,
                {
                    if i >= n {
                        break;
                    }
                    proof {
                        lemma_chars_deep_view(all_lines@[i as int]);
                    }
                    let signal_line = trim_chars(all_lines[i].as_slice());
                    if has_prefix3(signal_line.as_slice(), 'S', 'G', '_') {
                        let signal = match Self::parse_signal_definition(signal_line.as_slice()) {
                            Ok(s) => s,
                            Err(e) => {
                                assert(signal_block(ls, i as int, signal_views(signals@)) == Err::<
                                    (Seq<SignalSpec>, int),
                                    DbcError,
                                >(e));
                                assert(dbc_from(ls, start - 1, self@) == (self@, Some(e)));
                                return Err(e);
                            },
                        };
                        proof {
                            lemma_upsert_signal(signal_views(signals@), signal@);
                        }
                        upsert_signal_vec(&mut signals, signal);
                        i = i + 1;
                    } else if has_prefix3(signal_line.as_slice(), 'B', 'O', '_')
                        || signal_line.len() == 0 {
                        break;
                    } else {
                        i = i + 1;
                    }
                }
                message.signals = signals;
                proof {
                    lemma_upsert_message(self@, message@);
                }
                self.insert_message(message);
            } else {
                i = i + 1;
            }
        }
        Ok(())
    }
}


/// The readings of `sigs` on `data`: one per signal whose bits lie inside `data`, in order.
pub open spec fn readings_of(sigs: Seq<SignalSpec>, data: Seq<u8>) -> Seq<ReadingSpec>
    decreases sigs.len(),
{
    if sigs.len() == 0 {
        seq![]
    } else {
        let rest = readings_of(sigs.drop_last(), data);
        let s = sigs.last();
        if signal_in_range(s.start_bit, s.length, data.len() as int) {
            rest.push(
                ReadingSpec {
                    name: s.name,
                    raw: decoded_value(s.start_bit, s.length, s.byte_order, s.value_type, data),
                    factor_text: s.factor_text,
                    offset_text: s.offset_text,
                },
            )
        } else {
            rest
        }
    }
}

/// Every signal of `sigs` can be extracted from a payload of `data_len` bytes.
pub open spec fn all_extractable(sigs: Seq<SignalSpec>, data_len: int) -> bool {
    forall|k: int|
        0 <= k < sigs.len() ==> extraction_defined(
            (#[trigger] sigs[k]).start_bit,
            sigs[k].length,
            sigs[k].value_type,
            data_len,
        )
}

/// The signals that decoding a frame with id `can_id` reads.
pub open spec fn message_signals(ms: Map<u32, MessageSpec>, can_id: u32) -> Seq<SignalSpec> {
    if ms.contains_key(can_id) {
        ms[can_id].signals
    } else {
        seq![]
    }
}

impl DbcParser {
    /// The raw value of `signal` in `data`: `None` when its bytes do not fit in `data`.
    pub fn extract_signal_value(data: &[u8], signal: &Signal) -> (r: Option<i64>)
        requires
            extraction_defined(signal.start_bit, signal.length, signal.value_type, data@.len() as int),
        ensures
            r is None <==> !signal_in_range(signal.start_bit, signal.length, data@.len() as int),
            r matches Some(v) ==> v as int == decoded_value(
                signal.start_bit,
                signal.length,
                signal.byte_order,
                signal.value_type,
                data@,
            ),
    {
        crate::signal_decode::extract_raw_value(
            data,
            signal.start_bit,
            signal.length,
            signal.byte_order,
            signal.value_type,
        )
    }

    /// Decodes every signal of the message `can_id` from `data`; signals whose bits do not
    /// fit in `data` are left out, as is everything when no message has that id.
    pub fn parse_signals(&self, can_id: u32, data: &[u8]) -> (r: Vec<SignalReading>)
        requires
            all_extractable(message_signals(self@, can_id), data@.len() as int),
        ensures
            reading_views(r@) == readings_of(message_signals(self@, can_id), data@),
    {
        let mut out: Vec<SignalReading> = Vec::new();
        match self.messages.get(&can_id) {
            None => {
                assert(reading_views(out@) =~= Seq::<ReadingSpec>::empty());
                out
            },
            Some(message) => {
                assert(self.messages@.contains_key(can_id) && self.messages@[can_id] == *message);
                let ghost sigs = signal_views(message.signals@);
                assert(sigs == message_signals(self@, can_id));
                let mut i: usize = 0;
                while i < message.signals.len()
                    invariant
                        i <= message.signals@.len(),
                        sigs == signal_views(message.signals@),
                        all_extractable(sigs, data@.len() as int),
                        reading_views(out@) == readings_of(sigs.take(i as int), data@),
                    decreases message.signals@.len() - i,
                {
                    let signal = &message.signals[i];
                    assert(sigs[i as int] == signal@);
                    assert(sigs.take(i + 1).drop_last() =~= sigs.take(i as int));
                    match Self::extract_signal_value(data, signal) {
                        Some(raw) => {
                            let reading = SignalReading {
                                name: signal.name.clone(),
                                raw,
                                factor_text: clone_text(&signal.factor_text),
                                offset_text: clone_text(&signal.offset_text),
                            };
                            out.push(reading);
                            assert(reading_views(out@) =~= readings_of(sigs.take(i as int), data@).push(reading@));
                        },
                        None => {},
                    }
                    i = i + 1;
                }
                assert(sigs.take(i as int) =~= sigs);
                out
            },
        }
    }

    /// The ids of all messages, each once, in the order the map holds them.
    pub fn get_message_ids(&self) -> (r: Vec<u32>)
        ensures
            r@.to_set() == self@.dom(),
            r@.no_duplicates(),
    {
        let mut out: Vec<u32> = Vec::new();
        let keys = self.messages.keys();
        let ghost ks = spec_keys_iter(&self.messages).remaining();
        assert(ks.unref().to_set() == self.messages@.dom());
        for id in it: keys
            invariant
                out@ == it.seq().take(it.index() as int).unref(),
                it.seq() == ks,
        {
            out.push(*id);
            proof {
                assert(it.seq().take(it.index() + 1).unref() =~= it.seq().take(it.index() as int).unref().push(*id));
            }
        }
        proof {
            assert(out@ =~= ks.unref());
            assert(self@.dom() =~= self.messages@.dom());
        }
        out
    }

    /// A copy of the message with id `can_id`.
    pub fn get_message(&self, can_id: u32) -> (r: Option<Message>)
        ensures
            self@.contains_key(can_id) ==> (r matches Some(m) && m@ == self@[can_id]),
            !self@.contains_key(can_id) ==> r is None,
    {
        match self.messages.get(&can_id) {
            Some(m) => Some(m.clone()),
            None => None,
        }
    }
}


impl DbcParser {
    /// Whether every signal of message `can_id` can be extracted from `data_len` bytes.
    pub fn signals_decodable(&self, can_id: u32, data_len: usize) -> (r: bool)
        ensures
            r == all_extractable(message_signals(self@, can_id), data_len as int),
    {
        match self.messages.get(&can_id) {
            None => true,
            Some(message) => {
                assert(self.messages@.contains_key(can_id) && self.messages@[can_id] == *message);
                let ghost sigs = signal_views(message.signals@);
                assert(sigs == message_signals(self@, can_id));
                let mut i: usize = 0;
                while i < message.signals.len()
                    invariant
                        i <= message.signals@.len(),
                        sigs == signal_views(message.signals@),
                        sigs == message_signals(self@, can_id),
                        forall|j: int| 0 <= j < i ==> extraction_defined(
                            (#[trigger] sigs[j]).start_bit,
                            sigs[j].length,
                            sigs[j].value_type,
                            data_len as int,
                        ),
                    decreases message.signals@.len() - i,
                {
                    let s = &message.signals[i];
                    assert(sigs[i as int] == s@);
                    if s.length > u32::MAX - 7 {
                        assert(!extraction_defined(sigs[i as int].start_bit, sigs[i as int].length, sigs[i as int].value_type, data_len as int));
                        return false;
                    }
                    let in_range = (s.start_bit / 8) as u64 + ((s.length + 7) / 8) as u64
                        <= data_len as u64;
                    if in_range && (s.length >= 64 || (s.value_type == ValueType::Signed
                        && s.length == 0)) {
                        assert(!extraction_defined(sigs[i as int].start_bit, sigs[i as int].length, sigs[i as int].value_type, data_len as int));
                        return false;
                    }
                    i = i + 1;
                }
                true
            },
        }
    }
}

} // verus!
