//! The record codec: a field-tagged, varint-based binary encoding of
//! the commands that the log stores, together with the CRC32 integrity
//! field computed over the payload.
//!
//! Every field is written as a one-byte tag followed by either a
//! varint value or a varint length and that many bytes.  The tag byte
//! carries the field number in its high bits and the kind of field in
//! its low three bits, so readers of a later schema can recognise
//! fields they do not know.

use vstd::prelude::*;
use vstd::string::StrSliceExecFns;
use vstd::string::StringExecFns;
use vstd::utf8::{valid_utf8, decode_utf8, encode_utf8};

use crate::bytesutil::copy_range;
use crate::error::KvsError;
use crate::varint::{spec_varint, spec_parse_varint, write_varint, read_varint, lemma_varint_len, lemma_parse_varint_encoding};

verus! {

/// The schema version stamped on every record this library writes.
pub const CURRENT_SCHEMA_VERSION: u64 = 1;

/// Tag of the schema-version field (field 1, varint).
pub const TAG_VERSION: u8 = 0x08;

/// Tag of the sequence-number field (field 2, varint).
pub const TAG_SEQUENCE: u8 = 0x10;

/// Tag of the timestamp field (field 3, varint).
pub const TAG_TIMESTAMP: u8 = 0x18;

/// Tag of the checksum field (field 4, varint).
pub const TAG_CHECKSUM: u8 = 0x20;

/// Tag of a Set command (field 5, length-delimited).
pub const TAG_SET: u8 = 0x2A;

/// Tag of a Remove command (field 6, length-delimited).
pub const TAG_REMOVE: u8 = 0x32;

/// Tag of a key inside a command (field 1, length-delimited).
pub const TAG_KEY: u8 = 0x0A;

/// Tag of a value inside a Set command (field 2, length-delimited).
pub const TAG_VALUE: u8 = 0x12;

/// The CRC32 of a byte sequence.
pub uninterp spec fn crc32_of(data: Seq<u8>) -> u32;

/// Relies on `crc32fast::hash`: the CRC32 checksum of a buffer, a pure
/// function of the bytes alone.
#[verifier::external_body]
fn crc32(data: &Vec<u8>) -> (r: u32)
    ensures
        r == crc32_of(data@),
{
    crc32fast::hash(data.as_slice())
}

/// Relies on `std::time::SystemTime::now` for the wall-clock second
/// count stamped on records; nothing is assumed of the value, and a
/// clock before the epoch is reported as zero.
#[verifier::external_body]
fn now_secs() -> u64 {
    match std::time::SystemTime::now().duration_since(std::time::UNIX_EPOCH) {
        Ok(d) => d.as_secs(),
        Err(_) => 0,
    }
}

/// Relies on `String::from_utf8`: it succeeds exactly on valid UTF-8
/// input and returns the characters those bytes encode.
#[verifier::external_body]
pub(crate) fn bytes_to_string(b: Vec<u8>) -> (r: Option<String>)
    ensures
        match r {
            Some(s) => valid_utf8(b@) && s@ == decode_utf8(b@),
            None => !valid_utf8(b@),
        },
{
    String::from_utf8(b).ok()
}

/// A Set or Remove command, the variable part of a record.
#[derive(Debug, Clone, PartialEq)]
pub enum Command {
    /// Bind `key` to `value`.
    SetCmd { key: String, value: String },
    /// Unbind `key`.
    RemoveCmd { key: String },
}

/// One log record: a command and its metadata.
#[derive(Debug, Clone, PartialEq)]
pub struct KvsCommand {
    /// Schema version; readers accept version 1.
    pub version: u32,
    /// Monotonically increasing per engine instance.
    pub sequence_number: u64,
    /// Seconds since the Unix epoch at write time; informational.
    pub timestamp: u64,
    /// CRC32 of the payload (key bytes, then value bytes if present).
    pub checksum: u32,
    /// The command itself; an empty field decodes as `None`.
    pub command: Option<Command>,
}

/// The mathematical image of a [`Command`].
pub enum CommandView {
    /// Bind `key` to `value`.
    SetCmd { key: Seq<char>, value: Seq<char> },
    /// Unbind `key`.
    RemoveCmd { key: Seq<char> },
}

/// The mathematical image of a [`KvsCommand`].
pub struct RecordView {
    /// Schema version.
    pub version: u32,
    /// Monotonically increasing per engine instance.
    pub sequence_number: u64,
    /// Seconds since the Unix epoch at write time.
    pub timestamp: u64,
    /// CRC32 of the payload.
    pub checksum: u32,
    /// The command itself.
    pub command: Option<CommandView>,
}

impl View for Command {
    type V = CommandView;

    open spec fn view(&self) -> CommandView {
        match self {
            Command::SetCmd { key, value } => CommandView::SetCmd { key: key@, value: value@ },
            Command::RemoveCmd { key } => CommandView::RemoveCmd { key: key@ },
        }
    }
}

impl View for KvsCommand {
    type V = RecordView;

    open spec fn view(&self) -> RecordView {
        RecordView {
            version: self.version,
            sequence_number: self.sequence_number,
            timestamp: self.timestamp,
            checksum: self.checksum,
            command: match &self.command {
                Some(c) => Some(c@),
                None => None,
            },
        }
    }
}

/// The bytes the checksum is computed over: the key's UTF-8 bytes,
/// then, for a Set, the value's UTF-8 bytes.
pub open spec fn spec_payload(c: CommandView) -> Seq<u8> {
    match c {
        CommandView::SetCmd { key, value } => encode_utf8(key) + encode_utf8(value),
        CommandView::RemoveCmd { key } => encode_utf8(key),
    }
}

impl RecordView {
    /// The payload bytes of this record's command, empty when the
    /// command field is absent.
    pub open spec fn payload(self) -> Seq<u8> {
        match self.command {
            Some(c) => spec_payload(c),
            None => Seq::empty(),
        }
    }

    /// The integrity invariant: a present command whose stored
    /// checksum matches the payload's CRC32.
    pub open spec fn crc_ok(self) -> bool {
        self.command is Some && self.checksum == crc32_of(self.payload())
    }

    /// The command body is small enough for its length prefix; every
    /// record that can exist as bytes in memory satisfies this.
    pub open spec fn encodable(self) -> bool {
        match self.command {
            None => true,
            Some(CommandView::SetCmd { key, value }) => spec_set_body(key, value).len() <= u64::MAX,
            Some(CommandView::RemoveCmd { key }) => spec_remove_body(key).len() <= u64::MAX,
        }
    }
}

/// A varint field: tag byte, then the value.
pub open spec fn spec_encode_uint(tag: u8, x: u64) -> Seq<u8> {
    seq![tag] + spec_varint(x)
}

/// A string field: tag byte, byte length as a varint, then the UTF-8
/// bytes.
pub open spec fn spec_encode_string(tag: u8, s: Seq<char>) -> Seq<u8> {
    seq![tag] + spec_varint(encode_utf8(s).len() as u64) + encode_utf8(s)
}

/// The body of a Set command: key field then value field.
pub open spec fn spec_set_body(key: Seq<char>, value: Seq<char>) -> Seq<u8> {
    spec_encode_string(TAG_KEY, key) + spec_encode_string(TAG_VALUE, value)
}

/// The body of a Remove command: the key field alone.
pub open spec fn spec_remove_body(key: Seq<char>) -> Seq<u8> {
    spec_encode_string(TAG_KEY, key)
}

/// The four metadata fields every record starts with.
pub open spec fn spec_encode_header(r: RecordView) -> Seq<u8> {
    spec_encode_uint(TAG_VERSION, r.version as u64) + spec_encode_uint(
        TAG_SEQUENCE,
        r.sequence_number,
    ) + spec_encode_uint(TAG_TIMESTAMP, r.timestamp) + spec_encode_uint(
        TAG_CHECKSUM,
        r.checksum as u64,
    )
}

/// The full encoding of a record.
pub open spec fn spec_encode_record(r: RecordView) -> Seq<u8> {
    spec_encode_header(r) + match r.command {
        None => Seq::<u8>::empty(),
        Some(CommandView::SetCmd { key, value }) => {
            let body = spec_set_body(key, value);
            seq![TAG_SET] + spec_varint(body.len() as u64) + body
        },
        Some(CommandView::RemoveCmd { key }) => {
            let body = spec_remove_body(key);
            seq![TAG_REMOVE] + spec_varint(body.len() as u64) + body
        },
    }
}

/// Parses a varint field at `pos`: the tag must match.
pub open spec fn spec_parse_uint(b: Seq<u8>, pos: int, tag: u8) -> Option<(u64, int)> {
    if pos < 0 || pos >= b.len() || b[pos] != tag {
        None
    } else {
        spec_parse_varint(b, pos + 1)
    }
}

/// Parses a string field at `pos`: the tag must match, the length must
/// lie within the buffer, and the bytes must be valid UTF-8.
pub open spec fn spec_parse_string(b: Seq<u8>, pos: int, tag: u8) -> Option<(Seq<char>, int)> {
    if pos < 0 || pos >= b.len() || b[pos] != tag {
        None
    } else {
        match spec_parse_varint(b, pos + 1) {
            None => None,
            Some((n, q)) => {
                if q + n <= b.len() {
                    let bytes = b.subrange(q, q + n);
                    if valid_utf8(bytes) {
                        Some((decode_utf8(bytes), q + n))
                    } else {
                        None
                    }
                } else {
                    None
                }
            },
        }
    }
}

/// Parses a whole record; the buffer must be consumed exactly.
#[verifier::opaque]
pub open spec fn spec_parse_record(b: Seq<u8>) -> Option<RecordView> {
    match spec_parse_uint(b, 0, TAG_VERSION) {
        None => None,
        Some((version, p1)) => if version > u32::MAX {
            None
        } else {
            match spec_parse_uint(b, p1, TAG_SEQUENCE) {
                None => None,
                Some((seqno, p2)) => match spec_parse_uint(b, p2, TAG_TIMESTAMP) {
                    None => None,
                    Some((ts, p3)) => match spec_parse_uint(b, p3, TAG_CHECKSUM) {
                        None => None,
                        Some((crc, p4)) => if crc > u32::MAX {
                            None
                        } else {
                            let hdr = RecordView {
                                version: version as u32,
                                sequence_number: seqno,
                                timestamp: ts,
                                checksum: crc as u32,
                                command: None,
                            };
                            spec_parse_command(b, p4, hdr)
                        },
                    },
                },
            }
        },
    }
}

/// Parses the command part of a record, starting where the header
/// ended.
pub open spec fn spec_parse_command(b: Seq<u8>, p4: int, hdr: RecordView) -> Option<RecordView> {
    if p4 == b.len() {
        Some(hdr)
    } else if 0 <= p4 < b.len() && b[p4] == TAG_SET {
        match spec_parse_varint(b, p4 + 1) {
            None => None,
            Some((blen, p5)) => {
                if p5 + blen == b.len() {
                    match spec_parse_string(b, p5, TAG_KEY) {
                        None => None,
                        Some((key, q1)) => match spec_parse_string(b, q1, TAG_VALUE) {
                            None => None,
                            Some((value, q2)) => if q2 == b.len() {
                                Some(
                                    RecordView {
                                        command: Some(CommandView::SetCmd { key, value }),
                                        ..hdr
                                    },
                                )
                            } else {
                                None
                            },
                        },
                    }
                } else {
                    None
                }
            },
        }
    } else if 0 <= p4 < b.len() && b[p4] == TAG_REMOVE {
        match spec_parse_varint(b, p4 + 1) {
            None => None,
            Some((blen, p5)) => {
                if p5 + blen == b.len() {
                    match spec_parse_string(b, p5, TAG_KEY) {
                        None => None,
                        Some((key, q1)) => if q1 == b.len() {
                            Some(RecordView { command: Some(CommandView::RemoveCmd { key }), ..hdr })
                        } else {
                            None
                        },
                    }
                } else {
                    None
                }
            },
        }
    } else {
        None
    }
}

/// No 64-bit value needs more than ten varint bytes.
pub proof fn lemma_varint_len_max(x: u64)
    ensures
        spec_varint(x).len() <= 10,
{
    let x1 = x / 0x80;
    let x2 = x1 / 0x80;
    let x3 = x2 / 0x80;
    let x4 = x3 / 0x80;
    let x5 = x4 / 0x80;
    let x6 = x5 / 0x80;
    let x7 = x6 / 0x80;
    let x8 = x7 / 0x80;
    let x9 = x8 / 0x80;
    assert(x9 < 0x80) by (nonlinear_arith)
        requires
            x9 == x / 0x80 / 0x80 / 0x80 / 0x80 / 0x80 / 0x80 / 0x80 / 0x80 / 0x80,
            x <= u64::MAX,
    ;
    assert(spec_varint(x9).len() == 1);
    assert(spec_varint(x8).len() <= 2);
    assert(spec_varint(x7).len() <= 3);
    assert(spec_varint(x6).len() <= 4);
    assert(spec_varint(x5).len() <= 5);
    assert(spec_varint(x4).len() <= 6);
    assert(spec_varint(x3).len() <= 7);
    assert(spec_varint(x2).len() <= 8);
    assert(spec_varint(x1).len() <= 9);
    assert(spec_varint(x).len() <= 10);
}

/// An encoded record is at most a bounded overhead larger than its
/// payload.
pub proof fn lemma_record_encoding_len(r: RecordView)
    ensures
        spec_encode_record(r).len() <= 110 + r.payload().len(),
{
    lemma_varint_len_max(r.version as u64);
    lemma_varint_len_max(r.sequence_number);
    lemma_varint_len_max(r.timestamp);
    lemma_varint_len_max(r.checksum as u64);
    match r.command {
        None => {},
        Some(CommandView::SetCmd { key, value }) => {
            let body = spec_set_body(key, value);
            lemma_varint_len_max(body.len() as u64);
            lemma_varint_len_max(encode_utf8(key).len() as u64);
            lemma_varint_len_max(encode_utf8(value).len() as u64);
        },
        Some(CommandView::RemoveCmd { key }) => {
            let body = spec_remove_body(key);
            lemma_varint_len_max(body.len() as u64);
            lemma_varint_len_max(encode_utf8(key).len() as u64);
        },
    }
}

/// Wherever a varint field sits inside a larger sequence, parsing at
/// its start yields its value and stops right after it.
pub proof fn lemma_parse_uint_encoding(b: Seq<u8>, pos: int, tag: u8, x: u64)
    requires
        0 <= pos,
        pos + spec_encode_uint(tag, x).len() <= b.len(),
        b.subrange(pos, pos + spec_encode_uint(tag, x).len()) == spec_encode_uint(tag, x),
    ensures
        spec_parse_uint(b, pos, tag) == Some((x, pos + spec_encode_uint(tag, x).len())),
{
    let enc = spec_encode_uint(tag, x);
    let vl = spec_varint(x).len() as int;
    lemma_varint_len(x);
    assert(b[pos] == enc[0]);
    assert(b.subrange(pos + 1, pos + 1 + vl) =~= spec_varint(x)) by {
        assert forall|i: int| 0 <= i < vl implies b[pos + 1 + i] == spec_varint(x)[i] by {
            assert(b.subrange(pos, pos + enc.len() as int)[i + 1] == enc[i + 1]);
        }
    }
    lemma_parse_varint_encoding(b, pos + 1, x);
}

/// Wherever a string field sits inside a larger sequence, parsing at
/// its start yields its characters and stops right after it.
pub proof fn lemma_parse_string_encoding(b: Seq<u8>, pos: int, tag: u8, s: Seq<char>)
    requires
        0 <= pos,
        encode_utf8(s).len() <= u64::MAX,
        pos + spec_encode_string(tag, s).len() <= b.len(),
        b.subrange(pos, pos + spec_encode_string(tag, s).len()) == spec_encode_string(tag, s),
    ensures
        spec_parse_string(b, pos, tag) == Some((s, pos + spec_encode_string(tag, s).len())),
{
    broadcast use vstd::utf8::encode_utf8_valid_utf8, vstd::utf8::encode_utf8_decode_utf8;

    let enc = spec_encode_string(tag, s);
    let n = encode_utf8(s).len() as u64;
    let vl = spec_varint(n).len() as int;
    lemma_varint_len(n);
    assert(b[pos] == enc[0]);
    assert(b.subrange(pos + 1, pos + 1 + vl) =~= spec_varint(n)) by {
        assert forall|i: int| 0 <= i < vl implies b[pos + 1 + i] == spec_varint(n)[i] by {
            assert(b.subrange(pos, pos + enc.len() as int)[i + 1] == enc[i + 1]);
        }
    }
    lemma_parse_varint_encoding(b, pos + 1, n);
    let q = pos + 1 + vl;
    assert(b.subrange(q, q + n) =~= encode_utf8(s)) by {
        assert forall|i: int| 0 <= i < n implies b[q + i] == encode_utf8(s)[i] by {
            assert(b.subrange(pos, pos + enc.len() as int)[1 + vl + i] == enc[1 + vl + i]);
        }
    }
}

/// Decoding inverts encoding: parsing the encoding of any record
/// yields that record.
pub proof fn lemma_parse_record_encoding(r: RecordView)
    requires
        r.encodable(),
    ensures
        spec_parse_record(spec_encode_record(r)) == Some(r),
{
    reveal(crate::codec::spec_parse_record);
    let b = spec_encode_record(r);
    let h1 = spec_encode_uint(TAG_VERSION, r.version as u64);
    let h2 = spec_encode_uint(TAG_SEQUENCE, r.sequence_number);
    let h3 = spec_encode_uint(TAG_TIMESTAMP, r.timestamp);
    let h4 = spec_encode_uint(TAG_CHECKSUM, r.checksum as u64);
    let p1 = h1.len() as int;
    let p2 = p1 + h2.len() as int;
    let p3 = p2 + h3.len() as int;
    let p4 = p3 + h4.len() as int;
    assert(b.subrange(0, p1) =~= h1);
    lemma_parse_uint_encoding(b, 0, TAG_VERSION, r.version as u64);
    assert(b.subrange(p1, p2) =~= h2);
    lemma_parse_uint_encoding(b, p1, TAG_SEQUENCE, r.sequence_number);
    assert(b.subrange(p2, p3) =~= h3);
    lemma_parse_uint_encoding(b, p2, TAG_TIMESTAMP, r.timestamp);
    assert(b.subrange(p3, p4) =~= h4);
    lemma_parse_uint_encoding(b, p3, TAG_CHECKSUM, r.checksum as u64);
    let hdr = RecordView {
        version: ((r.version as u64) as u32),
        sequence_number: r.sequence_number,
        timestamp: r.timestamp,
        checksum: ((r.checksum as u64) as u32),
        command: None,
    };
    match r.command {
        None => {
            assert(b.len() == p4);
            assert(hdr == RecordView { command: None, ..r });
        },
        Some(CommandView::SetCmd { key, value }) => {
            let body = spec_set_body(key, value);
            let blen = body.len() as u64;
            let vl = spec_varint(blen).len() as int;
            lemma_varint_len(blen);
            assert(b[p4] == TAG_SET);
            assert(b.subrange(p4 + 1, p4 + 1 + vl) =~= spec_varint(blen)) by {
                assert forall|i: int| 0 <= i < vl implies b[p4 + 1 + i] == spec_varint(blen)[i] by {
                    assert(b[p4 + 1 + i] == (seq![TAG_SET] + spec_varint(blen) + body)[1 + i]);
                }
            }
            lemma_parse_varint_encoding(b, p4 + 1, blen);
            let p5 = p4 + 1 + vl;
            assert(p5 + blen == b.len());
            let ek = spec_encode_string(TAG_KEY, key);
            let ev = spec_encode_string(TAG_VALUE, value);
            assert(encode_utf8(key).len() <= u64::MAX);
            assert(encode_utf8(value).len() <= u64::MAX);
            assert(b.subrange(p5, p5 + ek.len() as int) =~= ek);
            lemma_parse_string_encoding(b, p5, TAG_KEY, key);
            let q1 = p5 + ek.len() as int;
            assert(b.subrange(q1, q1 + ev.len() as int) =~= ev);
            lemma_parse_string_encoding(b, q1, TAG_VALUE, value);
            let q2 = q1 + ev.len() as int;
            assert(q2 == b.len());
            assert(spec_parse_command(b, p4, hdr) == Some(
                RecordView { command: Some(CommandView::SetCmd { key, value }), ..hdr },
            ));
            assert(RecordView { command: Some(CommandView::SetCmd { key, value }), ..hdr } == r);
        },
        Some(CommandView::RemoveCmd { key }) => {
            let body = spec_remove_body(key);
            let blen = body.len() as u64;
            let vl = spec_varint(blen).len() as int;
            lemma_varint_len(blen);
            assert(b[p4] == TAG_REMOVE);
            assert(b.subrange(p4 + 1, p4 + 1 + vl) =~= spec_varint(blen)) by {
                assert forall|i: int| 0 <= i < vl implies b[p4 + 1 + i] == spec_varint(blen)[i] by {
                    assert(b[p4 + 1 + i] == (seq![TAG_REMOVE] + spec_varint(blen) + body)[1 + i]);
                }
            }
            lemma_parse_varint_encoding(b, p4 + 1, blen);
            let p5 = p4 + 1 + vl;
            assert(p5 + blen == b.len());
            let ek = spec_encode_string(TAG_KEY, key);
            assert(encode_utf8(key).len() <= u64::MAX);
            assert(b.subrange(p5, p5 + ek.len() as int) =~= ek);
            lemma_parse_string_encoding(b, p5, TAG_KEY, key);
            let q1 = p5 + ek.len() as int;
            assert(q1 == b.len());
            assert(RecordView { command: Some(CommandView::RemoveCmd { key }), ..hdr } == r);
        },
    }
}

impl Command {
    /// The bytes the checksum covers, in their fixed order.
    pub fn get_fields_for_checksum(&self) -> (r: Vec<u8>)
        ensures
            r@ == spec_payload(self@),
    {
        match self {
            Command::SetCmd { key, value } => {
                let mut fields = key.as_str().as_bytes_vec();
                let value_bytes = value.as_str().as_bytes_vec();
                fields.extend_from_slice(value_bytes.as_slice());
                fields
            },
            Command::RemoveCmd { key } => key.as_str().as_bytes_vec(),
        }
    }

    /// The CRC32 of this command's payload.
    pub fn calculate_checksum(&self) -> (r: u32)
        ensures
            r == crc32_of(spec_payload(self@)),
    {
        let fields = self.get_fields_for_checksum();
        crc32(&fields)
    }
}

impl KvsCommand {
    /// Builds a Set record for `key` and `value`, stamped with
    /// `sequence`, the current wall-clock time and the payload's
    /// checksum.
    pub fn set(key: String, value: String, sequence: u64) -> (r: KvsCommand)
        ensures
            r@.version == CURRENT_SCHEMA_VERSION,
            r@.sequence_number == sequence,
            r@.command == Some(CommandView::SetCmd { key: key@, value: value@ }),
            r@.crc_ok(),
    {
        let command = Command::SetCmd { key, value };
        let checksum = command.calculate_checksum();
        KvsCommand {
            timestamp: now_secs(),
            sequence_number: sequence,
            checksum,
            version: CURRENT_SCHEMA_VERSION as u32,
            command: Some(command),
        }
    }

    /// Builds a Remove record for `key`, stamped like a Set record.
    pub fn remove(key: String, sequence: u64) -> (r: KvsCommand)
        ensures
            r@.version == CURRENT_SCHEMA_VERSION,
            r@.sequence_number == sequence,
            r@.command == Some(CommandView::RemoveCmd { key: key@ }),
            r@.crc_ok(),
    {
        let command = Command::RemoveCmd { key };
        let checksum = command.calculate_checksum();
        KvsCommand {
            timestamp: now_secs(),
            sequence_number: sequence,
            checksum,
            version: CURRENT_SCHEMA_VERSION as u32,
            command: Some(command),
        }
    }

    /// Recomputes the payload checksum and compares it with the stored
    /// one; a record without a command never verifies.
    pub fn verify_checksum(&self) -> (r: bool)
        ensures
            r == self@.crc_ok(),
    {
        match &self.command {
            None => false,
            Some(command) => {
                let calculated = command.calculate_checksum();
                self.checksum == calculated
            },
        }
    }

    /// Encodes this record to bytes.  The second clause records that
    /// any record that exists in memory is small enough to encode.
    pub fn encode_to_vec(&self) -> (r: Vec<u8>)
        ensures
            r@ == spec_encode_record(self@),
            self@.encodable(),
    {
        let mut out: Vec<u8> = Vec::new();
        out.push(TAG_VERSION);
        write_varint(&mut out, self.version as u64);
        out.push(TAG_SEQUENCE);
        write_varint(&mut out, self.sequence_number);
        out.push(TAG_TIMESTAMP);
        write_varint(&mut out, self.timestamp);
        out.push(TAG_CHECKSUM);
        write_varint(&mut out, self.checksum as u64);
        assert(out@ =~= spec_encode_header(self@));
        match &self.command {
            None => {
                assert(out@ =~= spec_encode_record(self@));
            },
            Some(Command::SetCmd { key, value }) => {
                let mut body: Vec<u8> = Vec::new();
                encode_string_field(&mut body, TAG_KEY, key);
                encode_string_field(&mut body, TAG_VALUE, value);
                assert(body@ =~= spec_set_body(key@, value@));
                out.push(TAG_SET);
                write_varint(&mut out, body.len() as u64);
                out.extend_from_slice(body.as_slice());
                assert(out@ =~= spec_encode_record(self@));
            },
            Some(Command::RemoveCmd { key }) => {
                let mut body: Vec<u8> = Vec::new();
                encode_string_field(&mut body, TAG_KEY, key);
                assert(body@ =~= spec_remove_body(key@));
                out.push(TAG_REMOVE);
                write_varint(&mut out, body.len() as u64);
                out.extend_from_slice(body.as_slice());
                assert(out@ =~= spec_encode_record(self@));
            },
        }
        out
    }

    /// Decodes a record from bytes, consuming them exactly.
    pub fn decode(bytes: &Vec<u8>) -> (r: Result<KvsCommand, KvsError>)
        ensures
            match r {
                Ok(c) => spec_parse_record(bytes@) == Some(c@),
                Err(e) => spec_parse_record(bytes@) is None && e is Deserialize,
            },
    {
        proof {
            reveal(crate::codec::spec_parse_record);
        }
        let (version, p1) = match read_uint_field(bytes, 0, TAG_VERSION) {
            Some(p) => p,
            None => {
                return Err(decode_error());
            },
        };
        if version > u32::MAX as u64 {
            return Err(decode_error());
        }
        let (seqno, p2) = match read_uint_field(bytes, p1, TAG_SEQUENCE) {
            Some(p) => p,
            None => {
                return Err(decode_error());
            },
        };
        let (ts, p3) = match read_uint_field(bytes, p2, TAG_TIMESTAMP) {
            Some(p) => p,
            None => {
                return Err(decode_error());
            },
        };
        let (crc, p4) = match read_uint_field(bytes, p3, TAG_CHECKSUM) {
            Some(p) => p,
            None => {
                return Err(decode_error());
            },
        };
        if crc > u32::MAX as u64 {
            return Err(decode_error());
        }
        if p4 == bytes.len() {
            return Ok(
                KvsCommand {
                    version: version as u32,
                    sequence_number: seqno,
                    timestamp: ts,
                    checksum: crc as u32,
                    command: None,
                },
            );
        }
        let tag = bytes[p4];
        if tag == TAG_SET {
            let (blen, p5) = match read_varint(bytes, p4 + 1) {
                Some(p) => p,
                None => {
                    return Err(decode_error());
                },
            };
            if blen != (bytes.len() - p5) as u64 {
                return Err(decode_error());
            }
            let (key, q1) = match read_string_field(bytes, p5, TAG_KEY) {
                Some(p) => p,
                None => {
                    return Err(decode_error());
                },
            };
            let (value, q2) = match read_string_field(bytes, q1, TAG_VALUE) {
                Some(p) => p,
                None => {
                    return Err(decode_error());
                },
            };
            if q2 != bytes.len() {
                return Err(decode_error());
            }
            Ok(
                KvsCommand {
                    version: version as u32,
                    sequence_number: seqno,
                    timestamp: ts,
                    checksum: crc as u32,
                    command: Some(Command::SetCmd { key, value }),
                },
            )
        } else if tag == TAG_REMOVE {
            let (blen, p5) = match read_varint(bytes, p4 + 1) {
                Some(p) => p,
                None => {
                    return Err(decode_error());
                },
            };
            if blen != (bytes.len() - p5) as u64 {
                return Err(decode_error());
            }
            let (key, q1) = match read_string_field(bytes, p5, TAG_KEY) {
                Some(p) => p,
                None => {
                    return Err(decode_error());
                },
            };
            if q1 != bytes.len() {
                return Err(decode_error());
            }
            Ok(
                KvsCommand {
                    version: version as u32,
                    sequence_number: seqno,
                    timestamp: ts,
                    checksum: crc as u32,
                    command: Some(Command::RemoveCmd { key }),
                },
            )
        } else {
            Err(decode_error())
        }
    }
}

/// The structural-decoding error every malformed record maps to.
fn decode_error() -> (e: KvsError)
    ensures
        e is Deserialize,
{
    KvsError::Deserialize(String::from_str("malformed record"))
}

/// Appends a string field to `out`: tag, byte length, UTF-8 bytes.
pub(crate) fn encode_string_field(out: &mut Vec<u8>, tag: u8, s: &String)
    ensures
        final(out)@ == old(out)@ + spec_encode_string(tag, s@),
{
    out.push(tag);
    let bytes = s.as_str().as_bytes_vec();
    write_varint(out, bytes.len() as u64);
    out.extend_from_slice(bytes.as_slice());
    assert(out@ =~= old(out)@ + spec_encode_string(tag, s@));
}

/// Reads a varint field at `pos`, mirroring [`spec_parse_uint`].
fn read_uint_field(b: &Vec<u8>, pos: usize, tag: u8) -> (r: Option<(u64, usize)>)
    ensures
        match r {
            Some(p) => {
                &&& spec_parse_uint(b@, pos as int, tag) == Some((p.0, p.1 as int))
                &&& pos < p.1 <= b@.len()
            },
            None => spec_parse_uint(b@, pos as int, tag) is None,
        },
{
    if pos >= b.len() {
        None
    } else if b[pos] != tag {
        None
    } else {
        read_varint(b, pos + 1)
    }
}

/// Reads a string field at `pos`, mirroring [`spec_parse_string`].
pub(crate) fn read_string_field(b: &Vec<u8>, pos: usize, tag: u8) -> (r: Option<(String, usize)>)
    ensures
        match r {
            Some(p) => {
                &&& spec_parse_string(b@, pos as int, tag) == Some((p.0@, p.1 as int))
                &&& pos < p.1 <= b@.len()
            },
            None => spec_parse_string(b@, pos as int, tag) is None,
        },
{
    if pos >= b.len() {
        return None;
    }
    if b[pos] != tag {
        return None;
    }
    match read_varint(b, pos + 1) {
        None => None,
        Some((n, q)) => {
            if n > (b.len() - q) as u64 {
                None
            } else {
                let end = q + (n as usize);
                let bytes = copy_range(b, q, end);
                match bytes_to_string(bytes) {
                    Some(s) => Some((s, end)),
                    None => None,
                }
            }
        },
    }
}

} // verus!
