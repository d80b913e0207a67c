//! The on-disk record format.
//!
//! A segment file is a run of frames. A frame is a big-endian `u32` body
//! length followed by the body:
//!
//! ```text
//! magic u32 | offset u64 | timestamp millis u128 | has_key u8 | key length u32 |
//! key bytes (when has_key is 1) | payload length u32 | payload bytes
//! ```
//!
//! Topic and partition are not stored: the reader supplies them.
use vstd::prelude::*;

use crate::bytes::{
    lemma_be128_roundtrip, lemma_be32_roundtrip, lemma_be64_roundtrip,
    be128, be32, be64, copy_range, from_be128, from_be32, from_be64, get_be128, get_be32, get_be64,
    push_all, write_be128, write_be32, write_be64,
};
use crate::model::{
    key_view, Offset, PartitionId, Record, RecordKey, RecordPayload, RecordView, StorageError,
    TopicName,
};
use crate::text::string_from_str;

verus! {

pub const RECORD_MAGIC: u32 = 0x4553_5231;

pub const HEADER_LENGTH_BYTES: usize = 4;

/// The ways encoding or decoding a record can fail.
#[derive(Clone, Copy, PartialEq, Eq, Structural, Debug)]
pub enum CodecFault {
    KeyTooLarge,
    PayloadTooLarge,
    FrameTooLarge,
    FrameLengthOverflow,
    FrameExceedsSegment,
    UnexpectedEnd,
    OffsetOverflow,
    ByteLengthOverflow,
    BadMagic,
    TimestampTooLarge,
}

/// The message of the storage error that reports each fault.
pub open spec fn fault_message(f: CodecFault) -> Seq<char> {
    match f {
        CodecFault::KeyTooLarge =>
            "record key is too large to encode: out of range integral type conversion attempted"@,
        CodecFault::PayloadTooLarge =>
            "record payload is too large to encode: out of range integral type conversion attempted"@,
        CodecFault::FrameTooLarge =>
            "record frame is too large to encode: out of range integral type conversion attempted"@,
        CodecFault::FrameLengthOverflow => "Record frame length overflow"@,
        CodecFault::FrameExceedsSegment => "Record frame exceeds segment length"@,
        CodecFault::UnexpectedEnd => "Unexpected end of record"@,
        CodecFault::OffsetOverflow => "Record offset overflow"@,
        CodecFault::ByteLengthOverflow => "Record byte length overflow"@,
        CodecFault::BadMagic => "Invalid record magic number"@,
        CodecFault::TimestampTooLarge =>
            "Timestamp is too large: out of range integral type conversion attempted"@,
    }
}

impl CodecFault {
    pub fn message(&self) -> (s: &'static str)
        ensures
            s@ == fault_message(*self),
    {
        match self {
            CodecFault::KeyTooLarge =>
                "record key is too large to encode: out of range integral type conversion attempted",
            CodecFault::PayloadTooLarge =>
                "record payload is too large to encode: out of range integral type conversion attempted",
            CodecFault::FrameTooLarge =>
                "record frame is too large to encode: out of range integral type conversion attempted",
            CodecFault::FrameLengthOverflow => "Record frame length overflow",
            CodecFault::FrameExceedsSegment => "Record frame exceeds segment length",
            CodecFault::UnexpectedEnd => "Unexpected end of record",
            CodecFault::OffsetOverflow => "Record offset overflow",
            CodecFault::ByteLengthOverflow => "Record byte length overflow",
            CodecFault::BadMagic => "Invalid record magic number",
            CodecFault::TimestampTooLarge =>
                "Timestamp is too large: out of range integral type conversion attempted",
        }
    }

    pub fn to_error(&self) -> (e: StorageError)
        ensures
            e.message@ == fault_message(*self),
    {
        StorageError { message: string_from_str(self.message()) }
    }
}

/// The key section of a body: a presence byte, the key length and the key.
pub open spec fn key_section(key: Option<Seq<u8>>) -> Seq<u8> {
    match key {
        Some(k) => seq![1u8] + be32(k.len() as u32) + k,
        None => seq![0u8] + be32(0),
    }
}

/// The body of the frame that stores `r`.
pub open spec fn record_body(r: RecordView) -> Seq<u8> {
    be32(RECORD_MAGIC) + be64(r.offset) + be128(r.timestamp_millis) + key_section(r.key) + be32(
        r.payload.len() as u32,
    ) + r.payload
}

/// The frame that stores `r`: body length, then body.
pub open spec fn record_frame(r: RecordView) -> Seq<u8> {
    be32(record_body(r).len() as u32) + record_body(r)
}

/// Why `r` cannot be encoded, if it cannot: a key, payload or body longer
/// than a `u32` can count, checked in that order.
pub open spec fn encode_fault(r: RecordView) -> Option<CodecFault> {
    if r.key matches Some(k) && k.len() > u32::MAX {
        Some(CodecFault::KeyTooLarge)
    } else if r.payload.len() > u32::MAX {
        Some(CodecFault::PayloadTooLarge)
    } else if record_body(r).len() > u32::MAX {
        Some(CodecFault::FrameTooLarge)
    } else {
        None
    }
}

/// Reading `n` bytes at `pos` of a buffer of `len` bytes: the end position,
/// or the fault (`overflow` when the end does not fit in a `usize`).
pub open spec fn step(len: int, pos: int, n: int, overflow: CodecFault) -> Result<int, CodecFault> {
    if pos + n > usize::MAX {
        Err(overflow)
    } else if pos + n > len {
        Err(CodecFault::UnexpectedEnd)
    } else {
        Ok(pos + n)
    }
}

/// The key of a body whose fixed header has been read: present when the
/// presence byte is 1, with the position after it.
pub open spec fn decode_key(f: Seq<u8>) -> Result<(Option<Seq<u8>>, int), CodecFault> {
    let klen = from_be32(f.subrange(29, 33));
    if f[28] == 1 {
        match step(f.len() as int, 33, klen as int, CodecFault::ByteLengthOverflow) {
            Err(e) => Err(e),
            Ok(end) => Ok((Some(f.subrange(33, end)), end)),
        }
    } else {
        Ok((None, 33))
    }
}

/// What decoding the frame body `f` gives, for the given topic and partition.
#[verifier::opaque]
pub open spec fn decode_body(f: Seq<u8>, topic: Seq<char>, partition_id: u32) -> Result<
    RecordView,
    CodecFault,
> {
    let len = f.len() as int;
    if let Err(e) = step(len, 0, 4, CodecFault::OffsetOverflow) {
        Err(e)
    } else if from_be32(f.subrange(0, 4)) != RECORD_MAGIC {
        Err(CodecFault::BadMagic)
    } else if let Err(e) = step(len, 4, 8, CodecFault::OffsetOverflow) {
        Err(e)
    } else if let Err(e) = step(len, 12, 16, CodecFault::OffsetOverflow) {
        Err(e)
    } else if from_be128(f.subrange(12, 28)) > u64::MAX {
        Err(CodecFault::TimestampTooLarge)
    } else if 28 >= len {
        Err(CodecFault::UnexpectedEnd)
    } else if let Err(e) = step(len, 29, 4, CodecFault::OffsetOverflow) {
        Err(e)
    } else {
        match decode_key(f) {
            Err(e) => Err(e),
            Ok((key, p)) => match step(len, p, 4, CodecFault::OffsetOverflow) {
                Err(e) => Err(e),
                Ok(q) => {
                    let plen = from_be32(f.subrange(p, q));
                    match step(len, q, plen as int, CodecFault::ByteLengthOverflow) {
                        Err(e) => Err(e),
                        Ok(end) => Ok(
                            RecordView {
                                topic,
                                partition_id,
                                offset: from_be64(f.subrange(4, 12)),
                                key,
                                payload: f.subrange(q, end),
                                timestamp_millis: from_be128(f.subrange(12, 28)),
                            },
                        ),
                    }
                },
            },
        }
    }
}

/// What decoding the frames of `b` from position `pos` on gives: the records
/// in order, or the first fault met.
pub open spec fn decode_from(b: Seq<u8>, pos: int, topic: Seq<char>, partition_id: u32) -> Result<
    Seq<RecordView>,
    CodecFault,
>
    decreases b.len() - pos,
{
    if pos < 0 || pos >= b.len() {
        Ok(Seq::empty())
    } else {
        match step(b.len() as int, pos, 4, CodecFault::OffsetOverflow) {
            Err(e) => Err(e),
            Ok(p) => {
                let end = p + from_be32(b.subrange(pos, p));
                if end > usize::MAX {
                    Err(CodecFault::FrameLengthOverflow)
                } else if end > b.len() {
                    Err(CodecFault::FrameExceedsSegment)
                } else {
                    match decode_body(b.subrange(p, end), topic, partition_id) {
                        Err(e) => Err(e),
                        Ok(r) => match decode_from(b, end, topic, partition_id) {
                            Err(e) => Err(e),
                            Ok(rs) => Ok(seq![r] + rs),
                        },
                    }
                }
            },
        }
    }
}

/// What decoding all of `b` gives.
pub open spec fn decode_all_spec(b: Seq<u8>, topic: Seq<char>, partition_id: u32) -> Result<
    Seq<RecordView>,
    CodecFault,
> {
    decode_from(b, 0, topic, partition_id)
}

/// The abstract contents of a vector of records.
pub open spec fn record_views(rs: Seq<Record>) -> Seq<RecordView> {
    rs.map_values(|r: Record| r@)
}

/// Encodes and decodes records of partition logs.
pub struct RecordCodec;

impl RecordCodec {
    /// The frame that stores `record`, or the error when a length does not
    /// fit in a `u32`.
    pub fn encode(record: &Record) -> (r: Result<Vec<u8>, StorageError>)
        ensures
            encode_fault(record@) is None <==> r is Ok,
            r matches Ok(bytes) ==> bytes@ == record_frame(record@),
            r matches Err(e) ==> e.message@ == fault_message(encode_fault(record@)->0),
    {
        let mut body: Vec<u8> = Vec::new();
        Self::write_u32(&mut body, RECORD_MAGIC);
        Self::write_u64(&mut body, record.offset.value);
        Self::write_u128(&mut body, record.timestamp_millis);
        match &record.key {
            Some(key) => {
                body.push(1);
                let klen = match Self::usize_to_u32(key.bytes.len(), CodecFault::KeyTooLarge) {
                    Ok(v) => v,
                    Err(e) => return Err(e),
                };
                Self::write_u32(&mut body, klen);
                push_all(&mut body, key.bytes.as_slice());
            },
            None => {
                body.push(0);
                Self::write_u32(&mut body, 0);
            },
        }
        let plen = match Self::usize_to_u32(
            record.payload.bytes.len(),
            CodecFault::PayloadTooLarge,
        ) {
            Ok(v) => v,
            Err(e) => return Err(e),
        };
        Self::write_u32(&mut body, plen);
        push_all(&mut body, record.payload.bytes.as_slice());
        assert(body@ =~= record_body(record@));
        let blen = match Self::usize_to_u32(body.len(), CodecFault::FrameTooLarge) {
            Ok(v) => v,
            Err(e) => return Err(e),
        };
        let mut frame: Vec<u8> = Vec::new();
        Self::write_u32(&mut frame, blen);
        push_all(&mut frame, body.as_slice());
        assert(frame@ =~= record_frame(record@));
        Ok(frame)
    }

    /// The records stored in `bytes`, given their topic and partition, or
    /// the error of the first frame that cannot be read.
    pub fn decode_all(bytes: &[u8], topic: &TopicName, partition_id: PartitionId) -> (r: Result<
        Vec<Record>,
        StorageError,
    >)
        ensures
            r matches Ok(records) ==> decode_all_spec(bytes@, topic@, partition_id.value) == Ok::<
                Seq<RecordView>,
                CodecFault,
            >(record_views(records@)),
            r matches Err(e) ==> decode_all_spec(bytes@, topic@, partition_id.value) matches Err(
                f,
            ) && e.message@ == fault_message(f),
    {
        let mut position: usize = 0;
        let mut records: Vec<Record> = Vec::new();
        let len = bytes.len();
        while position < len
            invariant
                len == bytes@.len(),
                position <= len,
                decode_all_spec(bytes@, topic@, partition_id.value) == match decode_from(
                    bytes@,
                    position as int,
                    topic@,
                    partition_id.value,
                ) {
                    Err(e) => Err(e),
                    Ok(rest) => Ok::<Seq<RecordView>, CodecFault>(record_views(records@) + rest),
                },
            decreases len - position,
        {
            let start = position;
            let frame_length = match Self::read_u32(bytes, &mut position) {
                Ok(v) => v as usize,
                Err(e) => return Err(e),
            };
            if position > usize::MAX - frame_length {
                return Err(CodecFault::FrameLengthOverflow.to_error());
            }
            let frame_end = position + frame_length;
            if frame_end > len {
                return Err(CodecFault::FrameExceedsSegment.to_error());
            }
            let frame = vstd::slice::slice_subrange(bytes, position, frame_end);
            let record = match Self::decode_frame(frame, topic, partition_id) {
                Ok(r) => r,
                Err(e) => return Err(e),
            };
            let ghost before = record_views(records@);
            records.push(record);
            proof {
                assert(record_views(records@) =~= before.push(record@));
                let rest = decode_from(bytes@, frame_end as int, topic@, partition_id.value);
                assert(decode_from(bytes@, start as int, topic@, partition_id.value) == match rest {
                    Err(e) => Err(e),
                    Ok(rs) => Ok::<Seq<RecordView>, CodecFault>(seq![record@] + rs),
                });
                if let Ok(rs) = rest {
                    assert(before + (seq![record@] + rs) =~= before.push(record@) + rs);
                }
            }
            position = frame_end;
        }
        assert(record_views(records@) + Seq::<RecordView>::empty() =~= record_views(records@));
        Ok(records)
    }

    /// Decodes one frame body.
    fn decode_frame(frame: &[u8], topic: &TopicName, partition_id: PartitionId) -> (r: Result<
        Record,
        StorageError,
    >)
        ensures
            r matches Ok(rec) ==> decode_body(frame@, topic@, partition_id.value) == Ok::<
                RecordView,
                CodecFault,
            >(rec@),
            r matches Err(e) ==> decode_body(frame@, topic@, partition_id.value) matches Err(f)
                && e.message@ == fault_message(f),
    {
        reveal(decode_body);
        let mut position: usize = 0;
        let magic = match Self::read_u32(frame, &mut position) {
            Ok(v) => v,
            Err(e) => return Err(e),
        };
        if magic != RECORD_MAGIC {
            return Err(CodecFault::BadMagic.to_error());
        }
        let offset = match Self::read_u64(frame, &mut position) {
            Ok(v) => Offset::new(v),
            Err(e) => return Err(e),
        };
        let millis = match Self::read_u128(frame, &mut position) {
            Ok(v) => v,
            Err(e) => return Err(e),
        };
        let timestamp = match Self::timestamp_from_millis(millis) {
            Ok(v) => v,
            Err(e) => return Err(e),
        };
        let has_key = match Self::read_u8(frame, &mut position) {
            Ok(v) => v,
            Err(e) => return Err(e),
        };
        let key_length = match Self::read_u32(frame, &mut position) {
            Ok(v) => v as usize,
            Err(e) => return Err(e),
        };
        let key = if has_key == 1 {
            match Self::read_bytes(frame, &mut position, key_length) {
                Ok(b) => Some(RecordKey::new(b)),
                Err(e) => return Err(e),
            }
        } else {
            None
        };
        let ghost p = position;
        let payload_length = match Self::read_u32(frame, &mut position) {
            Ok(v) => v as usize,
            Err(e) => return Err(e),
        };
        let payload = match Self::read_bytes(frame, &mut position, payload_length) {
            Ok(b) => RecordPayload::new(b),
            Err(e) => return Err(e),
        };
        let rec = Record::new(topic.duplicate(), partition_id, offset, key, payload, timestamp);
        Ok(rec)
    }

    /// The timestamp, which must fit in a `u64` number of milliseconds.
    fn timestamp_from_millis(value: u128) -> (r: Result<u128, StorageError>)
        ensures
            r is Ok <==> value <= u64::MAX,
            r matches Ok(v) ==> v == value,
            r matches Err(e) ==> e.message@ == fault_message(CodecFault::TimestampTooLarge),
    {
        if value > u64::MAX as u128 {
            Err(CodecFault::TimestampTooLarge.to_error())
        } else {
            Ok(value)
        }
    }

    fn usize_to_u32(value: usize, fault: CodecFault) -> (r: Result<u32, StorageError>)
        ensures
            r is Ok <==> value <= u32::MAX,
            r matches Ok(v) ==> v == value,
            r matches Err(e) ==> e.message@ == fault_message(fault),
    {
        if value > u32::MAX as usize {
            Err(fault.to_error())
        } else {
            Ok(value as u32)
        }
    }

    pub fn write_u32(buffer: &mut Vec<u8>, value: u32)
        ensures
            final(buffer)@ == old(buffer)@ + be32(value),
    {
        write_be32(buffer, value)
    }

    pub fn write_u64(buffer: &mut Vec<u8>, value: u64)
        ensures
            final(buffer)@ == old(buffer)@ + be64(value),
    {
        write_be64(buffer, value)
    }

    pub fn write_u128(buffer: &mut Vec<u8>, value: u128)
        ensures
            final(buffer)@ == old(buffer)@ + be128(value),
    {
        write_be128(buffer, value)
    }

    fn read_u8(bytes: &[u8], position: &mut usize) -> (r: Result<u8, StorageError>)
        ensures
            r is Ok <==> *old(position) < bytes@.len(),
            r matches Ok(v) ==> v == bytes@[*old(position) as int] && *final(position) == *old(
                position,
            ) + 1,
            r matches Err(e) ==> e.message@ == fault_message(CodecFault::UnexpectedEnd)
                && *final(position) == *old(position),
    {
        if *position >= bytes.len() {
            return Err(CodecFault::UnexpectedEnd.to_error());
        }
        let value = bytes[*position];
        *position = *position + 1;
        Ok(value)
    }

    fn advance(bytes: &[u8], position: usize, n: usize, overflow: CodecFault) -> (r: Result<
        usize,
        StorageError,
    >)
        ensures
            r matches Ok(end) ==> step(bytes@.len() as int, position as int, n as int, overflow)
                == Ok::<int, CodecFault>(end as int),
            r matches Err(e) ==> step(bytes@.len() as int, position as int, n as int, overflow) matches Err(
                f,
            ) && e.message@ == fault_message(f),
    {
        if position > usize::MAX - n {
            return Err(overflow.to_error());
        }
        let end = position + n;
        if end > bytes.len() {
            return Err(CodecFault::UnexpectedEnd.to_error());
        }
        Ok(end)
    }

    pub fn read_u32(bytes: &[u8], position: &mut usize) -> (r: Result<u32, StorageError>)
        ensures
            step(bytes@.len() as int, *old(position) as int, 4, CodecFault::OffsetOverflow) matches Ok(
                end,
            ) ==> r == Ok::<u32, StorageError>(
                from_be32(bytes@.subrange(*old(position) as int, end)),
            ) && *final(position) == end,
            step(bytes@.len() as int, *old(position) as int, 4, CodecFault::OffsetOverflow) matches Err(
                f,
            ) ==> r matches Err(e) && e.message@ == fault_message(f) && *final(position) == *old(
                position,
            ),
    {
        let end = match Self::advance(bytes, *position, 4, CodecFault::OffsetOverflow) {
            Ok(e) => e,
            Err(e) => return Err(e),
        };
        let v = get_be32(bytes, *position);
        *position = end;
        Ok(v)
    }

    pub fn read_u64(bytes: &[u8], position: &mut usize) -> (r: Result<u64, StorageError>)
        ensures
            step(bytes@.len() as int, *old(position) as int, 8, CodecFault::OffsetOverflow) matches Ok(
                end,
            ) ==> r == Ok::<u64, StorageError>(
                from_be64(bytes@.subrange(*old(position) as int, end)),
            ) && *final(position) == end,
            step(bytes@.len() as int, *old(position) as int, 8, CodecFault::OffsetOverflow) matches Err(
                f,
            ) ==> r matches Err(e) && e.message@ == fault_message(f) && *final(position) == *old(
                position,
            ),
    {
        let end = match Self::advance(bytes, *position, 8, CodecFault::OffsetOverflow) {
            Ok(e) => e,
            Err(e) => return Err(e),
        };
        let v = get_be64(bytes, *position);
        *position = end;
        Ok(v)
    }

    pub fn read_u128(bytes: &[u8], position: &mut usize) -> (r: Result<u128, StorageError>)
        ensures
            step(bytes@.len() as int, *old(position) as int, 16, CodecFault::OffsetOverflow) matches Ok(
                end,
            ) ==> r == Ok::<u128, StorageError>(
                from_be128(bytes@.subrange(*old(position) as int, end)),
            ) && *final(position) == end,
            step(bytes@.len() as int, *old(position) as int, 16, CodecFault::OffsetOverflow) matches Err(
                f,
            ) ==> r matches Err(e) && e.message@ == fault_message(f) && *final(position) == *old(
                position,
            ),
    {
        let end = match Self::advance(bytes, *position, 16, CodecFault::OffsetOverflow) {
            Ok(e) => e,
            Err(e) => return Err(e),
        };
        let v = get_be128(bytes, *position);
        *position = end;
        Ok(v)
    }

    fn read_bytes(bytes: &[u8], position: &mut usize, length: usize) -> (r: Result<
        Vec<u8>,
        StorageError,
    >)
        ensures
            step(
                bytes@.len() as int,
                *old(position) as int,
                length as int,
                CodecFault::ByteLengthOverflow,
            ) matches Ok(end) ==> r matches Ok(v) && v@ == bytes@.subrange(
                *old(position) as int,
                end,
            ) && *final(position) == end,
            step(
                bytes@.len() as int,
                *old(position) as int,
                length as int,
                CodecFault::ByteLengthOverflow,
            ) matches Err(f) ==> r matches Err(e) && e.message@ == fault_message(f)
                && *final(position) == *old(position),
    {
        let end = match Self::advance(bytes, *position, length, CodecFault::ByteLengthOverflow) {
            Ok(e) => e,
            Err(e) => return Err(e),
        };
        let value = copy_range(bytes, *position, end);
        *position = end;
        Ok(value)
    }

    /// The length of the prefix that gives each frame's body length.
    pub fn frame_header_length() -> (n: usize)
        ensures
            n == 4,
    {
        HEADER_LENGTH_BYTES
    }
}


/// The body that stores `r` decodes back to `r`.
proof fn lemma_body_decodes(r: RecordView)
    requires
        encode_fault(r) is None,
        r.timestamp_millis <= u64::MAX,
    ensures
        decode_body(record_body(r), r.topic, r.partition_id) == Ok::<RecordView, CodecFault>(r),
{
    reveal(decode_body);
    let f = record_body(r);
    lemma_be32_roundtrip(RECORD_MAGIC);
    lemma_be64_roundtrip(r.offset);
    lemma_be128_roundtrip(r.timestamp_millis);
    lemma_be32_roundtrip(r.payload.len() as u32);
    let ks = key_section(r.key);
    let head = be32(RECORD_MAGIC) + be64(r.offset) + be128(r.timestamp_millis);
    assert(head.len() == 28);
    assert(f =~= head + ks + be32(r.payload.len() as u32) + r.payload);
    assert(f.subrange(0, 4) =~= be32(RECORD_MAGIC));
    assert(f.subrange(4, 12) =~= be64(r.offset));
    assert(f.subrange(12, 28) =~= be128(r.timestamp_millis));
    let p: int = match r.key {
        Some(k) => 33 + k.len() as int,
        None => 33,
    };
    match r.key {
        Some(k) => {
            lemma_be32_roundtrip(k.len() as u32);
            assert(ks =~= seq![1u8] + be32(k.len() as u32) + k);
            assert(f[28] == 1u8);
            assert(f.subrange(29, 33) =~= be32(k.len() as u32));
            assert(f.subrange(33, p) =~= k);
        },
        None => {
            lemma_be32_roundtrip(0);
            assert(f[28] == 0u8);
            assert(f.subrange(29, 33) =~= be32(0));
        },
    }
    assert(decode_key(f) == Ok::<(Option<Seq<u8>>, int), CodecFault>((r.key, p)));
    assert(f.subrange(p, p + 4) =~= be32(r.payload.len() as u32));
    assert(f.subrange(p + 4, p + 4 + r.payload.len()) =~= r.payload);
    assert(f.len() == p + 4 + r.payload.len());
}

/// A stored frame is read back as exactly the record it stores.
pub proof fn law_frame_roundtrip(r: RecordView)
    requires
        encode_fault(r) is None,
        r.timestamp_millis <= u64::MAX,
        record_frame(r).len() <= usize::MAX,
    ensures
        decode_all_spec(record_frame(r), r.topic, r.partition_id) == Ok::<
            Seq<RecordView>,
            CodecFault,
        >(seq![r]),
{
    let body = record_body(r);
    let b = record_frame(r);
    lemma_body_decodes(r);
    lemma_be32_roundtrip(body.len() as u32);
    assert(b.subrange(0, 4) =~= be32(body.len() as u32));
    assert(from_be32(b.subrange(0, 4)) == body.len());
    assert(b.len() == 4 + body.len());
    assert(b.subrange(4, 4 + body.len() as int) =~= body);
    assert(decode_from(b, 4 + body.len() as int, r.topic, r.partition_id) == Ok::<
        Seq<RecordView>,
        CodecFault,
    >(Seq::empty()));
    assert(seq![r] + Seq::<RecordView>::empty() =~= seq![r]);
}

/// Decoding from a position of the second of two buffers gives what decoding
/// that position of their concatenation gives, when the former succeeds.
proof fn lemma_decode_shift(a: Seq<u8>, b: Seq<u8>, q: int, topic: Seq<char>, pid: u32)
    requires
        0 <= q,
        a.len() + b.len() <= usize::MAX,
        decode_from(b, q, topic, pid) is Ok,
    ensures
        decode_from(a + b, a.len() + q, topic, pid) == decode_from(b, q, topic, pid),
    decreases b.len() - q,
{
    let ab = a + b;
    let pos = a.len() + q;
    if q >= b.len() {
    } else {
        let p = q + 4;
        assert(ab.subrange(pos, pos + 4) =~= b.subrange(q, p));
        let end = p + from_be32(b.subrange(q, p));
        assert(ab.subrange(pos + 4, a.len() + end) =~= b.subrange(p, end));
        lemma_decode_shift(a, b, end, topic, pid);
    }
}

/// Decoding a buffer that decodes cleanly, followed by more bytes, gives its
/// records followed by what the rest gives.
proof fn lemma_decode_prefix(a: Seq<u8>, b: Seq<u8>, pos: int, topic: Seq<char>, pid: u32)
    requires
        0 <= pos <= a.len(),
        a.len() + b.len() <= usize::MAX,
        decode_from(a, pos, topic, pid) is Ok,
        decode_from(a + b, a.len() as int, topic, pid) is Ok,
    ensures
        decode_from(a + b, pos, topic, pid) == Ok::<Seq<RecordView>, CodecFault>(
            decode_from(a, pos, topic, pid)->Ok_0 + decode_from(
                a + b,
                a.len() as int,
                topic,
                pid,
            )->Ok_0,
        ),
    decreases a.len() - pos,
{
    let ab = a + b;
    if pos == a.len() {
        assert(Seq::<RecordView>::empty() + decode_from(ab, a.len() as int, topic, pid)->Ok_0
            =~= decode_from(ab, a.len() as int, topic, pid)->Ok_0);
    } else {
        let p = pos + 4;
        assert(ab.subrange(pos, p) =~= a.subrange(pos, p));
        let end = p + from_be32(a.subrange(pos, p));
        assert(ab.subrange(p, end) =~= a.subrange(p, end));
        lemma_decode_prefix(a, b, end, topic, pid);
        let r = decode_body(a.subrange(p, end), topic, pid)->Ok_0;
        let xs = decode_from(a, end, topic, pid)->Ok_0;
        let ys = decode_from(ab, a.len() as int, topic, pid)->Ok_0;
        assert(seq![r] + (xs + ys) =~= (seq![r] + xs) + ys);
    }
}

/// Two buffers that each decode cleanly decode, one after the other, to the
/// records of the first followed by those of the second.
pub proof fn law_decode_concat(a: Seq<u8>, b: Seq<u8>, topic: Seq<char>, partition_id: u32)
    requires
        a.len() + b.len() <= usize::MAX,
        decode_all_spec(a, topic, partition_id) is Ok,
        decode_all_spec(b, topic, partition_id) is Ok,
    ensures
        decode_all_spec(a + b, topic, partition_id) == Ok::<Seq<RecordView>, CodecFault>(
            decode_all_spec(a, topic, partition_id)->Ok_0 + decode_all_spec(
                b,
                topic,
                partition_id,
            )->Ok_0,
        ),
{
    lemma_decode_shift(a, b, 0, topic, partition_id);
    lemma_decode_prefix(a, b, 0, topic, partition_id);
}

/// Appending the frame of a record to a segment that decodes cleanly gives a
/// segment that decodes to the old records followed by that record.
pub proof fn law_append_then_decode(segment: Seq<u8>, r: RecordView)
    requires
        encode_fault(r) is None,
        r.timestamp_millis <= u64::MAX,
        segment.len() + record_frame(r).len() <= usize::MAX,
        decode_all_spec(segment, r.topic, r.partition_id) is Ok,
    ensures
        decode_all_spec(segment + record_frame(r), r.topic, r.partition_id) == Ok::<
            Seq<RecordView>,
            CodecFault,
        >(decode_all_spec(segment, r.topic, r.partition_id)->Ok_0.push(r)),
{
    law_frame_roundtrip(r);
    law_decode_concat(segment, record_frame(r), r.topic, r.partition_id);
    assert(decode_all_spec(segment, r.topic, r.partition_id)->Ok_0 + seq![r]
        =~= decode_all_spec(segment, r.topic, r.partition_id)->Ok_0.push(r));
}

/// Every record decoded from a buffer carries the topic and partition the
/// reader supplied.
pub proof fn lemma_decoded_partition(b: Seq<u8>, pos: int, topic: Seq<char>, partition_id: u32)
    ensures
        decode_from(b, pos, topic, partition_id) matches Ok(rs) ==> forall|i: int|
            0 <= i < rs.len() ==> (#[trigger] rs[i]).topic == topic && rs[i].partition_id == partition_id,
    decreases b.len() - pos,
{
    reveal(decode_body);
    if 0 <= pos < b.len() {
        if let Ok(p) = step(b.len() as int, pos, 4, CodecFault::OffsetOverflow) {
            let end = p + from_be32(b.subrange(pos, p));
            if end <= usize::MAX && end <= b.len() {
                lemma_decoded_partition(b, end, topic, partition_id);
                if let Ok(r) = decode_body(b.subrange(p, end), topic, partition_id) {
                    if let Ok(rs) = decode_from(b, end, topic, partition_id) {
                        let all = seq![r] + rs;
                        assert forall|i: int| 0 <= i < all.len() implies (#[trigger] all[i]).topic == topic
                            && all[i].partition_id == partition_id by {
                            if i > 0 {
                                assert(all[i] == rs[i - 1]);
                            }
                        }
                    }
                }
            }
        }
    }
}

} // verus!
