//! The log's byte format: each record is a frame of a four-byte little-endian
//! length followed by that many bytes of payload.

use crate::record::{valid_record, IMPORTANCE_ONE, ItemView, MemoryItem, StoreError};
use vstd::bytes::{
    lemma_auto_spec_u32_to_from_le_bytes, spec_u32_from_le_bytes, spec_u32_to_le_bytes,
    u32_from_le_bytes, u32_to_le_bytes,
};
use vstd::prelude::*;
use vstd::slice::slice_subrange;
use vstd::string::*;

verus! {

/// `bincode::ErrorKind`: why the encoder or the decoder gave up. Nothing is
/// said of what it holds.
#[verifier::external_type_specification]
#[verifier::external_body]
pub struct ExErrorKind(bincode::ErrorKind);

/// The payload that the encoder writes for a record, or `None` where it
/// declines to write one.
pub uninterp spec fn encoded_record(item: ItemView) -> Option<Seq<u8>>;

/// The record that the decoder reads from a payload, or `None` where it
/// rejects the bytes.
pub uninterp spec fn decoded_record(bytes: Seq<u8>) -> Option<ItemView>;

/// `bincode::serialize` on the record's fields, taken as a tuple in the order
/// in which the record declares them. The result is a function of the fields
/// alone: the payload on success, the encoder's error otherwise.
#[verifier::external_body]
pub(crate) fn encode_record(item: &MemoryItem) -> (res: Result<Vec<u8>, Box<bincode::ErrorKind>>)
    ensures
        match res {
            Ok(bytes) => encoded_record(item@) == Some(bytes@),
            Err(_) => encoded_record(item@) is None,
        },
{
    bincode::serialize(
        &(
            &item.id,
            &item.user_id,
            &item.session_id,
            &item.content,
            &item.metadata,
            item.timestamp,
            item.ttl_hours,
            item.importance,
        ),
    )
}

/// `bincode::deserialize` to the tuple of a record's fields, which are then
/// moved into a record. The result is a function of the bytes alone: the
/// record on success, the decoder's error otherwise.
#[verifier::external_body]
pub(crate) fn decode_record(bytes: &[u8]) -> (res: Result<MemoryItem, Box<bincode::ErrorKind>>)
    ensures
        match res {
            Ok(item) => decoded_record(bytes@) == Some(item@),
            Err(_) => decoded_record(bytes@) is None,
        },
{
    let (id, user_id, session_id, content, metadata, timestamp, ttl_hours, importance) =
        bincode::deserialize(bytes)?;
    Ok(MemoryItem { id, user_id, session_id, content, metadata, timestamp, ttl_hours, importance })
}

/// Bytes that a frame spends on its length.
pub const PREFIX_LEN: usize = 4;

/// The payload length that the frame at `at` announces.
pub open spec fn frame_len(log: Seq<u8>, at: int) -> int {
    spec_u32_from_le_bytes(log.subrange(at, at + 4)) as int
}

/// True when a whole frame starts at `at`: its length prefix and the payload
/// it announces lie inside the log.
pub open spec fn frame_fits(log: Seq<u8>, at: int) -> bool {
    &&& 0 <= at
    &&& at + 4 <= log.len()
    &&& at + 4 + frame_len(log, at) <= log.len()
}

/// The payload of the frame at `at`.
pub open spec fn frame_payload(log: Seq<u8>, at: int) -> Seq<u8> {
    log.subrange(at + 4, at + 4 + frame_len(log, at))
}

/// The place just behind the frame at `at`, where the next frame starts.
pub open spec fn frame_end(log: Seq<u8>, at: int) -> int {
    at + 4 + frame_len(log, at)
}

/// The frame that carries `payload`.
pub open spec fn frame_of(payload: Seq<u8>) -> Seq<u8> {
    spec_u32_to_le_bytes(payload.len() as u32) + payload
}

/// The record stored at `at`: there is one when a whole frame starts there and
/// its payload decodes to a valid record.
pub open spec fn record_at(log: Seq<u8>, at: int) -> Option<ItemView> {
    if frame_fits(log, at) {
        match decoded_record(frame_payload(log, at)) {
            Some(item) => if valid_record(item) {
                Some(item)
            } else {
                None
            },
            None => None,
        }
    } else {
        None
    }
}

/// True when a record can be appended to a log of `log_len` bytes and found
/// again: the encoder accepts it, the decoder reads the same record back, and
/// the frame's length and end fit the machine's integers.
pub open spec fn storable(item: ItemView, log_len: int) -> bool {
    match encoded_record(item) {
        Some(bytes) => {
            &&& decoded_record(bytes) == Some(item)
            &&& bytes.len() <= u32::MAX
            &&& log_len + 4 + bytes.len() <= usize::MAX
        },
        None => false,
    }
}

/// Appending bytes to a log leaves its whole frames as they were.
pub proof fn lemma_append_keeps_frame(log: Seq<u8>, extra: Seq<u8>, at: int)
    requires
        frame_fits(log, at),
    ensures
        frame_fits(log + extra, at),
        frame_len(log + extra, at) == frame_len(log, at),
        frame_payload(log + extra, at) == frame_payload(log, at),
        record_at(log + extra, at) == record_at(log, at),
{
    let grown = log + extra;
    assert(grown.subrange(at, at + 4) =~= log.subrange(at, at + 4));
    assert(grown.subrange(at + 4, at + 4 + frame_len(log, at)) =~= log.subrange(
        at + 4,
        at + 4 + frame_len(log, at),
    ));
}

/// A frame appended to a log starts at the log's old end and carries its
/// payload.
pub proof fn lemma_frame_at_end(log: Seq<u8>, payload: Seq<u8>)
    requires
        payload.len() <= u32::MAX,
    ensures
        frame_of(payload).len() == 4 + payload.len(),
        frame_fits(log + frame_of(payload), log.len() as int),
        frame_len(log + frame_of(payload), log.len() as int) == payload.len(),
        frame_payload(log + frame_of(payload), log.len() as int) == payload,
        frame_end(log + frame_of(payload), log.len() as int) == log.len() + 4 + payload.len(),
{
    lemma_auto_spec_u32_to_from_le_bytes();
    let prefix = spec_u32_to_le_bytes(payload.len() as u32);
    let grown = log + frame_of(payload);
    let at = log.len() as int;
    assert(prefix.len() == 4);
    assert(grown.subrange(at, at + 4) =~= prefix);
    assert(grown.subrange(at + 4, at + 4 + payload.len()) =~= payload);
}

/// A whole frame copied behind other bytes is the same frame at its new place.
pub proof fn lemma_frame_copied(log: Seq<u8>, at: int, base: Seq<u8>)
    requires
        frame_fits(log, at),
    ensures
        frame_fits(base + log.subrange(at, frame_end(log, at)), base.len() as int),
        frame_len(base + log.subrange(at, frame_end(log, at)), base.len() as int) == frame_len(
            log,
            at,
        ),
        frame_payload(base + log.subrange(at, frame_end(log, at)), base.len() as int)
            == frame_payload(log, at),
        record_at(base + log.subrange(at, frame_end(log, at)), base.len() as int) == record_at(
            log,
            at,
        ),
{
    let frame = log.subrange(at, frame_end(log, at));
    let moved = base + frame;
    let to = base.len() as int;
    assert(moved.subrange(to, to + 4) =~= log.subrange(at, at + 4));
    assert(moved.subrange(to + 4, to + 4 + frame_len(log, at)) =~= log.subrange(
        at + 4,
        at + 4 + frame_len(log, at),
    ));
}

/// Builds the frame that carries `payload`. There is none for a payload whose
/// length does not fit the frame's four-byte prefix.
pub fn frame_bytes(payload: &Vec<u8>) -> (frame: Option<Vec<u8>>)
    ensures
        match frame {
            Some(bytes) => payload.len() <= u32::MAX && bytes@ == frame_of(payload@),
            None => payload.len() > u32::MAX,
        },
{
    if payload.len() as u64 > u32::MAX as u64 {
        return None;
    }
    let mut frame = u32_to_le_bytes(payload.len() as u32);
    frame.extend_from_slice(payload.as_slice());
    Some(frame)
}

/// Finds the payload of the frame at `at`: its first and last-plus-one
/// positions in the log, or `None` when no whole frame starts there.
pub fn frame_bounds(log: &[u8], at: usize) -> (bounds: Option<(usize, usize)>)
    ensures
        match bounds {
            Some((from, to)) => {
                &&& frame_fits(log@, at as int)
                &&& from == at + 4
                &&& to == frame_end(log@, at as int)
                &&& log@.subrange(from as int, to as int) == frame_payload(log@, at as int)
            },
            None => !frame_fits(log@, at as int),
        },
{
    if log.len() < PREFIX_LEN || at > log.len() - PREFIX_LEN {
        return None;
    }
    let from = at + PREFIX_LEN;
    let len = u32_from_le_bytes(slice_subrange(log, at, from));
    let room = log.len() - from;
    if len as usize as u32 != len || (len as usize) > room {
        return None;
    }
    Some((from, from + len as usize))
}

/// Reads the record stored at `at`.
pub fn read_record(log: &[u8], at: usize) -> (res: Result<MemoryItem, StoreError>)
    ensures
        match res {
            Ok(item) => record_at(log@, at as int) == Some(item@),
            Err(e) => e == StoreError::CorruptRecord && record_at(log@, at as int) is None,
        },
{
    match frame_bounds(log, at) {
        None => Err(StoreError::CorruptRecord),
        Some((from, to)) => {
            match decode_record(slice_subrange(log, from, to)) {
                Err(_) => Err(StoreError::CorruptRecord),
                Ok(item) => {
                    if item.user_id.as_str().is_empty() || item.importance < 0 || item.importance
                        > IMPORTANCE_ONE {
                        Err(StoreError::CorruptRecord)
                    } else {
                        Ok(item)
                    }
                },
            }
        },
    }
}

} // verus!
