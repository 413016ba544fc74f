//! The delta codec: one signed integer is decoded from the front of the
//! byte stream as base64 VLQ digits, and added to a running 32-bit total.
//!
//! The codec itself is a leaf dependency: what `vlq::decode` returns is a
//! function of the digits at the front of the stream, so it is given a name
//! (`vlq_decoded`) and the accumulation step is specified and verified over
//! that name.

use vstd::prelude::*;

use crate::Error;

verus! {

/// The mathematical outcome of decoding one base64 VLQ value from the
/// front of a byte sequence: either the decoded value together with the
/// number of bytes its digits occupy, or the error the stream produces.
pub enum VlqOutcome {
    /// Decoding succeeds: the first `len` bytes encode `value`.
    Value { value: i64, len: nat },
    /// The sequence ends before the final digit of the value.
    UnexpectedEof,
    /// A byte is not a base64 digit.
    InvalidBase64,
    /// The encoded number does not fit in a signed 64-bit value.
    Overflow,
}

/// What `vlq::decode` returns on the byte sequence `s`: the outcome
/// depends only on the digits at the front of the stream.
pub uninterp spec fn vlq_decoded(s: Seq<u8>) -> VlqOutcome;

/// Relies on `vlq::decode`: it reads base64 VLQ digits from the front of
/// `input[pos..]` up to the first digit without the continuation bit and
/// returns the decoded signed value, consuming at least one byte on
/// success, or reports end of input, an invalid digit, or 64-bit overflow.
/// On success the second component of the result is the number of bytes
/// left after the digits that were read.
#[verifier::external_body]
fn decode_vlq(input: &[u8], pos: usize) -> (r: Result<(i64, usize), Error>)
    requires
        pos <= input@.len(),
    ensures
        match vlq_decoded(input@.skip(pos as int)) {
            VlqOutcome::Value { value, len } => {
                &&& 1 <= len <= input@.len() - pos
                &&& r == Ok::<(i64, usize), Error>(
                    (value, (input@.len() - pos - len) as usize),
                )
            },
            VlqOutcome::UnexpectedEof => r == Err::<(i64, usize), Error>(
                Error::VlqUnexpectedEof,
            ),
            VlqOutcome::InvalidBase64 => r == Err::<(i64, usize), Error>(
                Error::VlqInvalidBase64,
            ),
            VlqOutcome::Overflow => r == Err::<(i64, usize), Error>(Error::VlqOverflow),
        },
{
    let mut digits = input[pos..].iter().cloned();
    match vlq::decode(&mut digits) {
        Ok(value) => Ok((value, digits.len())),
        Err(vlq::Error::UnexpectedEof) => Err(Error::VlqUnexpectedEof),
        Err(vlq::Error::InvalidBase64(_)) => Err(Error::VlqInvalidBase64),
        Err(vlq::Error::Overflow) => Err(Error::VlqOverflow),
    }
}

/// The position after a decode at `pos` that reads `len` bytes, kept
/// strictly past `pos` and no further than the end of the input so that
/// the parsing model always advances.
pub open spec fn advance(input_len: int, pos: int, len: int) -> int {
    let step = if len < 1 {
        1
    } else {
        len
    };
    if pos + step > input_len {
        input_len
    } else {
        pos + step
    }
}

/// The accumulation rule on plain values: the new total is the previous
/// total plus the decoded delta, and it must stay inside the unsigned
/// 32-bit range.
pub open spec fn spec_accumulate(prev: u32, delta: i64) -> Result<u32, Error> {
    let total = prev + delta;
    if total > u32::MAX {
        Err(Error::UnexpectedlyBigNumber)
    } else if total < 0 {
        Err(Error::UnexpectedNegativeNumber)
    } else {
        Ok(total as u32)
    }
}

/// Add one decoded delta to a running total, failing exactly when the new
/// total would leave the unsigned 32-bit range: too big when it exceeds
/// the 32-bit maximum, negative when it falls below zero.
pub fn accumulate_delta(previous: u32, delta: i64) -> (r: Result<u32, Error>)
    ensures
        r == spec_accumulate(previous, delta),
{
    let total: i128 = (previous as i128) + (delta as i128);
    if total > u32::MAX as i128 {
        Err(Error::UnexpectedlyBigNumber)
    } else if total < 0 {
        Err(Error::UnexpectedNegativeNumber)
    } else {
        Ok(total as u32)
    }
}

/// One step of relative decoding in the model: decode a VLQ at `pos`, add
/// it to the running total `prev`, and fail exactly when the new total
/// leaves the unsigned 32-bit range. On success the new total and the
/// position after the digits are returned.
pub open spec fn spec_read_rel(input: Seq<u8>, pos: int, prev: u32) -> Result<(u32, int), Error> {
    match vlq_decoded(input.skip(pos)) {
        VlqOutcome::Value { value, len } => match spec_accumulate(prev, value) {
            Ok(total) => Ok((total, advance(input.len() as int, pos, len as int))),
            Err(e) => Err(e),
        },
        VlqOutcome::UnexpectedEof => Err(Error::VlqUnexpectedEof),
        VlqOutcome::InvalidBase64 => Err(Error::VlqInvalidBase64),
        VlqOutcome::Overflow => Err(Error::VlqOverflow),
    }
}

/// Decode one VLQ delta at `pos` and add it to the running total
/// `previous`, exactly as `spec_read_rel` describes; on success the new
/// position is returned and the total updated in place.
pub fn read_relative_vlq(previous: &mut u32, input: &[u8], pos: usize) -> (r: Result<usize, Error>)
    requires
        pos <= input@.len(),
    ensures
        match spec_read_rel(input@, pos as int, *old(previous)) {
            Ok(step) => {
                &&& r matches Ok(n) && n == step.1
                &&& *final(previous) == step.0
                &&& pos < step.1 <= input@.len()
            },
            Err(e) => r == Err::<usize, Error>(e) && *final(previous) == *old(previous),
        },
{
    match decode_vlq(input, pos) {
        Ok((value, remaining)) => {
            let new_pos = input.len() - remaining;
            match accumulate_delta(*previous, value) {
                Ok(total) => {
                    *previous = total;
                    Ok(new_pos)
                },
                Err(e) => Err(e),
            }
        },
        Err(e) => Err(e),
    }
}

} // verus!
