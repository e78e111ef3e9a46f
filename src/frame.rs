//! Frame decoding: house codes, device address, command byte with an optional
//! extension byte, and a checksum over the bytes before it.

use vstd::prelude::*;

verus! {

/// Fewer bytes than this never form a frame.
pub const MIN_FRAME_BYTES: usize = 6;

/// Added to the byte sum to form the checksum.
pub const CHECKSUM_OFFSET: u64 = 0x0C;

/// Command nibble that sets a valve opening.
pub const CMD_OPEN_TO: u8 = 0x6;

/// Command nibble of a sync command.
pub const CMD_SYNC: u8 = 0xC;

/// A decoded command.
#[derive(Clone, Copy, Debug, PartialEq, Eq, Structural)]
pub enum FHTCommand {
    Sync,
    /// Opening in percent, from 0 to 100.
    OpenTo(u8),
}

/// A decoded frame.
#[derive(Clone, Copy, Debug, PartialEq, Eq, Structural)]
pub struct FHTSignal {
    pub house_code1: u8,
    pub house_code2: u8,
    pub address: u8,
    pub command: FHTCommand,
}

/// Why a byte sequence was not decoded.
#[derive(Clone, Copy, Debug, PartialEq, Eq, Structural)]
pub enum FrameError {
    /// Fewer than `MIN_FRAME_BYTES` bytes.
    TooShort,
    /// The checksum byte does not match the bytes before it.
    BadChecksum,
    /// The checksum matched, but the command nibble is not known; it is carried.
    UnknownCommand(u8),
}

/// The sum of the bytes, as a number.
pub open spec fn sum_bytes(s: Seq<u8>) -> nat
    decreases s.len(),
{
    if s.len() == 0 {
        0
    } else {
        sum_bytes(s.drop_last()) + s.last() as nat
    }
}

/// The checksum of the bytes that precede it.
pub open spec fn checksum_of(s: Seq<u8>) -> u8 {
    ((sum_bytes(s) + CHECKSUM_OFFSET) % 256) as u8
}

/// Bit 5 of the command byte announces an extension byte.
pub open spec fn has_extension(command_byte: u8) -> bool {
    (command_byte >> 5u8) & 1u8 == 1u8
}

/// The frame's length, checksum byte included.
pub open spec fn frame_len(command_byte: u8) -> nat {
    if has_extension(command_byte) {
        6
    } else {
        5
    }
}

/// The frame's last byte is the checksum of the bytes before it.
pub open spec fn checksum_ok(bytes: Seq<u8>) -> bool {
    let n = frame_len(bytes[3]);
    bytes[n - 1] == checksum_of(bytes.take(n - 1))
}

/// An opening in percent from the extension byte, rounded down.
pub open spec fn percent_of(b: u8) -> u8 {
    (b as nat * 100 / 255) as u8
}

/// The command that the command byte and extension byte name, if known.
pub open spec fn command_of(bytes: Seq<u8>) -> Option<FHTCommand> {
    let nibble = bytes[3] & 0xFu8;
    if nibble == CMD_OPEN_TO {
        Some(FHTCommand::OpenTo(percent_of(bytes[4])))
    } else if nibble == CMD_SYNC {
        Some(FHTCommand::Sync)
    } else {
        None
    }
}

/// The outcome of reading `bytes` as a frame.
pub open spec fn frame_result(bytes: Seq<u8>) -> Result<FHTSignal, FrameError> {
    if bytes.len() < MIN_FRAME_BYTES {
        Err(FrameError::TooShort)
    } else if !checksum_ok(bytes) {
        Err(FrameError::BadChecksum)
    } else {
        match command_of(bytes) {
            Some(command) => Ok(
                FHTSignal { house_code1: bytes[0], house_code2: bytes[1], address: bytes[2], command },
            ),
            None => Err(FrameError::UnknownCommand(bytes[3] & 0xFu8)),
        }
    }
}

/// The decoded frame, absent on any failure.
pub open spec fn decoded(bytes: Seq<u8>) -> Option<FHTSignal> {
    match frame_result(bytes) {
        Ok(s) => Some(s),
        Err(_) => None,
    }
}

/// The checksum of the first `n` bytes.
pub fn checksum(bytes: &Vec<u8>, n: usize) -> (r: u8)
    requires
        n <= bytes@.len(),
        n <= 8,
    ensures
        r == checksum_of(bytes@.take(n as int)),
{
    let mut sum: u64 = 0;
    let mut i: usize = 0;
    while i < n
        invariant
            i <= n,
            n <= bytes@.len(),
            n <= 8,
            sum as nat == sum_bytes(bytes@.take(i as int)),
            sum <= 255 * i,
        decreases n - i,
    {
        proof {
            assert(bytes@.take(i + 1).drop_last() =~= bytes@.take(i as int));
        }
        sum = sum + bytes[i] as u64;
        i = i + 1;
    }
    ((sum + CHECKSUM_OFFSET) % 256) as u8
}

/// Reads a byte sequence as a frame, saying why it is not one.
pub fn check_frame(bytes: &Vec<u8>) -> (r: Result<FHTSignal, FrameError>)
    ensures
        r == frame_result(bytes@),
{
    if bytes.len() < MIN_FRAME_BYTES {
        return Err(FrameError::TooShort);
    }
    let command_byte = bytes[3];
    let has_ext = (command_byte >> 5u8) & 1u8 == 1u8;
    let n: usize = if has_ext { 6 } else { 5 };
    if bytes[n - 1] != checksum(bytes, n - 1) {
        return Err(FrameError::BadChecksum);
    }
    let nibble = command_byte & 0xFu8;
    let command = if nibble == CMD_OPEN_TO {
        FHTCommand::OpenTo((bytes[4] as u32 * 100 / 255) as u8)
    } else if nibble == CMD_SYNC {
        FHTCommand::Sync
    } else {
        return Err(FrameError::UnknownCommand(nibble));
    };
    Ok(FHTSignal { house_code1: bytes[0], house_code2: bytes[1], address: bytes[2], command })
}

/// Decodes a byte sequence as a frame; `None` when it is too short, its
/// checksum fails or its command is unknown.
pub fn decode_bytes_as_signal(bytes: Vec<u8>) -> (r: Option<FHTSignal>)
    ensures
        r == decoded(bytes@),
{
    match check_frame(&bytes) {
        Ok(signal) => Some(signal),
        Err(_) => None,
    }
}

} // verus!
