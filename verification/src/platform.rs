//! What operating systems tell of files, and what follows from it.

use crate::text::{decimal, push_decimal, push_text};
use crate::time::Timestamp;
use vstd::prelude::*;
use vstd::slice::slice_to_vec;
use vstd::string::StringSliceAdditionalSpecFns;

verus! {

/// What matters of a file's metadata.
#[derive(Clone, Copy, Debug, PartialEq, Eq, Structural)]
pub struct FileInfo {
    pub inode: u64,
    pub len: u64,
    pub mtime: Timestamp,
}

/// A Windows `FILETIME`: the number of 100 ns ticks since Jan 1 1601, in two halves.
#[derive(Clone, Copy, Debug, PartialEq, Eq, Structural)]
pub struct FileTime {
    pub high: u32,
    pub low: u32,
}

/// The number of ticks in a second.
pub const TICKS_PER_SEC: u64 = 10_000_000;

/// Number of seconds between the Windows and the Unix epoch.
pub const SECS_TO_UNIX_EPOCH: u64 = 11_644_473_600;

/// The number whose two halves are given.
pub open spec fn joined_halves(high: u32, low: u32) -> int {
    high * 0x1_0000_0000 + low
}

fn join_halves(high: u32, low: u32) -> (r: u64)
    ensures
        r == joined_halves(high, low),
{
    high as u64 * 0x1_0000_0000 + low as u64
}

/// Converts a Windows `FILETIME` to a point in time.
///
/// `FILETIME` is the number of 100 ns ticks since Jan 1 1601.
/// Unix time is the number of seconds since Jan 1 1970.
pub fn filetime_to_systemtime(time: FileTime) -> (r: Timestamp)
    requires
        joined_halves(time.high, time.low) >= SECS_TO_UNIX_EPOCH * TICKS_PER_SEC,
    ensures
        r.secs >= 0,
        r.nanos < 1_000_000_000,
        (r.secs + SECS_TO_UNIX_EPOCH) * TICKS_PER_SEC * 100 + r.nanos == joined_halves(
            time.high,
            time.low,
        ) * 100,
{
    let ticks: u64 = join_halves(time.high, time.low);
    let secs: u64 = ticks / TICKS_PER_SEC - SECS_TO_UNIX_EPOCH;
    let nanos: u32 = (ticks % TICKS_PER_SEC) as u32 * 100;
    Timestamp { secs: secs as i64, nanos }
}

/// What Windows tells of a file, as far as it matters here.
#[derive(Clone, Copy, Debug, PartialEq, Eq, Structural)]
pub struct HandleInfo {
    pub index_high: u32,
    pub index_low: u32,
    pub size_high: u32,
    pub size_low: u32,
    pub last_write: FileTime,
}

/// Puts together what Windows tells of a file in halves.
pub fn file_info(info: HandleInfo) -> (r: FileInfo)
    requires
        joined_halves(info.last_write.high, info.last_write.low) >= SECS_TO_UNIX_EPOCH
            * TICKS_PER_SEC,
    ensures
        r.inode == joined_halves(info.index_high, info.index_low),
        r.len == joined_halves(info.size_high, info.size_low),
        r.mtime.secs >= 0,
        r.mtime.nanos < 1_000_000_000,
        (r.mtime.secs + SECS_TO_UNIX_EPOCH) * TICKS_PER_SEC * 100 + r.mtime.nanos
            == joined_halves(info.last_write.high, info.last_write.low) * 100,
{
    FileInfo {
        inode: join_halves(info.index_high, info.index_low),
        len: join_halves(info.size_high, info.size_low),
        mtime: filetime_to_systemtime(info.last_write),
    }
}

/// Why bytes of a file could not be read.
#[derive(Clone, Copy, Debug, PartialEq, Eq, Structural)]
pub enum ReadError {
    /// The operating system has no number for the position.
    OffsetTooLarge,
    /// The operating system failed.
    Os,
    /// The file ends before the position.
    UnexpectedEof { offset: u64 },
    /// The operating system goes on with the operation, and may still write to the buffer.
    StillPending,
}

/// The text of an error, where it is not the operating system's.
pub open spec fn read_error_text(e: ReadError) -> Option<Seq<u8>> {
    match e {
        ReadError::OffsetTooLarge => Some("offset too large".spec_bytes()),
        ReadError::Os => None,
        ReadError::StillPending => Some(
            "I/O error: operation failed to complete synchronously".spec_bytes(),
        ),
        ReadError::UnexpectedEof { offset } => Some(
            "no bytes beyond position ".spec_bytes() + decimal(offset as nat),
        ),
    }
}

impl ReadError {
    /// Returns the error as text, where it is not the operating system's.
    pub fn message(&self) -> (r: Option<Vec<u8>>)
        ensures
            match r {
                Some(text) => read_error_text(*self) == Some(text@),
                None => read_error_text(*self) is None,
            },
    {
        match *self {
            ReadError::OffsetTooLarge => Some(slice_to_vec("offset too large".as_bytes())),
            ReadError::Os => None,
            ReadError::StillPending => Some(
                slice_to_vec("I/O error: operation failed to complete synchronously".as_bytes()),
            ),
            ReadError::UnexpectedEof { offset } => {
                let mut text: Vec<u8> = Vec::new();
                push_text(&mut text, "no bytes beyond position ");
                push_decimal(&mut text, offset);
                assert(text@ =~= "no bytes beyond position ".spec_bytes() + decimal(
                    offset as nat,
                ));
                Some(text)
            },
        }
    }
}

/// Splits a number into its upper and its lower half.
pub fn split_halves(n: u64) -> (r: (u32, u32))
    ensures
        joined_halves(r.0, r.1) == n,
{
    ((n / 0x1_0000_0000) as u32, (n % 0x1_0000_0000) as u32)
}

/// The number of bytes to ask Windows for: as many as are wanted, or as can be said.
pub fn handle_read_size(chunk_size: usize) -> (r: u32)
    ensures
        r == if chunk_size <= u32::MAX {
            chunk_size as int
        } else {
            u32::MAX as int
        },
{
    if chunk_size <= u32::MAX as usize {
        chunk_size as u32
    } else {
        u32::MAX
    }
}

/// The error code of Windows for the end of a file.
pub const ERROR_HANDLE_EOF: u32 = 38;

/// The error code of Windows for an operation that goes on.
pub const ERROR_IO_PENDING: u32 = 997;

/// Decides what a read at `offset` gave on Windows, which read so many bytes or failed with an
/// error code.
pub fn handle_read_outcome(outcome: Result<u32, u32>, offset: u64) -> (r: Result<usize, ReadError>)
    ensures
        r == match outcome {
            Ok(read) if read > 0 => Ok::<usize, ReadError>(read as usize),
            Err(ERROR_IO_PENDING) => Err::<usize, ReadError>(ReadError::StillPending),
            Err(code) if code != ERROR_HANDLE_EOF => Err::<usize, ReadError>(ReadError::Os),
            _ => Err::<usize, ReadError>(ReadError::UnexpectedEof { offset }),
        },
{
    match outcome {
        Ok(read) => if read > 0 {
            Ok(read as usize)
        } else {
            Err(ReadError::UnexpectedEof { offset })
        },
        Err(code) => if code == ERROR_IO_PENDING {
            Err(ReadError::StillPending)
        } else if code == ERROR_HANDLE_EOF {
            Err(ReadError::UnexpectedEof { offset })
        } else {
            Err(ReadError::Os)
        },
    }
}

/// Checks that the operating system, whose positions go up to `max_offset`, has a number for a
/// position in a file.
pub fn check_offset(offset: u64, max_offset: u64) -> (r: Result<(), ReadError>)
    ensures
        r == if offset <= max_offset {
            Ok::<(), ReadError>(())
        } else {
            Err::<(), ReadError>(ReadError::OffsetTooLarge)
        },
{
    if offset <= max_offset {
        Ok(())
    } else {
        Err(ReadError::OffsetTooLarge)
    }
}

/// Decides what a read at `offset` gave, of which the operating system returned `retval`: the
/// number of bytes, at least 1, or an error. If there are no bytes at `offset`, it is an
/// `UnexpectedEof` error.
pub fn read_outcome(retval: isize, offset: u64) -> (r: Result<usize, ReadError>)
    ensures
        r == if retval < 0 {
            Err::<usize, ReadError>(ReadError::Os)
        } else if retval == 0 {
            Err::<usize, ReadError>(ReadError::UnexpectedEof { offset })
        } else {
            Ok::<usize, ReadError>(retval as usize)
        },
{
    if retval < 0 {
        Err(ReadError::Os)
    } else if retval == 0 {
        Err(ReadError::UnexpectedEof { offset })
    } else {
        Ok(retval as usize)
    }
}

/// Two halves of 32 bits make a number in which the upper one counts 2 to the power of 32 times.
pub proof fn law_joined_halves(high: u32, low: u32)
    ensures
        joined_halves(high, low) == 4_294_967_296 * high + low,
        0 <= joined_halves(high, low) <= u64::MAX,
{
}

/// An error that the operating system does not explain has a text, and only such a one.
pub proof fn law_read_error_text(offset: u64)
    ensures
        read_error_text(ReadError::Os) is None,
        read_error_text((ReadError::UnexpectedEof { offset })) == Some(
            "no bytes beyond position ".spec_bytes() + decimal(offset as nat),
        ),
        read_error_text(ReadError::OffsetTooLarge) == Some("offset too large".spec_bytes()),
        read_error_text(ReadError::StillPending) == Some(
            "I/O error: operation failed to complete synchronously".spec_bytes(),
        ),
{
}

} // verus!
