use vstd::prelude::*;

use crate::error::Error;

verus! {

/// Largest number of bytes a backend asks the operating system for in one
/// read: 100 MiB, which bounds the buffer a large region needs at once.
pub const READ_CHUNK: usize = 100 * 1024 * 1024;

/// Length of chunk `i` when `length` bytes are read `chunk` bytes at a time.
pub open spec fn chunk_len(length: int, chunk: int, i: int) -> int {
    if length - i * chunk < chunk {
        length - i * chunk
    } else {
        chunk
    }
}

/// Whether `c` is chunk `i` of the `length` bytes from `base` read `chunk`
/// bytes at a time.
pub open spec fn is_chunk(c: (usize, usize), base: int, length: int, chunk: int, i: int) -> bool {
    &&& i * chunk < length
    &&& c.0 == base + i * chunk
    &&& c.1 == chunk_len(length, chunk, i)
}

/// Splits the `length` bytes from `base` into consecutive reads of at most
/// `chunk` bytes each: chunk `i` starts `i * chunk` bytes in, and together
/// they cover every byte once.
pub fn read_chunks(base: usize, length: usize, chunk: usize) -> (r: Vec<(usize, usize)>)
    requires
        chunk > 0,
        base + length <= usize::MAX,
    ensures
        r@.len() * chunk >= length,
        forall|i: int|
            0 <= i < r@.len() ==> is_chunk(#[trigger] r@[i], base as int, length as int, chunk as int, i),
{
    let mut out: Vec<(usize, usize)> = Vec::new();
    let mut off: usize = 0;
    assert(0 * chunk == 0) by (nonlinear_arith);
    while off < length
        invariant
            chunk > 0,
            base + length <= usize::MAX,
            off <= length,
            off <= out@.len() * chunk,
            off < length ==> off == out@.len() * chunk,
            forall|i: int|
                0 <= i < out@.len() ==> is_chunk(#[trigger] out@[i], base as int, length as int, chunk as int, i),
        decreases length - off,
    {
        let n = if length - off < chunk {
            length - off
        } else {
            chunk
        };
        let ghost i = out@.len() as int;
        proof {
            assert((i + 1) * chunk == off + chunk) by (nonlinear_arith)
                requires
                    off == i * chunk,
            ;
        }
        let ghost prev = out@;
        out.push((base + off, n));
        assert forall|j: int| 0 <= j < out@.len() implies is_chunk(#[trigger] out@[j], base as int, length as int, chunk as int, j) by {
            if j < i {
                assert(out@[j] == prev[j]);
            } else {
                assert(j == i);
            }
        }
        off = off + n;
    }
    out
}

/// The address at which to ask for the region after the one at `base` of
/// `size` bytes; `None` where the walk must end because the region is empty
/// or reaches the top of the address space. The address strictly grows, so a
/// walk over the address space ends.
pub fn next_region_address(base: usize, size: usize) -> (r: Option<usize>)
    ensures
        r == if size > 0 && base + size <= usize::MAX {
            Some((base + size) as usize)
        } else {
            None::<usize>
        },
        r matches Some(next) ==> next > base,
{
    if size > 0 && size <= usize::MAX - base {
        Some(base + size)
    } else {
        None
    }
}

/// The outcome of a transfer the operating system reported done for
/// `transferred` of `requested` bytes: a short transfer is an error.
pub fn check_transfer(requested: usize, transferred: usize) -> (r: Result<usize, Error>)
    ensures
        r == if transferred == requested {
            Ok::<usize, Error>(requested)
        } else {
            Err(Error::PartialTransfer)
        },
{
    if transferred == requested {
        Ok(requested)
    } else {
        Err(Error::PartialTransfer)
    }
}

/// Windows `ERROR_ACCESS_DENIED`.
pub const WIN_ACCESS_DENIED: u32 = 5;

/// Windows `ERROR_INVALID_PARAMETER`, as opening a process that is gone gives.
pub const WIN_INVALID_PARAMETER: u32 = 87;

/// Windows `ERROR_PARTIAL_COPY`.
pub const WIN_PARTIAL_COPY: u32 = 0x12B;

/// Classifies a Windows error code: access denied, a process that is gone,
/// and any other failure of a transfer.
pub fn windows_error(code: u32) -> (r: Error)
    ensures
        r == if code == WIN_ACCESS_DENIED {
            Error::AccessDenied
        } else if code == WIN_INVALID_PARAMETER {
            Error::ProcessGone
        } else {
            Error::PartialTransfer
        },
{
    if code == WIN_ACCESS_DENIED {
        Error::AccessDenied
    } else if code == WIN_INVALID_PARAMETER {
        Error::ProcessGone
    } else {
        Error::PartialTransfer
    }
}

/// Classifies the Windows error code of a failed `OpenProcess`: no bytes
/// moved, so the target is gone or access to it is refused.
pub fn windows_open_error(code: u32) -> (r: Error)
    ensures
        r == if code == WIN_INVALID_PARAMETER {
            Error::ProcessGone
        } else {
            Error::AccessDenied
        },
{
    if code == WIN_INVALID_PARAMETER {
        Error::ProcessGone
    } else {
        Error::AccessDenied
    }
}

/// Mach `KERN_PROTECTION_FAILURE`.
pub const KERN_PROTECTION_FAILURE: i32 = 2;

/// Mach `KERN_INVALID_ARGUMENT`, as asking for the task of no process gives.
pub const KERN_INVALID_ARGUMENT: i32 = 4;

/// Mach `KERN_FAILURE`, as acquiring a task port under the platform's
/// integrity protection gives.
pub const KERN_FAILURE: i32 = 5;

/// Classifies a Mach kernel return code: a refusal of the task port or of a
/// page, a process that is gone, and any other failure of a transfer.
pub fn mach_error(code: i32) -> (r: Error)
    ensures
        r == if code == KERN_FAILURE || code == KERN_PROTECTION_FAILURE {
            Error::AccessDenied
        } else if code == KERN_INVALID_ARGUMENT {
            Error::ProcessGone
        } else {
            Error::PartialTransfer
        },
{
    if code == KERN_FAILURE || code == KERN_PROTECTION_FAILURE {
        Error::AccessDenied
    } else if code == KERN_INVALID_ARGUMENT {
        Error::ProcessGone
    } else {
        Error::PartialTransfer
    }
}

/// Classifies the Mach kernel return code of a failed acquisition of the
/// target's task port: a process that is gone, else a refusal, as the
/// platform's integrity protection gives.
pub fn mach_attach_error(code: i32) -> (r: Error)
    ensures
        r == if code == KERN_INVALID_ARGUMENT {
            Error::ProcessGone
        } else {
            Error::AccessDenied
        },
{
    if code == KERN_INVALID_ARGUMENT {
        Error::ProcessGone
    } else {
        Error::AccessDenied
    }
}

} // verus!
