use vstd::prelude::*;

use crate::codec::{host_byte_order, native_order, ByteOrder, Scalar};
use crate::error::Error;
use crate::known::{scan, KnownValueSearch};
use crate::region::{select_regions, selector, MemoryRegion, RegionBytes, RegionPolicy};
use crate::unknown::{distinct_addresses, reads_apart, snapshot, UnknownValueSearch};

verus! {

/// The target process: its identifier and the byte order of its scalars.
pub struct Process {
    /// Identifier of the process.
    pub pid: i32,
    /// Byte order of the process's scalars.
    pub order: ByteOrder,
}

impl Process {
    /// The process `pid`, whose scalars are in the byte order of the host.
    pub fn new(pid: i32) -> (r: Self)
        ensures
            r.pid == pid,
            r.order == native_order(),
    {
        Process { pid, order: host_byte_order() }
    }

    /// Starts a search for `value` over `reads`, the policy-selected regions
    /// as read just now: every aligned slot that holds `value` is a candidate.
    pub fn search_known_value<T: Scalar>(&self, value: T, reads: &[RegionBytes]) -> (r: KnownValueSearch<T>)
        ensures
            r.candidates() == scan::<T>(reads@, value.value(), self.order),
            r.expected() == value,
            r.order() == self.order,
    {
        KnownValueSearch::start(reads, value, self.order)
    }

    /// Starts a search for an unknown value over `reads`, every readable
    /// region as read just now: every aligned slot is kept with its value.
    pub fn search_unknown_value<T: Scalar>(&self, reads: &[RegionBytes]) -> (r: UnknownValueSearch<T>)
        ensures
            r.slots() == snapshot::<T>(reads@, self.order),
            r.order() == self.order,
            reads_apart(reads@) ==> distinct_addresses(r.slots()),
    {
        UnknownValueSearch::start(reads, self.order)
    }
}

/// `EPERM`: the caller may not trace the target.
pub const EPERM: i32 = 1;

/// `ENOENT`: no entry under `/proc` for the identifier.
pub const ENOENT: i32 = 2;

/// `ESRCH`: no process has the identifier.
pub const ESRCH: i32 = 3;

/// `EACCES`: the memory file of the target may not be opened.
pub const EACCES: i32 = 13;

/// The Linux backend: reads go through the target's memory file, writes
/// through a scatter write into the target, without attaching to it.
pub struct Linux {
    /// Identifier of the target.
    pub pid: i32,
}

impl Linux {
    /// The backend for process `pid`.
    pub fn new(pid: i32) -> (r: Self)
        ensures
            r.pid == pid,
    {
        Linux { pid }
    }

    /// The mappings a known-value search reads: the readable heap.
    pub fn known_value_regions(&self, maps: &[MemoryRegion]) -> (r: Vec<MemoryRegion>)
        ensures
            r@ == maps@.filter(selector(RegionPolicy::Heap)),
    {
        select_regions(maps, RegionPolicy::Heap)
    }

    /// The mappings an unknown-value search reads: every readable one.
    pub fn unknown_value_regions(&self, maps: &[MemoryRegion]) -> (r: Vec<MemoryRegion>)
        ensures
            r@ == maps@.filter(selector(RegionPolicy::Committed)),
    {
        select_regions(maps, RegionPolicy::Committed)
    }

    /// Classifies an `errno` of a failed attach to the target (opening its
    /// memory file or its entries under `/proc`): no bytes moved, so the
    /// target is gone or access to it is refused.
    pub fn classify_open_errno(errno: i32) -> (r: Error)
        ensures
            r == if errno == ESRCH || errno == ENOENT {
                Error::ProcessGone
            } else {
                Error::AccessDenied
            },
    {
        if errno == ESRCH || errno == ENOENT {
            Error::ProcessGone
        } else {
            Error::AccessDenied
        }
    }

    /// Classifies an `errno` of a read or write of the target.
    pub fn classify_errno(errno: i32) -> (r: Error)
        ensures
            r == if errno == EPERM || errno == EACCES {
                Error::AccessDenied
            } else if errno == ESRCH {
                Error::ProcessGone
            } else {
                Error::PartialTransfer
            },
    {
        if errno == EPERM || errno == EACCES {
            Error::AccessDenied
        } else if errno == ESRCH {
            Error::ProcessGone
        } else {
            Error::PartialTransfer
        }
    }
}

} // verus!
