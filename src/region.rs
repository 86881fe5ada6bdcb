use vstd::prelude::*;

use crate::codec::{decode_at, decoded_value, ByteOrder, Scalar};

verus! {

/// A region of the target's address space, as an enumeration reports it.
#[derive(Clone, Copy, Debug, PartialEq, Eq, Structural)]
pub struct MemoryRegion {
    /// First address of the region.
    pub base_address: usize,
    /// Length of the region in bytes.
    pub length: usize,
    /// Whether the target may read the region.
    pub readable: bool,
    /// Whether the target may write the region.
    pub writable: bool,
    /// Whether the region is backed by memory (committed), not only reserved.
    pub committed: bool,
    /// Whether the region is the process heap.
    pub heap: bool,
}

/// Which regions a scan reads.
#[derive(Clone, Copy, Debug, PartialEq, Eq, Structural)]
pub enum RegionPolicy {
    /// Only the readable, committed heap: fast, for values known to live there.
    Heap,
    /// Every readable, committed region.
    Committed,
}

/// Whether `policy` selects region `r`.
pub open spec fn selects(policy: RegionPolicy, r: MemoryRegion) -> bool {
    &&& r.readable
    &&& r.committed
    &&& match policy {
        RegionPolicy::Heap => r.heap,
        RegionPolicy::Committed => true,
    }
}

/// The selection of `policy`, as a predicate.
pub open spec fn selector(policy: RegionPolicy) -> spec_fn(MemoryRegion) -> bool {
    |m: MemoryRegion| selects(policy, m)
}

/// The regions of `regions` that `policy` selects, in their order.
pub fn select_regions(regions: &[MemoryRegion], policy: RegionPolicy) -> (r: Vec<MemoryRegion>)
    ensures
        r@ == regions@.filter(selector(policy)),
{
    let ghost pred = selector(policy);
    let mut out: Vec<MemoryRegion> = Vec::new();
    let mut i: usize = 0;
    while i < regions.len()
        invariant
            i <= regions@.len(),
            pred == selector(policy),
            out@ == regions@.subrange(0, i as int).filter(pred),
        decreases regions@.len() - i,
    {
        let m = regions[i];
        proof {
            assert(regions@.subrange(0, i + 1) =~= regions@.subrange(0, i as int).push(m));
            regions@.subrange(0, i as int).lemma_filter_push(m, pred);
        }
        let keep = m.readable && m.committed && match policy {
            RegionPolicy::Heap => m.heap,
            RegionPolicy::Committed => true,
        };
        assert(keep == selects(policy, m));
        if keep {
            out.push(m);
        }
        i = i + 1;
    }
    assert(regions@.subrange(0, regions@.len() as int) =~= regions@);
    out
}

/// Bytes read from the target: the contents of memory starting at `base_address`.
#[derive(Clone, Debug)]
pub struct RegionBytes {
    /// Address of the first byte read.
    pub base_address: usize,
    /// The bytes read.
    pub bytes: Vec<u8>,
}

/// Whether the bytes of a read lie inside the address space, its last byte
/// below the largest address.
pub open spec fn fits(r: RegionBytes) -> bool {
    r.base_address + r.bytes@.len() <= usize::MAX
}

/// Whether the read `r` holds all `width` bytes that start at `address`.
pub open spec fn covers(r: RegionBytes, address: int, width: nat) -> bool {
    &&& fits(r)
    &&& r.base_address <= address
    &&& address + width <= r.base_address + r.bytes@.len()
}

/// The value of type `T` at `address`, taken from the first read that holds
/// all its bytes; `None` where no read does.
pub open spec fn value_in<T: Scalar>(reads: Seq<RegionBytes>, address: int, order: ByteOrder) -> Option<int>
    decreases reads.len(),
{
    if reads.len() == 0 {
        None
    } else if covers(reads[0], address, T::width()) {
        let off = address - reads[0].base_address;
        Some(decoded_value::<T>(reads[0].bytes@.subrange(off, off + T::width()), order))
    } else {
        value_in::<T>(reads.drop_first(), address, order)
    }
}

/// Whether a read of `reads` holds all bytes of a value of type `T` at `address`.
pub open spec fn some_read_covers<T: Scalar>(reads: Seq<RegionBytes>, address: int) -> bool {
    exists|j: int| 0 <= j < reads.len() && covers(#[trigger] reads[j], address, T::width())
}

/// A value is found at an address exactly where some read holds all its bytes.
pub proof fn lemma_value_in_covered<T: Scalar>(reads: Seq<RegionBytes>, address: int, order: ByteOrder)
    ensures
        value_in::<T>(reads, address, order) is Some <==> some_read_covers::<T>(reads, address),
    decreases reads.len(),
{
    if reads.len() > 0 {
        lemma_value_in_covered::<T>(reads.drop_first(), address, order);
        if some_read_covers::<T>(reads.drop_first(), address) {
            let j = choose|j: int| 0 <= j < reads.drop_first().len() && covers(#[trigger] reads.drop_first()[j], address, T::width());
            assert(covers(reads[j + 1], address, T::width()));
        }
        if some_read_covers::<T>(reads, address) && !covers(reads[0], address, T::width()) {
            let j = choose|j: int| 0 <= j < reads.len() && covers(#[trigger] reads[j], address, T::width());
            assert(covers(reads.drop_first()[j - 1], address, T::width()));
        }
    }
}

/// Whether the read `r` holds the `width` bytes at `address`; never reads past
/// the end of the read.
fn read_covers(r: &RegionBytes, address: usize, width: usize) -> (b: bool)
    ensures
        b == covers(*r, address as int, width as nat),
{
    let len = r.bytes.len();
    if len > usize::MAX - r.base_address {
        return false;
    }
    if address < r.base_address {
        return false;
    }
    let off = address - r.base_address;
    off <= len && len - off >= width
}

/// The current value of type `T` at `address`, from the first of `reads` that
/// holds all its bytes.
pub fn value_at<T: Scalar>(reads: &[RegionBytes], address: usize, order: ByteOrder) -> (r: Option<T>)
    ensures
        r is Some <==> value_in::<T>(reads@, address as int, order) is Some,
        r matches Some(v) ==> value_in::<T>(reads@, address as int, order) == Some(v.value()),
{
    let width = T::byte_width();
    let mut i: usize = 0;
    assert(reads@.subrange(0, reads@.len() as int) =~= reads@);
    while i < reads.len()
        invariant
            i <= reads@.len(),
            width == T::width(),
            value_in::<T>(reads@, address as int, order) == value_in::<T>(reads@.subrange(i as int, reads@.len() as int), address as int, order),
        decreases reads@.len() - i,
    {
        let ghost rest = reads@.subrange(i as int, reads@.len() as int);
        assert(rest.drop_first() =~= reads@.subrange(i + 1, reads@.len() as int));
        assert(rest[0] == reads@[i as int]);
        if read_covers(&reads[i], address, width) {
            let r = &reads[i];
            let off = address - r.base_address;
            let v = decode_at::<T>(r.bytes.as_slice(), off, order);
            return Some(v);
        }
        i = i + 1;
    }
    None
}

} // verus!
