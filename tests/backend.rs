use richeatta::backend::{
    check_transfer, mach_attach_error, mach_error, next_region_address, read_chunks, windows_error, windows_open_error,
    READ_CHUNK,
};
use richeatta::region::select_regions;
use richeatta::{Error, Linux, MemoryRegion, RegionPolicy};

fn map(base: usize, heap: bool, readable: bool, committed: bool) -> MemoryRegion {
    MemoryRegion { base_address: base, length: 0x1000, readable, writable: true, committed, heap }
}

#[test]
fn chunks_tile_a_region() {
    assert_eq!(read_chunks(0x1000, 250, 100), vec![(0x1000, 100), (0x1064, 100), (0x10C8, 50)]);
    assert_eq!(read_chunks(0x1000, 200, 100), vec![(0x1000, 100), (0x1064, 100)]);
    assert_eq!(read_chunks(0x1000, 0, 100), vec![]);
    assert_eq!(read_chunks(0, 5, 100), vec![(0, 5)]);
}

#[test]
fn chunk_size_is_one_hundred_mebibytes() {
    assert_eq!(READ_CHUNK, 100 * 1024 * 1024);
    let chunks = read_chunks(0, 3 * READ_CHUNK + 1, READ_CHUNK);
    assert_eq!(chunks.len(), 4);
    assert_eq!(chunks[3], (3 * READ_CHUNK, 1));
}

#[test]
fn region_walk_advances_and_ends() {
    assert_eq!(next_region_address(0x1000, 0x2000), Some(0x3000));
    assert_eq!(next_region_address(0x1000, 0), None);
    assert_eq!(next_region_address(usize::MAX - 4, 8), None);
}

#[test]
fn short_transfer_is_reported() {
    assert_eq!(check_transfer(8, 8), Ok(8));
    assert_eq!(check_transfer(8, 4), Err(Error::PartialTransfer));
    assert_eq!(check_transfer(8, 0), Err(Error::PartialTransfer));
}

#[test]
fn windows_errors_are_classified() {
    assert_eq!(windows_error(0x12B), Error::PartialTransfer);
    assert_eq!(windows_error(5), Error::AccessDenied);
    assert_eq!(windows_error(87), Error::ProcessGone);
}

#[test]
fn mach_errors_are_classified() {
    assert_eq!(mach_error(5), Error::AccessDenied);
    assert_eq!(mach_error(2), Error::AccessDenied);
    assert_eq!(mach_error(4), Error::ProcessGone);
    assert_eq!(mach_error(1), Error::PartialTransfer);
}

#[test]
fn linux_errors_are_classified() {
    assert_eq!(Linux::classify_errno(1), Error::AccessDenied);
    assert_eq!(Linux::classify_errno(13), Error::AccessDenied);
    assert_eq!(Linux::classify_errno(3), Error::ProcessGone);
    assert_eq!(Linux::classify_errno(14), Error::PartialTransfer);
}

#[test]
fn region_policies_select() {
    let maps = vec![
        map(0x1000, false, true, true),
        map(0x2000, true, true, true),
        map(0x3000, true, false, true),
        map(0x4000, false, true, false),
        map(0x5000, false, true, true),
    ];
    let heap: Vec<usize> = select_regions(&maps, RegionPolicy::Heap).iter().map(|m| m.base_address).collect();
    assert_eq!(heap, vec![0x2000]);
    let all: Vec<usize> = select_regions(&maps, RegionPolicy::Committed).iter().map(|m| m.base_address).collect();
    assert_eq!(all, vec![0x1000, 0x2000, 0x5000]);
    let linux = Linux::new(77);
    assert_eq!(linux.pid, 77);
    assert_eq!(linux.known_value_regions(&maps).len(), 1);
    assert_eq!(linux.unknown_value_regions(&maps).len(), 3);
}

#[test]
fn failed_attach_is_denied_or_gone() {
    assert_eq!(windows_open_error(87), Error::ProcessGone);
    assert_eq!(windows_open_error(5), Error::AccessDenied);
    assert_eq!(windows_open_error(0x12B), Error::AccessDenied);
    assert_eq!(windows_open_error(1), Error::AccessDenied);
    assert_eq!(mach_attach_error(4), Error::ProcessGone);
    assert_eq!(mach_attach_error(5), Error::AccessDenied);
    assert_eq!(mach_attach_error(1), Error::AccessDenied);
    assert_eq!(Linux::classify_open_errno(3), Error::ProcessGone);
    assert_eq!(Linux::classify_open_errno(2), Error::ProcessGone);
    assert_eq!(Linux::classify_open_errno(1), Error::AccessDenied);
    assert_eq!(Linux::classify_open_errno(14), Error::AccessDenied);
}
