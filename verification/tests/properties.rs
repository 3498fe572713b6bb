//! Targeted checks of the layer's stated guarantees: the key codec and its
//! error cases, isolation between owners, the lazy reload on a boundary
//! miss, reconstituting an address space from its backing stores, and the
//! exact growth accounting.

use chunk_manager::model::{MAX_PHYS_PAGES, WASM_PAGE_SIZE};
use chunk_manager::{CandidHeader, MemoryError, PhysicalMemory, TableStore, VirtualMemory};

#[test]
fn encode_replaces_top_byte_with_owner_tag() {
    let store = TableStore::new();
    let virtual_memory = VirtualMemory::init(&store, 3);

    assert_eq!(virtual_memory.encode(5), Ok(vec![3, 0, 0, 5]));
    assert_eq!(virtual_memory.encode(0x0102_03), Ok(vec![3, 1, 2, 3]));
    assert_eq!(virtual_memory.encode(0x00ff_ffff), Ok(vec![3, 255, 255, 255]));
}

#[test]
fn encode_rejects_oversized_page_number() {
    let store = TableStore::new();
    let virtual_memory = VirtualMemory::init(&store, 3);

    assert_eq!(
        virtual_memory.encode(0x0100_0000),
        Err(MemoryError::PageNumberOverflow)
    );
    assert_eq!(
        virtual_memory.encode(u32::MAX),
        Err(MemoryError::PageNumberOverflow)
    );
}

#[test]
fn decode_strips_owner_tag() {
    let store = TableStore::new();
    let virtual_memory = VirtualMemory::init(&store, 3);

    assert_eq!(virtual_memory.decode([3, 0, 0, 5]), Ok(5));
    assert_eq!(virtual_memory.decode([3, 1, 2, 3]), Ok(0x0102_03));
    assert_eq!(virtual_memory.decode([3, 255, 255, 255]), Ok(0x00ff_ffff));
}

#[test]
fn decode_rejects_foreign_owner_tag() {
    let store = TableStore::new();
    let virtual_memory = VirtualMemory::init(&store, 3);

    assert_eq!(
        virtual_memory.decode([2, 0, 0, 5]),
        Err(MemoryError::OwnerMismatch)
    );
    assert_eq!(
        virtual_memory.decode([0, 0, 0, 5]),
        Err(MemoryError::OwnerMismatch)
    );
}

#[test]
fn encode_decode_round_trip() {
    let store = TableStore::new();
    let virtual_memory = VirtualMemory::init(&store, 7);

    for page in [0u32, 1, 255, 256, 65535, 65536, 0x00ff_ffff] {
        let key = virtual_memory.encode(page).unwrap();
        let bytes = [key[0], key[1], key[2], key[3]];
        assert_eq!(virtual_memory.decode(bytes), Ok(page));
    }
}

#[test]
fn isolation_between_owners() {
    let mut store = TableStore::new();
    let mut phys = PhysicalMemory::new(MAX_PHYS_PAGES);
    let mut virtual_memory_0 = VirtualMemory::init(&store, 0);
    let mut virtual_memory_1 = VirtualMemory::init(&store, 1);

    // interleave grants so the two owners' pages are physically adjacent
    assert_eq!(virtual_memory_0.grow(&mut phys, &mut store, 1), Ok(0));
    virtual_memory_1.manager.reload(&store);
    assert_eq!(virtual_memory_1.grow(&mut phys, &mut store, 1), Ok(0));
    assert_eq!(virtual_memory_0.grow(&mut phys, &mut store, 1), Ok(1));

    let src_0 = vec![0xAAu8; 2 * WASM_PAGE_SIZE as usize];
    assert_eq!(virtual_memory_0.write(&mut phys, &store, 0, &src_0), Ok(()));

    // the other owner still sees only zeroed pages
    let dst_1 = virtual_memory_1
        .read(&phys, &store, 0, WASM_PAGE_SIZE)
        .unwrap();
    assert_eq!(dst_1, vec![0u8; WASM_PAGE_SIZE as usize]);

    // and writing there does not disturb the first owner's bytes
    let src_1 = vec![0xBBu8; WASM_PAGE_SIZE as usize];
    assert_eq!(virtual_memory_1.write(&mut phys, &store, 0, &src_1), Ok(()));
    let dst_0 = virtual_memory_0
        .read(&phys, &store, 0, 2 * WASM_PAGE_SIZE)
        .unwrap();
    assert_eq!(dst_0, src_0);
}

#[test]
fn read_triggers_reload_on_boundary_miss() {
    let mut store = TableStore::new();
    let mut phys = PhysicalMemory::new(MAX_PHYS_PAGES);
    let mut writer = VirtualMemory::init(&store, 0);
    // created before the growth below, so its cached view is stale
    let mut reader = VirtualMemory::init(&store, 0);

    assert_eq!(writer.grow(&mut phys, &mut store, 1), Ok(0));
    let src = vec![9u8; 16];
    assert_eq!(writer.write(&mut phys, &store, 0, &src), Ok(()));

    // the reader still believes its size is zero; the apparent overrun
    // makes it refresh its view, after which the read succeeds
    assert_eq!(reader.size(), 0);
    assert_eq!(reader.read(&phys, &store, 0, 16), Ok(src));
    assert_eq!(reader.size(), 1);
}

#[test]
fn reinit_reconstitutes_address_space() {
    let mut store = TableStore::new();
    let mut phys = PhysicalMemory::new(MAX_PHYS_PAGES);
    let mut original = VirtualMemory::init(&store, 5);

    assert_eq!(original.grow(&mut phys, &mut store, 4), Ok(0));
    let src = vec![7u8; 100];
    assert_eq!(original.write(&mut phys, &store, 50, &src), Ok(()));

    // a fresh instance over the same backing stores is the same space
    let mut reborn = VirtualMemory::init(&store, 5);
    assert_eq!(reborn.size(), 4);
    assert_eq!(reborn.read(&phys, &store, 50, 100), Ok(src));
}

#[test]
fn grow_accounts_exactly() {
    let mut store = TableStore::new();
    let mut phys = PhysicalMemory::new(MAX_PHYS_PAGES);
    let mut virtual_memory = VirtualMemory::init(&store, 0);

    assert_eq!(virtual_memory.grow(&mut phys, &mut store, 0), Ok(0));
    assert_eq!(virtual_memory.size(), 0);
    assert_eq!(virtual_memory.grow(&mut phys, &mut store, 3), Ok(0));
    assert_eq!(virtual_memory.grow(&mut phys, &mut store, 2), Ok(3));
    assert_eq!(virtual_memory.size(), 5);
}

#[test]
fn capacity_failure_changes_nothing() {
    let mut store = TableStore::new();
    let mut phys = PhysicalMemory::new(4);
    let mut virtual_memory = VirtualMemory::init(&store, 0);

    assert_eq!(virtual_memory.grow(&mut phys, &mut store, 3), Ok(0));
    assert_eq!(
        virtual_memory.grow(&mut phys, &mut store, 2),
        Err(MemoryError::CapacityExhausted)
    );
    // the failed growth granted nothing
    assert_eq!(virtual_memory.size(), 3);
    assert_eq!(virtual_memory.grow(&mut phys, &mut store, 1), Ok(3));
    assert_eq!(virtual_memory.size(), 4);
}

#[test]
fn unaligned_ranges_round_trip() {
    let mut store = TableStore::new();
    let mut phys = PhysicalMemory::new(MAX_PHYS_PAGES);
    let mut virtual_memory = VirtualMemory::init(&store, 0);

    assert_eq!(virtual_memory.grow(&mut phys, &mut store, 2), Ok(0));
    // starts and ends mid-page, crossing one boundary
    let src: Vec<u8> = (0..200u32).map(|v| (v % 251) as u8).collect();
    let offset = WASM_PAGE_SIZE - 100;
    assert_eq!(virtual_memory.write(&mut phys, &store, offset, &src), Ok(()));
    assert_eq!(virtual_memory.read(&phys, &store, offset, 200), Ok(src));
}

#[test]
fn candid_header_holds_version_and_bytes() {
    let header = CandidHeader {
        version: 1,
        header: vec![0x6c, 0x01],
    };
    assert_eq!(header.version, 1);
    assert_eq!(header.header, vec![0x6c, 0x01]);
}
