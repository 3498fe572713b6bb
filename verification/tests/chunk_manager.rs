//! The virtual-memory layer exercised end to end: growth, page-table
//! bookkeeping, reads and writes across page boundaries, sibling instances
//! over the same backing stores, and the out-of-bounds paths.

use chunk_manager::model::{MAX_PHYS_PAGES, WASM_PAGE_SIZE};
use chunk_manager::{MemoryError, PhysicalMemory, TableStore, VirtualMemory};

#[test]
fn single_entry_grow_size() {
    let mut store = TableStore::new();
    let mut phys = PhysicalMemory::new(MAX_PHYS_PAGES);
    let mut virtual_memory = VirtualMemory::init(&store, 0);

    assert_eq!(virtual_memory.size(), 0);
    assert_eq!(virtual_memory.grow(&mut phys, &mut store, 10), Ok(0));
    assert_eq!(virtual_memory.size(), 10);
}

#[test]
fn multiple_entry_grow_size() {
    let mut store = TableStore::new();
    let mut phys = PhysicalMemory::new(MAX_PHYS_PAGES);

    let mut virtual_memory_0 = VirtualMemory::init(&store, 0);
    let mut virtual_memory_1 = VirtualMemory::init(&store, 1);

    assert_eq!(virtual_memory_0.size(), 0);
    assert_eq!(virtual_memory_1.size(), 0);

    assert_eq!(virtual_memory_0.grow(&mut phys, &mut store, 5), Ok(0));
    virtual_memory_1.manager.reload(&store);
    assert_eq!(virtual_memory_1.grow(&mut phys, &mut store, 6), Ok(0));

    assert_eq!(virtual_memory_0.grow(&mut phys, &mut store, 7), Ok(5));
    virtual_memory_1.manager.reload(&store);
    assert_eq!(virtual_memory_1.grow(&mut phys, &mut store, 8), Ok(6));

    assert_eq!(virtual_memory_0.size(), 12);
    assert_eq!(virtual_memory_1.size(), 14);
}

#[test]
fn write_without_enough_space() {
    let mut store = TableStore::new();
    let mut phys = PhysicalMemory::new(MAX_PHYS_PAGES);
    let mut virtual_memory = VirtualMemory::init(&store, 0);

    assert_eq!(virtual_memory.grow(&mut phys, &mut store, 1), Ok(0));
    let src = vec![1u8; 1 + WASM_PAGE_SIZE as usize];
    assert_eq!(
        virtual_memory.write(&mut phys, &store, 0, &src),
        Err(MemoryError::OutOfBounds)
    );
}

#[test]
fn write_without_grow_further() {
    let mut store = TableStore::new();
    // the physical memory is capped at a single page
    let mut phys = PhysicalMemory::new(1);
    let mut virtual_memory = VirtualMemory::init(&store, 0);

    let result = virtual_memory.grow(&mut phys, &mut store, 2);
    assert_eq!(result, Err(MemoryError::CapacityExhausted));
    // nothing was granted, so nothing can be written
    assert_eq!(virtual_memory.size(), 0);
    let src = vec![1u8; 1 + WASM_PAGE_SIZE as usize];
    assert_eq!(
        virtual_memory.write(&mut phys, &store, 0, &src),
        Err(MemoryError::OutOfBounds)
    );
}

#[test]
fn write_multiple_data_to_same_page() {
    let mut store = TableStore::new();
    let mut phys = PhysicalMemory::new(MAX_PHYS_PAGES);

    let mut virtual_memory_0 = VirtualMemory::init(&store, 0);
    let mut virtual_memory_1 = VirtualMemory::init(&store, 0);

    assert_eq!(virtual_memory_0.grow(&mut phys, &mut store, 1), Ok(0));
    virtual_memory_1.manager.reload(&store);

    let src_0 = vec![1u8; WASM_PAGE_SIZE as usize];
    assert_eq!(virtual_memory_0.write(&mut phys, &store, 0, &src_0), Ok(()));
    let dst_0 = virtual_memory_0
        .read(&phys, &store, 0, WASM_PAGE_SIZE)
        .unwrap();
    assert_eq!(src_0, dst_0);

    let src_1 = vec![2u8; WASM_PAGE_SIZE as usize];
    let dst_1 = virtual_memory_1
        .read(&phys, &store, 0, WASM_PAGE_SIZE)
        .unwrap();
    assert_eq!(dst_1, src_0);

    assert_eq!(virtual_memory_1.write(&mut phys, &store, 0, &src_1), Ok(()));
    let dst_1 = virtual_memory_1
        .read(&phys, &store, 0, WASM_PAGE_SIZE)
        .unwrap();
    assert_eq!(dst_1, src_1);
}

#[test]
fn write_single_entry_spanning_multiple_pages() {
    let mut store = TableStore::new();
    let mut phys = PhysicalMemory::new(MAX_PHYS_PAGES);
    let mut virtual_memory = VirtualMemory::init(&store, 0);

    assert_eq!(virtual_memory.grow(&mut phys, &mut store, 3), Ok(0));
    let src = vec![1u8; 1 + 2 * WASM_PAGE_SIZE as usize];
    assert_eq!(virtual_memory.write(&mut phys, &store, 0, &src), Ok(()));
    let dst = virtual_memory
        .read(&phys, &store, 0, src.len() as u64)
        .unwrap();
    assert_eq!(src, dst);
}

#[test]
fn write_multiple_entries_spanning_multiple_pages() {
    let mut store = TableStore::new();
    let mut phys = PhysicalMemory::new(MAX_PHYS_PAGES);

    let mut virtual_memory_0 = VirtualMemory::init(&store, 0);
    let mut virtual_memory_1 = VirtualMemory::init(&store, 1);
    let mut virtual_memory_2 = VirtualMemory::init(&store, 2);

    assert_eq!(virtual_memory_0.grow(&mut phys, &mut store, 1), Ok(0));
    virtual_memory_1.manager.reload(&store);
    assert_eq!(virtual_memory_1.grow(&mut phys, &mut store, 1), Ok(0));
    virtual_memory_2.manager.reload(&store);
    assert_eq!(virtual_memory_2.grow(&mut phys, &mut store, 1), Ok(0));

    assert_eq!(virtual_memory_0.grow(&mut phys, &mut store, 1), Ok(1));
    assert_eq!(virtual_memory_1.grow(&mut phys, &mut store, 1), Ok(1));
    assert_eq!(virtual_memory_2.grow(&mut phys, &mut store, 1), Ok(1));

    assert_eq!(virtual_memory_0.grow(&mut phys, &mut store, 1), Ok(2));
    assert_eq!(virtual_memory_1.grow(&mut phys, &mut store, 1), Ok(2));
    assert_eq!(virtual_memory_2.grow(&mut phys, &mut store, 1), Ok(2));

    let src_0 = vec![1u8; 3 * WASM_PAGE_SIZE as usize - 2];
    let src_1 = vec![2u8; 3 * WASM_PAGE_SIZE as usize - 2];
    let src_2 = vec![3u8; 3 * WASM_PAGE_SIZE as usize - 2];

    assert_eq!(virtual_memory_0.write(&mut phys, &store, 1, &src_0), Ok(()));
    assert_eq!(virtual_memory_1.write(&mut phys, &store, 1, &src_1), Ok(()));
    assert_eq!(virtual_memory_2.write(&mut phys, &store, 1, &src_2), Ok(()));

    let dst_0 = virtual_memory_0
        .read(&phys, &store, 1, src_0.len() as u64)
        .unwrap();
    let dst_1 = virtual_memory_1
        .read(&phys, &store, 1, src_1.len() as u64)
        .unwrap();
    let dst_2 = virtual_memory_2
        .read(&phys, &store, 1, src_2.len() as u64)
        .unwrap();

    assert_eq!(src_0, dst_0);
    assert_eq!(src_1, dst_1);
    assert_eq!(src_2, dst_2);
}

#[test]
fn read_outside_of_memory_range() {
    let mut store = TableStore::new();
    let mut phys = PhysicalMemory::new(MAX_PHYS_PAGES);
    let mut virtual_memory = VirtualMemory::init(&store, 0);

    let src = vec![1u8; WASM_PAGE_SIZE as usize];
    assert_eq!(
        virtual_memory.write(&mut phys, &store, 0, &src),
        Err(MemoryError::OutOfBounds)
    );
}

#[test]
fn read_single_entry_across_multiple_pages() {
    let mut store = TableStore::new();
    let mut phys = PhysicalMemory::new(MAX_PHYS_PAGES);
    let mut virtual_memory = VirtualMemory::init(&store, 0);

    assert_eq!(virtual_memory.grow(&mut phys, &mut store, 3), Ok(0));
    let src = vec![1u8; 3 * WASM_PAGE_SIZE as usize];
    assert_eq!(virtual_memory.write(&mut phys, &store, 0, &src), Ok(()));

    let dst = virtual_memory
        .read(&phys, &store, 0, src.len() as u64)
        .unwrap();
    assert_eq!(src, dst);
}

#[test]
fn read_multiple_entries_across_multiple_pages() {
    let mut store = TableStore::new();
    let mut phys = PhysicalMemory::new(MAX_PHYS_PAGES);
    let mut virtual_memory_0 = VirtualMemory::init(&store, 0);
    let mut virtual_memory_1 = VirtualMemory::init(&store, 1);

    assert_eq!(virtual_memory_0.grow(&mut phys, &mut store, 1), Ok(0));
    virtual_memory_1.manager.reload(&store);
    assert_eq!(virtual_memory_1.grow(&mut phys, &mut store, 1), Ok(0));

    assert_eq!(virtual_memory_0.grow(&mut phys, &mut store, 1), Ok(1));
    assert_eq!(virtual_memory_1.grow(&mut phys, &mut store, 1), Ok(1));

    let dst_0 = virtual_memory_0
        .read(&phys, &store, 0, 2 * WASM_PAGE_SIZE)
        .unwrap();
    let dst_1 = virtual_memory_0
        .read(&phys, &store, 0, 2 * WASM_PAGE_SIZE)
        .unwrap();

    assert_eq!(dst_0, vec![0u8; 2 * WASM_PAGE_SIZE as usize]);
    assert_eq!(dst_1, vec![0u8; 2 * WASM_PAGE_SIZE as usize]);
}
