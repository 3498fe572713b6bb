//! The physical memory: a single linear, page-granular byte store shared by
//! every virtual memory. The bytes live in an `ic_stable_structures`
//! `VectorMemory`; this module adds a page-count limit on top, so growth can
//! fail the way a capacity-bounded memory does.

use vstd::prelude::*;

use crate::model::{MAX_PHYS_PAGES, WASM_PAGE_SIZE};
use ic_stable_structures::Memory;

verus! {

/// A sequence of `n` zero bytes, as freshly granted pages hold.
pub open spec fn zero_bytes(n: nat) -> Seq<u8> {
    Seq::new(n, |i: int| 0u8)
}

/// The raw byte store. The one handle to it lives in this struct, so its
/// contents are a function of the handle.
#[verifier::external_body]
pub struct ByteMemory {
    mem: ic_stable_structures::VectorMemory,
}

/// The bytes currently held by the store.
pub uninterp spec fn mem_bytes(m: ByteMemory) -> Seq<u8>;

impl ByteMemory {
    /// Relies on `VectorMemory::default` (an `Rc<RefCell<Vec<u8>>>`): a fresh
    /// store holds no bytes.
    #[verifier::external_body]
    fn new() -> (m: ByteMemory)
        ensures
            mem_bytes(m) == Seq::<u8>::empty(),
    {
        ByteMemory { mem: ic_stable_structures::VectorMemory::default() }
    }

    /// Relies on `Memory::size` for `VectorMemory`: the byte length divided
    /// by the 64 KiB page size, rounding down.
    #[verifier::external_body]
    fn size(&self) -> (n: u64)
        ensures
            n == mem_bytes(*self).len() as int / WASM_PAGE_SIZE as int,
    {
        self.mem.size()
    }

    /// Relies on `Memory::grow` for `VectorMemory`: appends `pages` zeroed
    /// pages and returns the previous page count. Within the bound below the
    /// underlying checked addition cannot fail.
    #[verifier::external_body]
    fn grow(&mut self, pages: u64) -> (r: i64)
        requires
            mem_bytes(*old(self)).len() as int % WASM_PAGE_SIZE as int == 0,
            mem_bytes(*old(self)).len() as int / WASM_PAGE_SIZE as int + pages <= MAX_PHYS_PAGES,
        ensures
            r == mem_bytes(*old(self)).len() as int / WASM_PAGE_SIZE as int,
            mem_bytes(*final(self)) == mem_bytes(*old(self)) + zero_bytes(
                (pages * WASM_PAGE_SIZE) as nat,
            ),
    {
        self.mem.grow(pages)
    }

    /// Relies on `Memory::read` for `VectorMemory`: copies `len` bytes
    /// starting at `offset`; it panics only out of bounds, which the
    /// precondition rules out.
    #[verifier::external_body]
    fn read(&self, offset: u64, len: usize) -> (r: Vec<u8>)
        requires
            offset + len <= mem_bytes(*self).len(),
        ensures
            r@ == mem_bytes(*self).subrange(offset as int, offset as int + len as int),
    {
        let mut buf = vec![0u8; len];
        self.mem.read(offset, &mut buf);
        buf
    }

    /// Relies on `Memory::write` for `VectorMemory`: overwrites
    /// `src.len()` bytes starting at `offset`, leaving every other byte as it
    /// was; it panics only out of bounds, which the precondition rules out.
    #[verifier::external_body]
    fn write(&mut self, offset: u64, src: &[u8])
        requires
            offset + src@.len() <= mem_bytes(*old(self)).len(),
        ensures
            mem_bytes(*final(self)).len() == mem_bytes(*old(self)).len(),
            forall|i: int|
                0 <= i < src@.len() ==> mem_bytes(*final(self))[offset + i] == src@[i],
            forall|i: int|
                0 <= i < mem_bytes(*old(self)).len() && !(offset <= i < offset + src@.len())
                    ==> mem_bytes(*final(self))[i] == mem_bytes(*old(self))[i],
    {
        self.mem.write(offset, src)
    }
}

/// The physical memory handed to every virtual memory: a growable byte store
/// plus the page count it may never exceed.
pub struct PhysicalMemory {
    pub cells: ByteMemory,
    pub max_pages: u64,
}

impl PhysicalMemory {
    /// The bytes of all currently allocated pages.
    pub open spec fn spec_bytes(self) -> Seq<u8> {
        mem_bytes(self.cells)
    }

    /// The current number of allocated pages.
    pub open spec fn spec_pages(self) -> int {
        self.spec_bytes().len() as int / WASM_PAGE_SIZE as int
    }

    /// The page count this memory was capped at.
    pub open spec fn spec_limit(self) -> int {
        self.max_pages as int
    }

    pub open spec fn wf(self) -> bool {
        &&& self.spec_bytes().len() as int % WASM_PAGE_SIZE as int == 0
        &&& self.spec_bytes().len() <= self.max_pages * WASM_PAGE_SIZE
        &&& self.max_pages <= MAX_PHYS_PAGES
    }

    /// A fresh, empty physical memory that may grow to `max_pages` pages.
    pub fn new(max_pages: u64) -> (m: PhysicalMemory)
        requires
            max_pages <= MAX_PHYS_PAGES,
        ensures
            m.wf(),
            m.spec_bytes() == Seq::<u8>::empty(),
            m.spec_pages() == 0,
            m.spec_limit() == max_pages,
    {
        let m = PhysicalMemory { cells: ByteMemory::new(), max_pages };
        proof {
            vstd::arithmetic::div_mod::lemma_small_mod(0, WASM_PAGE_SIZE as nat);
        }
        m
    }

    /// The current size in pages.
    pub fn size(&self) -> (n: u64)
        requires
            self.wf(),
        ensures
            n == self.spec_pages(),
    {
        self.cells.size()
    }

    /// Grows by `pages` zeroed pages and returns the previous page count, or
    /// `-1` if that would exceed the page limit; on failure nothing changes.
    pub fn grow(&mut self, pages: u64) -> (r: i64)
        requires
            old(self).wf(),
        ensures
            final(self).wf(),
            final(self).spec_limit() == old(self).spec_limit(),
            old(self).spec_pages() + pages <= old(self).spec_limit() ==> {
                &&& r == old(self).spec_pages()
                &&& final(self).spec_bytes() == old(self).spec_bytes() + zero_bytes(
                    (pages * WASM_PAGE_SIZE) as nat,
                )
                &&& final(self).spec_pages() == old(self).spec_pages() + pages
            },
            old(self).spec_pages() + pages > old(self).spec_limit() ==> {
                &&& r == -1
                &&& *final(self) == *old(self)
            },
    {
        proof {
            lemma_pages_within_limit(*self);
        }
        let cur = self.cells.size();
        if pages > self.max_pages - cur {
            return -1;
        }
        let r = self.cells.grow(pages);
        proof {
            let ps = WASM_PAGE_SIZE as int;
            let old_len = old(self).spec_bytes().len() as int;
            let q = old_len / ps;
            vstd::arithmetic::div_mod::lemma_fundamental_div_mod(old_len, ps);
            assert(self.spec_bytes().len() == (q + pages) * ps);
            vstd::arithmetic::div_mod::lemma_div_by_multiple(q + pages, ps);
            vstd::arithmetic::div_mod::lemma_mod_multiples_basic(q + pages, ps);
            vstd::arithmetic::mul::lemma_mul_inequality(q + pages, self.max_pages as int, ps);
        }
        r
    }

    /// Copies `len` bytes out of the allocated pages, starting at `offset`.
    pub fn read(&self, offset: u64, len: usize) -> (r: Vec<u8>)
        requires
            offset + len <= self.spec_bytes().len(),
        ensures
            r@ == self.spec_bytes().subrange(offset as int, offset as int + len as int),
    {
        self.cells.read(offset, len)
    }

    /// Overwrites `src.len()` bytes of the allocated pages, starting at
    /// `offset`; every byte outside that range keeps its value.
    pub fn write(&mut self, offset: u64, src: &[u8])
        requires
            old(self).wf(),
            offset + src@.len() <= old(self).spec_bytes().len(),
        ensures
            final(self).wf(),
            final(self).spec_limit() == old(self).spec_limit(),
            final(self).spec_bytes().len() == old(self).spec_bytes().len(),
            final(self).spec_pages() == old(self).spec_pages(),
            forall|i: int|
                0 <= i < src@.len() ==> final(self).spec_bytes()[offset + i] == src@[i],
            forall|i: int|
                0 <= i < old(self).spec_bytes().len() && !(offset <= i < offset + src@.len())
                    ==> final(self).spec_bytes()[i] == old(self).spec_bytes()[i],
    {
        self.cells.write(offset, src)
    }
}

/// Under the well-formedness bound, the page count never exceeds the limit.
proof fn lemma_pages_within_limit(m: PhysicalMemory)
    requires
        m.wf(),
    ensures
        0 <= m.spec_pages() <= m.spec_limit(),
{
    let ps = WASM_PAGE_SIZE as int;
    let len = m.spec_bytes().len() as int;
    vstd::arithmetic::div_mod::lemma_div_is_ordered(len, m.max_pages * ps, ps);
    vstd::arithmetic::div_mod::lemma_div_by_multiple(m.max_pages as int, ps);
    vstd::arithmetic::div_mod::lemma_div_basics_1(ps);
}

} // verus!
