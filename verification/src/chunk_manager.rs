//! The page-table manager and the virtual memories built on it.
//!
//! A `Manager` holds a cached snapshot of the page-table store; several
//! managers over one store can go stale independently and are refreshed by
//! `reload`. A `VirtualMemory` is one owner-tagged logical address space; it
//! translates logical bytes to physical pages through its manager's view.

use vstd::prelude::*;

use crate::errors::MemoryError;
use crate::model::{
    all_keys, be_val, is_key, key_bytes, keys_view, lemma_be_val_injective, lemma_key_bytes_props,
    lemma_lex_lt_iff_be_val_lt, lemma_own_seq_concat,
    lemma_own_seq_prefix, lemma_own_seq_props, lemma_own_seq_sorted, lemma_own_seq_take_snoc,
    lemma_own_seq_monotone, lemma_table_view_is, lex_lt, owner_size, own_seq, page_of, phys_addr,
    spec_read, touches,
    sorted_keys, table_view, MAX_PHYS_PAGES, WASM_PAGE_SIZE,
};
use crate::physical::{zero_bytes, PhysicalMemory};
use crate::table::{table_contents, TableStore};

verus! {

/// Every key of the page table is 4 bytes, and no physical page is recorded
/// twice (under any owner): pages are granted once and never reassigned.
pub open spec fn store_keys_wf(contents: Set<Seq<u8>>) -> bool {
    &&& forall|k: Seq<u8>| contents.contains(k) ==> is_key(k)
    &&& forall|k1: Seq<u8>, k2: Seq<u8>|
        #![trigger contents.contains(k1), contents.contains(k2)]
        contents.contains(k1) && contents.contains(k2) && page_of(k1) == page_of(k2) ==> k1 == k2
}

/// Every recorded physical page lies below the allocated page count.
pub open spec fn store_in_phys(contents: Set<Seq<u8>>, phys_pages: int) -> bool {
    forall|k: Seq<u8>| contents.contains(k) ==> page_of(k) < phys_pages
}

/// The joint well-formedness of a virtual memory and the backing stores it
/// operates on: the cached view is sorted and lags at most behind the store,
/// and every recorded page has really been allocated, exactly once.
pub open spec fn vm_wf(vm: VirtualMemory, phys: PhysicalMemory, store: TableStore) -> bool {
    &&& vm.wf()
    &&& phys.wf()
    &&& store_keys_wf(table_contents(store))
    &&& store_in_phys(table_contents(store), phys.spec_pages())
    &&& vm.manager.in_store(table_contents(store))
}

/// A byte range reaches page `a` exactly when it reaches its first byte.
proof fn lemma_page_compare(x: int, a: int)
    requires
        0 <= x,
        0 <= a,
    ensures
        (x / WASM_PAGE_SIZE as int >= a) <==> (x >= a * WASM_PAGE_SIZE),
{
    let d = WASM_PAGE_SIZE as int;
    if x >= a * d {
        vstd::arithmetic::div_mod::lemma_div_is_ordered(a * d, x, d);
        vstd::arithmetic::div_mod::lemma_div_by_multiple(a, d);
    }
    if x / d >= a {
        vstd::arithmetic::div_mod::lemma_fundamental_div_mod(x, d);
        vstd::arithmetic::mul::lemma_mul_inequality(a, x / d, d);
    }
}

/// The allocated bytes are exactly the allocated pages.
proof fn lemma_phys_len(phys: PhysicalMemory)
    requires
        phys.wf(),
    ensures
        phys.spec_bytes().len() == phys.spec_pages() * WASM_PAGE_SIZE,
{
    vstd::arithmetic::div_mod::lemma_fundamental_div_mod(
        phys.spec_bytes().len() as int,
        WASM_PAGE_SIZE as int,
    );
}

/// Every page an owner holds is an allocated physical page of its own tag,
/// and no two of its logical pages share a physical one.
pub proof fn lemma_owned_pages(vm: VirtualMemory, contents: Set<Seq<u8>>, pages: int)
    requires
        vm.wf(),
        vm.manager.in_store(contents),
        store_keys_wf(contents),
        store_in_phys(contents, pages),
    ensures
        forall|j: int|
            0 <= j < vm.owned().len() ==> is_key(#[trigger] vm.owned()[j]) && 0 <= page_of(
                vm.owned()[j],
            ) < pages && contents.contains(vm.owned()[j]) && vm.owned()[j][0] == vm.index,
        forall|j1: int, j2: int|
            #![trigger vm.owned()[j1], vm.owned()[j2]]
            0 <= j1 < j2 < vm.owned().len() ==> page_of(vm.owned()[j1]) != page_of(
                vm.owned()[j2],
            ),
{
    let view = vm.manager.view_keys();
    let owned = vm.owned();
    lemma_own_seq_props(view, vm.index);
    lemma_own_seq_sorted(view, vm.index);
    assert forall|j: int| 0 <= j < owned.len() implies is_key(#[trigger] owned[j]) && 0 <= page_of(
        owned[j],
    ) < pages && contents.contains(owned[j]) && owned[j][0] == vm.index by {
        assert(view.contains(owned[j]));
        let m = choose|m: int| 0 <= m < view.len() && view[m] == owned[j];
        assert(contents.contains(view[m]));
    }
    assert forall|j1: int, j2: int|
        #![trigger owned[j1], owned[j2]]
        0 <= j1 < j2 < owned.len() implies page_of(owned[j1]) != page_of(owned[j2]) by {
        assert(be_val(owned[j1]) < be_val(owned[j2]));
        if page_of(owned[j1]) == page_of(owned[j2]) {
            assert(owned[j1] == owned[j2]);
        }
    }
}

/// A sorted key sequence that reflects a store's contents is well formed.
proof fn lemma_view_from_store(r: Seq<Seq<u8>>, contents: Set<Seq<u8>>)
    requires
        r.to_set() == contents,
        forall|k: Seq<u8>| contents.contains(k) ==> is_key(k),
        forall|i: int, j: int|
            #![trigger r[i], r[j]]
            0 <= i < j < r.len() ==> lex_lt(r[i], r[j]),
    ensures
        all_keys(r),
        sorted_keys(r),
        forall|i: int| 0 <= i < r.len() ==> contents.contains(#[trigger] r[i]),
{
    assert forall|i: int| 0 <= i < r.len() implies contents.contains(#[trigger] r[i]) && is_key(
        r[i],
    ) by {
        assert(r.contains(r[i]));
        assert(r.to_set().contains(r[i]));
    }
    assert forall|i: int, j: int|
        #![trigger r[i], r[j]]
        0 <= i < j < r.len() implies be_val(r[i]) < be_val(r[j]) by {
        lemma_lex_lt_iff_be_val_lt(r[i], r[j]);
    }
}

/// Manages one page-table store: keeps a cached snapshot of its keys and
/// refreshes it on demand. Which physical page belongs to which owner is
/// read from this snapshot.
pub struct Manager {
    /// The cached view of the page table: its keys, ascending.
    pub cache: Vec<Vec<u8>>,
}

impl Manager {
    /// The cached keys as byte strings.
    pub open spec fn view_keys(self) -> Seq<Seq<u8>> {
        keys_view(self.cache)
    }

    /// The cache holds well-formed keys in strictly ascending order.
    pub open spec fn wf(self) -> bool {
        &&& all_keys(self.view_keys())
        &&& sorted_keys(self.view_keys())
    }

    /// Every cached key is present in the store: a cache may lag behind the
    /// store, but never claims a key the store does not have.
    pub open spec fn in_store(self, contents: Set<Seq<u8>>) -> bool {
        forall|i: int|
            0 <= i < self.view_keys().len() ==> contents.contains(#[trigger] self.view_keys()[i])
    }

    /// The cache reflects the store's contents exactly.
    pub open spec fn synced(self, contents: Set<Seq<u8>>) -> bool {
        self.view_keys().to_set() == contents
    }

    /// A manager over the given store, with a fresh view of its contents.
    pub fn init(store: &TableStore) -> (m: Manager)
        requires
            forall|k: Seq<u8>| table_contents(*store).contains(k) ==> is_key(k),
        ensures
            m.wf(),
            m.synced(table_contents(*store)),
            m.in_store(table_contents(*store)),
    {
        let cache = store.keys();
        proof {
            lemma_view_from_store(keys_view(cache), table_contents(*store));
        }
        Manager { cache }
    }

    /// Discards the cached view and re-derives it from the store's current
    /// contents.
    pub fn reload(&mut self, store: &TableStore)
        requires
            forall|k: Seq<u8>| table_contents(*store).contains(k) ==> is_key(k),
        ensures
            final(self).wf(),
            final(self).synced(table_contents(*store)),
            final(self).in_store(table_contents(*store)),
    {
        self.cache = store.keys();
        proof {
            lemma_view_from_store(keys_view(self.cache), table_contents(*store));
        }
    }

    /// Records ownership of one freshly granted physical page: the key goes
    /// through to the store and into the cached view, at its sorted place.
    /// The page must be new to this owner (pages are granted in ascending
    /// order and never reassigned), so the key sorts after all of the
    /// owner's cached keys.
    #[verifier::loop_isolation(false)]
    pub fn insert(&mut self, store: &mut TableStore, key: Vec<u8>)
        requires
            old(self).wf(),
            is_key(key@),
            forall|j: int|
                #![trigger old(self).view_keys()[j]]
                0 <= j < old(self).view_keys().len() && old(self).view_keys()[j][0] == key@[0]
                    ==> page_of(old(self).view_keys()[j]) < page_of(key@),
        ensures
            table_contents(*final(store)) == table_contents(*old(store)).insert(key@),
            final(self).wf(),
            final(self).view_keys().to_set() == old(self).view_keys().to_set().insert(key@),
            own_seq(final(self).view_keys(), key@[0]) == own_seq(
                old(self).view_keys(),
                key@[0],
            ).push(key@),
            forall|t: u8|
                t != key@[0] ==> own_seq(final(self).view_keys(), t) == own_seq(
                    old(self).view_keys(),
                    t,
                ),
    {
        store.insert(&key);
        let ghost view = self.view_keys();
        let ghost kb = key@;
        let kv = key_val(&key);
        let mut i: usize = 0;
        let mut found = false;
        while i < self.cache.len() && !found
            invariant
                0 <= i <= self.cache.len(),
                self.view_keys() == view,
                all_keys(view),
                forall|j: int| 0 <= j < i ==> be_val(#[trigger] view[j]) < be_val(kb),
                found ==> i < self.cache.len() && be_val(view[i as int]) >= be_val(kb),
            decreases self.cache.len() - i + (if found { 0int } else { 1int }),
        {
            proof {
                assert(view[i as int] == self.cache@[i as int]@);
            }
            let cur = key_val(&self.cache[i]);
            if cur >= kv {
                found = true;
            } else {
                i = i + 1;
            }
        }
        proof {
            assert forall|j: int| 0 <= j < view.len() implies be_val(#[trigger] view[j])
                != be_val(kb) by {
                if be_val(view[j]) == be_val(kb) {
                    lemma_be_val_injective(view[j], kb);
                }
            }
            assert forall|j: int| i <= j < view.len() implies be_val(#[trigger] view[j]) > be_val(
                kb,
            ) by {
                assert(be_val(view[i as int]) >= be_val(kb));
            }
        }
        self.cache.insert(i, key);
        proof {
            let view2 = self.view_keys();
            let pre = view.take(i as int);
            let post = view.skip(i as int);
            let single = seq![kb];
            assert(self.cache@ =~= old(self).cache@.subrange(0, i as int).push(key) + old(
                self,
            ).cache@.subrange(i as int, old(self).cache@.len() as int));
            assert(view2 =~= (pre + single) + post);
            assert(view =~= pre + post);
            // the new view is sorted and holds well-formed keys
            assert forall|p: int, q: int|
                #![trigger view2[p], view2[q]]
                0 <= p < q < view2.len() implies be_val(view2[p]) < be_val(view2[q]) && is_key(
                view2[p],
            ) && is_key(view2[q]) by {
                assert(forall|j: int|
                    0 <= j < view2.len() ==> #[trigger] view2[j] == (if j < i {
                        view[j]
                    } else if j == i {
                        kb
                    } else {
                        view[j - 1]
                    }));
            }
            // the key set gained exactly the new key
            assert forall|x: Seq<u8>| #[trigger] view2.contains(x) implies view.contains(x) || x
                == kb by {
                let p = choose|p: int| 0 <= p < view2.len() && view2[p] == x;
                if p < i {
                    assert(view[p] == x);
                } else if p > i {
                    assert(view[p - 1] == x);
                }
            }
            assert forall|x: Seq<u8>| view.contains(x) implies #[trigger] view2.contains(x) by {
                let p = choose|p: int| 0 <= p < view.len() && view[p] == x;
                if p < i {
                    assert(view2[p] == x);
                } else {
                    assert(view2[p + 1] == x);
                }
            }
            assert(view2[i as int] == kb);
            assert(view2.contains(kb));
            assert(view2.to_set() =~= view.to_set().insert(kb));
            // the owner subsequences: unchanged for other owners, extended
            // at the end for the key's owner
            lemma_own_seq_concat(pre + single, post, kb[0]);
            lemma_own_seq_concat(pre, single, kb[0]);
            lemma_own_seq_concat(pre, post, kb[0]);
            assert(single.drop_first() =~= Seq::<Seq<u8>>::empty());
            assert(own_seq(Seq::<Seq<u8>>::empty(), kb[0]) =~= Seq::<Seq<u8>>::empty());
            assert(own_seq(single, kb[0]) =~= single);
            assert(own_seq(post, kb[0]) =~= Seq::<Seq<u8>>::empty()) by {
                lemma_own_seq_props(post, kb[0]);
                if own_seq(post, kb[0]).len() > 0 {
                    let e = own_seq(post, kb[0])[0];
                    let m = choose|m: int| 0 <= m < post.len() && post[m] == e;
                    assert(view[i + m] == e);
                    assert(be_val(e) > be_val(kb));
                    assert(page_of(e) < page_of(kb));
                }
            }
            assert(own_seq(view2, kb[0]) =~= own_seq(view, kb[0]).push(kb));
            assert forall|t: u8| t != kb[0] implies own_seq(view2, t) == own_seq(view, t) by {
                lemma_own_seq_concat(pre + single, post, t);
                lemma_own_seq_concat(pre, single, t);
                lemma_own_seq_concat(pre, post, t);
                assert(own_seq(Seq::<Seq<u8>>::empty(), t) =~= Seq::<Seq<u8>>::empty());
                assert(own_seq(single, t) =~= Seq::<Seq<u8>>::empty());
                assert(own_seq(view2, t) =~= own_seq(view, t));
            }
        }
    }
}

/// The big-endian value of a 4-byte key.
fn key_val(k: &Vec<u8>) -> (r: u32)
    requires
        is_key(k@),
    ensures
        r == be_val(k@),
{
    (k[0] as u32) * 0x100_0000 + (k[1] as u32) * 0x10000 + (k[2] as u32) * 0x100 + (k[3] as u32)
}

/// One logical, independently growable address space, identified by its
/// owner tag and backed by a physical memory and a page-table store that
/// are passed into each operation (they are shared with the other virtual
/// memories over the same backing).
pub struct VirtualMemory {
    /// The owner tag: the most significant byte of every page-table key of
    /// this address space.
    pub index: u8,
    /// This instance's page-table manager with its cached view.
    pub manager: Manager,
}

impl VirtualMemory {
    /// This owner's keys, in logical page order.
    pub open spec fn owned(self) -> Seq<Seq<u8>> {
        own_seq(self.manager.view_keys(), self.index)
    }

    /// The logical size in pages: how many physical pages this owner holds
    /// according to the cached view.
    pub open spec fn spec_size(self) -> int {
        self.owned().len() as int
    }

    pub open spec fn wf(self) -> bool {
        self.manager.wf()
    }

    /// A virtual memory for owner `index`, with a fresh view of the store.
    pub fn init(store: &TableStore, index: u8) -> (vm: VirtualMemory)
        requires
            forall|k: Seq<u8>| table_contents(*store).contains(k) ==> is_key(k),
        ensures
            vm.index == index,
            vm.wf(),
            vm.manager.synced(table_contents(*store)),
            vm.manager.in_store(table_contents(*store)),
    {
        VirtualMemory { index, manager: Manager::init(store) }
    }

    /// Counts this owner's entries in the cached page-table view.
    #[verifier::loop_isolation(false)]
    pub fn size(&self) -> (n: u64)
        requires
            self.wf(),
        ensures
            n == self.spec_size(),
    {
        let ghost view = self.manager.view_keys();
        let mut count: u64 = 0;
        let mut i: usize = 0;
        while i < self.manager.cache.len()
            invariant
                0 <= i <= self.manager.cache.len(),
                count == own_seq(view.take(i as int), self.index).len(),
                count <= i,
            decreases self.manager.cache.len() - i,
        {
            let k = &self.manager.cache[i];
            proof {
                lemma_own_seq_take_snoc(view, self.index, i as int);
            }
            if k[0] == self.index {
                count = count + 1;
            }
            i = i + 1;
        }
        proof {
            assert(view.take(self.manager.cache.len() as int) =~= view);
        }
        count
    }

    /// Encodes a physical page number as this owner's page-table key: the
    /// page number's most significant (always zero) byte is replaced by the
    /// owner tag. A page number needing that byte cannot be represented.
    pub fn encode(&self, key: u32) -> (r: Result<Vec<u8>, MemoryError>)
        ensures
            key < MAX_PHYS_PAGES ==> (r matches Ok(v) && v@ == key_bytes(self.index, key as int)),
            key >= MAX_PHYS_PAGES ==> r == Err::<Vec<u8>, MemoryError>(
                MemoryError::PageNumberOverflow,
            ),
    {
        if key >= 0x100_0000u32 {
            return Err(MemoryError::PageNumberOverflow);
        }
        let mut v: Vec<u8> = Vec::new();
        v.push(self.index);
        v.push((key / 0x10000) as u8);
        v.push(((key / 0x100) % 0x100) as u8);
        v.push((key % 0x100) as u8);
        proof {
            assert(key / 0x10000 < 0x100);
            assert(key as int / 0x10000 == (key as int / 0x10000) % 0x100) by {
                vstd::arithmetic::div_mod::lemma_small_mod(
                    (key as int / 0x10000) as nat,
                    0x100nat,
                );
            }
            assert(v@ =~= key_bytes(self.index, key as int));
        }
        Ok(v)
    }

    /// Decodes one of this owner's page-table keys back to its physical page
    /// number, rejecting a key that carries another owner's tag.
    pub fn decode(&self, bytes: [u8; 4]) -> (r: Result<u32, MemoryError>)
        ensures
            bytes@[0] == self.index ==> (r matches Ok(p) && p == page_of(bytes@)),
            bytes@[0] != self.index ==> r == Err::<u32, MemoryError>(MemoryError::OwnerMismatch),
    {
        if bytes[0] != self.index {
            return Err(MemoryError::OwnerMismatch);
        }
        Ok((bytes[1] as u32) * 0x10000 + (bytes[2] as u32) * 0x100 + (bytes[3] as u32))
    }

    /// Grows this owner's logical address space by `pages` pages: asks the
    /// physical memory for fresh pages and registers each one under this
    /// owner's tag, in ascending physical order. Returns the logical size
    /// from before the growth. If the physical memory cannot grow, the
    /// failure is returned and nothing changes at all.
    #[verifier::loop_isolation(false)]
    pub fn grow(
        &mut self,
        phys: &mut PhysicalMemory,
        store: &mut TableStore,
        pages: u64,
    ) -> (r: Result<u64, MemoryError>)
        requires
            vm_wf(*old(self), *old(phys), *old(store)),
        ensures
            vm_wf(*final(self), *final(phys), *final(store)),
            final(self).index == old(self).index,
            final(phys).spec_limit() == old(phys).spec_limit(),
            (r matches Err(_)) <==> old(phys).spec_pages() + pages > old(phys).spec_limit(),
            r matches Err(_) ==> r == Err::<u64, MemoryError>(MemoryError::CapacityExhausted)
                && *final(self) == *old(self) && *final(phys) == *old(phys) && *final(store)
                == *old(store),
            r matches Ok(n) ==> {
                &&& n == old(self).spec_size()
                &&& final(self).spec_size() == old(self).spec_size() + pages
                &&& final(phys).spec_pages() == old(phys).spec_pages() + pages
                &&& final(phys).spec_bytes() == old(phys).spec_bytes() + zero_bytes(
                    (pages * WASM_PAGE_SIZE) as nat,
                )
                &&& final(self).owned() == old(self).owned() + Seq::new(
                    pages as nat,
                    |q: int| key_bytes(old(self).index, old(phys).spec_pages() + q),
                )
                &&& forall|t2: u8|
                    t2 != old(self).index ==> own_seq(final(self).manager.view_keys(), t2)
                        == own_seq(old(self).manager.view_keys(), t2)
                &&& forall|k: Seq<u8>|
                    table_contents(*final(store)).contains(k) <==> (table_contents(
                        *old(store),
                    ).contains(k) || (exists|q: int|
                        #![trigger key_bytes(old(self).index, old(phys).spec_pages() + q)]
                        0 <= q < pages && k == key_bytes(
                            old(self).index,
                            old(phys).spec_pages() + q,
                        )))
            },
    {
        let size = self.size();
        let result = phys.grow(pages);
        if result == -1 {
            return Err(MemoryError::CapacityExhausted);
        }
        let ghost t = self.index;
        let ghost old_view = self.manager.view_keys();
        let begin = result as u32;
        let pages32 = pages as u32;
        let end = begin + pages32;
        let mut i = begin;
        while i < end
            invariant
                begin <= i <= end,
                self.index == t,
                self.wf(),
                self.manager.in_store(table_contents(*store)),
                store_keys_wf(table_contents(*store)),
                store_in_phys(table_contents(*store), i as int),
                forall|k: Seq<u8>|
                    table_contents(*store).contains(k) <==> (table_contents(
                        *old(store),
                    ).contains(k) || (exists|q: int|
                        #![trigger key_bytes(t, q)]
                        begin <= q < i && k == key_bytes(t, q))),
                self.owned() == old(self).owned() + Seq::new(
                    (i - begin) as nat,
                    |q: int| key_bytes(t, begin + q),
                ),
                forall|t2: u8|
                    t2 != t ==> own_seq(self.manager.view_keys(), t2) == own_seq(old_view, t2),
            decreases end - i,
        {
            let key = match self.encode(i) {
                Ok(k) => k,
                Err(_) => vstd::pervasive::unreached(),
            };
            proof {
                lemma_key_bytes_props(t, i as int);
                let view = self.manager.view_keys();
                assert forall|j: int|
                    0 <= j < view.len() && (#[trigger] view[j])[0] == key@[0] implies page_of(
                    view[j],
                ) < page_of(key@) by {
                    assert(table_contents(*store).contains(view[j]));
                }
            }
            let ghost pre_view = self.manager.view_keys();
            let ghost pre_contents = table_contents(*store);
            let ghost pre_owned = self.owned();
            self.manager.insert(store, key);
            i = i + 1;
            proof {
                let kb = key_bytes(t, i - 1);
                // the key-set bookkeeping
                assert forall|k: Seq<u8>| table_contents(*store).contains(k) implies (
                table_contents(*old(store)).contains(k) || (exists|q: int|
                    begin <= q < i && k == key_bytes(t, q))) by {
                    if k != kb {
                        assert(pre_contents.contains(k));
                    } else {
                        assert(begin <= i - 1 < i && k == key_bytes(t, i - 1));
                    }
                }
                assert forall|k: Seq<u8>|
                    (table_contents(*old(store)).contains(k) || (exists|q: int|
                        begin <= q < i && k == key_bytes(t, q))) implies table_contents(
                    *store,
                ).contains(k) by {
                    if !table_contents(*old(store)).contains(k) {
                        let q = choose|q: int| #![trigger key_bytes(t, q)] begin <= q < i && k == key_bytes(t, q);
                        if q < i - 1 {
                            assert(pre_contents.contains(k));
                        }
                    }
                }
                // page uniqueness and the page bound survive the new entry
                assert forall|k1: Seq<u8>, k2: Seq<u8>|
                    #![trigger table_contents(*store).contains(k1), table_contents(*store).contains(k2)]
                    table_contents(*store).contains(k1) && table_contents(*store).contains(k2)
                        && page_of(k1) == page_of(k2) implies k1 == k2 by {
                    if k1 == kb && k2 != kb {
                        assert(pre_contents.contains(k2));
                        assert(page_of(k2) < i - 1 + 1);
                    }
                    if k2 == kb && k1 != kb {
                        assert(pre_contents.contains(k1));
                    }
                }
                // the cache still only holds keys the store has
                assert forall|j: int|
                    0 <= j < self.manager.view_keys().len() implies table_contents(
                    *store,
                ).contains(#[trigger] self.manager.view_keys()[j]) by {
                    let x = self.manager.view_keys()[j];
                    assert(self.manager.view_keys().contains(x));
                    assert(self.manager.view_keys().to_set().contains(x));
                    assert(pre_view.to_set().insert(kb).contains(x));
                    if x != kb {
                        assert(pre_view.to_set().contains(x));
                        let m = choose|m: int| 0 <= m < pre_view.len() && pre_view[m] == x;
                        assert(pre_contents.contains(pre_view[m]));
                    }
                }
                // this owner's pages gained exactly the new key, at the end
                assert(own_seq(self.manager.view_keys(), t) == pre_owned.push(kb));
                assert(self.owned() =~= old(self).owned() + Seq::new(
                    (i - begin) as nat,
                    |q: int| key_bytes(t, begin + q),
                ));
            }
        }
        proof {
            assert(self.owned() =~= old(self).owned() + Seq::new(
                pages as nat,
                |q: int| key_bytes(t, old(phys).spec_pages() + q),
            ));
            assert forall|k: Seq<u8>| table_contents(*store).contains(k) implies (table_contents(
                *old(store),
            ).contains(k) || (exists|q: int|
                #![trigger key_bytes(t, old(phys).spec_pages() + q)]
                0 <= q < pages && k == key_bytes(t, old(phys).spec_pages() + q))) by {
                if !table_contents(*old(store)).contains(k) {
                    let q = choose|q: int| #![trigger key_bytes(t, q)] begin <= q < end && k == key_bytes(t, q);
                    assert(0 <= q - begin < pages && k == key_bytes(
                        t,
                        old(phys).spec_pages() + (q - begin),
                    ));
                }
            }
            assert forall|k: Seq<u8>|
                (table_contents(*old(store)).contains(k) || (exists|q: int|
                    #![trigger key_bytes(t, old(phys).spec_pages() + q)]
                    0 <= q < pages && k == key_bytes(t, old(phys).spec_pages() + q))) implies
                table_contents(*store).contains(k) by {
                if !table_contents(*old(store)).contains(k) {
                    let q = choose|q: int|
                        #![trigger key_bytes(t, old(phys).spec_pages() + q)]
                        0 <= q < pages && k == key_bytes(t, old(phys).spec_pages() + q);
                    assert(begin <= begin + q < end && k == key_bytes(t, begin + q));
                }
            }
        }
        Ok(size)
    }

    /// The physical byte offsets of the pages backing logical bytes
    /// `[start_byte, end_byte]`: this owner's pages in logical order, the
    /// first `start_byte / WASM_PAGE_SIZE` skipped, one offset per page
    /// touched.
    #[verifier::loop_isolation(false)]
    fn page_byte_offsets(&self, start_byte: u64, end_byte: u64) -> (r: Vec<u64>)
        requires
            self.wf(),
            start_byte <= end_byte,
            end_byte < self.spec_size() * WASM_PAGE_SIZE,
        ensures
            r@.len() == end_byte as int / WASM_PAGE_SIZE as int - start_byte as int
                / WASM_PAGE_SIZE as int + 1,
            forall|j: int|
                0 <= j < r@.len() ==> r@[j] == page_of(
                    self.owned()[start_byte as int / WASM_PAGE_SIZE as int + j],
                ) * WASM_PAGE_SIZE,
    {
        let start_page = start_byte / WASM_PAGE_SIZE;
        let end_page = end_byte / WASM_PAGE_SIZE;
        proof {
            vstd::arithmetic::div_mod::lemma_div_is_ordered(
                start_byte as int,
                end_byte as int,
                WASM_PAGE_SIZE as int,
            );
            lemma_page_compare(end_byte as int, self.spec_size());
        }
        let ghost view = self.manager.view_keys();
        let ghost owned = self.owned();
        let mut r: Vec<u64> = Vec::new();
        let mut seen: u64 = 0;
        let mut i: usize = 0;
        while i < self.manager.cache.len()
            invariant
                0 <= i <= self.manager.cache.len(),
                seen == own_seq(view.take(i as int), self.index).len(),
                seen <= i,
                r@.len() == (if seen <= start_page {
                    0int
                } else if seen <= end_page {
                    seen - start_page
                } else {
                    end_page - start_page + 1
                }),
                forall|j: int|
                    0 <= j < r@.len() ==> r@[j] == page_of(owned[start_page as int + j])
                        * WASM_PAGE_SIZE,
            decreases self.manager.cache.len() - i,
        {
            let k = &self.manager.cache[i];
            proof {
                assert(view[i as int] == self.manager.cache@[i as int]@);
                lemma_own_seq_take_snoc(view, self.index, i as int);
                lemma_own_seq_prefix(view, self.index, i as int + 1);
            }
            if k[0] == self.index {
                if seen >= start_page && seen <= end_page {
                    let arr: [u8; 4] = [k[0], k[1], k[2], k[3]];
                    proof {
                        assert(arr@ =~= view[i as int]);
                        assert(own_seq(view.take(i as int + 1), self.index)[seen as int]
                            == view[i as int]);
                        assert(owned[seen as int] == view[i as int]);
                    }
                    let page = match self.decode(arr) {
                        Ok(p) => p,
                        Err(_) => vstd::pervasive::unreached(),
                    };
                    r.push(page as u64 * WASM_PAGE_SIZE);
                }
                seen = seen + 1;
            }
            i = i + 1;
        }
        proof {
            assert(view.take(self.manager.cache@.len() as int) =~= view);
        }
        r
    }

    /// The last byte of the `len`-byte range at `offset`, if the range lies
    /// within this owner's pages. On an apparent overrun the cached
    /// page-table view is refreshed once — a sibling instance may have grown
    /// this address space — and only then is the range rejected as out of
    /// bounds.
    fn last_byte(&mut self, store: &TableStore, offset: u64, len: u64) -> (r: Result<
        u64,
        MemoryError,
    >)
        requires
            old(self).wf(),
            old(self).manager.in_store(table_contents(*store)),
            store_keys_wf(table_contents(*store)),
            1 <= len,
            offset + len - 1 <= u64::MAX,
        ensures
            final(self).wf(),
            final(self).manager.in_store(table_contents(*store)),
            final(self).index == old(self).index,
            final(self).spec_size() >= old(self).spec_size(),
            offset + len - 1 < old(self).spec_size() * WASM_PAGE_SIZE ==> *final(self)
                == *old(self),
            !(offset + len - 1 < old(self).spec_size() * WASM_PAGE_SIZE)
                ==> final(self).manager.synced(table_contents(*store))
                && final(self).manager.view_keys() == table_view(table_contents(*store)),
            r matches Ok(last) ==> last == offset + len - 1 && last < final(self).spec_size()
                * WASM_PAGE_SIZE,
            (r matches Err(_)) ==> r == Err::<u64, MemoryError>(MemoryError::OutOfBounds) && offset
                + len - 1 >= final(self).spec_size() * WASM_PAGE_SIZE,
            (r matches Err(_)) <==> (offset + len - 1 >= old(self).spec_size() * WASM_PAGE_SIZE
                && offset + len - 1 >= owner_size(table_contents(*store), old(self).index)
                * WASM_PAGE_SIZE),
    {
        let last = offset + (len - 1);
        let size0 = self.size();
        proof {
            lemma_page_compare(last as int, size0 as int);
        }
        if last / WASM_PAGE_SIZE < size0 {
            return Ok(last);
        }
        let ghost old_view = self.manager.view_keys();
        self.manager.reload(store);
        proof {
            let new_view = self.manager.view_keys();
            assert forall|x: Seq<u8>| old_view.contains(x) implies #[trigger] new_view.contains(
                x,
            ) by {
                let p = choose|p: int| 0 <= p < old_view.len() && old_view[p] == x;
                assert(table_contents(*store).contains(old_view[p]));
                assert(new_view.to_set().contains(x));
            }
            lemma_own_seq_monotone(old_view, new_view, self.index);
            lemma_table_view_is(new_view, table_contents(*store));
        }
        let size1 = self.size();
        proof {
            lemma_page_compare(last as int, size1 as int);
        }
        if last / WASM_PAGE_SIZE < size1 {
            return Ok(last);
        }
        Err(MemoryError::OutOfBounds)
    }

    /// Reads `len` bytes at logical offset `byte_offset` out of this owner's
    /// pages. A range past the locally known size triggers one refresh of
    /// the cached page-table view — a sibling instance may have grown this
    /// address space — before the range is rejected as out of bounds. The
    /// bytes come back in logical order: for each logical byte, the byte of
    /// the physical page backing it.
    #[verifier::loop_isolation(false)]
    pub fn read(
        &mut self,
        phys: &PhysicalMemory,
        store: &TableStore,
        byte_offset: u64,
        len: u64,
    ) -> (r: Result<Vec<u8>, MemoryError>)
        requires
            vm_wf(*old(self), *phys, *store),
            1 <= len,
            byte_offset + len - 1 <= u64::MAX,
        ensures
            vm_wf(*final(self), *phys, *store),
            final(self).index == old(self).index,
            final(self).spec_size() >= old(self).spec_size(),
            byte_offset + len - 1 < old(self).spec_size() * WASM_PAGE_SIZE ==> *final(self)
                == *old(self),
            r matches Ok(data) ==> data@ == spec_read(
                phys.spec_bytes(),
                final(self).owned(),
                byte_offset as int,
                len as int,
            ),
            (r matches Err(_)) <==> (byte_offset + len - 1 >= old(self).spec_size()
                * WASM_PAGE_SIZE && byte_offset + len - 1 >= owner_size(
                table_contents(*store),
                old(self).index,
            ) * WASM_PAGE_SIZE),
            r matches Err(_) ==> r == Err::<Vec<u8>, MemoryError>(MemoryError::OutOfBounds)
                && final(self).manager.synced(table_contents(*store)),
    {
        let read_to = match self.last_byte(store, byte_offset, len) {
            Ok(v) => v,
            Err(_) => {
                return Err(MemoryError::OutOfBounds);
            },
        };
        let ghost owned = self.owned();
        let ghost bytes = phys.spec_bytes();
        let ghost ps = WASM_PAGE_SIZE as int;
        let ghost start_page_g = byte_offset as int / ps;
        let ghost end_page_g = read_to as int / ps;
        proof {
            lemma_owned_pages(*self, table_contents(*store), phys.spec_pages());
            lemma_phys_len(*phys);
            vstd::arithmetic::div_mod::lemma_fundamental_div_mod(byte_offset as int, ps);
            vstd::arithmetic::div_mod::lemma_fundamental_div_mod(read_to as int, ps);
        }
        let base_pages = self.page_byte_offsets(byte_offset, read_to);
        let ghost n = base_pages@.len() as int;
        let mut data: Vec<u8> = Vec::new();
        let mut pos: u64 = byte_offset % WASM_PAGE_SIZE;
        let mut start: u64 = 0;
        let mut pi: usize = 0;
        while pi < base_pages.len()
            invariant
                0 <= pi <= n,
                data@.len() == start,
                start <= len,
                pi < n ==> byte_offset + start == (start_page_g + pi) * ps + pos && 0 <= pos
                    < WASM_PAGE_SIZE,
                pi == n ==> start == len,
                forall|q: int|
                    0 <= q < start ==> data@[q] == bytes[phys_addr(owned, byte_offset + q)],
            decreases n - pi,
        {
            let page = base_pages[pi];
            proof {
                assert(page == page_of(owned[start_page_g + pi]) * WASM_PAGE_SIZE);
                vstd::arithmetic::mul::lemma_mul_inequality(
                    page_of(owned[start_page_g + pi]) + 1,
                    phys.spec_pages(),
                    ps,
                );
                if pi + 1 < n {
                    vstd::arithmetic::mul::lemma_mul_inequality(
                        start_page_g + pi + 1,
                        end_page_g,
                        ps,
                    );
                }
            }
            let chunk = if WASM_PAGE_SIZE - pos < len - start {
                WASM_PAGE_SIZE - pos
            } else {
                len - start
            };
            let mut part = phys.read(page + pos, chunk as usize);
            proof {
                assert forall|q: int| start <= q < start + chunk implies part@[q - start]
                    == bytes[#[trigger] phys_addr(owned, byte_offset + q)] by {
                    vstd::arithmetic::div_mod::lemma_fundamental_div_mod_converse(
                        byte_offset + q,
                        ps,
                        start_page_g + pi,
                        pos + (q - start),
                    );
                }
            }
            data.append(&mut part);
            start = start + chunk;
            pos = 0;
            pi = pi + 1;
        }
        proof {
            assert(data@ =~= spec_read(bytes, owned, byte_offset as int, len as int));
        }
        Ok(data)
    }

    /// Writes `src` at logical offset `byte_offset` into this owner's pages,
    /// splitting it across page boundaries. A range past the locally known
    /// size triggers one refresh of the cached page-table view before the
    /// range is rejected as out of bounds; a write never grows the address
    /// space itself. On success every logical byte of the range holds its
    /// byte of `src`, and no physical byte outside the range's pages —
    /// other owners' pages in particular — changes.
    #[verifier::loop_isolation(false)]
    pub fn write(
        &mut self,
        phys: &mut PhysicalMemory,
        store: &TableStore,
        byte_offset: u64,
        src: &Vec<u8>,
    ) -> (r: Result<(), MemoryError>)
        requires
            vm_wf(*old(self), *old(phys), *store),
            1 <= src@.len(),
            byte_offset + src@.len() - 1 <= u64::MAX,
        ensures
            vm_wf(*final(self), *final(phys), *store),
            final(self).index == old(self).index,
            final(self).spec_size() >= old(self).spec_size(),
            final(phys).spec_limit() == old(phys).spec_limit(),
            final(phys).spec_bytes().len() == old(phys).spec_bytes().len(),
            byte_offset + src@.len() - 1 < old(self).spec_size() * WASM_PAGE_SIZE ==> *final(self)
                == *old(self),
            (r matches Err(_)) <==> (byte_offset + src@.len() - 1 >= old(self).spec_size()
                * WASM_PAGE_SIZE && byte_offset + src@.len() - 1 >= owner_size(
                table_contents(*store),
                old(self).index,
            ) * WASM_PAGE_SIZE),
            r matches Err(_) ==> r == Err::<(), MemoryError>(MemoryError::OutOfBounds)
                && *final(phys) == *old(phys) && final(self).manager.synced(
                table_contents(*store),
            ),
            r matches Ok(_) ==> {
                &&& forall|q: int|
                    0 <= q < src@.len() ==> final(phys).spec_bytes()[#[trigger] phys_addr(
                        final(self).owned(),
                        byte_offset + q,
                    )] == src@[q]
                &&& forall|a: int|
                    0 <= a < old(phys).spec_bytes().len() && !touches(
                        final(self).owned(),
                        byte_offset as int,
                        src@.len() as int,
                        a,
                    ) ==> final(phys).spec_bytes()[a] == old(phys).spec_bytes()[a]
            },
    {
        let len = src.len() as u64;
        let write_to = match self.last_byte(store, byte_offset, len) {
            Ok(v) => v,
            Err(_) => {
                return Err(MemoryError::OutOfBounds);
            },
        };
        let ghost owned = self.owned();
        let ghost old_bytes = phys.spec_bytes();
        let ghost ps = WASM_PAGE_SIZE as int;
        let ghost start_page_g = byte_offset as int / ps;
        let ghost end_page_g = write_to as int / ps;
        proof {
            lemma_owned_pages(*self, table_contents(*store), phys.spec_pages());
            lemma_phys_len(*phys);
            lemma_page_compare(write_to as int, self.spec_size());
            vstd::arithmetic::div_mod::lemma_fundamental_div_mod(byte_offset as int, ps);
            vstd::arithmetic::div_mod::lemma_fundamental_div_mod(write_to as int, ps);
        }
        let base_pages = self.page_byte_offsets(byte_offset, write_to);
        let ghost n = base_pages@.len() as int;
        let mut pos: u64 = byte_offset % WASM_PAGE_SIZE;
        let mut start: u64 = 0;
        let mut pi: usize = 0;
        while pi < base_pages.len()
            invariant
                0 <= pi <= n,
                start <= len,
                pi < n ==> byte_offset + start == (start_page_g + pi) * ps + pos && 0 <= pos
                    < WASM_PAGE_SIZE,
                pi == n ==> start == len,
                pi == 0 ==> start == 0,
                0 < pi ==> pos == 0,
                phys.wf(),
                phys.spec_limit() == old(phys).spec_limit(),
                phys.spec_bytes().len() == old_bytes.len(),
                forall|q: int|
                    0 <= q < start ==> phys.spec_bytes()[#[trigger] phys_addr(
                        owned,
                        byte_offset + q,
                    )] == src@[q],
                forall|a: int|
                    0 <= a < old_bytes.len() && !touches(owned, byte_offset as int, start as int, a)
                        ==> phys.spec_bytes()[a] == old_bytes[a],
            decreases n - pi,
        {
            let page = base_pages[pi];
            proof {
                assert(page == page_of(owned[start_page_g + pi]) * WASM_PAGE_SIZE);
                vstd::arithmetic::mul::lemma_mul_inequality(
                    page_of(owned[start_page_g + pi]) + 1,
                    phys.spec_pages(),
                    ps,
                );
                if pi + 1 < n {
                    vstd::arithmetic::mul::lemma_mul_inequality(
                        start_page_g + pi + 1,
                        end_page_g,
                        ps,
                    );
                }
            }
            let chunk = if WASM_PAGE_SIZE - pos < len - start {
                WASM_PAGE_SIZE - pos
            } else {
                len - start
            };
            let ghost pre_bytes = phys.spec_bytes();
            let part = vstd::slice::slice_subrange(
                src.as_slice(),
                start as usize,
                (start + chunk) as usize,
            );
            phys.write(page + pos, part);
            proof {
                assert forall|q: int| start <= q < start + chunk implies phys.spec_bytes()[
                #[trigger] phys_addr(owned, byte_offset + q)] == src@[q] && phys_addr(
                    owned,
                    byte_offset + q,
                ) == page + pos + (q - start) by {
                    vstd::arithmetic::div_mod::lemma_fundamental_div_mod_converse(
                        byte_offset + q,
                        ps,
                        start_page_g + pi,
                        pos + (q - start),
                    );
                    assert((byte_offset + q) / ps == start_page_g + pi);
                    assert((byte_offset + q) % ps == pos + (q - start));
                    assert(phys_addr(owned, byte_offset + q) == page + pos + (q - start));
                    assert(part@[q - start] == src@[q]);
                }
                assert forall|q: int| 0 <= q < start implies phys.spec_bytes()[#[trigger] phys_addr(
                    owned,
                    byte_offset + q,
                )] == src@[q] by {
                    let d = (byte_offset + q) / ps;
                    lemma_page_compare(byte_offset + q, start_page_g + pi);
                    vstd::arithmetic::div_mod::lemma_div_is_ordered(
                        byte_offset as int,
                        byte_offset + q,
                        ps,
                    );
                    assert(start_page_g <= d < start_page_g + pi);
                    vstd::arithmetic::div_mod::lemma_fundamental_div_mod(byte_offset + q, ps);
                    assert(page_of(owned[d]) != page_of(owned[start_page_g + pi]));
                    assert(phys_addr(owned, byte_offset + q) < page || phys_addr(
                        owned,
                        byte_offset + q,
                    ) >= page + WASM_PAGE_SIZE);
                    assert(pre_bytes[phys_addr(owned, byte_offset + q)] == src@[q]);
                }
                assert forall|a: int|
                    0 <= a < old_bytes.len() && !touches(
                        owned,
                        byte_offset as int,
                        start + chunk,
                        a,
                    ) implies phys.spec_bytes()[a] == old_bytes[a] by {
                    assert(!touches(owned, byte_offset as int, start as int, a)) by {
                        if touches(owned, byte_offset as int, start as int, a) {
                            let w = choose|w: int|
                                #![trigger phys_addr(owned, byte_offset + w)]
                                0 <= w < start && phys_addr(owned, byte_offset + w) == a;
                            assert(0 <= w < start + chunk && phys_addr(owned, byte_offset + w)
                                == a);
                        }
                    }
                    if page + pos <= a < page + pos + chunk {
                        let w = start + (a - (page + pos));
                        assert(start <= w < start + chunk);
                        assert(phys_addr(owned, byte_offset + w) == page + pos + (w - start));
                        assert(phys_addr(owned, byte_offset + w) == a);
                        assert(false);
                    }
                }
            }
            start = start + chunk;
            pos = 0;
            pi = pi + 1;
        }
        Ok(())
    }
}

} // verus!
