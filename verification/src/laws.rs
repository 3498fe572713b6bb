//! The cross-operation guarantees of the virtual-memory layer, stated over
//! the same model that the operations' contracts use: `spec_read` is the
//! value `read` returns, the pointwise and frame conditions below are what
//! `write` ensures, and a synced manager is what `reload` leaves behind.

use vstd::prelude::*;

use crate::chunk_manager::{lemma_owned_pages, store_in_phys, store_keys_wf, VirtualMemory};
use crate::model::{
    lemma_own_seq_monotone, lemma_sorted_unique, phys_addr, spec_read, touches, WASM_PAGE_SIZE,
};

verus! {

/// Round trip: writing a buffer and reading the same range back returns
/// exactly that buffer. `write` ensures the pointwise condition below for
/// the bytes it leaves behind; `spec_read` over those bytes is the value
/// `read` then returns.
pub proof fn lemma_round_trip(bytes: Seq<u8>, owned: Seq<Seq<u8>>, offset: int, data: Seq<u8>)
    requires
        forall|q: int|
            0 <= q < data.len() ==> bytes[#[trigger] phys_addr(owned, offset + q)] == data[q],
    ensures
        spec_read(bytes, owned, offset, data.len() as int) == data,
{
    assert(spec_read(bytes, owned, offset, data.len() as int) =~= data);
}

/// Isolation: a write by one owner never changes what a different owner
/// reads, however the two owners' pages interleave physically. The writer
/// only touches its own pages (`write`'s frame condition, the last
/// hypothesis), and two owners never share a physical page.
pub proof fn lemma_isolation(
    bytes_old: Seq<u8>,
    bytes_new: Seq<u8>,
    a: VirtualMemory,
    b: VirtualMemory,
    contents: Set<Seq<u8>>,
    phys_pages: int,
    w_off: int,
    w_len: int,
    r_off: int,
    r_len: int,
)
    requires
        a.wf(),
        b.wf(),
        a.manager.in_store(contents),
        b.manager.in_store(contents),
        store_keys_wf(contents),
        store_in_phys(contents, phys_pages),
        a.index != b.index,
        bytes_old.len() == bytes_new.len(),
        bytes_old.len() == phys_pages * WASM_PAGE_SIZE,
        0 <= w_off,
        0 <= w_len,
        w_off + w_len <= a.spec_size() * WASM_PAGE_SIZE,
        0 <= r_off,
        0 <= r_len,
        r_off + r_len <= b.spec_size() * WASM_PAGE_SIZE,
        forall|x: int|
            0 <= x < bytes_old.len() && !touches(a.owned(), w_off, w_len, x) ==> bytes_new[x]
                == bytes_old[x],
    ensures
        spec_read(bytes_new, b.owned(), r_off, r_len) == spec_read(
            bytes_old,
            b.owned(),
            r_off,
            r_len,
        ),
{
    let ps = WASM_PAGE_SIZE as int;
    lemma_owned_pages(a, contents, phys_pages);
    lemma_owned_pages(b, contents, phys_pages);
    assert forall|y: int| 0 <= y < r_len implies bytes_new[#[trigger] phys_addr(
        b.owned(),
        r_off + y,
    )] == bytes_old[phys_addr(b.owned(), r_off + y)] by {
        let addr = phys_addr(b.owned(), r_off + y);
        let db = (r_off + y) / ps;
        vstd::arithmetic::div_mod::lemma_fundamental_div_mod(r_off + y, ps);
        assert(0 <= db < b.owned().len()) by {
            vstd::arithmetic::div_mod::lemma_div_is_ordered(0, r_off + y, ps);
            if db >= b.spec_size() {
                vstd::arithmetic::mul::lemma_mul_inequality(b.spec_size(), db, ps);
            }
        }
        assert(0 <= addr < bytes_old.len()) by {
            vstd::arithmetic::mul::lemma_mul_inequality(
                owned_page(b, db) + 1,
                phys_pages,
                ps,
            );
        }
        if touches(a.owned(), w_off, w_len, addr) {
            let w = choose|w: int|
                #![trigger phys_addr(a.owned(), w_off + w)]
                0 <= w < w_len && phys_addr(a.owned(), w_off + w) == addr;
            let da = (w_off + w) / ps;
            vstd::arithmetic::div_mod::lemma_fundamental_div_mod(w_off + w, ps);
            assert(0 <= da < a.owned().len()) by {
                vstd::arithmetic::div_mod::lemma_div_is_ordered(0, w_off + w, ps);
                if da >= a.spec_size() {
                    vstd::arithmetic::mul::lemma_mul_inequality(a.spec_size(), da, ps);
                }
            }
            // the same physical byte means the same physical page
            vstd::arithmetic::div_mod::lemma_fundamental_div_mod_converse(
                addr,
                ps,
                owned_page(a, da),
                (w_off + w) % ps,
            );
            vstd::arithmetic::div_mod::lemma_fundamental_div_mod_converse(
                addr,
                ps,
                owned_page(b, db),
                (r_off + y) % ps,
            );
            // but two different owners never share one
            assert(a.owned()[da] == b.owned()[db]);
            assert(false);
        }
    }
    assert(spec_read(bytes_new, b.owned(), r_off, r_len) =~= spec_read(
        bytes_old,
        b.owned(),
        r_off,
        r_len,
    ));
}

/// The physical page behind logical page `j` of `vm`.
pub open spec fn owned_page(vm: VirtualMemory, j: int) -> int {
    crate::model::page_of(vm.owned()[j])
}

/// Aliasing: two virtual memories with the same owner tag whose cached
/// views both reflect the same store contents are the same address space:
/// same size, same page list, and so the same bytes read at every range.
pub proof fn lemma_aliasing(a: VirtualMemory, b: VirtualMemory, contents: Set<Seq<u8>>)
    requires
        a.index == b.index,
        a.wf(),
        b.wf(),
        a.manager.synced(contents),
        b.manager.synced(contents),
    ensures
        a.owned() == b.owned(),
        a.spec_size() == b.spec_size(),
        forall|bytes: Seq<u8>, off: int, len: int|
            spec_read(bytes, a.owned(), off, len) == #[trigger] spec_read(
                bytes,
                b.owned(),
                off,
                len,
            ),
{
    lemma_sorted_unique(a.manager.view_keys(), b.manager.view_keys());
}

/// Size monotonicity under reload: refreshing a cached view from the store
/// never shrinks an owner, because a cache only ever lags behind the store.
/// Together with `grow`'s exact size change and the unchanged-or-refreshed
/// cache of `read` and `write`, an owner's size never decreases across its
/// own operations.
pub proof fn lemma_reload_monotone(
    before: VirtualMemory,
    after: VirtualMemory,
    contents: Set<Seq<u8>>,
)
    requires
        before.index == after.index,
        before.wf(),
        before.manager.in_store(contents),
        after.manager.synced(contents),
    ensures
        after.spec_size() >= before.spec_size(),
{
    let v1 = before.manager.view_keys();
    let v2 = after.manager.view_keys();
    assert forall|x: Seq<u8>| v1.contains(x) implies #[trigger] v2.contains(x) by {
        let p = choose|p: int| 0 <= p < v1.len() && v1[p] == x;
        assert(contents.contains(v1[p]));
        assert(v2.to_set().contains(x));
    }
    lemma_own_seq_monotone(v1, v2, before.index);
}

} // verus!
