//! The mathematical model of the page table: 4-byte keys tagged with an
//! owner byte, their big-endian ordering, and the subsequence of keys that
//! belong to one owner.

use vstd::prelude::*;

verus! {

/// Size of one physical page in bytes.
pub const WASM_PAGE_SIZE: u64 = 65536;

/// Physical page numbers must fit in the three low bytes of a page-table
/// key, so at most 2^24 pages are ever addressable.
pub const MAX_PHYS_PAGES: u64 = 0x100_0000;

/// A page-table key: one owner byte followed by a 3-byte page number.
pub open spec fn is_key(k: Seq<u8>) -> bool {
    k.len() == 4
}

/// The physical page number held in the three low bytes of a key.
pub open spec fn page_of(k: Seq<u8>) -> int {
    k[1] * 0x10000 + k[2] * 0x100 + k[3]
}

/// The whole key read as a big-endian number; keys sort by this value.
pub open spec fn be_val(k: Seq<u8>) -> int {
    k[0] * 0x100_0000 + page_of(k)
}

/// The key that records ownership of `page` by `owner`.
pub open spec fn key_bytes(owner: u8, page: int) -> Seq<u8> {
    seq![
        owner,
        ((page / 0x10000) % 0x100) as u8,
        ((page / 0x100) % 0x100) as u8,
        (page % 0x100) as u8,
    ]
}

/// Byte-string order as `Ord` on `Vec<u8>` defines it: lexicographic, with
/// a proper prefix sorting before its extensions.
pub open spec fn lex_lt(a: Seq<u8>, b: Seq<u8>) -> bool
    decreases a.len(),
{
    if b.len() == 0 {
        false
    } else if a.len() == 0 {
        true
    } else if a[0] < b[0] {
        true
    } else if a[0] > b[0] {
        false
    } else {
        lex_lt(a.drop_first(), b.drop_first())
    }
}

/// The sequence of byte strings held by a vector of byte vectors.
pub open spec fn keys_view(v: Vec<Vec<u8>>) -> Seq<Seq<u8>> {
    v@.map_values(|k: Vec<u8>| k@)
}

/// Every element is a well-formed key.
pub open spec fn all_keys(s: Seq<Seq<u8>>) -> bool {
    forall|i: int| 0 <= i < s.len() ==> is_key(#[trigger] s[i])
}

/// Strictly ascending by big-endian key value.
pub open spec fn sorted_keys(s: Seq<Seq<u8>>) -> bool {
    forall|i: int, j: int| #![trigger s[i], s[j]] 0 <= i < j < s.len() ==> be_val(s[i]) < be_val(s[j])
}

/// The subsequence of keys carrying `owner`'s tag, in their order in `s`.
pub open spec fn own_seq(s: Seq<Seq<u8>>, owner: u8) -> Seq<Seq<u8>>
    decreases s.len(),
{
    if s.len() == 0 {
        Seq::empty()
    } else if is_key(s[0]) && s[0][0] == owner {
        seq![s[0]] + own_seq(s.drop_first(), owner)
    } else {
        own_seq(s.drop_first(), owner)
    }
}

/// A key determines its owner and page; conversely `key_bytes` rebuilds
/// exactly the key with that owner and page.
pub proof fn lemma_key_bytes_props(owner: u8, page: int)
    requires
        0 <= page < MAX_PHYS_PAGES,
    ensures
        is_key(key_bytes(owner, page)),
        key_bytes(owner, page)[0] == owner,
        page_of(key_bytes(owner, page)) == page,
        be_val(key_bytes(owner, page)) == owner * 0x100_0000 + page,
{
    let k = key_bytes(owner, page);
    assert(0 <= page / 0x10000 < 0x100);
    assert(0 <= (page / 0x100) % 0x100 < 0x100);
    assert(0 <= page % 0x100 < 0x100);
    assert(k[1] == page / 0x10000);
    assert(k[2] == (page / 0x100) % 0x100);
    assert(k[3] == page % 0x100);
    assert(page == 0x100 * (page / 0x100) + page % 0x100) by {
        vstd::arithmetic::div_mod::lemma_fundamental_div_mod(page, 0x100);
    }
    assert(page / 0x100 == 0x100 * ((page / 0x100) / 0x100) + (page / 0x100) % 0x100) by {
        vstd::arithmetic::div_mod::lemma_fundamental_div_mod(page / 0x100, 0x100);
    }
    assert((page / 0x100) / 0x100 == page / 0x10000) by {
        vstd::arithmetic::div_mod::lemma_div_denominator(page, 0x100, 0x100);
    }
    assert(page_of(k) == page);
}

/// Distinct keys have distinct big-endian values.
pub proof fn lemma_be_val_injective(a: Seq<u8>, b: Seq<u8>)
    requires
        is_key(a),
        is_key(b),
        be_val(a) == be_val(b),
    ensures
        a == b,
{
    assert(a[0] == b[0]);
    assert(a[1] == b[1]);
    assert(a[2] == b[2]);
    assert(a[3] == b[3]);
    assert(a =~= b);
}

/// On 4-byte keys, byte-lexicographic order is exactly order by big-endian
/// value.
pub proof fn lemma_lex_lt_iff_be_val_lt(a: Seq<u8>, b: Seq<u8>)
    requires
        is_key(a),
        is_key(b),
    ensures
        lex_lt(a, b) <==> be_val(a) < be_val(b),
{
    let a1 = a.drop_first();
    let b1 = b.drop_first();
    let a2 = a1.drop_first();
    let b2 = b1.drop_first();
    let a3 = a2.drop_first();
    let b3 = b2.drop_first();
    let a4 = a3.drop_first();
    let b4 = b3.drop_first();
    assert(a3.len() == 1 && b3.len() == 1);
    assert(a4.len() == 0 && b4.len() == 0);
    assert(!lex_lt(a4, b4));
    assert(a3[0] == a[3] && b3[0] == b[3]);
    assert(a2[0] == a[2] && b2[0] == b[2]);
    assert(a1[0] == a[1] && b1[0] == b[1]);
    assert(lex_lt(a3, b3) <==> a[3] < b[3]);
    assert(lex_lt(a2, b2) <==> (a[2] < b[2] || (a[2] == b[2] && a[3] < b[3])));
    assert(lex_lt(a1, b1) <==> (a[1] < b[1] || (a[1] == b[1] && (a[2] < b[2] || (a[2] == b[2]
        && a[3] < b[3])))));
    assert(lex_lt(a, b) <==> (a[0] < b[0] || (a[0] == b[0] && (a[1] < b[1] || (a[1] == b[1] && (
    a[2] < b[2] || (a[2] == b[2] && a[3] < b[3])))))));
}

/// Splitting a sequence splits the owner subsequence.
pub proof fn lemma_own_seq_concat(s1: Seq<Seq<u8>>, s2: Seq<Seq<u8>>, owner: u8)
    ensures
        own_seq(s1 + s2, owner) == own_seq(s1, owner) + own_seq(s2, owner),
    decreases s1.len(),
{
    if s1.len() == 0 {
        assert(s1 + s2 =~= s2);
        assert(own_seq(s1, owner) + own_seq(s2, owner) =~= own_seq(s2, owner));
    } else {
        assert((s1 + s2).drop_first() =~= s1.drop_first() + s2);
        assert((s1 + s2)[0] == s1[0]);
        lemma_own_seq_concat(s1.drop_first(), s2, owner);
        if is_key(s1[0]) && s1[0][0] == owner {
            assert(seq![s1[0]] + (own_seq(s1.drop_first(), owner) + own_seq(s2, owner)) =~= (seq![
                s1[0],
            ] + own_seq(s1.drop_first(), owner)) + own_seq(s2, owner));
        }
    }
}

/// Every element of the owner subsequence is a key of that owner and occurs
/// in the underlying sequence.
pub proof fn lemma_own_seq_props(s: Seq<Seq<u8>>, owner: u8)
    ensures
        own_seq(s, owner).len() <= s.len(),
        forall|j: int| 0 <= j < own_seq(s, owner).len() ==> is_key(#[trigger] own_seq(s, owner)[j])
            && own_seq(s, owner)[j][0] == owner && s.contains(own_seq(s, owner)[j]),
    decreases s.len(),
{
    if s.len() == 0 {
    } else {
        let rest = s.drop_first();
        lemma_own_seq_props(rest, owner);
        assert(forall|x: Seq<u8>| rest.contains(x) ==> s.contains(x)) by {
            assert forall|x: Seq<u8>| rest.contains(x) implies s.contains(x) by {
                let i = choose|i: int| 0 <= i < rest.len() && rest[i] == x;
                assert(s[i + 1] == x);
            }
        }
        if is_key(s[0]) && s[0][0] == owner {
            assert(own_seq(s, owner) == seq![s[0]] + own_seq(rest, owner));
            assert(s.contains(s[0]));
            assert forall|j: int| 0 <= j < own_seq(s, owner).len() implies is_key(
                #[trigger] own_seq(s, owner)[j],
            ) && own_seq(s, owner)[j][0] == owner && s.contains(own_seq(s, owner)[j]) by {
                if j == 0 {
                    assert(own_seq(s, owner)[0] == s[0]);
                } else {
                    assert(own_seq(s, owner)[j] == own_seq(rest, owner)[j - 1]);
                }
            }
        }
    }
}

/// A key of the owner that occurs in `s` occurs in the owner subsequence.
pub proof fn lemma_own_seq_contains(s: Seq<Seq<u8>>, owner: u8, x: Seq<u8>)
    requires
        s.contains(x),
        is_key(x),
        x[0] == owner,
    ensures
        own_seq(s, owner).contains(x),
    decreases s.len(),
{
    let i = choose|i: int| 0 <= i < s.len() && s[i] == x;
    if i == 0 {
        assert(own_seq(s, owner)[0] == x);
        assert(own_seq(s, owner).contains(x));
    } else {
        let rest = s.drop_first();
        assert(rest[i - 1] == x);
        assert(rest.contains(x));
        lemma_own_seq_contains(rest, owner, x);
        let j = choose|j: int| 0 <= j < own_seq(rest, owner).len() && own_seq(rest, owner)[j] == x;
        if is_key(s[0]) && s[0][0] == owner {
            assert(own_seq(s, owner)[j + 1] == x);
        } else {
            assert(own_seq(s, owner)[j] == x);
        }
        assert(own_seq(s, owner).contains(x));
    }
}

/// The owner subsequence of a sorted key sequence is sorted.
pub proof fn lemma_own_seq_sorted(s: Seq<Seq<u8>>, owner: u8)
    requires
        sorted_keys(s),
    ensures
        sorted_keys(own_seq(s, owner)),
    decreases s.len(),
{
    if s.len() == 0 {
    } else {
        let rest = s.drop_first();
        assert(forall|i: int, j: int|
            #![trigger rest[i], rest[j]]
            0 <= i < j < rest.len() ==> be_val(rest[i]) < be_val(rest[j])) by {
            assert forall|i: int, j: int| 0 <= i < j < rest.len() implies be_val(#[trigger] rest[i])
                < be_val(#[trigger] rest[j]) by {
                assert(rest[i] == s[i + 1] && rest[j] == s[j + 1]);
            }
        }
        lemma_own_seq_sorted(rest, owner);
        lemma_own_seq_props(rest, owner);
        if is_key(s[0]) && s[0][0] == owner {
            let own = own_seq(s, owner);
            assert(own == seq![s[0]] + own_seq(rest, owner));
            assert forall|i: int, j: int| 0 <= i < j < own.len() implies be_val(#[trigger] own[i])
                < be_val(#[trigger] own[j]) by {
                if i == 0 {
                    let y = own_seq(rest, owner)[j - 1];
                    assert(own[j] == y);
                    let m = choose|m: int| 0 <= m < rest.len() && rest[m] == y;
                    assert(s[m + 1] == y);
                    assert(be_val(s[0]) < be_val(s[m + 1]));
                } else {
                    assert(own[i] == own_seq(rest, owner)[i - 1]);
                    assert(own[j] == own_seq(rest, owner)[j - 1]);
                }
            }
        }
    }
}

/// Taking one more element extends the owner subsequence by that element
/// exactly when it carries the owner's tag.
pub proof fn lemma_own_seq_take_snoc(s: Seq<Seq<u8>>, owner: u8, i: int)
    requires
        0 <= i < s.len(),
    ensures
        own_seq(s.take(i + 1), owner) == if is_key(s[i]) && s[i][0] == owner {
            own_seq(s.take(i), owner).push(s[i])
        } else {
            own_seq(s.take(i), owner)
        },
{
    let single = seq![s[i]];
    assert(s.take(i + 1) =~= s.take(i) + single);
    lemma_own_seq_concat(s.take(i), single, owner);
    assert(single.drop_first() =~= Seq::<Seq<u8>>::empty());
    assert(own_seq(Seq::<Seq<u8>>::empty(), owner) =~= Seq::<Seq<u8>>::empty());
    if is_key(s[i]) && s[i][0] == owner {
        assert(own_seq(single, owner) =~= single);
        assert(own_seq(s.take(i), owner) + single =~= own_seq(s.take(i), owner).push(s[i]));
    } else {
        assert(own_seq(single, owner) =~= Seq::<Seq<u8>>::empty());
        assert(own_seq(s.take(i), owner) + own_seq(single, owner) =~= own_seq(s.take(i), owner));
    }
}

/// The owner subsequence of a prefix is a prefix of the owner subsequence.
pub proof fn lemma_own_seq_prefix(s: Seq<Seq<u8>>, owner: u8, i: int)
    requires
        0 <= i <= s.len(),
    ensures
        own_seq(s.take(i), owner).len() <= own_seq(s, owner).len(),
        forall|j: int|
            0 <= j < own_seq(s.take(i), owner).len() ==> #[trigger] own_seq(s.take(i), owner)[j]
                == own_seq(s, owner)[j],
{
    assert(s =~= s.take(i) + s.skip(i));
    lemma_own_seq_concat(s.take(i), s.skip(i), owner);
}

/// The physical byte offset backing logical byte `b` of an owner whose
/// pages, in logical order, are `owned`.
pub open spec fn phys_addr(owned: Seq<Seq<u8>>, b: int) -> int {
    page_of(owned[b / WASM_PAGE_SIZE as int]) * WASM_PAGE_SIZE + b % WASM_PAGE_SIZE as int
}

/// The bytes an owner sees at logical range `[offset, offset + len)`, read
/// out of the physical bytes through its page list.
pub open spec fn spec_read(bytes: Seq<u8>, owned: Seq<Seq<u8>>, offset: int, len: int) -> Seq<u8> {
    Seq::new(len as nat, |i: int| bytes[phys_addr(owned, offset + i)])
}

/// Whether physical byte `a` backs one of the logical bytes
/// `[offset, offset + len)` of the owner with page list `owned`.
pub open spec fn touches(owned: Seq<Seq<u8>>, offset: int, len: int, a: int) -> bool {
    exists|i: int|
        #![trigger phys_addr(owned, offset + i)]
        0 <= i < len && phys_addr(owned, offset + i) == a
}

/// Two strictly sorted key sequences holding the same key set are equal.
pub proof fn lemma_sorted_unique(c1: Seq<Seq<u8>>, c2: Seq<Seq<u8>>)
    requires
        sorted_keys(c1),
        sorted_keys(c2),
        all_keys(c1),
        all_keys(c2),
        c1.to_set() == c2.to_set(),
    ensures
        c1 == c2,
    decreases c1.len(),
{
    if c1.len() == 0 {
        if c2.len() > 0 {
            assert(c2.contains(c2[0]));
            assert(c1.to_set().contains(c2[0]));
        }
        assert(c1 =~= c2);
    } else {
        assert(c1.contains(c1[0]));
        assert(c2.to_set().contains(c1[0]));
        let j = choose|j: int| 0 <= j < c2.len() && c2[j] == c1[0];
        assert(c1.to_set().contains(c2[0]));
        let i = choose|i: int| 0 <= i < c1.len() && c1[i] == c2[0];
        assert(be_val(c1[0]) <= be_val(c1[i]));
        assert(be_val(c2[0]) <= be_val(c2[j]));
        lemma_be_val_injective(c1[0], c2[0]);
        let r1 = c1.drop_first();
        let r2 = c2.drop_first();
        assert forall|x: Seq<u8>| #[trigger] r1.contains(x) implies r2.contains(x) by {
            let p = choose|p: int| 0 <= p < r1.len() && r1[p] == x;
            assert(c1[p + 1] == x);
            assert(c1.contains(x));
            assert(c2.to_set().contains(x));
            let q = choose|q: int| 0 <= q < c2.len() && c2[q] == x;
            assert(be_val(c1[0]) < be_val(x));
            assert(q != 0);
            assert(r2[q - 1] == x);
        }
        assert forall|x: Seq<u8>| #[trigger] r2.contains(x) implies r1.contains(x) by {
            let p = choose|p: int| 0 <= p < r2.len() && r2[p] == x;
            assert(c2[p + 1] == x);
            assert(c2.contains(x));
            assert(c1.to_set().contains(x));
            let q = choose|q: int| 0 <= q < c1.len() && c1[q] == x;
            assert(be_val(c2[0]) < be_val(x));
            assert(q != 0);
            assert(r1[q - 1] == x);
        }
        assert(r1.to_set() =~= r2.to_set());
        assert(sorted_keys(r1) && all_keys(r1)) by {
            assert(forall|p: int| 0 <= p < r1.len() ==> #[trigger] r1[p] == c1[p + 1]);
        }
        assert(sorted_keys(r2) && all_keys(r2)) by {
            assert(forall|p: int| 0 <= p < r2.len() ==> #[trigger] r2[p] == c2[p + 1]);
        }
        lemma_sorted_unique(r1, r2);
        assert forall|p: int| 0 <= p < c1.len() implies c1[p] == c2[p] by {
            if p > 0 {
                assert(r1[p - 1] == c1[p]);
                assert(r2[p - 1] == c2[p]);
                assert(r1[p - 1] == r2[p - 1]);
            }
        }
        assert(c1 =~= c2);
    }
}

/// A strictly sorted key sequence has no duplicates.
pub proof fn lemma_sorted_no_duplicates(s: Seq<Seq<u8>>)
    requires
        sorted_keys(s),
    ensures
        s.no_duplicates(),
{
    assert forall|p: int, q: int|
        0 <= p < s.len() && 0 <= q < s.len() && p != q implies s[p] != s[q] by {
        if p < q {
            assert(be_val(s[p]) < be_val(s[q]));
        } else {
            assert(be_val(s[q]) < be_val(s[p]));
        }
    }
}

/// A cache that holds a subset of another's keys holds at most as many of
/// each owner's pages: reloading from the store never shrinks an owner.
pub proof fn lemma_own_seq_monotone(c1: Seq<Seq<u8>>, c2: Seq<Seq<u8>>, owner: u8)
    requires
        sorted_keys(c1),
        forall|x: Seq<u8>| c1.contains(x) ==> c2.contains(x),
    ensures
        own_seq(c1, owner).len() <= own_seq(c2, owner).len(),
{
    broadcast use vstd::seq_lib::seq_to_set_is_finite;

    let o1 = own_seq(c1, owner);
    let o2 = own_seq(c2, owner);
    lemma_own_seq_props(c1, owner);
    lemma_own_seq_sorted(c1, owner);
    lemma_sorted_no_duplicates(o1);
    assert forall|x: Seq<u8>| #[trigger] o1.to_set().contains(x) implies o2.to_set().contains(
        x,
    ) by {
        let p = choose|p: int| 0 <= p < o1.len() && o1[p] == x;
        assert(c1.contains(x) && is_key(x) && x[0] == owner);
        lemma_own_seq_contains(c2, owner, x);
    }
    o1.unique_seq_to_set();
    o2.lemma_cardinality_of_set();
    vstd::set_lib::lemma_len_subset(o1.to_set(), o2.to_set());
}

/// The page table's canonical view: its keys in ascending order. By
/// `lemma_sorted_unique` any sorted sequence holding exactly the stored keys
/// is this one.
pub open spec fn table_view(contents: Set<Seq<u8>>) -> Seq<Seq<u8>> {
    choose|s: Seq<Seq<u8>>|
        #![trigger sorted_keys(s)]
        sorted_keys(s) && all_keys(s) && s.to_set() == contents
}

/// How many pages `owner` holds in the store itself: what `size` reports
/// right after a reload.
pub open spec fn owner_size(contents: Set<Seq<u8>>, owner: u8) -> int {
    own_seq(table_view(contents), owner).len() as int
}

/// A sorted witness pins the canonical view down.
pub proof fn lemma_table_view_is(s: Seq<Seq<u8>>, contents: Set<Seq<u8>>)
    requires
        sorted_keys(s),
        all_keys(s),
        s.to_set() == contents,
    ensures
        table_view(contents) == s,
{
    assert(exists|x: Seq<Seq<u8>>|
        #![trigger sorted_keys(x)]
        sorted_keys(x) && all_keys(x) && x.to_set() == contents) by {
        assert(sorted_keys(s) && all_keys(s) && s.to_set() == contents);
    }
    let w = table_view(contents);
    lemma_sorted_unique(w, s);
}

} // verus!
