//! Specification-level model of a tree file image.
//!
//! A file image is a header of 12 bytes followed by `page_count` pages of
//! `page_size` bytes. These functions decode the image and state what a
//! well-formed file looks like at the leaf level: which pages are leaves,
//! what they hold, and how the backward leaf chain is threaded.

use crate::header::{hdr_page_count, hdr_page_size, hdr_root, page_bytes};
use crate::key::{key_lt, Key, Query, QueryResult};
use crate::page::{
    entries_of, extra_of, key_capacity_of, key_of, keys_sorted, num_keys_of, page_type_of,
    slot_of, INNER_TYPE, LEAF_TYPE, NO_PAGE,
};
use vstd::prelude::*;

verus! {

/// Number of pages the header announces.
pub open spec fn file_page_count(f: Seq<u8>) -> int {
    hdr_page_count(f) as int
}

pub open spec fn is_leaf_page(f: Seq<u8>, ps: int, pn: int) -> bool {
    page_type_of(page_bytes(f, ps, pn)) == LEAF_TYPE
}

pub open spec fn is_inner_page(f: Seq<u8>, ps: int, pn: int) -> bool {
    page_type_of(page_bytes(f, ps, pn)) == INNER_TYPE
}

/// The page number of the nearest leaf strictly below `pn`, or -1.
pub open spec fn leaf_prev(f: Seq<u8>, ps: int, pn: int) -> int
    decreases pn,
{
    if pn <= 0 {
        -1
    } else if is_leaf_page(f, ps, pn - 1) {
        pn - 1
    } else {
        leaf_prev(f, ps, pn - 1)
    }
}

/// The entries of all leaf pages with page number below `n`, concatenated
/// in page order. For a file built by the loader this is the whole loaded
/// source once `n` reaches the page count.
pub open spec fn leaves_entries_upto(f: Seq<u8>, ps: int, n: int) -> Seq<(Key, u32)>
    decreases n,
{
    if n <= 0 {
        Seq::empty()
    } else {
        leaves_entries_upto(f, ps, n - 1) + if is_leaf_page(f, ps, n - 1) {
            entries_of(page_bytes(f, ps, n - 1))
        } else {
            Seq::empty()
        }
    }
}

/// The header is consistent with the image: its `page_size` is `ps`, the
/// image holds exactly the announced pages, and the root is the last page
/// written.
pub open spec fn wf_header(f: Seq<u8>, ps: int) -> bool {
    &&& ps >= 32
    &&& hdr_page_size(f) == ps
    &&& file_page_count(f) >= 1
    &&& f.len() == 12 + file_page_count(f) * ps
    &&& hdr_root(f) == file_page_count(f) - 1
}

/// A leaf page holds between one entry and its capacity, with strictly
/// ascending keys.
pub open spec fn wf_leaf_page(f: Seq<u8>, ps: int, pn: int) -> bool {
    &&& is_leaf_page(f, ps, pn)
    &&& 1 <= num_keys_of(page_bytes(f, ps, pn)) as int <= key_capacity_of(ps)
    &&& keys_sorted(page_bytes(f, ps, pn))
}

/// What the `extra` field of leaf `pn` must hold: the page number of the
/// previously written leaf, or the sentinel for the first leaf.
pub open spec fn leaf_chain_ok(f: Seq<u8>, ps: int, pn: int) -> bool {
    extra_of(page_bytes(f, ps, pn)) == if leaf_prev(f, ps, pn) == -1 {
        NO_PAGE
    } else {
        leaf_prev(f, ps, pn) as u32
    }
}

/// Leaf-level well-formedness of a whole file image:
/// - every page is typed as a leaf or an inner node;
/// - every leaf is non-empty, within capacity and sorted;
/// - the backward chain threads each leaf to the leaf written before it;
/// - leaves are globally ordered: all keys of an earlier leaf lie strictly
///   below all keys of a later one.
pub open spec fn wf_leaves(f: Seq<u8>, ps: int) -> bool {
    &&& (forall|pn: int|
        0 <= pn < file_page_count(f) ==> is_leaf_page(f, ps, pn) || is_inner_page(f, ps, pn))
    &&& (forall|pn: int|
        0 <= pn < file_page_count(f) && is_leaf_page(f, ps, pn) ==> wf_leaf_page(f, ps, pn))
    &&& (forall|pn: int|
        0 <= pn < file_page_count(f) && is_leaf_page(f, ps, pn) ==> leaf_chain_ok(f, ps, pn))
    &&& (forall|p: int, q: int|
        0 <= p < q < file_page_count(f) && is_leaf_page(f, ps, p) && is_leaf_page(f, ps, q)
            ==> key_lt(
            key_of(page_bytes(f, ps, p), num_keys_of(page_bytes(f, ps, p)) as int - 1),
            key_of(page_bytes(f, ps, q), 0),
        ))
}


/// An inner page's references are sound: its separator count is within
/// capacity and every child it can route to — the per-slot children and
/// the rightmost child in `extra` — was written before it.
pub open spec fn wf_inner_refs(f: Seq<u8>, ps: int, pn: int) -> bool {
    &&& num_keys_of(page_bytes(f, ps, pn)) as int <= key_capacity_of(ps)
    &&& (forall|i: int|
        0 <= i < num_keys_of(page_bytes(f, ps, pn)) ==> (#[trigger] slot_of(
            page_bytes(f, ps, pn),
            i,
        )) < pn)
    &&& (extra_of(page_bytes(f, ps, pn)) as int) < pn
}

/// Every inner page of the image routes only to pages written before it.
pub open spec fn wf_inners(f: Seq<u8>, ps: int) -> bool {
    forall|pn: int|
        0 <= pn < file_page_count(f) && is_inner_page(f, ps, pn) ==> wf_inner_refs(f, ps, pn)
}

/// A page decodes identically in two file images that agree on its bytes.
pub proof fn lemma_page_bytes_stable(f1: Seq<u8>, f2: Seq<u8>, ps: int, pn: int)
    requires
        ps >= 1,
        0 <= pn,
        12 + (pn + 1) * ps <= f1.len(),
        12 + (pn + 1) * ps <= f2.len(),
        forall|k: int| 12 + pn * ps <= k < 12 + (pn + 1) * ps ==> f1[k] == f2[k],
    ensures
        page_bytes(f2, ps, pn) == page_bytes(f1, ps, pn),
{
    assert((pn + 1) * ps == pn * ps + ps) by (nonlinear_arith);
    assert(pn * ps >= 0) by (nonlinear_arith)
        requires
            pn >= 0 && ps >= 1,
    ;
    assert(page_bytes(f2, ps, pn) =~= page_bytes(f1, ps, pn));
}

/// `leaf_prev` is the same in two file images that agree on the bytes of
/// the first `n` pages.
pub proof fn lemma_leaf_prev_stable(f1: Seq<u8>, f2: Seq<u8>, ps: int, n: int)
    requires
        ps >= 1,
        0 <= n,
        12 + n * ps <= f1.len(),
        12 + n * ps <= f2.len(),
        forall|k: int| 12 <= k < 12 + n * ps ==> f1[k] == f2[k],
    ensures
        leaf_prev(f2, ps, n) == leaf_prev(f1, ps, n),
        forall|pn: int|
            0 <= pn < n ==> is_leaf_page(f2, ps, pn) == is_leaf_page(f1, ps, pn)
                && is_inner_page(f2, ps, pn) == is_inner_page(f1, ps, pn),
    decreases n,
{
    if n > 0 {
        assert(n * ps == (n - 1) * ps + ps) by (nonlinear_arith);
        assert((n - 1) * ps >= 0) by (nonlinear_arith)
            requires
                n >= 1 && ps >= 1,
        ;
        lemma_page_bytes_stable(f1, f2, ps, n - 1);
        lemma_leaf_prev_stable(f1, f2, ps, n - 1);
    }
}

/// `leaves_entries_upto` is the same in two file images that agree on the
/// bytes of the first `n` pages.
pub proof fn lemma_leaves_entries_stable(f1: Seq<u8>, f2: Seq<u8>, ps: int, n: int)
    requires
        ps >= 1,
        0 <= n,
        12 + n * ps <= f1.len(),
        12 + n * ps <= f2.len(),
        forall|k: int| 12 <= k < 12 + n * ps ==> f1[k] == f2[k],
    ensures
        leaves_entries_upto(f2, ps, n) == leaves_entries_upto(f1, ps, n),
    decreases n,
{
    if n > 0 {
        assert(n * ps == (n - 1) * ps + ps) by (nonlinear_arith);
        assert((n - 1) * ps >= 0) by (nonlinear_arith)
            requires
                n >= 1 && ps >= 1,
        ;
        lemma_page_bytes_stable(f1, f2, ps, n - 1);
        lemma_leaves_entries_stable(f1, f2, ps, n - 1);
    }
}

/// Pages in `[a, b)` that are all inner nodes contribute no leaf entries.
pub proof fn lemma_leaves_entries_inner_range(f: Seq<u8>, ps: int, a: int, b: int)
    requires
        0 <= a <= b,
        forall|pn: int| a <= pn < b ==> !is_leaf_page(f, ps, pn),
    ensures
        leaves_entries_upto(f, ps, b) == leaves_entries_upto(f, ps, a),
    decreases b - a,
{
    if b > a {
        lemma_leaves_entries_inner_range(f, ps, a, b - 1);
        assert(leaves_entries_upto(f, ps, b) =~= leaves_entries_upto(f, ps, b - 1));
    }
}

/// If `a` is a leaf and no page in `(a, b)` is a leaf, the nearest leaf
/// below `b` is `a`.
pub proof fn lemma_leaf_prev_skip(f: Seq<u8>, ps: int, a: int, b: int)
    requires
        0 <= a < b,
        is_leaf_page(f, ps, a),
        forall|q: int| a < q < b ==> !is_leaf_page(f, ps, q),
    ensures
        leaf_prev(f, ps, b) == a,
    decreases b,
{
    if b - 1 > a {
        lemma_leaf_prev_skip(f, ps, a, b - 1);
    }
}

/// If no page below `b` is a leaf, there is no previous leaf.
pub proof fn lemma_leaf_prev_none(f: Seq<u8>, ps: int, b: int)
    requires
        0 <= b,
        forall|q: int| 0 <= q < b ==> !is_leaf_page(f, ps, q),
    ensures
        leaf_prev(f, ps, b) == -1,
    decreases b,
{
    if b > 0 {
        lemma_leaf_prev_none(f, ps, b - 1);
    }
}

/// Appending one page to a file image of `n` pages: the leaf-entry
/// concatenation over `n + 1` pages grows by the new page's entries when
/// it is a leaf, and not at all when it is an inner page.
pub proof fn lemma_leaves_entries_snoc(f1: Seq<u8>, f2: Seq<u8>, ps: int, n: int)
    requires
        ps >= 1,
        0 <= n,
        f1.len() == 12 + n * ps,
        12 + (n + 1) * ps <= f2.len(),
        f1.len() <= f2.len(),
        forall|k: int| 0 <= k < f1.len() ==> f1[k] == f2[k],
    ensures
        leaves_entries_upto(f2, ps, n + 1) == leaves_entries_upto(f1, ps, n) + if is_leaf_page(
            f2,
            ps,
            n,
        ) {
            entries_of(page_bytes(f2, ps, n))
        } else {
            Seq::<(Key, u32)>::empty()
        },
{
    assert((n + 1) * ps == n * ps + ps) by (nonlinear_arith);
    lemma_leaves_entries_stable(f1, f2, ps, n);
    if !is_leaf_page(f2, ps, n) {
        assert(leaves_entries_upto(f2, ps, n + 1) =~= leaves_entries_upto(f2, ps, n));
    }
}

/// `leaf_prev` characterized: it lies below `pn`, is itself a leaf when
/// it exists, and no leaf lies between it and `pn`.
pub proof fn lemma_leaf_prev_props(f: Seq<u8>, ps: int, pn: int)
    requires
        0 <= pn,
    ensures
        -1 <= leaf_prev(f, ps, pn) < pn,
        leaf_prev(f, ps, pn) >= 0 ==> is_leaf_page(f, ps, leaf_prev(f, ps, pn)),
        forall|q: int| leaf_prev(f, ps, pn) < q < pn ==> !is_leaf_page(f, ps, q),
    decreases pn,
{
    if pn > 0 && !is_leaf_page(f, ps, pn - 1) {
        lemma_leaf_prev_props(f, ps, pn - 1);
    }
}

/// The leaf pages with page number below `n`, in ascending page order.
pub open spec fn leaf_pages_upto(f: Seq<u8>, ps: int, n: int) -> Seq<int>
    decreases n,
{
    if n <= 0 {
        Seq::empty()
    } else if is_leaf_page(f, ps, n - 1) {
        leaf_pages_upto(f, ps, n - 1).push(n - 1)
    } else {
        leaf_pages_upto(f, ps, n - 1)
    }
}

/// The pages visited by following the `extra` back-pointer from page
/// `pn`; the walk stops at any pointer that does not descend, which for
/// a well-formed file is exactly the sentinel on the first-written leaf.
pub open spec fn back_chain(f: Seq<u8>, ps: int, pn: int) -> Seq<int>
    decreases pn,
{
    let e = extra_of(page_bytes(f, ps, pn)) as int;
    if 0 <= e < pn {
        seq![pn] + back_chain(f, ps, e)
    } else {
        seq![pn]
    }
}

/// The entries met by the same walk, each leaf scanned from its last
/// entry back to its first.
pub open spec fn back_walk_entries(f: Seq<u8>, ps: int, pn: int) -> Seq<(Key, u32)>
    decreases pn,
{
    let e = extra_of(page_bytes(f, ps, pn)) as int;
    if 0 <= e < pn {
        entries_of(page_bytes(f, ps, pn)).reverse() + back_walk_entries(f, ps, e)
    } else {
        entries_of(page_bytes(f, ps, pn)).reverse()
    }
}

/// No leaves in `[a, b)` means no new leaf pages are listed.
proof fn lemma_leaf_pages_gap(f: Seq<u8>, ps: int, a: int, b: int)
    requires
        0 <= a <= b,
        forall|q: int| a <= q < b ==> !is_leaf_page(f, ps, q),
    ensures
        leaf_pages_upto(f, ps, b) == leaf_pages_upto(f, ps, a),
    decreases b - a,
{
    if b > a {
        lemma_leaf_pages_gap(f, ps, a, b - 1);
    }
}

/// The back-pointer walk from leaf `pn` visits exactly the leaves at or
/// below `pn` in reverse page order, and meets exactly their entries in
/// reverse order.
pub proof fn lemma_back_walk(f: Seq<u8>, ps: int, pn: int)
    requires
        wf_leaves(f, ps),
        file_page_count(f) <= 0xffff_ffff,
        0 <= pn < file_page_count(f),
        is_leaf_page(f, ps, pn),
    ensures
        back_chain(f, ps, pn) == leaf_pages_upto(f, ps, pn + 1).reverse(),
        back_walk_entries(f, ps, pn) == leaves_entries_upto(f, ps, pn + 1).reverse(),
    decreases pn,
{
    lemma_leaf_prev_props(f, ps, pn);
    let p = leaf_prev(f, ps, pn);
    assert(leaf_chain_ok(f, ps, pn));
    let e = extra_of(page_bytes(f, ps, pn)) as int;
    if p == -1 {
        assert(e == NO_PAGE);
        assert(!(0 <= e < pn));
        lemma_leaf_pages_gap(f, ps, 0, pn);
        lemma_leaves_entries_inner_range(f, ps, 0, pn);
        assert(back_chain(f, ps, pn) =~= leaf_pages_upto(f, ps, pn + 1).reverse());
        assert(back_walk_entries(f, ps, pn) =~= leaves_entries_upto(f, ps, pn + 1).reverse());
    } else {
        assert(e == p);
        lemma_back_walk(f, ps, p);
        lemma_leaf_pages_gap(f, ps, p + 1, pn);
        lemma_leaves_entries_inner_range(f, ps, p + 1, pn);
        assert(back_chain(f, ps, pn) =~= leaf_pages_upto(f, ps, pn + 1).reverse());
        assert(back_walk_entries(f, ps, pn) =~= leaves_entries_upto(f, ps, pn + 1).reverse());
    }
}

/// Law: in a file built from a non-empty source, following the `extra`
/// back-pointer from the last-written leaf visits every leaf exactly
/// once, in write order reversed, terminating at the sentinel; and the
/// entries met along the walk are exactly the loaded source, reversed.
pub proof fn theorem_reverse_walk(f: Seq<u8>, ps: int, entries: Seq<(Key, u32)>)
    requires
        wf_header(f, ps),
        wf_leaves(f, ps),
        leaves_entries_upto(f, ps, file_page_count(f)) == entries,
        entries.len() >= 1,
    ensures
        leaf_prev(f, ps, file_page_count(f)) >= 0,
        back_chain(f, ps, leaf_prev(f, ps, file_page_count(f))) == leaf_pages_upto(
            f,
            ps,
            file_page_count(f),
        ).reverse(),
        back_walk_entries(f, ps, leaf_prev(f, ps, file_page_count(f))) == entries.reverse(),
{
    let pc = file_page_count(f);
    lemma_leaf_prev_props(f, ps, pc);
    let last = leaf_prev(f, ps, pc);
    if last == -1 {
        // A file with no leaf holds no entries at all.
        lemma_leaves_entries_inner_range(f, ps, 0, pc);
        assert(leaves_entries_upto(f, ps, 0) =~= Seq::<(Key, u32)>::empty());
        assert(false);
    }
    lemma_back_walk(f, ps, last);
    lemma_leaf_pages_gap(f, ps, last + 1, pc);
    lemma_leaves_entries_inner_range(f, ps, last + 1, pc);
}

/// Position `i` of the leaf-entry concatenation lies in some leaf.
proof fn lemma_leaves_entries_member(f: Seq<u8>, ps: int, n: int, i: int)
    requires
        0 <= i < leaves_entries_upto(f, ps, n).len(),
    ensures
        exists|pn: int, j: int|
            {
                &&& 0 <= pn < n
                &&& is_leaf_page(f, ps, pn)
                &&& 0 <= j < entries_of(page_bytes(f, ps, pn)).len()
                &&& #[trigger] entries_of(page_bytes(f, ps, pn))[j] == leaves_entries_upto(
                    f,
                    ps,
                    n,
                )[i]
            },
    decreases n,
{
    let prefix = leaves_entries_upto(f, ps, n - 1);
    if i < prefix.len() {
        lemma_leaves_entries_member(f, ps, n - 1, i);
        let (pn, j) = choose|pn: int, j: int|
            {
                &&& 0 <= pn < n - 1
                &&& is_leaf_page(f, ps, pn)
                &&& 0 <= j < entries_of(page_bytes(f, ps, pn)).len()
                &&& #[trigger] entries_of(page_bytes(f, ps, pn))[j] == prefix[i]
            };
        assert(entries_of(page_bytes(f, ps, pn))[j] == leaves_entries_upto(f, ps, n)[i]);
    } else {
        assert(is_leaf_page(f, ps, n - 1));
        let j = i - prefix.len();
        assert(entries_of(page_bytes(f, ps, n - 1))[j] == leaves_entries_upto(f, ps, n)[i]);
    }
}

/// Law: every entry of the loaded source is stored in some leaf of the
/// image, at a position holding exactly its key and value.
pub proof fn theorem_every_entry_stored(f: Seq<u8>, ps: int, entries: Seq<(Key, u32)>, i: int)
    requires
        leaves_entries_upto(f, ps, file_page_count(f)) == entries,
        0 <= i < entries.len(),
    ensures
        exists|pn: int, j: int|
            {
                &&& 0 <= pn < file_page_count(f)
                &&& is_leaf_page(f, ps, pn)
                &&& 0 <= j < entries_of(page_bytes(f, ps, pn)).len()
                &&& #[trigger] entries_of(page_bytes(f, ps, pn))[j] == entries[i]
            },
{
    lemma_leaves_entries_member(f, ps, file_page_count(f), i);
}

/// The walk is over: the inspected entry lies below the query's asset,
/// or below its start date.
pub open spec fn walk_ends(e: (Key, u32), q: Query) -> bool {
    e.0.asset_id < q.asset_id || e.0.date < q.start_date
}

/// The inspected entry is passed over: before the first result, anything
/// above the window or not yet visible at the as-of timestamp; after a
/// result, anything on an already-answered date or not yet visible.
pub open spec fn walk_skips(e: (Key, u32), q: Query, last_yielded: Option<u32>) -> bool {
    match last_yielded {
        None => e.0.asset_id > q.asset_id || e.0.date > q.end_date || e.0.timestamp
            > q.timestamp,
        Some(d) => d == e.0.date || e.0.timestamp > q.timestamp,
    }
}

/// The answer the query walk owes when it stands just above position
/// `pos` of the entry sequence, scanning backward, with `last_yielded`
/// recording the date answered last: for each date in the window, in
/// descending order, the observation with the largest timestamp not
/// above the query's.
pub open spec fn asof_results(
    entries: Seq<(Key, u32)>,
    q: Query,
    last_yielded: Option<u32>,
    pos: int,
) -> Seq<QueryResult>
    decreases pos,
{
    if pos <= 0 || pos > entries.len() {
        Seq::empty()
    } else {
        let e = entries[pos - 1];
        if walk_ends(e, q) {
            Seq::empty()
        } else if walk_skips(e, q, last_yielded) {
            asof_results(entries, q, last_yielded, pos - 1)
        } else {
            seq![QueryResult { id: q.id, key: e.0, value: e.1 }] + asof_results(
                entries,
                q,
                Some(e.0.date),
                pos - 1,
            )
        }
    }
}

/// A leaf's entries sit in the leaf-entry concatenation at the offset
/// given by the leaves before it.
pub proof fn lemma_leaf_entries_position(f: Seq<u8>, ps: int, pn: int, n: int)
    requires
        0 <= pn < n,
        is_leaf_page(f, ps, pn),
    ensures
        leaves_entries_upto(f, ps, pn).len() + entries_of(page_bytes(f, ps, pn)).len()
            <= leaves_entries_upto(f, ps, n).len(),
        forall|k: int|
            0 <= k < entries_of(page_bytes(f, ps, pn)).len() ==> leaves_entries_upto(f, ps, n)[
                leaves_entries_upto(f, ps, pn).len() + k
            ] == entries_of(page_bytes(f, ps, pn))[k],
    decreases n,
{
    if n == pn + 1 {
        assert(leaves_entries_upto(f, ps, n) == leaves_entries_upto(f, ps, pn) + entries_of(
            page_bytes(f, ps, pn),
        ));
    } else {
        lemma_leaf_entries_position(f, ps, pn, n - 1);
    }
}

/// The offset of a leaf equals the offset of its predecessor leaf plus
/// the predecessor's entries; the first leaf sits at offset zero.
pub proof fn lemma_offset_prev(f: Seq<u8>, ps: int, pn: int)
    requires
        0 <= pn,
    ensures
        leaf_prev(f, ps, pn) == -1 ==> leaves_entries_upto(f, ps, pn).len() == 0,
        leaf_prev(f, ps, pn) >= 0 ==> leaves_entries_upto(f, ps, pn)
            == leaves_entries_upto(f, ps, leaf_prev(f, ps, pn)) + entries_of(
            page_bytes(f, ps, leaf_prev(f, ps, pn)),
        ),
{
    lemma_leaf_prev_props(f, ps, pn);
    let p = leaf_prev(f, ps, pn);
    if p == -1 {
        lemma_leaves_entries_inner_range(f, ps, 0, pn);
        assert(leaves_entries_upto(f, ps, 0) =~= Seq::<(Key, u32)>::empty());
    } else {
        lemma_leaves_entries_inner_range(f, ps, p + 1, pn);
        assert(leaves_entries_upto(f, ps, p + 1) == leaves_entries_upto(f, ps, p) + entries_of(
            page_bytes(f, ps, p),
        ));
    }
}

/// A sequence of entries in strictly ascending key order.
pub open spec fn entries_sorted(s: Seq<(Key, u32)>) -> bool {
    forall|a: int, b: int| 0 <= a < b < s.len() ==> key_lt(s[a].0, s[b].0)
}

/// The rightmost descendant leaf of page `q`, following `extra` through
/// inner nodes; -1 when a pointer fails to descend.
pub open spec fn rightmost_leaf(f: Seq<u8>, ps: int, q: int) -> int
    decreases q,
{
    if q < 0 {
        -1
    } else if is_leaf_page(f, ps, q) {
        q
    } else {
        let e = extra_of(page_bytes(f, ps, q)) as int;
        if 0 <= e < q {
            rightmost_leaf(f, ps, e)
        } else {
            -1
        }
    }
}

/// The rightmost descendant never lies above the page itself.
pub proof fn lemma_rightmost_leaf_le(f: Seq<u8>, ps: int, q: int)
    requires
        0 <= q,
    ensures
        rightmost_leaf(f, ps, q) <= q,
    decreases q,
{
    if !is_leaf_page(f, ps, q) {
        let e = extra_of(page_bytes(f, ps, q)) as int;
        if 0 <= e < q {
            lemma_rightmost_leaf_le(f, ps, e);
        }
    }
}

/// `rightmost_leaf` is the same in two file images that agree on the
/// bytes of the first `n` pages.
pub proof fn lemma_rightmost_leaf_stable(f1: Seq<u8>, f2: Seq<u8>, ps: int, n: int)
    requires
        ps >= 1,
        0 <= n,
        12 + n * ps <= f1.len(),
        12 + n * ps <= f2.len(),
        forall|k: int| 12 <= k < 12 + n * ps ==> f1[k] == f2[k],
    ensures
        forall|q: int| q < n ==> rightmost_leaf(f2, ps, q) == rightmost_leaf(f1, ps, q),
    decreases n,
{
    if n > 0 {
        assert(n * ps == (n - 1) * ps + ps) by (nonlinear_arith);
        assert((n - 1) * ps >= 0) by (nonlinear_arith)
            requires
                n >= 1 && ps >= 1,
        ;
        lemma_page_bytes_stable(f1, f2, ps, n - 1);
        lemma_rightmost_leaf_stable(f1, f2, ps, n - 1);
        assert forall|q: int| q < n implies rightmost_leaf(f2, ps, q) == rightmost_leaf(
            f1,
            ps,
            q,
        ) by {
            if q == n - 1 && !is_leaf_page(f1, ps, q) {
                let e = extra_of(page_bytes(f1, ps, q)) as int;
                assert(e < n - 1 ==> rightmost_leaf(f2, ps, e) == rightmost_leaf(f1, ps, e));
            }
        }
    }
}

/// Separator `i` of the inner page image `b` names the largest key of
/// its child's subtree: the child was written among the first `pc`
/// pages, its rightmost descendant is a real, non-empty leaf whose last
/// key is exactly the separator, and these rightmost leaves ascend from
/// slot to slot.
pub open spec fn slot_sep_ok(f: Seq<u8>, ps: int, pc: int, b: Seq<u8>, i: int) -> bool {
    let c = slot_of(b, i) as int;
    let rl = rightmost_leaf(f, ps, c);
    &&& c < pc
    &&& 0 <= rl < pc
    &&& is_leaf_page(f, ps, rl)
    &&& 1 <= num_keys_of(page_bytes(f, ps, rl))
    &&& key_of(b, i) == key_of(
        page_bytes(f, ps, rl),
        num_keys_of(page_bytes(f, ps, rl)) as int - 1,
    )
    &&& (i + 1 <= num_keys_of(b) - 1 ==> rl < rightmost_leaf(f, ps, slot_of(b, i + 1) as int))
}

/// Separator correctness over the first `pc` pages: every inner page's
/// separators are sorted and name the largest keys of their children's
/// subtrees.
pub open spec fn wf_seps_upto(f: Seq<u8>, ps: int, pc: int) -> bool {
    &&& (forall|pn: int, i: int|
        0 <= pn < pc && is_inner_page(f, ps, pn) && 0 <= i < num_keys_of(page_bytes(f, ps, pn))
            ==> #[trigger] slot_sep_ok(f, ps, pc, page_bytes(f, ps, pn), i))
    &&& (forall|pn: int|
        0 <= pn < pc && is_inner_page(f, ps, pn) ==> keys_sorted(page_bytes(f, ps, pn)))
}

/// Separator correctness of the whole image.
pub open spec fn wf_seps(f: Seq<u8>, ps: int) -> bool {
    wf_seps_upto(f, ps, file_page_count(f))
}

/// The root reaches the last-written leaf as its rightmost descendant,
/// so its subtree spans the whole file.
pub open spec fn root_spans(f: Seq<u8>, ps: int) -> bool {
    rightmost_leaf(f, ps, file_page_count(f) - 1) == leaf_prev(f, ps, file_page_count(f))
}

/// Entry counts only grow as more pages are taken in.
pub proof fn lemma_lentries_len_monotone(f: Seq<u8>, ps: int, n1: int, n2: int)
    requires
        n1 <= n2,
    ensures
        leaves_entries_upto(f, ps, n1).len() <= leaves_entries_upto(f, ps, n2).len(),
    decreases n2 - n1,
{
    if n1 < n2 {
        lemma_lentries_len_monotone(f, ps, n1, n2 - 1);
    }
}

/// Full well-formedness of a tree image: leaf level, inner references,
/// separators, and a root that spans the file.
pub open spec fn wf_tree_file(f: Seq<u8>, ps: int) -> bool {
    &&& wf_leaves(f, ps)
    &&& wf_inners(f, ps)
    &&& wf_seps(f, ps)
    &&& root_spans(f, ps)
}

} // verus!
