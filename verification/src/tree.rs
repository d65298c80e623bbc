//! The on-disk B+ tree: single-pass bottom-up bulk loader, descent, and
//! the reverse-chronological query iterator.

use crate::cache::PageCache;
use crate::header::{hdr_page_count, hdr_page_size, hdr_root, page_bytes, FILE_HEADER_SIZE};
use crate::key::{key_le, key_lt, probe_key, Key, Query, QueryResult, TreeError, ValueBits};
use crate::model::{
    asof_results, is_inner_page, is_leaf_page, leaf_chain_ok, leaf_prev, leaves_entries_upto,
    lemma_leaf_entries_position, lemma_leaf_prev_none, lemma_leaf_prev_props,
    lemma_leaf_prev_skip, lemma_leaves_entries_inner_range, lemma_leaves_entries_snoc,
    lemma_leaves_entries_stable, lemma_lentries_len_monotone, lemma_offset_prev,
    lemma_page_bytes_stable, lemma_rightmost_leaf_stable,
    entries_sorted, rightmost_leaf, root_spans, slot_sep_ok, walk_ends, walk_skips, wf_seps,
    wf_seps_upto, wf_tree_file, file_page_count, wf_header, wf_inner_refs, wf_inners,
    wf_leaf_page, wf_leaves,
};
use crate::codec::write_u32;
use crate::header::read_file_header;
use crate::header::FileHeader;
use crate::page::{
    entries_of, extra_of, key_capacity_of, key_of, key_off, keys_sorted, num_keys_of,
    page_type_of, slot_of, PageBuffer, INNER_TYPE, LEAF_TYPE, NO_PAGE,
};
use vstd::prelude::*;

verus! {

/// Total number of separators currently held by the in-flight inner-page
/// builders.
pub open spec fn nk_sum(l: Seq<PageBuffer>) -> int
    decreases l.len(),
{
    if l.len() == 0 {
        0
    } else {
        nk_sum(l.drop_last()) + num_keys_of(l.last()@)
    }
}

proof fn lemma_nk_sum_update(l: Seq<PageBuffer>, j: int, b: PageBuffer)
    requires
        0 <= j < l.len(),
    ensures
        nk_sum(l.update(j, b)) == nk_sum(l) - num_keys_of(l[j]@) + num_keys_of(b@),
    decreases l.len(),
{
    if j == l.len() - 1 {
        assert(l.update(j, b).drop_last() =~= l.drop_last());
    } else {
        assert(l.update(j, b).drop_last() =~= l.drop_last().update(j, b));
        lemma_nk_sum_update(l.drop_last(), j, b);
    }
}

proof fn lemma_nk_sum_push(l: Seq<PageBuffer>, b: PageBuffer)
    ensures
        nk_sum(l.push(b)) == nk_sum(l) + num_keys_of(b@),
{
    assert(l.push(b).drop_last() =~= l);
}

proof fn lemma_nk_sum_nonneg(l: Seq<PageBuffer>)
    ensures
        nk_sum(l) >= 0,
    decreases l.len(),
{
    if l.len() > 0 {
        lemma_nk_sum_nonneg(l.drop_last());
    }
}

/// Every in-flight builder is a full-size inner page within capacity;
/// every child it holds was already written; its separators are sorted
/// and each names the largest key of its child's subtree.
pub open spec fn wf_lineage(l: Seq<PageBuffer>, ps: int, pc: int, f: Seq<u8>) -> bool {
    forall|j: int|
        0 <= j < l.len() ==> {
            &&& (#[trigger] l[j])@.len() == ps
            &&& page_type_of(l[j]@) == INNER_TYPE
            &&& num_keys_of(l[j]@) as int <= key_capacity_of(ps)
            &&& keys_sorted(l[j]@)
            &&& (forall|i: int|
                0 <= i < num_keys_of(l[j]@) ==> #[trigger] slot_sep_ok(f, ps, pc, l[j]@, i))
        }
}

/// The pair a finished subtree propagates upward: `child` is a written
/// page whose rightmost descendant is a real, non-empty leaf whose last
/// key is `key`.
pub open spec fn child_pair_ok(f: Seq<u8>, ps: int, pc: int, key: Key, child: u32) -> bool {
    let rl = rightmost_leaf(f, ps, child as int);
    &&& (child as int) < pc
    &&& 0 <= rl < pc
    &&& is_leaf_page(f, ps, rl)
    &&& 1 <= num_keys_of(page_bytes(f, ps, rl))
    &&& key == key_of(page_bytes(f, ps, rl), num_keys_of(page_bytes(f, ps, rl)) as int - 1)
}

/// Append the bytes of one page to the file image.
fn append_page(file: &mut Vec<u8>, page: &PageBuffer)
    ensures
        final(file)@ == old(file)@ + page@,
{
    let pb = page.buf();
    let n = pb.len();
    let mut i: usize = 0;
    while i < n
        invariant
            i <= n,
            n == pb@.len(),
            pb@ == page@,
            file@ == old(file)@ + pb@.take(i as int),
        decreases n - i,
    {
        let b = pb[i];
        file.push(b);
        proof {
            assert(old(file)@ + pb@.take(i as int) + seq![pb@[i as int]] =~= old(file)@
                + pb@.take(i + 1));
        }
        i += 1;
    }
    proof {
        assert(old(file)@ + pb@.take(n as int) =~= old(file)@ + page@);
    }
}

/// Insert separator `key` and child page `child` (the page appended last)
/// into the in-flight builder at level 0, cascading upward: a full builder
/// takes `child` as its rightmost child, is written out, and is itself
/// propagated one level up.
///
/// The file grows only by whole inner pages; every byte already present
/// keeps its value.
#[verifier::rlimit(100)]
#[verifier::spinoff_prover]
fn add_to_parent(
    file: &mut Vec<u8>,
    lineage: &mut Vec<PageBuffer>,
    key: Key,
    child: u32,
    page_count: &mut u32,
    page_size: u32,
) -> (appended: usize)
    requires
        page_size >= 32,
        old(file)@.len() == 12 + (*old(page_count)) * (page_size as int),
        wf_lineage(old(lineage)@, page_size as int, *old(page_count) as int, old(file)@),
        wf_seps_upto(old(file)@, page_size as int, *old(page_count) as int),
        child_pair_ok(old(file)@, page_size as int, *old(page_count) as int, key, child),
        forall|j: int, i: int|
            0 <= j < old(lineage)@.len() && 0 <= i < num_keys_of(
                (#[trigger] old(lineage)@[j])@,
            ) ==> key_lt(#[trigger] key_of(old(lineage)@[j]@, i), key) && rightmost_leaf(
                old(file)@,
                page_size as int,
                slot_of(old(lineage)@[j]@, i) as int,
            ) < rightmost_leaf(old(file)@, page_size as int, child as int),
        child < *old(page_count),
        12 + ((*old(page_count)) + old(lineage)@.len() + 1) * (page_size as int) <= 0x7fff_ffff,
    ensures
        wf_lineage(
            final(lineage)@,
            page_size as int,
            *final(page_count) as int,
            final(file)@,
        ),
        wf_seps_upto(final(file)@, page_size as int, *final(page_count) as int),
        final(file)@.len() == 12 + (*final(page_count)) * (page_size as int),
        *old(page_count) <= *final(page_count),
        *final(page_count) - *old(page_count) == appended,
        appended <= old(lineage)@.len(),
        forall|k: int| 0 <= k < old(file)@.len() ==> final(file)@[k] == old(file)@[k],
        forall|pn: int|
            *old(page_count) <= pn < *final(page_count) ==> is_inner_page(
                final(file)@,
                page_size as int,
                pn,
            ) && wf_inner_refs(final(file)@, page_size as int, pn),
        nk_sum(final(lineage)@) + *final(page_count) <= nk_sum(old(lineage)@) + *old(page_count)
            + 1,
        appended == 0 ==> nk_sum(final(lineage)@) == nk_sum(old(lineage)@) + 1,
        final(lineage)@.len() == old(lineage)@.len() || (final(lineage)@.len() == old(lineage)@.len()
            + 1 && appended == old(lineage)@.len()),
{
    let ghost ps = page_size as int;
    let ghost len0 = old(lineage)@.len() as int;
    let ghost pc0 = *old(page_count) as int;
    let ghost rlc = rightmost_leaf(old(file)@, ps, child as int);
    let mut level: usize = 0;
    let mut child = child;
    let mut appended: usize = 0;
    loop
        invariant
            page_size >= 32,
            ps == page_size as int,
            pc0 == *old(page_count) as int,
            len0 == old(lineage)@.len(),
            level <= lineage@.len(),
            lineage@.len() == len0,
            wf_lineage(lineage@, ps, *page_count as int, file@),
            wf_seps_upto(file@, ps, *page_count as int),
            child_pair_ok(file@, ps, *page_count as int, key, child),
            rightmost_leaf(file@, ps, child as int) == rlc,
            forall|j: int, i: int|
                0 <= j < lineage@.len() && 0 <= i < num_keys_of(
                    (#[trigger] lineage@[j])@,
                ) ==> key_lt(#[trigger] key_of(lineage@[j]@, i), key) && rightmost_leaf(
                    file@,
                    ps,
                    slot_of(lineage@[j]@, i) as int,
                ) < rlc,
            child < *page_count,
            file@.len() == 12 + (*page_count) * ps,
            *page_count as int == pc0 + level,
            appended == level,
            level <= len0,
            12 + (pc0 + len0 + 1) * ps <= 0x7fff_ffff,
            forall|k: int| 0 <= k < old(file)@.len() ==> file@[k] == old(file)@[k],
            old(file)@.len() == 12 + pc0 * ps,
            forall|pn: int|
                pc0 <= pn < *page_count as int ==> is_inner_page(file@, ps, pn) && wf_inner_refs(
                    file@,
                    ps,
                    pn,
                ),
            nk_sum(lineage@) + *page_count as int <= nk_sum(old(lineage)@) + pc0,
            appended == 0 ==> nk_sum(lineage@) == nk_sum(old(lineage)@),
        decreases len0 - level,
    {
        proof {
            vstd::arithmetic::mul::lemma_mul_inequality(
                pc0 + level + 1,
                pc0 + len0 + 1,
                ps,
            );
            assert((*page_count as int + 1) * ps == *page_count as int * ps + ps)
                by (nonlinear_arith);
            vstd::arithmetic::mul::lemma_mul_inequality(
                *page_count as int + 1,
                pc0 + level + 1,
                ps,
            );
            assert((pc0 + len0 + 1) * 32 <= (pc0 + len0 + 1) * ps) by (nonlinear_arith)
                requires
                    ps >= 32 && pc0 + len0 + 1 >= 0,
            ;
        }
        if level == lineage.len() {
            let mut nb = PageBuffer::new(page_size, INNER_TYPE);
            nb.set_key(0, key);
            nb.set_page_number(0, child);
            nb.set_num_keys(1);
            proof {
                lemma_nk_sum_push(lineage@, nb);
            }
            lineage.push(nb);
            proof {
                assert(key_capacity_of(ps) >= 1);
                assert(slot_of(lineage@.last()@, 0) == child);
                assert(key_of(lineage@.last()@, 0) == key);
                assert forall|j: int| 0 <= j < lineage@.len() implies {
                    &&& (#[trigger] lineage@[j])@.len() == ps
                    &&& page_type_of(lineage@[j]@) == INNER_TYPE
                    &&& num_keys_of(lineage@[j]@) as int <= key_capacity_of(ps)
                    &&& keys_sorted(lineage@[j]@)
                    &&& (forall|i: int|
                        0 <= i < num_keys_of(lineage@[j]@) ==> #[trigger] slot_sep_ok(
                            file@,
                            ps,
                            *page_count as int,
                            lineage@[j]@,
                            i,
                        ))
                } by {
                    if j == lineage@.len() - 1 {
                        assert(num_keys_of(lineage@[j]@) == 1);
                        assert(slot_sep_ok(file@, ps, *page_count as int, lineage@[j]@, 0));
                    }
                }
            }
            return appended;
        }
        let nk = lineage[level].num_keys();
        let cap = lineage[level].key_capacity();
        if (nk as usize) < cap {
            let ghost l_old = lineage@;
            let b = &mut lineage[level];
            let nku = nk as usize;
            b.set_key(nku, key);
            b.set_page_number(nku, child);
            b.set_num_keys(nk + 1);
            proof {
                assert(lineage@ =~= l_old.update(level as int, lineage@[level as int]));
                lemma_nk_sum_update(l_old, level as int, lineage@[level as int]);
                let b_new = lineage@[level as int]@;
                let b_pre = l_old[level as int]@;
                assert(slot_of(b_new, nku as int) == child);
                assert(key_of(b_new, nku as int) == key);
                assert forall|i: int| 0 <= i < nku implies key_of(b_new, i) == key_of(b_pre, i)
                    && slot_of(b_new, i) == slot_of(b_pre, i) by {
                    assert(key_off(i) + 16 <= key_off(nku as int));
                    assert(key_of(b_pre, i) == key_of(b_pre, i));
                }
                assert forall|i1: int, i2: int|
                    0 <= i1 < i2 < num_keys_of(b_new) implies key_lt(
                    key_of(b_new, i1),
                    key_of(b_new, i2),
                ) by {
                    if i2 < nku {
                        assert(key_lt(key_of(b_pre, i1), key_of(b_pre, i2)));
                    } else {
                        assert(key_lt(key_of(b_pre, i1), key));
                    }
                }
                assert forall|i: int|
                    0 <= i < num_keys_of(b_new) implies #[trigger] slot_sep_ok(
                    file@,
                    ps,
                    *page_count as int,
                    b_new,
                    i,
                ) by {
                    if i < nku {
                        assert(slot_sep_ok(file@, ps, *page_count as int, b_pre, i));
                        if i + 1 == nku {
                            // The new rightmost slot extends the ascent
                            // of rightmost leaves.
                            assert(rightmost_leaf(file@, ps, slot_of(b_pre, i) as int) < rlc);
                        } else {
                            assert(slot_of(b_new, i + 1) == slot_of(b_pre, i + 1));
                        }
                    } else {
                        assert(rightmost_leaf(file@, ps, child as int) == rlc);
                    }
                }
            }
            return appended;
        } else {
            // Full: `child` becomes the rightmost child, the node is
            // written out, and it propagates itself one level up.
            let ghost l_old = lineage@;
            let ghost file_old = file@;
            let b = &mut lineage[level];
            b.set_extra_page_num(child);
            proof {
                assert(lineage@ =~= l_old.update(level as int, lineage@[level as int]));
                lemma_nk_sum_update(l_old, level as int, lineage@[level as int]);
            }
            append_page(file, &lineage[level]);
            let ghost l_mid = lineage@;
            let fresh = PageBuffer::new(page_size, INNER_TYPE);
            lineage.set(level, fresh);
            proof {
                lemma_nk_sum_update(l_mid, level as int, fresh);
                // The appended page is inner-typed; earlier pages keep
                // their bytes.
                let pcn = *page_count as int;
                assert(pcn * ps >= 0) by (nonlinear_arith)
                    requires
                        pcn >= 0 && ps >= 1,
                ;
                assert((pcn + 1) * ps == pcn * ps + ps) by (nonlinear_arith);
                assert(l_mid == l_old.update(level as int, l_mid[level as int]));
                assert(l_mid[level as int]@.len() == ps);
                assert(page_type_of(l_mid[level as int]@) == INNER_TYPE);
                assert(page_bytes(file@, ps, pcn) =~= l_mid[level as int]@);
                assert(extra_of(l_mid[level as int]@) == child);
                // Builder fields other than `extra` are untouched, so
                // its separators and children keep their facts.
                assert forall|i: int|
                    0 <= i < num_keys_of(l_mid[level as int]@) implies #[trigger] slot_sep_ok(
                    file_old,
                    ps,
                    pcn,
                    l_mid[level as int]@,
                    i,
                ) && key_of(l_mid[level as int]@, i) == key_of(l_old[level as int]@, i)
                    && (#[trigger] slot_of(l_mid[level as int]@, i)) < pcn by {
                    assert(slot_sep_ok(file_old, ps, pcn, l_old[level as int]@, i));
                    assert(key_of(l_mid[level as int]@, i) == key_of(l_old[level as int]@, i));
                    assert(slot_of(l_mid[level as int]@, i) == slot_of(l_old[level as int]@, i));
                    if i + 1 <= num_keys_of(l_old[level as int]@) - 1 {
                        assert(slot_of(l_mid[level as int]@, i + 1) == slot_of(
                            l_old[level as int]@,
                            i + 1,
                        ));
                    }
                }
                assert forall|i1: int, i2: int|
                    0 <= i1 < i2 < num_keys_of(l_mid[level as int]@) implies key_lt(
                    key_of(l_mid[level as int]@, i1),
                    key_of(l_mid[level as int]@, i2),
                ) by {
                    assert(key_lt(
                        key_of(l_old[level as int]@, i1),
                        key_of(l_old[level as int]@, i2),
                    ));
                }
                assert forall|i: int|
                    0 <= i < num_keys_of(page_bytes(file@, ps, pcn)) implies (#[trigger] slot_of(
                    page_bytes(file@, ps, pcn),
                    i,
                )) < pcn by {
                    assert(slot_sep_ok(file_old, ps, pcn, l_mid[level as int]@, i));
                    assert(slot_of(page_bytes(file@, ps, pcn), i) == slot_of(
                        l_mid[level as int]@,
                        i,
                    ));
                }
                assert forall|pn: int| pc0 <= pn < pcn + 1 implies is_inner_page(
                    file@,
                    ps,
                    pn,
                ) && wf_inner_refs(file@, ps, pn) by {
                    if pn < pcn {
                        vstd::arithmetic::mul::lemma_mul_inequality(pn + 1, pcn, ps);
                        assert(pn * ps >= 0) by (nonlinear_arith)
                            requires
                                pn >= 0 && ps >= 1,
                        ;
                        assert((pn + 1) * ps == pn * ps + ps) by (nonlinear_arith);
                        assert(is_inner_page(file_old, ps, pn));
                        assert(wf_inner_refs(file_old, ps, pn));
                        lemma_page_bytes_stable(file_old, file@, ps, pn);
                        assert(page_bytes(file@, ps, pn) == page_bytes(file_old, ps, pn));
                    } else {
                        assert(pn == pcn);
                        assert(page_bytes(file@, ps, pn) == l_mid[level as int]@);
                        assert(is_inner_page(file@, ps, pcn));
                        assert(num_keys_of(page_bytes(file@, ps, pcn)) == num_keys_of(
                            l_old[level as int]@,
                        ));
                        assert(extra_of(page_bytes(file@, ps, pcn)) == child);
                        assert((extra_of(page_bytes(file@, ps, pcn)) as int) < pcn);
                    }
                }
                vstd::arithmetic::mul::lemma_mul_inequality(pc0, pcn, ps);
                assert forall|k: int| 0 <= k < old(file)@.len() implies file@[k] == old(
                    file,
                )@[k] by {
                    assert(file@[k] == file_old[k]);
                }
                // Separator correctness extends over the written node.
                seps_extend_inner(file_old, file@, ps, pcn, l_mid[level as int]@);
                lemma_rightmost_leaf_stable(file_old, file@, ps, pcn);
                lemma_pages_stable_after_append(file_old, file@, ps, pcn);
                // The node's rightmost descendant is the incoming
                // child's, so the propagated pair keeps its meaning.
                assert(!is_leaf_page(file@, ps, pcn));
                assert(rightmost_leaf(file@, ps, pcn) == rightmost_leaf(file@, ps, child as int));
                assert(rightmost_leaf(file@, ps, child as int) == rlc);
                assert(child_pair_ok(file@, ps, pcn + 1, key, pcn as u32));
                // The remaining builders keep their facts and dominance.
                lineage_stable_after_append(lineage@, file_old, file@, ps, pcn, pcn + 1);
                assert forall|j: int, i: int|
                    0 <= j < lineage@.len() && 0 <= i < num_keys_of(
                        (#[trigger] lineage@[j])@,
                    ) implies key_lt(#[trigger] key_of(lineage@[j]@, i), key) && rightmost_leaf(
                    file@,
                    ps,
                    slot_of(lineage@[j]@, i) as int,
                ) < rlc by {
                    assert(j != level);
                    assert(key_lt(key_of(l_old[j]@, i), key));
                    assert(slot_sep_ok(file_old, ps, pcn, l_old[j]@, i));
                    assert(rightmost_leaf(file@, ps, slot_of(l_old[j]@, i) as int)
                        == rightmost_leaf(file_old, ps, slot_of(l_old[j]@, i) as int));
                }
            }
            child = *page_count;
            *page_count = *page_count + 1;
            appended = appended + 1;
            level = level + 1;
        }
    }
}


/// The end of leaf `j`'s chunk when `upto` entries have been cut
/// `k_cap` at a time into `m` leaves: every chunk but the last holds
/// exactly `k_cap` entries.
pub open spec fn chunk_end(upto: int, k_cap: int, m: int, j: int) -> int {
    if j == m - 1 {
        upto
    } else {
        k_cap * (j + 1)
    }
}

/// The loader's bookkeeping: `lp` lists the page numbers of the leaves
/// written so far, in write order; leaf `j` holds the `j`-th chunk of the
/// source; every other page is an inner node; each leaf's `extra` names
/// the leaf written before it; and the leaves together hold the first
/// `upto` source entries.
#[verifier::opaque]
pub open spec fn loader_facts(
    f: Seq<u8>,
    ps: int,
    entries: Seq<(Key, u32)>,
    lp: Seq<int>,
    k_cap: int,
    pc: int,
    upto: int,
) -> bool {
    &&& (forall|j: int| 0 <= j < lp.len() ==> 0 <= #[trigger] lp[j] < pc)
    &&& (forall|a: int, b: int| 0 <= a < b < lp.len() ==> lp[a] < lp[b])
    &&& (forall|j: int| 0 <= j < lp.len() ==> is_leaf_page(f, ps, #[trigger] lp[j]))
    &&& (forall|pn: int| 0 <= pn < pc && is_leaf_page(f, ps, pn) ==> lp.contains(pn))
    &&& (forall|pn: int|
        0 <= pn < pc ==> is_leaf_page(f, ps, pn) || is_inner_page(f, ps, pn))
    &&& (forall|pn: int| 0 <= pn < pc && is_inner_page(f, ps, pn) ==> wf_inner_refs(f, ps, pn))
    &&& wf_seps_upto(f, ps, pc)
    &&& (forall|j: int|
        0 <= j < lp.len() ==> entries_of(page_bytes(f, ps, #[trigger] lp[j])) == entries.subrange(
            k_cap * j,
            chunk_end(upto, k_cap, lp.len() as int, j),
        ))
    &&& (forall|j: int|
        0 <= j < lp.len() ==> extra_of(page_bytes(f, ps, #[trigger] lp[j])) == (if j == 0 {
            NO_PAGE
        } else {
            lp[j - 1] as u32
        }))
    &&& leaves_entries_upto(f, ps, pc) == entries.take(upto)
}

/// After appending bytes to a file image of `pc` whole pages, every
/// existing page decodes unchanged.
proof fn lemma_pages_stable_after_append(f_old: Seq<u8>, f_new: Seq<u8>, ps: int, pc: int)
    requires
        ps >= 1,
        pc >= 0,
        f_old.len() == 12 + pc * ps,
        f_old.len() <= f_new.len(),
        forall|k: int| 0 <= k < f_old.len() ==> f_new[k] == f_old[k],
    ensures
        forall|pn: int|
            0 <= pn < pc ==> #[trigger] page_bytes(f_new, ps, pn) == page_bytes(f_old, ps, pn),
{
    assert forall|pn: int| 0 <= pn < pc implies #[trigger] page_bytes(f_new, ps, pn)
        == page_bytes(f_old, ps, pn) by {
        vstd::arithmetic::mul::lemma_mul_inequality(pn + 1, pc, ps);
        assert(pn * ps >= 0) by (nonlinear_arith)
            requires
                pn >= 0 && ps >= 1,
        ;
        assert((pn + 1) * ps == pn * ps + ps) by (nonlinear_arith);
        lemma_page_bytes_stable(f_old, f_new, ps, pn);
    }
}

/// Builders keep their meaning when the file grows by whole pages and
/// the page count does not shrink.
proof fn lineage_stable_after_append(
    l: Seq<PageBuffer>,
    f_old: Seq<u8>,
    f_new: Seq<u8>,
    ps: int,
    pc_old: int,
    pc_new: int,
)
    requires
        ps >= 1,
        0 <= pc_old <= pc_new,
        f_old.len() == 12 + pc_old * ps,
        f_old.len() <= f_new.len(),
        forall|k: int| 0 <= k < f_old.len() ==> f_new[k] == f_old[k],
        wf_lineage(l, ps, pc_old, f_old),
    ensures
        wf_lineage(l, ps, pc_new, f_new),
{
    lemma_rightmost_leaf_stable(f_old, f_new, ps, pc_old);
    lemma_pages_stable_after_append(f_old, f_new, ps, pc_old);
    assert forall|j: int| 0 <= j < l.len() implies {
        &&& (#[trigger] l[j])@.len() == ps
        &&& page_type_of(l[j]@) == INNER_TYPE
        &&& num_keys_of(l[j]@) as int <= key_capacity_of(ps)
        &&& keys_sorted(l[j]@)
        &&& (forall|i: int|
            0 <= i < num_keys_of(l[j]@) ==> #[trigger] slot_sep_ok(f_new, ps, pc_new, l[j]@, i))
    } by {
        assert forall|i: int|
            0 <= i < num_keys_of(l[j]@) implies #[trigger] slot_sep_ok(
            f_new,
            ps,
            pc_new,
            l[j]@,
            i,
        ) by {
            assert(slot_sep_ok(f_old, ps, pc_old, l[j]@, i));
            let c = slot_of(l[j]@, i) as int;
            assert(rightmost_leaf(f_new, ps, c) == rightmost_leaf(f_old, ps, c));
            if i + 1 <= num_keys_of(l[j]@) - 1 {
                let c2 = slot_of(l[j]@, i + 1) as int;
                assert(slot_sep_ok(f_old, ps, pc_old, l[j]@, i + 1));
                assert(rightmost_leaf(f_new, ps, c2) == rightmost_leaf(f_old, ps, c2));
            }
        }
    }
}

/// Separator facts survive byte-stable growth of the image, as long as
/// any pages taken in beyond the old count are not inner nodes.
proof fn seps_stable(f_old: Seq<u8>, f_new: Seq<u8>, ps: int, pc_old: int, pc_new: int)
    requires
        ps >= 1,
        0 <= pc_old <= pc_new,
        12 + pc_old * ps <= f_old.len(),
        12 + pc_old * ps <= f_new.len(),
        forall|k: int| 12 <= k < 12 + pc_old * ps ==> f_new[k] == f_old[k],
        wf_seps_upto(f_old, ps, pc_old),
        forall|pn: int| pc_old <= pn < pc_new ==> !is_inner_page(f_new, ps, pn),
    ensures
        wf_seps_upto(f_new, ps, pc_new),
{
    lemma_rightmost_leaf_stable(f_old, f_new, ps, pc_old);
    assert forall|q: int| 0 <= q < pc_old implies page_bytes(f_new, ps, q) == page_bytes(
        f_old,
        ps,
        q,
    ) by {
        vstd::arithmetic::mul::lemma_mul_inequality(q + 1, pc_old, ps);
        assert(q * ps >= 0) by (nonlinear_arith)
            requires
                q >= 0 && ps >= 1,
        ;
        assert((q + 1) * ps == q * ps + ps) by (nonlinear_arith);
        lemma_page_bytes_stable(f_old, f_new, ps, q);
    }
    assert forall|pn: int, i: int|
        0 <= pn < pc_new && is_inner_page(f_new, ps, pn) && 0 <= i < num_keys_of(
            page_bytes(f_new, ps, pn),
        ) implies #[trigger] slot_sep_ok(f_new, ps, pc_new, page_bytes(f_new, ps, pn), i) by {
        assert(pn < pc_old);
        assert(is_inner_page(f_old, ps, pn));
        assert(slot_sep_ok(f_old, ps, pc_old, page_bytes(f_old, ps, pn), i));
        let c = slot_of(page_bytes(f_old, ps, pn), i) as int;
        assert(rightmost_leaf(f_new, ps, c) == rightmost_leaf(f_old, ps, c));
        if i + 1 <= num_keys_of(page_bytes(f_old, ps, pn)) - 1 {
            assert(slot_sep_ok(f_old, ps, pc_old, page_bytes(f_old, ps, pn), i + 1));
            let c2 = slot_of(page_bytes(f_old, ps, pn), i + 1) as int;
            assert(rightmost_leaf(f_new, ps, c2) == rightmost_leaf(f_old, ps, c2));
        }
    }
    assert forall|pn: int|
        0 <= pn < pc_new && is_inner_page(f_new, ps, pn) implies keys_sorted(
        page_bytes(f_new, ps, pn),
    ) by {
        assert(pn < pc_old);
        assert(is_inner_page(f_old, ps, pn));
        assert(keys_sorted(page_bytes(f_old, ps, pn)));
    }
}

/// Appending one inner page whose image `b` carries sound, sorted
/// separators extends separator correctness by one page.
proof fn seps_extend_inner(f_old: Seq<u8>, f_new: Seq<u8>, ps: int, pc: int, b: Seq<u8>)
    requires
        ps >= 1,
        0 <= pc,
        f_old.len() == 12 + pc * ps,
        f_old.len() <= f_new.len(),
        12 + (pc + 1) * ps <= f_new.len(),
        forall|k: int| 0 <= k < f_old.len() ==> f_new[k] == f_old[k],
        wf_seps_upto(f_old, ps, pc),
        page_bytes(f_new, ps, pc) == b,
        keys_sorted(b),
        forall|i: int| 0 <= i < num_keys_of(b) ==> #[trigger] slot_sep_ok(f_old, ps, pc, b, i),
    ensures
        wf_seps_upto(f_new, ps, pc + 1),
{
    lemma_rightmost_leaf_stable(f_old, f_new, ps, pc);
    lemma_pages_stable_after_append(f_old, f_new, ps, pc);
    seps_stable(f_old, f_new, ps, pc, pc);
    assert forall|pn: int, i: int|
        0 <= pn < pc + 1 && is_inner_page(f_new, ps, pn) && 0 <= i < num_keys_of(
            page_bytes(f_new, ps, pn),
        ) implies #[trigger] slot_sep_ok(f_new, ps, pc + 1, page_bytes(f_new, ps, pn), i) by {
        if pn < pc {
            assert(slot_sep_ok(f_new, ps, pc, page_bytes(f_new, ps, pn), i));
        } else {
            assert(slot_sep_ok(f_old, ps, pc, b, i));
            let c = slot_of(b, i) as int;
            assert(rightmost_leaf(f_new, ps, c) == rightmost_leaf(f_old, ps, c));
            if i + 1 <= num_keys_of(b) - 1 {
                assert(slot_sep_ok(f_old, ps, pc, b, i + 1));
                let c2 = slot_of(b, i + 1) as int;
                assert(rightmost_leaf(f_new, ps, c2) == rightmost_leaf(f_old, ps, c2));
            }
        }
    }
    assert forall|pn: int|
        0 <= pn < pc + 1 && is_inner_page(f_new, ps, pn) implies keys_sorted(
        page_bytes(f_new, ps, pn),
    ) by {
        if pn < pc {
            assert(is_inner_page(f_old, ps, pn));
            assert(keys_sorted(page_bytes(f_old, ps, pn)));
        }
    }
}

/// A separator recorded in a builder lies strictly below the last key of
/// the chunk ending at `upto`: it is the last key of an earlier leaf.
#[verifier::rlimit(100)]
#[verifier::spinoff_prover]
proof fn lemma_slot_key_below(
    f: Seq<u8>,
    ps: int,
    entries: Seq<(Key, u32)>,
    lp: Seq<int>,
    k_cap: int,
    pc: int,
    upto: int,
    b: Seq<u8>,
    i: int,
    key: Key,
)
    requires
        ps >= 32,
        k_cap == key_capacity_of(ps),
        k_cap >= 1,
        forall|a: int, c: int| 0 <= a < c < entries.len() ==> key_lt(entries[a].0, entries[c].0),
        forall|q: int| 0 <= q < pc && is_leaf_page(f, ps, q) ==> lp.contains(q),
        forall|j: int| 0 <= j < lp.len() ==> 0 <= #[trigger] lp[j] < pc,
        forall|a: int, c: int| 0 <= a < c < lp.len() ==> lp[a] < lp[c],
        forall|j: int|
            0 <= j < lp.len() ==> entries_of(page_bytes(f, ps, #[trigger] lp[j]))
                == entries.subrange(k_cap * j, chunk_end(upto, k_cap, lp.len() as int, j)),
        1 <= lp.len(),
        lp[lp.len() - 1] == pc - 1,
        k_cap * (lp.len() - 1) < upto <= k_cap * lp.len(),
        upto <= entries.len(),
        key == entries[upto - 1].0,
        0 <= i < num_keys_of(b),
        slot_sep_ok(f, ps, pc - 1, b, i),
    ensures
        key_lt(key_of(b, i), key),
{
    let m = lp.len() as int;
    let rl = rightmost_leaf(f, ps, slot_of(b, i) as int);
    assert(lp.contains(rl));
    let t = choose|t: int| 0 <= t < lp.len() && lp[t] == rl;
    if t == m - 1 {
        assert(lp[t] == pc - 1);
    }
    assert(t < m - 1);
    chunk_bounds(upto, k_cap, m, t);
    assert(entries_of(page_bytes(f, ps, rl)) == entries.subrange(
        k_cap * t,
        chunk_end(upto, k_cap, m, t),
    ));
    let e = chunk_end(upto, k_cap, m, t);
    let nkr = num_keys_of(page_bytes(f, ps, rl)) as int;
    assert(entries_of(page_bytes(f, ps, rl)).len() == nkr);
    assert(0 <= k_cap * t <= e <= entries.len());
    assert(entries.subrange(k_cap * t, e).len() == e - k_cap * t);
    assert(nkr == e - k_cap * t);
    assert(entries_of(page_bytes(f, ps, rl))[nkr - 1] == (
        key_of(page_bytes(f, ps, rl), nkr - 1),
        slot_of(page_bytes(f, ps, rl), nkr - 1),
    ));
    assert(entries.subrange(k_cap * t, e)[nkr - 1] == entries[e - 1]);
    assert(e == k_cap * (t + 1));
    assert(k_cap * (t + 1) <= k_cap * (m - 1)) by (nonlinear_arith)
        requires
            k_cap >= 1 && t + 1 <= m - 1,
    ;
    assert(key_of(b, i) == entries[e - 1].0);
    assert(key_lt(entries[e - 1].0, entries[upto - 1].0));
}

/// The leaf just written is a sound propagation pair: its rightmost
/// descendant is itself, and its last key is the last source entry
/// taken.
#[verifier::rlimit(100)]
#[verifier::spinoff_prover]
proof fn lemma_pair_prep(
    f: Seq<u8>,
    ps: int,
    entries: Seq<(Key, u32)>,
    lp: Seq<int>,
    k_cap: int,
    pc: int,
    upto: int,
    key: Key,
)
    requires
        ps >= 32,
        k_cap == key_capacity_of(ps),
        k_cap >= 1,
        1 <= pc <= 0xffff_ffff,
        loader_facts(f, ps, entries, lp, k_cap, pc, upto),
        1 <= lp.len(),
        lp[lp.len() - 1] == pc - 1,
        k_cap * (lp.len() - 1) < upto <= k_cap * lp.len(),
        upto <= entries.len(),
        key == entries[upto - 1].0,
    ensures
        child_pair_ok(f, ps, pc, key, (pc - 1) as u32),
{
    reveal(loader_facts);
    let m = lp.len() as int;
    let pn = pc - 1;
    assert(is_leaf_page(f, ps, pn));
    assert(rightmost_leaf(f, ps, pn) == pn);
    chunk_bounds(upto, k_cap, m, m - 1);
    assert(entries_of(page_bytes(f, ps, lp[m - 1])) == entries.subrange(k_cap * (m - 1), upto));
    let nkp = num_keys_of(page_bytes(f, ps, pn)) as int;
    assert(nkp == upto - k_cap * (m - 1));
    assert(entries_of(page_bytes(f, ps, pn))[nkp - 1] == (
        key_of(page_bytes(f, ps, pn), nkp - 1),
        slot_of(page_bytes(f, ps, pn), nkp - 1),
    ));
    assert(entries.subrange(k_cap * (m - 1), upto)[nkp - 1] == entries[upto - 1]);
}

/// Rewriting one builder's `extra` field — its keys, children and count
/// untouched — preserves the lineage invariant.
proof fn lemma_lineage_set_extra(
    l_old: Seq<PageBuffer>,
    l_new: Seq<PageBuffer>,
    lvl: int,
    ps: int,
    pc: int,
    f: Seq<u8>,
)
    requires
        wf_lineage(l_old, ps, pc, f),
        0 <= lvl < l_old.len(),
        l_new == l_old.update(lvl, l_new[lvl]),
        l_new[lvl]@.len() == l_old[lvl]@.len(),
        page_type_of(l_new[lvl]@) == page_type_of(l_old[lvl]@),
        num_keys_of(l_new[lvl]@) == num_keys_of(l_old[lvl]@),
        forall|i: int|
            0 <= i < num_keys_of(l_old[lvl]@) ==> #[trigger] key_of(l_new[lvl]@, i) == key_of(
                l_old[lvl]@,
                i,
            ) && slot_of(l_new[lvl]@, i) == slot_of(l_old[lvl]@, i),
    ensures
        wf_lineage(l_new, ps, pc, f),
{
    assert forall|j: int| 0 <= j < l_new.len() implies {
        &&& (#[trigger] l_new[j])@.len() == ps
        &&& page_type_of(l_new[j]@) == INNER_TYPE
        &&& num_keys_of(l_new[j]@) as int <= key_capacity_of(ps)
        &&& keys_sorted(l_new[j]@)
        &&& (forall|i: int|
            0 <= i < num_keys_of(l_new[j]@) ==> #[trigger] slot_sep_ok(f, ps, pc, l_new[j]@, i))
    } by {
        assert forall|i1: int, i2: int|
            0 <= i1 < i2 < num_keys_of(l_new[j]@) implies key_lt(
            key_of(l_new[j]@, i1),
            key_of(l_new[j]@, i2),
        ) by {
            if j == lvl {
                assert(key_of(l_new[j]@, i1) == key_of(l_old[j]@, i1));
                assert(key_of(l_new[j]@, i2) == key_of(l_old[j]@, i2));
            }
            assert(key_lt(key_of(l_old[j]@, i1), key_of(l_old[j]@, i2)));
        }
        assert forall|i: int|
            0 <= i < num_keys_of(l_new[j]@) implies #[trigger] slot_sep_ok(
            f,
            ps,
            pc,
            l_new[j]@,
            i,
        ) by {
            assert(slot_sep_ok(f, ps, pc, l_old[j]@, i));
            if j == lvl {
                assert(key_of(l_new[j]@, i) == key_of(l_old[j]@, i));
                assert(slot_of(l_new[j]@, i) == slot_of(l_old[j]@, i));
                if i + 1 <= num_keys_of(l_old[j]@) - 1 {
                    assert(key_of(l_new[j]@, i + 1) == key_of(l_old[j]@, i + 1));
                    assert(slot_of(l_new[j]@, i + 1) == slot_of(l_old[j]@, i + 1));
                }
            }
        }
    }
}

/// Writing out one closed builder during finalization: the image gains
/// an inner page whose rightmost descendant is still the last leaf, and
/// every bookkeeping fact carries over.
#[verifier::rlimit(100)]
#[verifier::spinoff_prover]
proof fn finalize_step(
    f_old: Seq<u8>,
    f_new: Seq<u8>,
    l: Seq<PageBuffer>,
    lvl: int,
    ps: int,
    pcb: int,
    entries: Seq<(Key, u32)>,
    lp: Seq<int>,
    k_cap: int,
    upto: int,
    last_leaf: int,
)
    requires
        ps >= 32,
        0 <= lvl < l.len(),
        wf_lineage(l, ps, pcb, f_old),
        loader_facts(f_old, ps, entries, lp, k_cap, pcb, upto),
        f_old.len() == 12 + pcb * ps,
        f_new == f_old + l[lvl]@,
        pcb >= 1,
        extra_of(l[lvl]@) as int == pcb - 1,
        rightmost_leaf(f_old, ps, pcb - 1) == last_leaf,
    ensures
        loader_facts(f_new, ps, entries, lp, k_cap, pcb + 1, upto),
        wf_lineage(l, ps, pcb + 1, f_new),
        is_inner_page(f_new, ps, pcb),
        rightmost_leaf(f_new, ps, pcb) == last_leaf,
        f_new.len() == 12 + (pcb + 1) * ps,
{
    reveal(loader_facts);
    assert(pcb * ps >= 0) by (nonlinear_arith)
        requires
            pcb >= 0 && ps >= 1,
    ;
    assert((pcb + 1) * ps == pcb * ps + ps) by (nonlinear_arith);
    let b = l[lvl]@;
    assert(page_bytes(f_new, ps, pcb) =~= b);
    assert(is_inner_page(f_new, ps, pcb));
    assert forall|i: int|
        0 <= i < num_keys_of(page_bytes(f_new, ps, pcb)) implies (#[trigger] slot_of(
        page_bytes(f_new, ps, pcb),
        i,
    )) < pcb by {
        assert(slot_sep_ok(f_old, ps, pcb, b, i));
        assert(slot_of(page_bytes(f_new, ps, pcb), i) == slot_of(b, i));
    }
    assert(wf_inner_refs(f_new, ps, pcb));
    assert forall|i: int|
        0 <= i < num_keys_of(b) implies #[trigger] slot_sep_ok(f_old, ps, pcb, b, i) by {
        assert(slot_sep_ok(f_old, ps, pcb, b, i));
    }
    seps_extend_inner(f_old, f_new, ps, pcb, b);
    lineage_stable_after_append(l, f_old, f_new, ps, pcb, pcb + 1);
    lemma_rightmost_leaf_stable(f_old, f_new, ps, pcb);
    assert(!is_leaf_page(f_new, ps, pcb));
    assert(rightmost_leaf(f_new, ps, pcb) == rightmost_leaf(f_new, ps, pcb - 1));
    assert(rightmost_leaf(f_new, ps, pcb - 1) == last_leaf);
    assert forall|pn: int|
        pcb <= pn < pcb + 1 implies is_inner_page(f_new, ps, pn) && wf_inner_refs(
        f_new,
        ps,
        pn,
    ) by {
        assert(pn == pcb);
    }
    inner_extend(f_old, f_new, ps, entries, lp, k_cap, pcb, pcb + 1, upto);
}

/// After the header rewrite, conclude every public fact about the
/// finished image from the loader's bookkeeping.
#[verifier::rlimit(100)]
#[verifier::spinoff_prover]
proof fn derive_final(
    f_old: Seq<u8>,
    f: Seq<u8>,
    ps: int,
    entries: Seq<(Key, u32)>,
    lp: Seq<int>,
    k_cap: int,
    pc: int,
)
    requires
        ps >= 32,
        k_cap == key_capacity_of(ps),
        k_cap >= 1,
        1 <= entries.len(),
        forall|a: int, b: int| 0 <= a < b < entries.len() ==> key_lt(entries[a].0, entries[b].0),
        loader_facts(f_old, ps, entries, lp, k_cap, pc, entries.len() as int),
        f_old.len() == 12 + pc * ps,
        f.len() == f_old.len(),
        forall|k: int| 12 <= k < f.len() ==> f[k] == f_old[k],
        1 <= lp.len(),
        k_cap * (lp.len() - 1) < entries.len() <= k_cap * lp.len(),
        rightmost_leaf(f_old, ps, pc - 1) == lp[lp.len() - 1],
        file_page_count(f) == pc,
        entries.len() > k_cap ==> is_inner_page(f_old, ps, pc - 1),
    ensures
        wf_leaves(f, ps),
        wf_inners(f, ps),
        wf_seps(f, ps),
        root_spans(f, ps),
        leaves_entries_upto(f, ps, pc) == entries.take(entries.len() as int),
        forall|pn: int|
            0 <= pn < pc && is_leaf_page(f, ps, pn) && pn != leaf_prev(f, ps, pc)
                ==> num_keys_of(#[trigger] page_bytes(f, ps, pn)) == k_cap,
        entries.len() > k_cap ==> is_inner_page(f, ps, pc - 1),
{
    reveal(loader_facts);
    let n = entries.len() as int;
    assert(pc * ps >= 0) by (nonlinear_arith)
        requires
            pc >= 0 && ps >= 1,
    ;
    seps_stable(f_old, f, ps, pc, pc);
    inner_extend(f_old, f, ps, entries, lp, k_cap, pc, pc, n);
    derive_leaf_pages(f, ps, entries, lp, k_cap, pc);
    derive_chain(f, ps, entries, lp, k_cap, pc, n);
    derive_cross(f, ps, entries, lp, k_cap, pc);
    assert(wf_leaves(f, ps));
    assert(wf_inners(f, ps));
    assert(wf_seps(f, ps));
    // The root reaches the last-written leaf, which is the nearest leaf
    // below the page count.
    lemma_rightmost_leaf_stable(f_old, f, ps, pc);
    assert(rightmost_leaf(f, ps, pc - 1) == lp[lp.len() - 1]);
    assert forall|q: int| lp[lp.len() - 1] < q < pc implies !is_leaf_page(f, ps, q) by {
        if is_leaf_page(f, ps, q) {
            assert(lp.contains(q));
            let t = choose|t: int| 0 <= t < lp.len() && lp[t] == q;
            if t < lp.len() - 1 {
                assert(lp[t] < lp[lp.len() - 1]);
            }
        }
    }
    lemma_leaf_prev_skip(f, ps, lp[lp.len() - 1], pc);
    assert(root_spans(f, ps));
    derive_leaf_fullness(f, ps, entries, lp, k_cap, pc);
    if entries.len() > k_cap {
        assert((pc - 1) * ps + ps == pc * ps) by (nonlinear_arith);
        assert((pc - 1) * ps >= 0) by (nonlinear_arith)
            requires
                pc >= 1 && ps >= 1,
        ;
        lemma_page_bytes_stable(f_old, f, ps, pc - 1);
        assert(is_inner_page(f, ps, pc - 1));
    }
}

/// Every leaf but the last-written one holds exactly the page capacity.
#[verifier::rlimit(100)]
proof fn derive_leaf_fullness(
    f: Seq<u8>,
    ps: int,
    entries: Seq<(Key, u32)>,
    lp: Seq<int>,
    k_cap: int,
    pc: int,
)
    requires
        ps >= 32,
        k_cap == key_capacity_of(ps),
        k_cap >= 1,
        1 <= entries.len(),
        loader_facts(f, ps, entries, lp, k_cap, pc, entries.len() as int),
        1 <= lp.len(),
        k_cap * (lp.len() - 1) < entries.len() <= k_cap * lp.len(),
        leaf_prev(f, ps, pc) == lp[lp.len() - 1],
    ensures
        forall|pn: int|
            0 <= pn < pc && is_leaf_page(f, ps, pn) && pn != leaf_prev(f, ps, pc)
                ==> num_keys_of(#[trigger] page_bytes(f, ps, pn)) == k_cap,
{
    reveal(loader_facts);
    let m = lp.len() as int;
    let n = entries.len() as int;
    assert forall|pn: int|
        0 <= pn < pc && is_leaf_page(f, ps, pn) && pn != leaf_prev(f, ps, pc) implies num_keys_of(
        #[trigger] page_bytes(f, ps, pn),
    ) == k_cap by {
        assert(lp.contains(pn));
        let j = choose|j: int| 0 <= j < lp.len() && lp[j] == pn;
        if j == m - 1 {
            assert(lp[j] == leaf_prev(f, ps, pc));
        }
        assert(j < m - 1);
        chunk_bounds(n, k_cap, m, j);
        assert(entries_of(page_bytes(f, ps, lp[j])) == entries.subrange(
            k_cap * j,
            chunk_end(n, k_cap, m, j),
        ));
        assert(chunk_end(n, k_cap, m, j) == k_cap * (j + 1));
        assert(k_cap * (j + 1) == k_cap * j + k_cap) by (nonlinear_arith);
        assert(entries.subrange(k_cap * j, chunk_end(n, k_cap, m, j)).len() == chunk_end(
            n,
            k_cap,
            m,
            j,
        ) - k_cap * j);
        assert(entries_of(page_bytes(f, ps, pn)).len() == num_keys_of(page_bytes(f, ps, pn)));
    }
}

/// Everything the propagation call needs, established in one step from
/// the loader's bookkeeping: separator correctness so far, the soundness
/// of the pair the new leaf propagates, and its dominance over every
/// separator already held.
#[verifier::rlimit(100)]
#[verifier::spinoff_prover]
proof fn lemma_before_propagate(
    f: Seq<u8>,
    ps: int,
    entries: Seq<(Key, u32)>,
    lp: Seq<int>,
    k_cap: int,
    pc: int,
    upto: int,
    l: Seq<PageBuffer>,
    key: Key,
)
    requires
        ps >= 32,
        k_cap == key_capacity_of(ps),
        k_cap >= 1,
        1 <= pc <= 0xffff_ffff,
        forall|a: int, b: int| 0 <= a < b < entries.len() ==> key_lt(entries[a].0, entries[b].0),
        loader_facts(f, ps, entries, lp, k_cap, pc, upto),
        wf_lineage(l, ps, pc - 1, f),
        1 <= lp.len(),
        lp[lp.len() - 1] == pc - 1,
        k_cap * (lp.len() - 1) < upto <= k_cap * lp.len(),
        upto <= entries.len(),
        key == entries[upto - 1].0,
    ensures
        wf_seps_upto(f, ps, pc),
        child_pair_ok(f, ps, pc, key, (pc - 1) as u32),
        forall|j: int, i: int|
            0 <= j < l.len() && 0 <= i < num_keys_of((#[trigger] l[j])@) ==> key_lt(
                #[trigger] key_of(l[j]@, i),
                key,
            ) && rightmost_leaf(f, ps, slot_of(l[j]@, i) as int) < rightmost_leaf(
                f,
                ps,
                pc - 1,
            ),
{
    reveal(loader_facts);
    lemma_pair_prep(f, ps, entries, lp, k_cap, pc, upto, key);
    assert(is_leaf_page(f, ps, pc - 1));
    assert(rightmost_leaf(f, ps, pc - 1) == pc - 1);
    assert forall|j: int, i: int|
        0 <= j < l.len() && 0 <= i < num_keys_of((#[trigger] l[j])@) implies key_lt(
        #[trigger] key_of(l[j]@, i),
        key,
    ) && rightmost_leaf(f, ps, slot_of(l[j]@, i) as int) < rightmost_leaf(f, ps, pc - 1) by {
        assert(slot_sep_ok(f, ps, pc - 1, l[j]@, i));
        lemma_slot_key_below(f, ps, entries, lp, k_cap, pc, upto, l[j]@, i, key);
    }
}

/// Appending one leaf page holding the next chunk preserves the loader's
/// bookkeeping.
#[verifier::rlimit(100)]
#[verifier::spinoff_prover]
proof fn leaf_step(
    f_old: Seq<u8>,
    f_new: Seq<u8>,
    ps: int,
    entries: Seq<(Key, u32)>,
    lp_old: Seq<int>,
    k_cap: int,
    pc: int,
    i: int,
    cnt: int,
    leafbuf: Seq<u8>,
)
    requires
        ps >= 32,
        k_cap >= 1,
        loader_facts(f_old, ps, entries, lp_old, k_cap, pc, i),
        f_old.len() == 12 + pc * ps,
        pc >= 0,
        0 <= i,
        i + cnt <= entries.len(),
        1 <= cnt <= k_cap,
        i == k_cap * lp_old.len(),
        f_new == f_old + leafbuf,
        leafbuf.len() == ps,
        page_type_of(leafbuf) == LEAF_TYPE,
        num_keys_of(leafbuf) == cnt,
        extra_of(leafbuf) == (if lp_old.len() == 0 {
            NO_PAGE
        } else {
            lp_old[lp_old.len() - 1] as u32
        }),
        entries_of(leafbuf) == entries.subrange(i, i + cnt),
    ensures
        loader_facts(f_new, ps, entries, lp_old.push(pc), k_cap, pc + 1, i + cnt),
{
    reveal(loader_facts);
    let lp_new = lp_old.push(pc);
    let m_old = lp_old.len() as int;
    assert(pc * ps >= 0) by (nonlinear_arith)
        requires
            pc >= 0 && ps >= 1,
    ;
    assert((pc + 1) * ps == pc * ps + ps) by (nonlinear_arith);
    lemma_pages_stable_after_append(f_old, f_new, ps, pc);
    assert(page_bytes(f_new, ps, pc) =~= leafbuf);
    // Ascending page numbers and leaf typing.
    assert forall|j: int| 0 <= j < lp_new.len() implies is_leaf_page(
        f_new,
        ps,
        #[trigger] lp_new[j],
    ) by {
        if j < m_old {
            assert(is_leaf_page(f_old, ps, lp_old[j]));
        }
    }
    // Every leaf of the new image is listed.
    assert forall|pn: int| 0 <= pn < pc + 1 && is_leaf_page(f_new, ps, pn) implies lp_new.contains(
        pn,
    ) by {
        if pn == pc {
            assert(lp_new[m_old] == pn);
        } else {
            assert(is_leaf_page(f_old, ps, pn));
            assert(lp_old.contains(pn));
            let t = choose|t: int| 0 <= t < lp_old.len() && lp_old[t] == pn;
            assert(lp_new[t] == pn);
        }
    }
    // Every page is typed.
    assert forall|pn: int|
        0 <= pn < pc + 1 implies is_leaf_page(f_new, ps, pn) || is_inner_page(
        f_new,
        ps,
        pn,
    ) by {
        if pn < pc {
            assert(is_leaf_page(f_old, ps, pn) || is_inner_page(f_old, ps, pn));
        }
    }
    // Inner pages keep their sound references.
    assert forall|pn: int|
        0 <= pn < pc + 1 && is_inner_page(f_new, ps, pn) implies wf_inner_refs(
        f_new,
        ps,
        pn,
    ) by {
        if pn < pc {
            assert(is_inner_page(f_old, ps, pn));
            assert(wf_inner_refs(f_old, ps, pn));
        }
    }
    // Inner pages keep their separator facts; the new page is a leaf.
    assert forall|pn: int| pc <= pn < pc + 1 implies !is_inner_page(f_new, ps, pn) by {
        assert(is_leaf_page(f_new, ps, pn));
    }
    seps_stable(f_old, f_new, ps, pc, pc + 1);
    // Chunk contents.
    assert forall|j: int| 0 <= j < lp_new.len() implies entries_of(
        page_bytes(f_new, ps, #[trigger] lp_new[j]),
    ) == entries.subrange(k_cap * j, chunk_end(i + cnt, k_cap, lp_new.len() as int, j)) by {
        if j < m_old {
            assert(entries_of(page_bytes(f_old, ps, lp_old[j])) == entries.subrange(
                k_cap * j,
                chunk_end(i, k_cap, m_old, j),
            ));
            if j == m_old - 1 {
                assert(k_cap * (j + 1) == k_cap * m_old) by (nonlinear_arith)
                    requires
                        j + 1 == m_old,
                ;
            }
        } else {
            assert(lp_new[j] == pc);
            assert(k_cap * j == i);
        }
    }
    // Backward chain fields.
    assert forall|j: int| 0 <= j < lp_new.len() implies extra_of(
        page_bytes(f_new, ps, #[trigger] lp_new[j]),
    ) == (if j == 0 {
        NO_PAGE
    } else {
        lp_new[j - 1] as u32
    }) by {
        if j < m_old {
            assert(extra_of(page_bytes(f_old, ps, lp_old[j])) == (if j == 0 {
                NO_PAGE
            } else {
                lp_old[j - 1] as u32
            }));
        }
    }
    // Leaf-entry concatenation.
    lemma_leaves_entries_snoc(f_old, f_new, ps, pc);
    assert(entries.take(i) + entries.subrange(i, i + cnt) =~= entries.take(i + cnt));
}

/// Extending the image with inner pages only — or rewriting the 12 header
/// bytes — preserves the loader's bookkeeping.
#[verifier::rlimit(100)]
proof fn inner_extend(
    f_old: Seq<u8>,
    f_new: Seq<u8>,
    ps: int,
    entries: Seq<(Key, u32)>,
    lp: Seq<int>,
    k_cap: int,
    pc_old: int,
    pc_new: int,
    upto: int,
)
    requires
        ps >= 32,
        loader_facts(f_old, ps, entries, lp, k_cap, pc_old, upto),
        f_old.len() == 12 + pc_old * ps,
        f_new.len() == 12 + pc_new * ps,
        0 <= pc_old <= pc_new,
        forall|k: int| 12 <= k < f_old.len() ==> f_new[k] == f_old[k],
        forall|pn: int|
            pc_old <= pn < pc_new ==> is_inner_page(f_new, ps, pn) && wf_inner_refs(
                f_new,
                ps,
                pn,
            ),
        wf_seps_upto(f_new, ps, pc_new),
    ensures
        loader_facts(f_new, ps, entries, lp, k_cap, pc_new, upto),
{
    reveal(loader_facts);
    assert(pc_old * ps >= 0) by (nonlinear_arith)
        requires
            pc_old >= 0 && ps >= 1,
    ;
    vstd::arithmetic::mul::lemma_mul_inequality(pc_old, pc_new, ps);
    assert forall|pn: int| 0 <= pn < pc_old implies page_bytes(f_new, ps, pn) == page_bytes(
        f_old,
        ps,
        pn,
    ) by {
        vstd::arithmetic::mul::lemma_mul_inequality(pn + 1, pc_old, ps);
        assert(pn * ps >= 0) by (nonlinear_arith)
            requires
                pn >= 0 && ps >= 1,
        ;
        assert((pn + 1) * ps == pn * ps + ps) by (nonlinear_arith);
        lemma_page_bytes_stable(f_old, f_new, ps, pn);
    }
    assert forall|j: int| 0 <= j < lp.len() implies is_leaf_page(
        f_new,
        ps,
        #[trigger] lp[j],
    ) by {
        assert(is_leaf_page(f_old, ps, lp[j]));
    }
    assert forall|pn: int| 0 <= pn < pc_new && is_leaf_page(f_new, ps, pn) implies lp.contains(
        pn,
    ) by {
        if pn < pc_old {
            assert(is_leaf_page(f_old, ps, pn));
        } else {
            assert(is_inner_page(f_new, ps, pn));
        }
    }
    assert forall|pn: int|
        0 <= pn < pc_new implies is_leaf_page(f_new, ps, pn) || is_inner_page(
        f_new,
        ps,
        pn,
    ) by {
        if pn < pc_old {
            assert(is_leaf_page(f_old, ps, pn) || is_inner_page(f_old, ps, pn));
        }
    }
    assert forall|pn: int|
        0 <= pn < pc_new && is_inner_page(f_new, ps, pn) implies wf_inner_refs(
        f_new,
        ps,
        pn,
    ) by {
        if pn < pc_old {
            assert(is_inner_page(f_old, ps, pn));
            assert(wf_inner_refs(f_old, ps, pn));
        }
    }
    assert forall|j: int| 0 <= j < lp.len() implies entries_of(
        page_bytes(f_new, ps, #[trigger] lp[j]),
    ) == entries.subrange(k_cap * j, chunk_end(upto, k_cap, lp.len() as int, j)) by {
        assert(entries_of(page_bytes(f_old, ps, lp[j])) == entries.subrange(
            k_cap * j,
            chunk_end(upto, k_cap, lp.len() as int, j),
        ));
    }
    assert forall|j: int| 0 <= j < lp.len() implies extra_of(
        page_bytes(f_new, ps, #[trigger] lp[j]),
    ) == (if j == 0 {
        NO_PAGE
    } else {
        lp[j - 1] as u32
    }) by {
        assert(extra_of(page_bytes(f_old, ps, lp[j])) == (if j == 0 {
            NO_PAGE
        } else {
            lp[j - 1] as u32
        }));
    }
    lemma_leaves_entries_stable(f_old, f_new, ps, pc_old);
    assert forall|pn: int| pc_old <= pn < pc_new implies !is_leaf_page(f_new, ps, pn) by {
        assert(is_inner_page(f_new, ps, pn));
    }
    lemma_leaves_entries_inner_range(f_new, ps, pc_old, pc_new);
}

/// The chunk bounds of leaf `j`: non-empty, within the source, and at
/// most `k_cap` entries.
proof fn chunk_bounds(n: int, k_cap: int, m: int, j: int)
    requires
        k_cap >= 1,
        1 <= m,
        0 <= j < m,
        k_cap * (m - 1) < n <= k_cap * m,
    ensures
        0 <= k_cap * j,
        k_cap * j < chunk_end(n, k_cap, m, j),
        chunk_end(n, k_cap, m, j) <= n,
        chunk_end(n, k_cap, m, j) - k_cap * j <= k_cap,
        j < m - 1 ==> chunk_end(n, k_cap, m, j) == k_cap * (j + 1),
{
    assert(k_cap * j >= 0) by (nonlinear_arith)
        requires
            k_cap >= 1 && j >= 0,
    ;
    assert(k_cap * (j + 1) == k_cap * j + k_cap) by (nonlinear_arith);
    assert(k_cap * m == k_cap * (m - 1) + k_cap) by (nonlinear_arith);
    if j < m - 1 {
        assert(k_cap * (j + 1) <= k_cap * (m - 1)) by (nonlinear_arith)
            requires
                k_cap >= 1 && j + 1 <= m - 1,
        ;
    } else {
        assert(k_cap * j == k_cap * (m - 1));
    }
}

/// A page whose entries are a slice of a strictly ascending source has
/// strictly ascending keys.
proof fn lemma_chunk_sorted(s: Seq<u8>, entries: Seq<(Key, u32)>, lo: int, hi: int)
    requires
        forall|a: int, b: int| 0 <= a < b < entries.len() ==> key_lt(entries[a].0, entries[b].0),
        0 <= lo < hi <= entries.len(),
        entries_of(s) == entries.subrange(lo, hi),
    ensures
        keys_sorted(s),
{
    assert(entries_of(s).len() == num_keys_of(s));
    assert forall|a: int, b: int|
        0 <= a < b < num_keys_of(s) implies key_lt(key_of(s, a), key_of(s, b)) by {
        assert(entries_of(s)[a] == (key_of(s, a), slot_of(s, a)));
        assert(entries_of(s)[b] == (key_of(s, b), slot_of(s, b)));
        assert(entries.subrange(lo, hi)[a] == entries[lo + a]);
        assert(entries.subrange(lo, hi)[b] == entries[lo + b]);
        assert(key_lt(entries[lo + a].0, entries[lo + b].0));
    }
}

/// Each leaf of a loaded image is non-empty, within capacity and sorted.
#[verifier::rlimit(100)]
proof fn derive_leaf_pages(
    f: Seq<u8>,
    ps: int,
    entries: Seq<(Key, u32)>,
    lp: Seq<int>,
    k_cap: int,
    pc: int,
)
    requires
        ps >= 32,
        k_cap == key_capacity_of(ps),
        k_cap >= 1,
        1 <= entries.len(),
        forall|a: int, b: int| 0 <= a < b < entries.len() ==> key_lt(entries[a].0, entries[b].0),
        loader_facts(f, ps, entries, lp, k_cap, pc, entries.len() as int),
        1 <= lp.len(),
        k_cap * (lp.len() - 1) < entries.len() <= k_cap * lp.len(),
    ensures
        forall|pn: int|
            0 <= pn < pc && is_leaf_page(f, ps, pn) ==> wf_leaf_page(f, ps, pn),
{
    reveal(loader_facts);
    let m = lp.len() as int;
    let n = entries.len() as int;
    assert forall|pn: int| 0 <= pn < pc && is_leaf_page(f, ps, pn) implies wf_leaf_page(
        f,
        ps,
        pn,
    ) by {
        assert(lp.contains(pn));
        let j = choose|j: int| 0 <= j < lp.len() && lp[j] == pn;
        chunk_bounds(n, k_cap, m, j);
        let s = page_bytes(f, ps, pn);
        let lo = k_cap * j;
        let hi = chunk_end(n, k_cap, m, j);
        assert(entries_of(page_bytes(f, ps, lp[j])) == entries.subrange(lo, hi));
        assert(entries_of(s).len() == num_keys_of(s));
        assert(num_keys_of(s) as int == hi - lo);
        lemma_chunk_sorted(s, entries, lo, hi);
    }
}

/// Each leaf's `extra` names exactly the leaf written before it.
#[verifier::rlimit(100)]
proof fn derive_chain(
    f: Seq<u8>,
    ps: int,
    entries: Seq<(Key, u32)>,
    lp: Seq<int>,
    k_cap: int,
    pc: int,
    upto: int,
)
    requires
        ps >= 32,
        loader_facts(f, ps, entries, lp, k_cap, pc, upto),
    ensures
        forall|pn: int|
            0 <= pn < pc && is_leaf_page(f, ps, pn) ==> leaf_chain_ok(f, ps, pn),
{
    reveal(loader_facts);
    let m = lp.len() as int;
    assert forall|pn: int| 0 <= pn < pc && is_leaf_page(f, ps, pn) implies leaf_chain_ok(
        f,
        ps,
        pn,
    ) by {
        assert(lp.contains(pn));
        let j = choose|j: int| 0 <= j < lp.len() && lp[j] == pn;
        assert(extra_of(page_bytes(f, ps, lp[j])) == (if j == 0 {
            NO_PAGE
        } else {
            lp[j - 1] as u32
        }));
        if j == 0 {
            assert forall|q: int| 0 <= q < pn implies !is_leaf_page(f, ps, q) by {
                if is_leaf_page(f, ps, q) {
                    assert(lp.contains(q));
                    let t = choose|t: int| 0 <= t < lp.len() && lp[t] == q;
                    if t > 0 {
                        assert(lp[0] < lp[t]);
                    }
                }
            }
            lemma_leaf_prev_none(f, ps, pn);
        } else {
            assert forall|q: int| lp[j - 1] < q < pn implies !is_leaf_page(f, ps, q) by {
                if is_leaf_page(f, ps, q) {
                    assert(lp.contains(q));
                    let t = choose|t: int| 0 <= t < lp.len() && lp[t] == q;
                    if t < j - 1 {
                        assert(lp[t] < lp[j - 1]);
                    }
                    if t > j {
                        assert(lp[j] < lp[t]);
                    }
                }
            }
            lemma_leaf_prev_skip(f, ps, lp[j - 1], pn);
        }
    }
}

/// The last key of an earlier slice lies strictly below the first key of
/// a later slice of a strictly ascending source.
proof fn lemma_cross_pair(
    sa: Seq<u8>,
    sb: Seq<u8>,
    entries: Seq<(Key, u32)>,
    lo_a: int,
    hi_a: int,
    lo_b: int,
    hi_b: int,
)
    requires
        forall|a: int, b: int| 0 <= a < b < entries.len() ==> key_lt(entries[a].0, entries[b].0),
        0 <= lo_a < hi_a <= lo_b < hi_b <= entries.len(),
        entries_of(sa) == entries.subrange(lo_a, hi_a),
        entries_of(sb) == entries.subrange(lo_b, hi_b),
    ensures
        key_lt(key_of(sa, num_keys_of(sa) as int - 1), key_of(sb, 0)),
{
    let na = num_keys_of(sa) as int;
    assert(entries_of(sa).len() == na);
    assert(na == hi_a - lo_a);
    let nb = num_keys_of(sb) as int;
    assert(entries_of(sb).len() == nb);
    assert(nb == hi_b - lo_b);
    assert(entries_of(sa)[na - 1] == (key_of(sa, na - 1), slot_of(sa, na - 1)));
    assert(entries_of(sb)[0] == (key_of(sb, 0), slot_of(sb, 0)));
    assert(entries.subrange(lo_a, hi_a)[na - 1] == entries[hi_a - 1]);
    assert(entries.subrange(lo_b, hi_b)[0] == entries[lo_b]);
    assert(key_lt(entries[hi_a - 1].0, entries[lo_b].0));
}

/// All keys of an earlier leaf lie strictly below all keys of a later
/// leaf.
#[verifier::rlimit(100)]
proof fn derive_cross(
    f: Seq<u8>,
    ps: int,
    entries: Seq<(Key, u32)>,
    lp: Seq<int>,
    k_cap: int,
    pc: int,
)
    requires
        ps >= 32,
        k_cap >= 1,
        1 <= entries.len(),
        forall|a: int, b: int| 0 <= a < b < entries.len() ==> key_lt(entries[a].0, entries[b].0),
        loader_facts(f, ps, entries, lp, k_cap, pc, entries.len() as int),
        1 <= lp.len(),
        k_cap * (lp.len() - 1) < entries.len() <= k_cap * lp.len(),
    ensures
        forall|p: int, q: int|
            0 <= p < q < pc && is_leaf_page(f, ps, p) && is_leaf_page(f, ps, q) ==> key_lt(
                key_of(page_bytes(f, ps, p), num_keys_of(page_bytes(f, ps, p)) as int - 1),
                key_of(page_bytes(f, ps, q), 0),
            ),
{
    reveal(loader_facts);
    let m = lp.len() as int;
    let n = entries.len() as int;
    assert forall|p: int, q: int|
        0 <= p < q < pc && is_leaf_page(f, ps, p) && is_leaf_page(f, ps, q) implies key_lt(
        key_of(page_bytes(f, ps, p), num_keys_of(page_bytes(f, ps, p)) as int - 1),
        key_of(page_bytes(f, ps, q), 0),
    ) by {
        assert(lp.contains(p));
        assert(lp.contains(q));
        let a = choose|a: int| 0 <= a < lp.len() && lp[a] == p;
        let b = choose|b: int| 0 <= b < lp.len() && lp[b] == q;
        if a > b {
            assert(lp[b] < lp[a]);
        }
        assert(a < b);
        chunk_bounds(n, k_cap, m, a);
        chunk_bounds(n, k_cap, m, b);
        assert(entries_of(page_bytes(f, ps, lp[a])) == entries.subrange(
            k_cap * a,
            chunk_end(n, k_cap, m, a),
        ));
        assert(entries_of(page_bytes(f, ps, lp[b])) == entries.subrange(
            k_cap * b,
            chunk_end(n, k_cap, m, b),
        ));
        assert(chunk_end(n, k_cap, m, a) <= k_cap * b) by {
            assert(chunk_end(n, k_cap, m, a) <= k_cap * (a + 1));
            assert(k_cap * (a + 1) <= k_cap * b) by (nonlinear_arith)
                requires
                    k_cap >= 1 && a + 1 <= b,
            ;
        }
        lemma_cross_pair(
            page_bytes(f, ps, p),
            page_bytes(f, ps, q),
            entries,
            k_cap * a,
            chunk_end(n, k_cap, m, a),
            k_cap * b,
            chunk_end(n, k_cap, m, b),
        );
    }
}

/// The header fields a file must open with: a plausible page size, at
/// least one page, the root as the last page, and a byte length matching
/// the announced page count.
pub open spec fn valid_header_bytes(f: Seq<u8>) -> bool {
    &&& f.len() >= 12
    &&& hdr_page_size(f) >= 32
    &&& hdr_page_count(f) >= 1
    &&& hdr_root(f) == hdr_page_count(f) - 1
    &&& f.len() == 12 + (hdr_page_count(f) as int) * (hdr_page_size(f) as int)
}

/// A read handle over a tree file image: the decoded header and a CLOCK
/// page cache over the image.
pub struct BTree {
    file_header: FileHeader,
    page_cache: PageCache,
}

impl BTree {
    /// The whole backing file image.
    pub closed spec fn file_bytes(&self) -> Seq<u8> {
        self.page_cache.file_bytes()
    }

    /// The page size the handle was opened with.
    pub closed spec fn spec_page_size(&self) -> int {
        self.file_header.page_size as int
    }

    pub closed spec fn wf(&self) -> bool {
        &&& self.page_cache.wf()
        &&& self.page_cache.spec_page_size() == self.file_header.page_size as int
        &&& valid_header_bytes(self.file_bytes())
        &&& self.file_header.page_size == hdr_page_size(self.file_bytes())
        &&& self.file_header.page_count == hdr_page_count(self.file_bytes())
        &&& self.file_header.root_page_num == hdr_root(self.file_bytes())
        &&& self.page_cache.spec_page_count() == self.file_header.page_count as int
    }

    /// Write a complete tree file image from entries in strictly ascending
    /// key order.
    ///
    /// The image starts with a placeholder header; leaves are cut from the
    /// source `key_capacity` entries at a time and appended, each full leaf
    /// propagating its largest key into the lineage of in-flight inner
    /// builders; the remaining builders are closed bottom-up, the page
    /// written last being the root; finally the header is rewritten with the
    /// true page count and root page number.
    ///
    /// On success the image has a consistent header and is well-formed at the
    /// leaf level, and its leaves hold exactly the given entries in order.
    /// The empty source is rejected.
    #[verifier::rlimit(100)]
    pub fn write_from_entries(page_size: u32, entries: &Vec<(Key, ValueBits)>) -> (r: Result<
        Vec<u8>,
        TreeError,
    >)
        requires
            page_size >= 32,
            forall|a: int, b: int|
                0 <= a < b < entries@.len() ==> key_lt(entries@[a].0, entries@[b].0),
            12 + (3 * entries@.len() + 1) * (page_size as int) <= 0x7fff_ffff,
        ensures
            match r {
                Ok(file) => {
                    &&& entries@.len() > 0
                    &&& wf_header(file@, page_size as int)
                    &&& wf_leaves(file@, page_size as int)
                    &&& wf_inners(file@, page_size as int)
                    &&& wf_seps(file@, page_size as int)
                    &&& root_spans(file@, page_size as int)
                    &&& (forall|pn: int|
                        0 <= pn < file_page_count(file@) && is_leaf_page(
                            file@,
                            page_size as int,
                            pn,
                        ) && pn != leaf_prev(file@, page_size as int, file_page_count(file@))
                            ==> num_keys_of(#[trigger] page_bytes(file@, page_size as int, pn))
                            == key_capacity_of(page_size as int))
                    &&& (entries@.len() > key_capacity_of(page_size as int) ==> is_inner_page(
                        file@,
                        page_size as int,
                        file_page_count(file@) - 1,
                    ))
                    &&& leaves_entries_upto(file@, page_size as int, file_page_count(file@))
                        == entries@
                },
                Err(e) => {
                    &&& e == TreeError::EmptySource
                    &&& entries@.len() == 0
                },
            },
    {
        let ghost ps = page_size as int;
        let n = entries.len();
        if n == 0 {
            return Err(TreeError::EmptySource);
        }
        let mut file: Vec<u8> = Vec::new();
        let mut z: usize = 0;
        while z < FILE_HEADER_SIZE
            invariant
                z <= 12,
                file@.len() == z,
            decreases 12 - z,
        {
            file.push(0);
            z += 1;
        }
        let mut leaf_buf = PageBuffer::new(page_size, LEAF_TYPE);
        let k_cap = leaf_buf.key_capacity();
        proof {
            assert(16 * key_capacity_of(ps) <= ps - 16);
            assert(key_capacity_of(ps) >= 1);
        }
        let mut page_count: u32 = 0;
        let mut last_leaf_page_num: u32 = NO_PAGE;
        let mut lineage: Vec<PageBuffer> = Vec::new();
        let mut i: usize = 0;
        let ghost mut lp: Seq<int> = Seq::empty();
        proof {
            reveal(loader_facts);
            assert(leaves_entries_upto(file@, ps, 0) =~= entries@.take(0));
            assert(loader_facts(file@, ps, entries@, lp, k_cap as int, 0, 0));
        }

        while i < n
            invariant
                ps == page_size as int,
                page_size >= 32,
                n == entries@.len(),
                1 <= n,
                forall|a: int, b: int|
                    0 <= a < b < entries@.len() ==> key_lt(entries@[a].0, entries@[b].0),
                12 + (3 * n + 1) * ps <= 0x7fff_ffff,
                k_cap as int == key_capacity_of(ps),
                k_cap >= 1,
                16 + 16 * (k_cap as int) <= ps,
                leaf_buf@.len() == ps,
                i <= n,
                file@.len() == 12 + (page_count as int) * ps,
                lp.len() <= page_count as int,
                page_count as int <= 2 * lp.len(),
                nk_sum(lineage@) + (page_count as int - lp.len()) <= lp.len(),
                lineage@.len() <= (page_count as int - lp.len()) + 1,
                wf_lineage(lineage@, ps, page_count as int, file@),
                lp.len() <= i,
                lp.len() >= 1 ==> (k_cap as int) * (lp.len() - 1) < i as int <= (k_cap as int)
                    * lp.len(),
                lp.len() == 0 ==> i == 0,
                i < n ==> i as int == (k_cap as int) * lp.len(),
                i >= n ==> lp.len() >= 1 && lp[lp.len() - 1] == page_count as int - 1,
                i < n && lp.len() >= 1 ==> lineage@.len() >= 1,
                i >= n && lp.len() >= 2 ==> lineage@.len() >= 1,
                last_leaf_page_num == (if lp.len() == 0 {
                    NO_PAGE
                } else {
                    lp[lp.len() - 1] as u32
                }),
                loader_facts(file@, ps, entries@, lp, k_cap as int, page_count as int, i as int),
            decreases n - i,
        {
            let remaining = n - i;
            let cnt = if remaining < k_cap {
                remaining
            } else {
                k_cap
            };
            proof {
                lemma_nk_sum_nonneg(lineage@);
                assert((3 * n + 1) * 32 <= (3 * n + 1) * ps) by (nonlinear_arith)
                    requires
                        ps >= 32 && n >= 0,
                ;
                vstd::arithmetic::mul::lemma_mul_inequality(
                    page_count as int + lineage@.len() + 2,
                    3 * n + 1,
                    ps,
                );
                assert(page_count as int + lineage@.len() + 2 <= 3 * n + 1);
                assert((page_count as int + 1) * ps == page_count as int * ps + ps)
                    by (nonlinear_arith);
            }
            leaf_buf.clear();
            let mut j: usize = 0;
            while j < cnt
                invariant
                    j <= cnt,
                    1 <= cnt <= k_cap,
                    i + cnt <= n,
                    n == entries@.len(),
                    ps == page_size as int,
                    leaf_buf@.len() == ps,
                    ps >= 32,
                    16 + 16 * (k_cap as int) <= ps,
                    forall|t: int|
                        0 <= t < j ==> key_of(leaf_buf@, t) == entries@[i + t].0 && slot_of(
                            leaf_buf@,
                            t,
                        ) == entries@[i + t].1,
                    forall|t: int| 0 <= t < 16 ==> leaf_buf@[t] == 0,
                decreases cnt - j,
            {
                let e = entries[i + j];
                let ghost pre = leaf_buf@;
                leaf_buf.set_key(j, e.0);
                let ghost mid = leaf_buf@;
                leaf_buf.set_value(j, e.1);
                proof {
                    assert forall|b: int| 0 <= b < key_off(j as int) implies leaf_buf@[b]
                        == pre[b] by {
                        assert(leaf_buf@[b] == mid[b]);
                        assert(mid[b] == pre[b]);
                    }
                    assert forall|t: int|
                        0 <= t < j + 1 implies key_of(leaf_buf@, t) == entries@[i + t].0 && slot_of(
                        leaf_buf@,
                        t,
                    ) == entries@[i + t].1 by {
                        if t < j {
                            assert(key_off(t) + 16 <= key_off(j as int));
                            assert(key_of(pre, t) == entries@[i + t].0);
                            assert(slot_of(pre, t) == entries@[i + t].1);
                        }
                    }
                }
                j += 1;
            }
            let ghost filled = leaf_buf@;
            leaf_buf.set_num_keys(cnt as u32);
            let ghost stamped = leaf_buf@;
            leaf_buf.set_extra_page_num(last_leaf_page_num);
            proof {
                assert(page_type_of(leaf_buf@) == LEAF_TYPE);
                assert(num_keys_of(leaf_buf@) == cnt);
                assert(extra_of(leaf_buf@) == last_leaf_page_num);
                assert forall|t: int|
                    0 <= t < cnt implies key_of(leaf_buf@, t) == entries@[i + t].0 && slot_of(
                    leaf_buf@,
                    t,
                ) == entries@[i + t].1 by {
                    assert(key_of(filled, t) == entries@[i + t].0);
                    assert(slot_of(filled, t) == entries@[i + t].1);
                    assert(key_of(stamped, t) == key_of(filled, t));
                    assert(slot_of(stamped, t) == slot_of(filled, t));
                }
                assert(entries_of(leaf_buf@) =~= entries@.subrange(i as int, i + cnt));
            }
            let ghost file_before = file@;
            let ghost pc_before = page_count as int;
            let ghost lp_before = lp;
            append_page(&mut file, &leaf_buf);
            proof {
                leaf_step(
                    file_before,
                    file@,
                    ps,
                    entries@,
                    lp_before,
                    k_cap as int,
                    pc_before,
                    i as int,
                    cnt as int,
                    leaf_buf@,
                );
                lp = lp.push(pc_before);
                lineage_stable_after_append(
                    lineage@,
                    file_before,
                    file@,
                    ps,
                    pc_before,
                    pc_before,
                );
                lineage_stable_after_append(
                    lineage@,
                    file_before,
                    file@,
                    ps,
                    pc_before,
                    pc_before + 1,
                );
            }
            last_leaf_page_num = page_count;
            page_count = page_count + 1;
            i = i + cnt;
            proof {
                assert((k_cap as int) * lp.len() == (k_cap as int) * (lp.len() - 1) + (k_cap as int))
                    by (nonlinear_arith);
            }
            if i < n {
                proof {
                    assert(cnt == k_cap);
                }
                let last_key = leaf_buf.key(cnt - 1);
                proof {
                    assert(last_key == entries@[i - 1].0);
                    lemma_before_propagate(
                        file@,
                        ps,
                        entries@,
                        lp,
                        k_cap as int,
                        page_count as int,
                        i as int,
                        lineage@,
                        last_key,
                    );
                }
                let ghost file_mid = file@;
                let ghost pc_mid = page_count as int;
                let appended = add_to_parent(
                    &mut file,
                    &mut lineage,
                    last_key,
                    last_leaf_page_num,
                    &mut page_count,
                    page_size,
                );
                proof {
                    lemma_nk_sum_nonneg(lineage@);
                    inner_extend(
                        file_mid,
                        file@,
                        ps,
                        entries@,
                        lp,
                        k_cap as int,
                        pc_mid,
                        page_count as int,
                        i as int,
                    );
                }
            }
        }
        // Close the remaining in-flight builders bottom-up; the page written
        // last is the root.
        let mut lvl: usize = 0;
        let ghost pc_loop_end = page_count as int;
        let ghost last_leaf = lp[lp.len() - 1];
        proof {
            reveal(loader_facts);
            assert(is_leaf_page(file@, ps, last_leaf));
            assert(rightmost_leaf(file@, ps, page_count as int - 1) == last_leaf);
        }
        let lineage_len = lineage.len();
        while lvl < lineage_len
            invariant
                ps == page_size as int,
                page_size >= 32,
                n == entries@.len(),
                1 <= n,
                i == n,
                forall|a: int, b: int|
                    0 <= a < b < entries@.len() ==> key_lt(entries@[a].0, entries@[b].0),
                12 + (3 * n + 1) * ps <= 0x7fff_ffff,
                k_cap as int == key_capacity_of(ps),
                k_cap >= 1,
                lineage_len == lineage@.len(),
                lvl <= lineage_len,
                wf_lineage(lineage@, ps, page_count as int, file@),
                page_count as int == pc_loop_end + lvl,
                pc_loop_end + lineage@.len() <= 3 * lp.len() + 1,
                page_count >= 1,
                lp.len() <= n,
                1 <= lp.len(),
                (k_cap as int) * (lp.len() - 1) < n as int <= (k_cap as int) * lp.len(),
                file@.len() == 12 + (page_count as int) * ps,
                last_leaf == lp[lp.len() - 1],
                rightmost_leaf(file@, ps, page_count as int - 1) == last_leaf,
                lvl >= 1 ==> is_inner_page(file@, ps, page_count as int - 1),
                lp.len() >= 2 ==> lineage_len >= 1,
                loader_facts(file@, ps, entries@, lp, k_cap as int, page_count as int, n as int),
            decreases lineage_len - lvl,
        {
            proof {
                assert((3 * n + 1) * 32 <= (3 * n + 1) * ps) by (nonlinear_arith)
                    requires
                        ps >= 32 && n >= 0,
                ;
                vstd::arithmetic::mul::lemma_mul_inequality(page_count as int + 1, 3 * n + 1, ps);
                assert((page_count as int + 1) * ps == page_count as int * ps + ps)
                    by (nonlinear_arith);
            }
            let rightmost = page_count - 1;
            let ghost l_old = lineage@;
            let b = &mut lineage[lvl];
            b.set_extra_page_num(rightmost);
            proof {
                assert(lineage@ =~= l_old.update(lvl as int, lineage@[lvl as int]));
                assert forall|i: int|
                    0 <= i < num_keys_of(l_old[lvl as int]@) implies #[trigger] key_of(
                    lineage@[lvl as int]@,
                    i,
                ) == key_of(l_old[lvl as int]@, i) && slot_of(lineage@[lvl as int]@, i) == slot_of(
                    l_old[lvl as int]@,
                    i,
                ) by {
                    assert(key_of(l_old[lvl as int]@, i) == key_of(l_old[lvl as int]@, i));
                }
                lemma_lineage_set_extra(
                    l_old,
                    lineage@,
                    lvl as int,
                    ps,
                    page_count as int,
                    file@,
                );
            }
            let ghost file_before = file@;
            let ghost pcb = page_count as int;
            append_page(&mut file, &lineage[lvl]);
            proof {
                assert(extra_of(lineage@[lvl as int]@) == rightmost);
                finalize_step(
                    file_before,
                    file@,
                    lineage@,
                    lvl as int,
                    ps,
                    pcb,
                    entries@,
                    lp,
                    k_cap as int,
                    n as int,
                    last_leaf,
                );
            }
            page_count = page_count + 1;
            lvl += 1;
        }
        let ghost file_pre_hdr = file@;
        let ghost pc_final = page_count as int;
        write_u32(&mut file, 0, page_size);
        write_u32(&mut file, 4, page_count);
        write_u32(&mut file, 8, page_count - 1);
        proof {
            assert(file@.len() == 12 + pc_final * ps);
            assert(wf_header(file@, ps));
            assert(file_page_count(file@) == pc_final);
            if entries@.len() > key_capacity_of(ps) {
                // More entries than one leaf holds: at least two leaves,
                // so at least one builder was closed, and the root is the
                // inner page written last.
                assert(lp.len() >= 2);
                assert(lineage_len >= 1);
                assert(is_inner_page(file_pre_hdr, ps, pc_final - 1));
            }
            derive_final(file_pre_hdr, file@, ps, entries@, lp, k_cap as int, pc_final);
            assert(entries@.take(n as int) =~= entries@);
        }
        Ok(file)
    }

    /// Open a tree from a file image, validating the header against the
    /// image size, with a cache of `page_cache_size` slots.
    pub fn from_file(file: Vec<u8>, page_cache_size: usize) -> (r: Result<BTree, TreeError>)
        requires
            1 <= page_cache_size <= 0xffff_ffff,
        ensures
            match r {
                Ok(t) => {
                    &&& valid_header_bytes(file@)
                    &&& t.wf()
                    &&& t.file_bytes() == file@
                    &&& t.spec_page_size() == hdr_page_size(file@) as int
                },
                Err(e) => {
                    &&& e == TreeError::MalformedHeader
                    &&& !valid_header_bytes(file@)
                },
            },
    {
        if file.len() < FILE_HEADER_SIZE {
            return Err(TreeError::MalformedHeader);
        }
        let file_header = read_file_header(&file);
        let ps = file_header.page_size;
        let pc = file_header.page_count;
        if ps < 32 || pc < 1 || file_header.root_page_num != pc - 1 {
            return Err(TreeError::MalformedHeader);
        }
        proof {
            assert((pc as u64) * (ps as u64) <= 0xffff_ffffu64 * 0xffff_ffffu64)
                by (nonlinear_arith)
                requires
                    pc as u64 <= 0xffff_ffffu64 && ps as u64 <= 0xffff_ffffu64,
            ;
        }
        let expected = 12u64 + (pc as u64) * (ps as u64);
        if (file.len() as u64) != expected {
            return Err(TreeError::MalformedHeader);
        }
        proof {
            vstd::arithmetic::div_mod::lemma_div_by_multiple(pc as int, ps as int);
            assert((pc as int) * (ps as int) == (ps as int) * (pc as int)) by (nonlinear_arith);
            assert((file@.len() - 12) / (ps as int) == pc as int);
        }
        let page_cache = PageCache::new(file, ps, page_cache_size);
        Ok(BTree { file_header, page_cache })
    }

    /// Descend from the root to the leaf whose range covers the query's
    /// probe key `(asset_id, end_date, timestamp)`, and position the
    /// iterator on the lower-bound entry in that leaf, clamped to its last
    /// entry.
    ///
    /// Fails with a malformed-file error if a page type is neither leaf
    /// nor inner, a page is empty or over capacity, or a child reference
    /// does not descend.
    #[verifier::rlimit(100)]
    pub fn query(&mut self, query: Query) -> (r: Result<QueryResultIterator, TreeError>)
        requires
            old(self).wf(),
        ensures
            final(self).wf(),
            final(self).file_bytes() == old(self).file_bytes(),
            final(self).spec_page_size() == old(self).spec_page_size(),
            match r {
                Ok(it) => {
                    &&& it.query == query
                    &&& it.last_yielded_date is None
                    &&& it.pages_read == 1
                    &&& iter_wf(it, old(self).file_bytes(), old(self).spec_page_size())
                    &&& it.page_num < hdr_page_count(old(self).file_bytes())
                    &&& is_leaf_page(
                        old(self).file_bytes(),
                        old(self).spec_page_size(),
                        it.page_num as int,
                    )
                    &&& it.key_index matches Some(k) && (k as int) < num_keys_of(
                        page_bytes(
                            old(self).file_bytes(),
                            old(self).spec_page_size(),
                            it.page_num as int,
                        ),
                    ) as int
                },
                Err(e) => e == TreeError::MalformedPage,
            },
            wf_leaves(old(self).file_bytes(), old(self).spec_page_size()) && wf_inners(
                old(self).file_bytes(),
                old(self).spec_page_size(),
            ) ==> (r matches Ok(_)),
            ({
                let f = old(self).file_bytes();
                let ps = old(self).spec_page_size();
                let ent = leaves_entries_upto(f, ps, file_page_count(f));
                wf_tree_file(f, ps) && entries_sorted(ent) ==> (r matches Ok(it) ==> forall|
                    j: int,
                |
                    iter_pos(it, f, ps) <= j < ent.len() ==> key_lt(
                        probe_key(query),
                        #[trigger] ent[j].0,
                    ))
            }),
    {
        let ghost f = self.file_bytes();
        let ghost ps = self.spec_page_size();
        let ghost pcf = file_page_count(self.file_bytes());
        let ghost ent = leaves_entries_upto(f, ps, pcf);
        let ghost hyp2 = wf_tree_file(f, ps) && entries_sorted(ent);
        let mut page_num: u32 = self.file_header.root_page_num;
        let mut slot = match self.page_cache.load(page_num as usize) {
            Ok(s) => s,
            Err(e) => {
                return Err(e);
            },
        };
        let key = Key {
            asset_id: query.asset_id,
            date: query.end_date,
            timestamp: query.timestamp,
        };
        proof {
            if hyp2 {
                lemma_leaf_prev_props(f, ps, pcf);
                let lpv = leaf_prev(f, ps, pcf);
                if lpv == -1 {
                    lemma_leaves_entries_inner_range(f, ps, 0, pcf);
                } else {
                    // The root's rightmost descendant is the last leaf,
                    // and only inner pages follow it.
                    assert(rightmost_leaf(f, ps, page_num as int) == lpv);
                    assert(wf_leaf_page(f, ps, lpv));
                    lemma_leaves_entries_inner_range(f, ps, lpv + 1, pcf);
                }
            }
        }
        loop
            invariant
                self.wf(),
                f == old(self).file_bytes(),
                ps == old(self).spec_page_size(),
                self.file_bytes() == f,
                self.spec_page_size() == ps,
                pcf == file_page_count(f),
                ent == leaves_entries_upto(f, ps, pcf),
                hyp2 == (wf_tree_file(f, ps) && entries_sorted(ent)),
                page_num < hdr_page_count(f),
                slot < self.page_cache.spec_slots(),
                self.page_cache.slot_bytes(slot as int) == page_bytes(f, ps, page_num as int),
                key == probe_key(query),
                hyp2 && leaf_prev(f, ps, pcf) == -1 ==> ent.len() == 0,
                hyp2 && leaf_prev(f, ps, pcf) >= 0 ==> ({
                    let rl = rightmost_leaf(f, ps, page_num as int);
                    &&& 0 <= rl < pcf
                    &&& wf_leaf_page(f, ps, rl)
                    &&& (forall|j: int|
                        leaves_entries_upto(f, ps, rl + 1).len() <= j < ent.len() ==> key_lt(
                            probe_key(query),
                            #[trigger] ent[j].0,
                        ))
                }),
            ensures
                self.wf(),
                f == old(self).file_bytes(),
                ps == old(self).spec_page_size(),
                self.file_bytes() == f,
                self.spec_page_size() == ps,
                pcf == file_page_count(f),
                ent == leaves_entries_upto(f, ps, pcf),
                hyp2 == (wf_tree_file(f, ps) && entries_sorted(ent)),
                page_num < hdr_page_count(f),
                slot < self.page_cache.spec_slots(),
                self.page_cache.slot_bytes(slot as int) == page_bytes(f, ps, page_num as int),
                key == probe_key(query),
                page_type_of(page_bytes(f, ps, page_num as int)) != INNER_TYPE,
                hyp2 && leaf_prev(f, ps, pcf) == -1 ==> ent.len() == 0,
                hyp2 && leaf_prev(f, ps, pcf) >= 0 ==> ({
                    let rl = rightmost_leaf(f, ps, page_num as int);
                    &&& 0 <= rl < pcf
                    &&& wf_leaf_page(f, ps, rl)
                    &&& (forall|j: int|
                        leaves_entries_upto(f, ps, rl + 1).len() <= j < ent.len() ==> key_lt(
                            probe_key(query),
                            #[trigger] ent[j].0,
                        ))
                }),
            decreases page_num,
        {
            let page = self.page_cache.slot(slot);
            let page_type = page.page_type();
            if page_type != INNER_TYPE {
                break ;
            }
            let num_keys = page.num_keys();
            let cap = page.key_capacity();
            proof {
                if wf_leaves(f, ps) && wf_inners(f, ps) {
                    assert(is_inner_page(f, ps, page_num as int));
                    assert(wf_inner_refs(f, ps, page_num as int));
                }
            }
            if (num_keys as usize) > cap {
                return Err(TreeError::MalformedPage);
            }
            let index = page.index_of(&key);
            let ghost pn_old = page_num as int;
            let next = if index < num_keys {
                proof {
                    if wf_leaves(f, ps) && wf_inners(f, ps) {
                        assert(slot_of(page_bytes(f, ps, page_num as int), index as int)
                            < page_num);
                    }
                }
                page.page_number(index as usize)
            } else {
                page.extra_page_num()
            };
            // Children are written before their parents; anything else is
            // a malformed file and would not terminate.
            if next >= page_num {
                return Err(TreeError::MalformedPage);
            }
            proof {
                if hyp2 && leaf_prev(f, ps, pcf) >= 0 {
                    let b = page_bytes(f, ps, pn_old);
                    assert(is_inner_page(f, ps, pn_old));
                    assert(keys_sorted(b));
                    if (index as int) < num_keys_of(b) {
                        // The probe lies strictly below separator
                        // `index`, which is the last key of the chosen
                        // child's rightmost leaf; everything at or after
                        // that leaf's end exceeds the probe.
                        assert(slot_sep_ok(f, ps, pcf, b, index as int));
                        assert(key_lt(probe_key(query), key_of(b, index as int)));
                        let rln = rightmost_leaf(f, ps, next as int);
                        assert(wf_leaf_page(f, ps, rln));
                        let nkr = num_keys_of(page_bytes(f, ps, rln)) as int;
                        assert(leaves_entries_upto(f, ps, rln + 1) == leaves_entries_upto(
                            f,
                            ps,
                            rln,
                        ) + entries_of(page_bytes(f, ps, rln)));
                        let ce = leaves_entries_upto(f, ps, rln + 1).len() as int;
                        lemma_leaf_entries_position(f, ps, rln, pcf);
                        lemma_lentries_len_monotone(f, ps, rln + 1, pcf);
                        assert(ent[ce - 1] == entries_of(page_bytes(f, ps, rln))[nkr - 1]);
                        assert(ent[ce - 1].0 == key_of(b, index as int));
                        assert forall|j: int| ce <= j < ent.len() implies key_lt(
                            probe_key(query),
                            #[trigger] ent[j].0,
                        ) by {
                            assert(key_lt(ent[ce - 1].0, ent[j].0));
                        }
                    } else {
                        // The rightmost child shares this node's
                        // rightmost descendant.
                        assert((extra_of(b) as int) == next as int);
                        assert(rightmost_leaf(f, ps, pn_old) == rightmost_leaf(f, ps, next as int));
                    }
                }
            }
            page_num = next;
            slot = match self.page_cache.load(page_num as usize) {
                Ok(s) => s,
                Err(e) => {
                    return Err(e);
                },
            };
        }
        let page = self.page_cache.slot(slot);
        let page_type = page.page_type();
        proof {
            if wf_leaves(f, ps) && wf_inners(f, ps) {
                assert(is_leaf_page(f, ps, page_num as int) || is_inner_page(
                    f,
                    ps,
                    page_num as int,
                ));
                if is_leaf_page(f, ps, page_num as int) {
                    assert(wf_leaf_page(f, ps, page_num as int));
                }
            }
        }
        if page_type != LEAF_TYPE {
            return Err(TreeError::MalformedPage);
        }
        let num_keys = page.num_keys();
        let cap = page.key_capacity();
        if num_keys == 0 || (num_keys as usize) > cap {
            return Err(TreeError::MalformedPage);
        }
        let index = page.index_of(&key);
        let key_index = if index < num_keys {
            index
        } else {
            num_keys - 1
        };
        proof {
            if hyp2 && leaf_prev(f, ps, pcf) >= 0 {
                let pn = page_num as int;
                let b = page_bytes(f, ps, pn);
                assert(is_leaf_page(f, ps, pn));
                assert(rightmost_leaf(f, ps, pn) == pn);
                assert(wf_leaf_page(f, ps, pn));
                let off = leaves_entries_upto(f, ps, pn).len() as int;
                assert(leaves_entries_upto(f, ps, pn + 1) == leaves_entries_upto(f, ps, pn)
                    + entries_of(b));
                lemma_leaf_entries_position(f, ps, pn, pcf);
                let nk = num_keys_of(b) as int;
                assert forall|j: int|
                    off + key_index + 1 <= j < ent.len() implies key_lt(
                    probe_key(query),
                    #[trigger] ent[j].0,
                ) by {
                    if j < off + nk {
                        let t = j - off;
                        assert(ent[j] == entries_of(b)[t]);
                        assert(ent[j].0 == key_of(b, t));
                        assert((index as int) < nk);
                        assert(key_le(probe_key(query), key_of(b, index as int)));
                        assert(key_lt(key_of(b, index as int), key_of(b, t)));
                    }
                }
            }
        }
        Ok(
            QueryResultIterator {
                page_num,
                key_index: Some(key_index),
                query,
                last_yielded_date: None,
                pages_read: 1,
            },
        )
    }
}

/// The iterator is positioned on an existing leaf page, within its
/// entries.
pub open spec fn iter_wf(it: QueryResultIterator, f: Seq<u8>, ps: int) -> bool {
    &&& (it.page_num as int) < file_page_count(f)
    &&& is_leaf_page(f, ps, it.page_num as int)
    &&& (it.key_index matches Some(k) ==> (k as int) < num_keys_of(
        page_bytes(f, ps, it.page_num as int),
    ) as int)
}

/// The iterator's position in the file's leaf-entry concatenation: the
/// number of entries at or before it in walk order. The walk inspects
/// entries at positions `iter_pos - 1`, `iter_pos - 2`, … down to 0.
pub open spec fn iter_pos(it: QueryResultIterator, f: Seq<u8>, ps: int) -> int {
    leaves_entries_upto(f, ps, it.page_num as int).len() + (match it.key_index {
        Some(k) => k as int + 1,
        None => 0,
    })
}

/// A reverse-chronological walk through the leaf chain that applies the
/// as-of-timestamp rule: at most one result per date, the observation
/// with the largest timestamp not exceeding the query's.
pub struct QueryResultIterator {
    /// The leaf page the walk is on.
    pub page_num: u32,
    /// The entry position within that leaf; `None` when the leaf is
    /// exhausted and the walk must follow the back-pointer.
    pub key_index: Option<u32>,
    /// The query being answered.
    pub query: Query,
    /// The date of the observation yielded last, if any.
    pub last_yielded_date: Option<u32>,
    /// How many leaf pages the walk has loaded.
    pub pages_read: u32,
}

enum QueryResultIteratorState {
    Continue,
    YieldResult(Option<QueryResult>),
}

/// What one well-formed step owes: on a leaf-well-formed image with a
/// well-positioned iterator, the step cannot fail, keeps the iterator
/// well-positioned, and refines the owed answer: a silent step leaves it
/// unchanged, an end step happens only when nothing is owed, and a yield
/// surfaces exactly the head of the owed answer.
spec fn iterate_step_ok(
    pre: QueryResultIterator,
    post: QueryResultIterator,
    r: Result<QueryResultIteratorState, TreeError>,
    f: Seq<u8>,
    ps: int,
) -> bool {
    let ent = leaves_entries_upto(f, ps, file_page_count(f));
    let q = pre.query;
    let last = pre.last_yielded_date;
    &&& (r matches Ok(_))
    &&& iter_wf(post, f, ps)
    &&& (r matches Ok(QueryResultIteratorState::Continue) ==> asof_results(
        ent,
        q,
        last,
        iter_pos(post, f, ps),
    ) == asof_results(ent, q, last, iter_pos(pre, f, ps)))
    &&& (r matches Ok(QueryResultIteratorState::YieldResult(res)) ==> match res {
        None => asof_results(ent, q, last, iter_pos(pre, f, ps)) == Seq::<QueryResult>::empty(),
        Some(qr) => {
            &&& asof_results(ent, q, last, iter_pos(pre, f, ps)) == seq![qr] + asof_results(
                ent,
                q,
                Some(qr.key.date),
                iter_pos(post, f, ps),
            )
            &&& (exists|j: int| 0 <= j < ent.len() && #[trigger] ent[j] == (qr.key, qr.value))
        },
    })
}

impl QueryResultIterator {
    /// A decreasing measure of the walk: position strictly decreases at
    /// every silent step.
    pub open spec fn measure(&self) -> int {
        (self.page_num as int) * 0x1_0000_0000 + (match self.key_index {
            Some(k) => k as int + 1,
            None => 0,
        })
    }

    /// One step of the walk: either move to the predecessor leaf, skip an
    /// entry outside the window, end the walk, or surface a result.
    fn iterate(&mut self, tree: &mut BTree) -> (r: Result<QueryResultIteratorState, TreeError>)
        requires
            old(tree).wf(),
        ensures
            final(tree).wf(),
            final(tree).file_bytes() == old(tree).file_bytes(),
            final(tree).spec_page_size() == old(tree).spec_page_size(),
            final(self).query == old(self).query,
            final(self).last_yielded_date == old(self).last_yielded_date,
            wf_leaves(old(tree).file_bytes(), old(tree).spec_page_size()) && iter_wf(
                *old(self),
                old(tree).file_bytes(),
                old(tree).spec_page_size(),
            ) ==> iterate_step_ok(
                *old(self),
                *final(self),
                r,
                old(tree).file_bytes(),
                old(tree).spec_page_size(),
            ),
            old(self).page_num < hdr_page_count(old(tree).file_bytes()) && !is_leaf_page(
                old(tree).file_bytes(),
                old(tree).spec_page_size(),
                old(self).page_num as int,
            ) ==> r == Err::<QueryResultIteratorState, TreeError>(TreeError::MalformedPage),
            match r {
                Ok(QueryResultIteratorState::Continue) => final(self).measure() < old(
                    self,
                ).measure(),
                Ok(QueryResultIteratorState::YieldResult(res)) => {
                    &&& final(self).measure() <= old(self).measure()
                    &&& (res matches Some(qr) ==> yielded_entry_ok(
                        old(tree).file_bytes(),
                        old(tree).spec_page_size(),
                        old(self).query,
                        old(self).last_yielded_date,
                        qr,
                    ))
                },
                Err(e) => e == TreeError::MalformedPage,
            },
    {
        let ghost f = tree.file_bytes();
        let ghost ps = tree.spec_page_size();
        let ghost ent = leaves_entries_upto(f, ps, file_page_count(f));
        let ghost hyp = wf_leaves(f, ps) && iter_wf(*old(self), f, ps);
        let slot = match tree.page_cache.load(self.page_num as usize) {
            Ok(s) => s,
            Err(e) => {
                return Err(e);
            },
        };
        let page = tree.page_cache.slot(slot);
        // A page reached by the walk must be typed as a leaf.
        if page.page_type() != LEAF_TYPE {
            return Err(TreeError::MalformedPage);
        }
        let num_keys = page.num_keys();
        let cap = page.key_capacity();
        proof {
            if hyp {
                assert(wf_leaf_page(f, ps, self.page_num as int));
                assert(leaf_chain_ok(f, ps, self.page_num as int));
                lemma_leaf_prev_props(f, ps, self.page_num as int);
                lemma_leaf_entries_position(
                    f,
                    ps,
                    self.page_num as int,
                    file_page_count(f),
                );
                lemma_offset_prev(f, ps, self.page_num as int);
            }
        }
        if num_keys == 0 || (num_keys as usize) > cap {
            return Err(TreeError::MalformedPage);
        }
        match self.key_index {
            None => {
                let prev = page.extra_page_num();
                if prev == NO_PAGE {
                    // Walk exhausted: the first-written leaf has no
                    // predecessor, so the position is zero and nothing
                    // is owed.
                    return Ok(QueryResultIteratorState::YieldResult(None));
                }
                // The chain runs strictly backward through the file.
                if prev >= self.page_num {
                    return Err(TreeError::MalformedPage);
                }
                self.page_num = prev;
                self.pages_read = if self.pages_read == 0xffff_ffff {
                    self.pages_read
                } else {
                    self.pages_read + 1
                };
                let slot2 = match tree.page_cache.load(self.page_num as usize) {
                    Ok(s) => s,
                    Err(e) => {
                        return Err(e);
                    },
                };
                let page2 = tree.page_cache.slot(slot2);
                if page2.page_type() != LEAF_TYPE {
                    return Err(TreeError::MalformedPage);
                }
                let nk2 = page2.num_keys();
                let cap2 = page2.key_capacity();
                proof {
                    if hyp {
                        assert(wf_leaf_page(f, ps, self.page_num as int));
                    }
                }
                if nk2 == 0 || (nk2 as usize) > cap2 {
                    return Err(TreeError::MalformedPage);
                }
                self.key_index = Some(nk2 - 1);
                proof {
                    if hyp {
                        // The predecessor's last entry sits just below
                        // this leaf's offset: the position is unchanged.
                        assert(iter_pos(*self, f, ps) == iter_pos(*old(self), f, ps));
                    }
                }
                Ok(QueryResultIteratorState::Continue)
            },
            Some(key_index) => {
                if key_index >= num_keys {
                    return Err(TreeError::MalformedPage);
                }
                let entry_key = page.key(key_index as usize);
                let ghost pos = iter_pos(*old(self), f, ps);
                proof {
                    if hyp {
                        assert(ent[pos - 1] == entries_of(
                            page_bytes(f, ps, self.page_num as int),
                        )[key_index as int]);
                        assert(ent[pos - 1] == (
                            key_of(page_bytes(f, ps, self.page_num as int), key_index as int),
                            slot_of(page_bytes(f, ps, self.page_num as int), key_index as int),
                        ));
                    }
                }
                if entry_key.asset_id < self.query.asset_id || entry_key.date
                    < self.query.start_date {
                    proof {
                        if hyp {
                            assert(walk_ends(ent[pos - 1], self.query));
                        }
                    }
                    return Ok(QueryResultIteratorState::YieldResult(None));
                }
                self.key_index = if key_index == 0 {
                    None
                } else {
                    Some(key_index - 1)
                };
                proof {
                    if hyp {
                        assert(iter_pos(*self, f, ps) == pos - 1);
                    }
                }
                let skip = match self.last_yielded_date {
                    None => entry_key.asset_id > self.query.asset_id || entry_key.date
                        > self.query.end_date || entry_key.timestamp > self.query.timestamp,
                    Some(d) => d == entry_key.date || entry_key.timestamp > self.query.timestamp,
                };
                if skip {
                    proof {
                        if hyp {
                            assert(walk_skips(
                                ent[pos - 1],
                                self.query,
                                self.last_yielded_date,
                            ));
                        }
                    }
                    Ok(QueryResultIteratorState::Continue)
                } else {
                    let value = page.value(key_index as usize);
                    let result = QueryResult { id: self.query.id, key: entry_key, value };
                    proof {
                        if hyp {
                            assert(!walk_ends(ent[pos - 1], self.query));
                            assert(!walk_skips(ent[pos - 1], self.query, self.last_yielded_date));
                            assert(ent[pos - 1] == (result.key, result.value));
                        }
                    }
                    Ok(QueryResultIteratorState::YieldResult(Some(result)))
                }
            },
        }
    }

    /// Advance to the next result.
    ///
    /// On a leaf-well-formed image with a well-positioned iterator the
    /// answer is owed in full: the call returns exactly the head of
    /// `asof_results` at the iterator's position — `None` exactly when
    /// nothing remains — and leaves the iterator positioned so that the
    /// rest of that answer is still owed. Draining the iterator therefore
    /// yields precisely the per-date as-of answer from its starting
    /// position. Unconditionally, every surfaced observation lies in the
    /// query's window with a timestamp not above the query's, on a date
    /// not yet answered, and is stored in a leaf of the file.
    pub fn next(&mut self, tree: &mut BTree) -> (r: Option<Result<QueryResult, TreeError>>)
        requires
            old(tree).wf(),
        ensures
            final(tree).wf(),
            final(tree).file_bytes() == old(tree).file_bytes(),
            final(tree).spec_page_size() == old(tree).spec_page_size(),
            final(self).query == old(self).query,
            match r {
                Some(Ok(qr)) => {
                    &&& yielded_entry_ok(
                        old(tree).file_bytes(),
                        old(tree).spec_page_size(),
                        old(self).query,
                        old(self).last_yielded_date,
                        qr,
                    )
                    &&& final(self).last_yielded_date == Some(qr.key.date)
                },
                Some(Err(e)) => e == TreeError::MalformedPage,
                None => final(self).last_yielded_date == old(self).last_yielded_date,
            },
            wf_leaves(old(tree).file_bytes(), old(tree).spec_page_size()) && iter_wf(
                *old(self),
                old(tree).file_bytes(),
                old(tree).spec_page_size(),
            ) ==> {
                let f = old(tree).file_bytes();
                let ps = old(tree).spec_page_size();
                let ent = leaves_entries_upto(f, ps, file_page_count(f));
                let q = old(self).query;
                let owed = asof_results(
                    ent,
                    q,
                    old(self).last_yielded_date,
                    iter_pos(*old(self), f, ps),
                );
                &&& !(r matches Some(Err(_)))
                &&& iter_wf(*final(self), f, ps)
                &&& (r is None ==> owed == Seq::<QueryResult>::empty())
                &&& (r matches Some(Ok(qr)) ==> {
                    &&& owed == seq![qr] + asof_results(
                        ent,
                        q,
                        Some(qr.key.date),
                        iter_pos(*final(self), f, ps),
                    )
                    &&& (exists|j: int|
                        0 <= j < ent.len() && #[trigger] ent[j] == (qr.key, qr.value))
                })
            },
    {
        let ghost f = old(tree).file_bytes();
        let ghost ps = old(tree).spec_page_size();
        let ghost ent = leaves_entries_upto(f, ps, file_page_count(f));
        let ghost q0 = old(self).query;
        let ghost last0 = old(self).last_yielded_date;
        let ghost hyp = wf_leaves(f, ps) && iter_wf(*old(self), f, ps);
        loop
            invariant
                tree.wf(),
                tree.file_bytes() == old(tree).file_bytes(),
                tree.spec_page_size() == old(tree).spec_page_size(),
                f == old(tree).file_bytes(),
                ps == old(tree).spec_page_size(),
                ent == leaves_entries_upto(f, ps, file_page_count(f)),
                q0 == old(self).query,
                last0 == old(self).last_yielded_date,
                hyp == (wf_leaves(f, ps) && iter_wf(*old(self), f, ps)),
                self.query == old(self).query,
                self.last_yielded_date == old(self).last_yielded_date,
                hyp ==> iter_wf(*self, f, ps),
                hyp ==> asof_results(ent, q0, last0, iter_pos(*self, f, ps)) == asof_results(
                    ent,
                    q0,
                    last0,
                    iter_pos(*old(self), f, ps),
                ),
            decreases self.measure(),
        {
            let ghost pre = *self;
            let state = self.iterate(tree);
            match state {
                Ok(QueryResultIteratorState::Continue) => {},
                Ok(QueryResultIteratorState::YieldResult(None)) => {
                    return None;
                },
                Ok(QueryResultIteratorState::YieldResult(Some(result))) => {
                    self.last_yielded_date = Some(result.key.date);
                    proof {
                        if hyp {
                            assert(iter_pos(*self, f, ps) == iter_pos(
                                QueryResultIterator { last_yielded_date: pre.last_yielded_date, ..*self },
                                f,
                                ps,
                            ));
                        }
                    }
                    return Some(Ok(result));
                },
                Err(e) => {
                    return Some(Err(e));
                },
            }
        }
    }
}

/// What holds unconditionally of every observation the iterator
/// surfaces: it is an entry stored in some leaf page of the file; it is
/// at or above the query's asset and start date with a timestamp not
/// above the query's; before any result has been yielded it lies exactly
/// on the query's asset and at or below its end date; and afterwards its
/// date differs from the date yielded last.
pub open spec fn yielded_entry_ok(
    f: Seq<u8>,
    ps: int,
    q: Query,
    last_yielded: Option<u32>,
    qr: QueryResult,
) -> bool {
    &&& qr.id == q.id
    &&& qr.key.asset_id >= q.asset_id
    &&& qr.key.date >= q.start_date
    &&& qr.key.timestamp <= q.timestamp
    &&& (last_yielded is None ==> qr.key.asset_id == q.asset_id && qr.key.date <= q.end_date)
    &&& (last_yielded matches Some(d) ==> qr.key.date != d)
    &&& (exists|pn: int, k: int|
        {
            &&& 0 <= pn < hdr_page_count(f)
            &&& is_leaf_page(f, ps, pn)
            &&& 0 <= k < num_keys_of(page_bytes(f, ps, pn))
            &&& #[trigger] key_of(page_bytes(f, ps, pn), k) == qr.key
            &&& slot_of(page_bytes(f, ps, pn), k) == qr.value
        })
}

} // verus!
