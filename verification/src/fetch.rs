//! The fetch coordinator's cache-filling discipline: a batch fetched
//! from the remote source is folded into the cache one item at a time,
//! walking outward from the anchor so that every insertion has a valid
//! adjacent anchor. A batch shorter than the requested limit is the
//! sole signal that the fetch reached the true edge of the sequence in
//! its direction, and sets the matching boundary flag on the outermost
//! insertion.

use vstd::prelude::*;

use crate::async_list::AsyncListIndex;
use crate::async_list::AsyncListItem;
use crate::cache::AsyncListCache;
use crate::refcache::has_bottom_bound;
use crate::refcache::has_top_bound;
use crate::refcache::slices_contain;
use crate::refcache::spec_append_bottom;
use crate::refcache::spec_insert;
use crate::refcacheslice::SliceModel;
use crate::refcacheslice::distinct_seq;

verus! {

/// The identifiers of a batch, in batch order.
pub open spec fn batch_ids<I: AsyncListItem>(batch: Seq<I>) -> Seq<i64> {
    batch.map_values(|v: I| v.list_identifier())
}

/// The slot of the segment that knows `anchor`; under well-formedness
/// it is unique.
pub open spec fn anchor_slot(ss: Seq<SliceModel>, anchor: i64) -> int {
    choose|k: int| 0 <= k < ss.len() && #[trigger] ss[k].contains(anchor)
}

/// The segment family after walking a batch upward from `anchor`: the
/// fetched identifiers end up immediately above the anchor, nearest
/// first, and the top boundary flag is set when the batch was short.
pub open spec fn splice_before(
    ss: Seq<SliceModel>,
    anchor: i64,
    ids: Seq<i64>,
    set_top: bool,
) -> Seq<SliceModel> {
    if ids.len() == 0 {
        ss
    } else {
        let k = anchor_slot(ss, anchor);
        let items = ss[k].items;
        let i0 = items.index_of(anchor);
        ss.update(
            k,
            SliceModel {
                items: items.subrange(0, i0) + ids.reverse() + items.subrange(
                    i0,
                    items.len() as int,
                ),
                is_bounded_at_top: ss[k].is_bounded_at_top || set_top,
                is_bounded_at_bottom: ss[k].is_bounded_at_bottom,
            },
        )
    }
}

/// The segment family after walking a batch downward from `anchor`:
/// the fetched identifiers end up immediately below the anchor, nearest
/// first, and the bottom boundary flag is set when the batch was short.
pub open spec fn splice_after(
    ss: Seq<SliceModel>,
    anchor: i64,
    ids: Seq<i64>,
    set_bottom: bool,
) -> Seq<SliceModel> {
    if ids.len() == 0 {
        ss
    } else {
        let k = anchor_slot(ss, anchor);
        let items = ss[k].items;
        let i0 = items.index_of(anchor);
        ss.update(
            k,
            SliceModel {
                items: items.subrange(0, i0 + 1) + ids + items.subrange(
                    i0 + 1,
                    items.len() as int,
                ),
                is_bounded_at_top: ss[k].is_bounded_at_top,
                is_bounded_at_bottom: ss[k].is_bounded_at_bottom || set_bottom,
            },
        )
    }
}

/// The item store after recording every batch item, in batch order.
pub open spec fn store_after_batch<I: AsyncListItem>(s: Map<i64, I>, batch: Seq<I>) -> Map<i64, I>
    decreases batch.len(),
{
    if batch.len() == 0 {
        s
    } else {
        store_after_batch(s.insert(batch[0].list_identifier(), batch[0]), batch.drop_first())
    }
}

/// Folding one more item into the store is one more map insertion.
proof fn lemma_store_after_push<I: AsyncListItem>(s: Map<i64, I>, batch: Seq<I>, value: I)
    ensures
        store_after_batch(s, batch.push(value)) == store_after_batch(s, batch).insert(
            value.list_identifier(),
            value,
        ),
    decreases batch.len(),
{
    if batch.len() == 0 {
        assert(batch.push(value).drop_first() =~= Seq::<I>::empty());
        assert(store_after_batch(s, batch.push(value)) == store_after_batch(
            s.insert(value.list_identifier(), value),
            Seq::<I>::empty(),
        ));
    } else {
        assert(batch.push(value)[0] == batch[0]);
        assert(batch.push(value).drop_first() =~= batch.drop_first().push(value));
        lemma_store_after_push(s.insert(batch[0].list_identifier(), batch[0]), batch.drop_first(), value);
    }
}

/// Walking a batch upward with the boundary flag withheld leaves every
/// segment's top flag as it was.
proof fn lemma_splice_before_preserves_top(ss: Seq<SliceModel>, anchor: i64, ids: Seq<i64>)
    requires
        slices_contain(ss, anchor),
        !has_top_bound(ss),
    ensures
        !has_top_bound(splice_before(ss, anchor, ids, false)),
{
    let t = splice_before(ss, anchor, ids, false);
    if ids.len() > 0 {
        let k = anchor_slot(ss, anchor);
        assert(0 <= k < ss.len());
        assert forall|j: int| 0 <= j < t.len() implies !(#[trigger] t[j]).is_bounded_at_top by {
            assert(!ss[j].is_bounded_at_top);
            if j == k {
                assert(t[j].is_bounded_at_top == ss[k].is_bounded_at_top);
            } else {
                assert(t[j] == ss[j]);
            }
        }
    }
}

/// One step of the upward walk: inserting the next batch identifier
/// immediately before the walk's current position extends the spliced
/// block by exactly that identifier.
proof fn lemma_walk_before_extend(
    ss0: Seq<SliceModel>,
    anchor: i64,
    ids: Seq<i64>,
    start: int,
    j: int,
    flag: bool,
)
    requires
        crate::refcache::slices_wf(ss0),
        slices_contain(ss0, anchor),
        0 <= start <= j < ids.len(),
        distinct_seq(ids.subrange(start, j + 1)),
        forall|jj: int| start <= jj < j + 1 ==> !slices_contain(ss0, #[trigger] ids[jj]),
        crate::refcache::slices_wf(splice_before(ss0, anchor, ids.subrange(start, j), false)),
    ensures
        spec_insert(
            splice_before(ss0, anchor, ids.subrange(start, j), false),
            AsyncListIndex::Before(
                if j == start {
                    anchor
                } else {
                    ids[j - 1]
                },
            ),
            ids[j],
            flag,
            false,
        ) == splice_before(ss0, anchor, ids.subrange(start, j + 1), flag),
{
    let index = AsyncListIndex::Before(
        if j == start {
            anchor
        } else {
            ids[j - 1]
        },
    );
    let current = if j == start {
        anchor
    } else {
        ids[j - 1]
    };
    let prefix = ids.subrange(start, j);
    let longer = ids.subrange(start, j + 1);
    let ss_j = splice_before(ss0, anchor, prefix, false);
    let k = anchor_slot(ss0, anchor);
    assert(0 <= k < ss0.len() && ss0[k].contains(anchor));
    let items0 = ss0[k].items;
    let i0 = items0.index_of(anchor);
    assert(items0[i0] == anchor && 0 <= i0 < items0.len());
    assert(longer.reverse() =~= seq![ids[j]] + prefix.reverse());

    let m_j = ss_j[k];
    // The walk's current position sits at offset `i0` of slot `k`.
    if j == start {
        assert(ss_j == ss0);
        assert(m_j.items[i0] == current);
    } else {
        assert(m_j.items =~= items0.subrange(0, i0) + prefix.reverse() + items0.subrange(
            i0,
            items0.len() as int,
        ));
        assert(prefix.reverse()[0] == prefix[j - start - 1]);
        assert(prefix[j - start - 1] == ids[j - 1]);
        assert(m_j.items[i0] == current);
    }
    assert(m_j.contains(current));
    assert(m_j.wf());
    crate::refcacheslice::lemma_index_of_distinct(m_j.items, current, i0);
    assert(m_j.spec_can_insert(index) is Some);
    assert(crate::refcache::has_insert_candidate(ss_j, index));
    let k0 = crate::refcache::insert_candidate(ss_j, index);
    assert(ss_j[k0].spec_can_insert(index) is Some);
    assert(ss_j[k0].contains(current));
    assert(k0 == k);

    let m_next = m_j.spec_insert(index, ids[j], flag, false);
    assert(m_next.items == m_j.items.insert(i0, ids[j]));
    m_j.items.insert_ensures(i0, ids[j]);
    let target = splice_before(ss0, anchor, longer, flag);
    let m_target = SliceModel {
        items: items0.subrange(0, i0) + longer.reverse() + items0.subrange(
            i0,
            items0.len() as int,
        ),
        is_bounded_at_top: ss0[k].is_bounded_at_top || flag,
        is_bounded_at_bottom: ss0[k].is_bounded_at_bottom,
    };
    assert(target == ss0.update(k, m_target));
    assert(m_next.items =~= m_target.items) by {
        assert forall|i: int| 0 <= i < m_next.items.len() implies m_next.items[i]
            == m_target.items[i] by {
            if i < i0 {
                assert(m_next.items[i] == m_j.items[i]);
            } else if i == i0 {
                assert(m_next.items[i] == ids[j]);
                assert(m_target.items[i0] == longer.reverse()[0]);
                assert(longer.reverse()[0] == longer[j - start]);
            } else {
                assert(m_next.items[i] == m_j.items[i - 1]);
            }
        }
    }
    assert(m_next =~~= m_target);
    assert(!slices_contain(ss_j, ids[j])) by {
        if slices_contain(ss_j, ids[j]) {
            let t = choose|t: int| 0 <= t < ss_j.len() && #[trigger] ss_j[t].contains(ids[j]);
            if j == start {
                assert(slices_contain(ss0, ids[j]));
            } else if t == k {
                let items = m_j.items;
                let p = choose|p: int| 0 <= p < items.len() && items[p] == ids[j];
                if p < i0 {
                    assert(items[p] == items0[p]);
                    assert(ss0[k].contains(ids[j]));
                    assert(slices_contain(ss0, ids[j]));
                } else if p < i0 + (j - start) {
                    let q = (j - start - 1) - (p - i0);
                    assert(items[p] == prefix.reverse()[p - i0]);
                    assert(prefix.reverse()[p - i0] == prefix[q]);
                    assert(prefix[q] == ids[start + q]);
                    assert(ids.subrange(start, j + 1)[q] == ids[start + q]);
                    assert(ids.subrange(start, j + 1)[j - start] == ids[j]);
                } else {
                    assert(items[p] == items0[p - (j - start)]);
                    assert(ss0[k].contains(ids[j]));
                    assert(slices_contain(ss0, ids[j]));
                }
            } else {
                assert(ss_j[t] == ss0[t]);
                assert(slices_contain(ss0, ids[j]));
            }
        }
    }
    assert(spec_insert(ss_j, index, ids[j], flag, false) == ss_j.update(k, m_next));
    assert(ss_j.update(k, m_next) =~~= ss0.update(k, m_target));
}

/// Fold the tail of a batch (from `start` on) into the cache, walking
/// upward from `anchor`: each item is inserted immediately before the
/// previous one, and the top boundary flag is set on the outermost
/// insertion when `set_top` holds.
fn walk_before<I: AsyncListItem>(
    cache: &mut AsyncListCache<I>,
    anchor: i64,
    batch: &Vec<I>,
    start: usize,
    set_top: bool,
)
    requires
        old(cache).wf(),
        slices_contain(old(cache).refs(), anchor),
        start <= batch@.len(),
        distinct_seq(batch_ids(batch@).subrange(start as int, batch@.len() as int)),
        forall|j: int|
            start <= j < batch@.len() ==> !slices_contain(
                old(cache).refs(),
                #[trigger] batch_ids(batch@)[j],
            ),
        set_top && start < batch@.len() ==> !has_top_bound(old(cache).refs()),
    ensures
        final(cache).wf(),
        final(cache).refs() == splice_before(
            old(cache).refs(),
            anchor,
            batch_ids(batch@).subrange(start as int, batch@.len() as int),
            set_top,
        ),
        final(cache).store() == store_after_batch(
            old(cache).store(),
            batch@.subrange(start as int, batch@.len() as int),
        ),
{
    let ghost ss0 = cache.refs();
    let ghost s0 = cache.store();
    let ghost ids = batch_ids(batch@);
    let n = batch.len();
    let mut current: i64 = anchor;
    let mut j: usize = start;
    proof {
        assert(batch@.subrange(start as int, start as int) =~= Seq::<I>::empty());
        assert(splice_before(ss0, anchor, ids.subrange(start as int, start as int), false) == ss0);
        cache.lemma_wf_slices();
    }
    while j < n
        invariant
            cache.wf(),
            crate::refcache::slices_wf(ss0),
            start <= j <= n,
            n == batch@.len(),
            ids == batch_ids(batch@),
            slices_contain(ss0, anchor),
            distinct_seq(ids.subrange(start as int, n as int)),
            forall|jj: int| start <= jj < n ==> !slices_contain(ss0, #[trigger] ids[jj]),
            set_top && start < n ==> !has_top_bound(ss0),
            current == (if j == start {
                anchor
            } else {
                ids[j - 1]
            }),
            cache.refs() == splice_before(
                ss0,
                anchor,
                ids.subrange(start as int, j as int),
                set_top && j == n,
            ),
            cache.store() == store_after_batch(s0, batch@.subrange(start as int, j as int)),
            forall|x: i64|
                slices_contain(cache.refs(), x) <==> (slices_contain(ss0, x)
                    || ids.subrange(start as int, j as int).contains(x)),
        decreases n - j,
    {
        let ghost ss_j = cache.refs();
        let value = batch[j].duplicate();
        let id = value.get_list_identifier();
        proof {
            assert(value == batch@[j as int]);
            assert(id == ids[j as int]);
        }
        let flag = set_top && j + 1 == n;
        proof {
            cache.lemma_wf_slices();
            if flag {
                assert(!has_top_bound(ss_j)) by {
                    lemma_splice_before_preserves_top(ss0, anchor, ids.subrange(start as int, j as int));
                }
            }
            assert(!slices_contain(ss_j, id)) by {
                if ids.subrange(start as int, j as int).contains(id) {
                    let jj = choose|jj: int|
                        0 <= jj < j - start && #[trigger] ids.subrange(start as int, j as int)[jj]
                            == id;
                    assert(ids[start + jj] == ids[j as int]);
                    assert(ids.subrange(start as int, n as int)[jj] == ids.subrange(
                        start as int,
                        n as int,
                    )[j - start]);
                }
            }
        }
        cache.insert(AsyncListIndex::Before(current), value, flag, false);
        proof {
            lemma_walk_before_extend(ss0, anchor, ids, start as int, j as int, flag);
            assert(cache.refs() == splice_before(
                ss0,
                anchor,
                ids.subrange(start as int, (j + 1) as int),
                set_top && j + 1 == n,
            ));
            assert(batch@.subrange(start as int, (j + 1) as int) =~= batch@.subrange(
                start as int,
                j as int,
            ).push(batch@[j as int]));
            lemma_store_after_push(s0, batch@.subrange(start as int, j as int), batch@[j as int]);
            assert forall|x: i64|
                slices_contain(cache.refs(), x) <==> (slices_contain(ss0, x) || ids.subrange(
                    start as int,
                    (j + 1) as int,
                ).contains(x)) by {
                assert(slices_contain(cache.refs(), x) <==> (slices_contain(ss_j, x) || x == ids[
                    j as int
                ]));
                assert(slices_contain(ss_j, x) <==> (slices_contain(ss0, x) || ids.subrange(
                    start as int,
                    j as int,
                ).contains(x)));
                assert(ids.subrange(start as int, (j + 1) as int) =~= ids.subrange(
                    start as int,
                    j as int,
                ).push(ids[j as int]));
                if ids.subrange(start as int, (j + 1) as int).contains(x) {
                    let jj = choose|jj: int|
                        0 <= jj < j + 1 - start && #[trigger] ids.subrange(
                            start as int,
                            (j + 1) as int,
                        )[jj] == x;
                    if jj < j - start {
                        assert(ids.subrange(start as int, j as int)[jj] == x);
                    }
                }
                if ids.subrange(start as int, j as int).contains(x) {
                    let jj = choose|jj: int|
                        0 <= jj < j - start && #[trigger] ids.subrange(start as int, j as int)[jj]
                            == x;
                    assert(ids.subrange(start as int, (j + 1) as int)[jj] == x);
                }
                if x == ids[j as int] {
                    assert(ids.subrange(start as int, (j + 1) as int)[j - start] == x);
                }
            }
        }
        current = id;
        j = j + 1;
    }
}

/// Walking a batch downward with the boundary flag withheld leaves
/// every segment's bottom flag as it was.
proof fn lemma_splice_after_preserves_bottom(ss: Seq<SliceModel>, anchor: i64, ids: Seq<i64>)
    requires
        slices_contain(ss, anchor),
        !has_bottom_bound(ss),
    ensures
        !has_bottom_bound(splice_after(ss, anchor, ids, false)),
{
    let t = splice_after(ss, anchor, ids, false);
    if ids.len() > 0 {
        let k = anchor_slot(ss, anchor);
        assert(0 <= k < ss.len());
        assert forall|j: int| 0 <= j < t.len() implies !(#[trigger] t[j]).is_bounded_at_bottom by {
            assert(!ss[j].is_bounded_at_bottom);
            if j == k {
                assert(t[j].is_bounded_at_bottom == ss[k].is_bounded_at_bottom);
            } else {
                assert(t[j] == ss[j]);
            }
        }
    }
}

/// One step of the downward walk: inserting the next batch identifier
/// immediately after the walk's current position extends the spliced
/// block by exactly that identifier.
proof fn lemma_walk_after_extend(
    ss0: Seq<SliceModel>,
    anchor: i64,
    ids: Seq<i64>,
    start: int,
    j: int,
    flag: bool,
)
    requires
        crate::refcache::slices_wf(ss0),
        slices_contain(ss0, anchor),
        0 <= start <= j < ids.len(),
        distinct_seq(ids.subrange(start, j + 1)),
        forall|jj: int| start <= jj < j + 1 ==> !slices_contain(ss0, #[trigger] ids[jj]),
        crate::refcache::slices_wf(splice_after(ss0, anchor, ids.subrange(start, j), false)),
    ensures
        spec_insert(
            splice_after(ss0, anchor, ids.subrange(start, j), false),
            AsyncListIndex::After(
                if j == start {
                    anchor
                } else {
                    ids[j - 1]
                },
            ),
            ids[j],
            false,
            flag,
        ) == splice_after(ss0, anchor, ids.subrange(start, j + 1), flag),
{
    let index = AsyncListIndex::After(
        if j == start {
            anchor
        } else {
            ids[j - 1]
        },
    );
    let current = if j == start {
        anchor
    } else {
        ids[j - 1]
    };
    let prefix = ids.subrange(start, j);
    let longer = ids.subrange(start, j + 1);
    let ss_j = splice_after(ss0, anchor, prefix, false);
    let k = anchor_slot(ss0, anchor);
    assert(0 <= k < ss0.len() && ss0[k].contains(anchor));
    let items0 = ss0[k].items;
    let i0 = items0.index_of(anchor);
    assert(items0[i0] == anchor && 0 <= i0 < items0.len());
    assert(longer =~= prefix.push(ids[j]));

    let m_j = ss_j[k];
    let pos = i0 + (j - start);
    // The walk's current position sits at offset `pos` of slot `k`.
    if j == start {
        assert(ss_j == ss0);
        assert(m_j.items[pos] == current);
    } else {
        assert(m_j.items =~= items0.subrange(0, i0 + 1) + prefix + items0.subrange(
            i0 + 1,
            items0.len() as int,
        ));
        assert(m_j.items[pos] == prefix[j - start - 1]);
        assert(prefix[j - start - 1] == ids[j - 1]);
        assert(m_j.items[pos] == current);
    }
    assert(m_j.contains(current));
    assert(m_j.wf());
    crate::refcacheslice::lemma_index_of_distinct(m_j.items, current, pos);
    assert(m_j.spec_can_insert(index) is Some);
    assert(crate::refcache::has_insert_candidate(ss_j, index));
    let k0 = crate::refcache::insert_candidate(ss_j, index);
    assert(ss_j[k0].spec_can_insert(index) is Some);
    assert(ss_j[k0].contains(current));
    assert(k0 == k);

    let m_next = m_j.spec_insert(index, ids[j], false, flag);
    assert(m_next.items == m_j.items.insert(pos + 1, ids[j]));
    m_j.items.insert_ensures(pos + 1, ids[j]);
    let target = splice_after(ss0, anchor, longer, flag);
    let m_target = SliceModel {
        items: items0.subrange(0, i0 + 1) + longer + items0.subrange(
            i0 + 1,
            items0.len() as int,
        ),
        is_bounded_at_top: ss0[k].is_bounded_at_top,
        is_bounded_at_bottom: ss0[k].is_bounded_at_bottom || flag,
    };
    assert(target == ss0.update(k, m_target));
    assert(m_next.items =~= m_target.items) by {
        assert forall|i: int| 0 <= i < m_next.items.len() implies m_next.items[i]
            == m_target.items[i] by {
            if i < pos + 1 {
                assert(m_next.items[i] == m_j.items[i]);
            } else if i == pos + 1 {
                assert(m_next.items[i] == ids[j]);
                assert(m_target.items[i] == longer[j - start]);
            } else {
                assert(m_next.items[i] == m_j.items[i - 1]);
            }
        }
    }
    assert(m_next =~~= m_target);
    assert(!slices_contain(ss_j, ids[j])) by {
        if slices_contain(ss_j, ids[j]) {
            let t = choose|t: int| 0 <= t < ss_j.len() && #[trigger] ss_j[t].contains(ids[j]);
            if j == start {
                assert(slices_contain(ss0, ids[j]));
            } else if t == k {
                let items = m_j.items;
                let p = choose|p: int| 0 <= p < items.len() && items[p] == ids[j];
                if p < i0 + 1 {
                    assert(items[p] == items0[p]);
                    assert(ss0[k].contains(ids[j]));
                    assert(slices_contain(ss0, ids[j]));
                } else if p < i0 + 1 + (j - start) {
                    let q = p - i0 - 1;
                    assert(items[p] == prefix[q]);
                    assert(prefix[q] == ids[start + q]);
                    assert(ids.subrange(start, j + 1)[q] == ids[start + q]);
                    assert(ids.subrange(start, j + 1)[j - start] == ids[j]);
                } else {
                    assert(items[p] == items0[p - (j - start)]);
                    assert(ss0[k].contains(ids[j]));
                    assert(slices_contain(ss0, ids[j]));
                }
            } else {
                assert(ss_j[t] == ss0[t]);
                assert(slices_contain(ss0, ids[j]));
            }
        }
    }
    assert(spec_insert(ss_j, index, ids[j], false, flag) == ss_j.update(k, m_next));
    assert(ss_j.update(k, m_next) =~~= ss0.update(k, m_target));
}

/// Fold the tail of a batch (from `start` on) into the cache, walking
/// downward from `anchor`: each item is inserted immediately after the
/// previous one, and the bottom boundary flag is set on the outermost
/// insertion when `set_bottom` holds.
fn walk_after<I: AsyncListItem>(
    cache: &mut AsyncListCache<I>,
    anchor: i64,
    batch: &Vec<I>,
    start: usize,
    set_bottom: bool,
)
    requires
        old(cache).wf(),
        slices_contain(old(cache).refs(), anchor),
        start <= batch@.len(),
        distinct_seq(batch_ids(batch@).subrange(start as int, batch@.len() as int)),
        forall|j: int|
            start <= j < batch@.len() ==> !slices_contain(
                old(cache).refs(),
                #[trigger] batch_ids(batch@)[j],
            ),
        set_bottom && start < batch@.len() ==> !has_bottom_bound(old(cache).refs()),
    ensures
        final(cache).wf(),
        final(cache).refs() == splice_after(
            old(cache).refs(),
            anchor,
            batch_ids(batch@).subrange(start as int, batch@.len() as int),
            set_bottom,
        ),
        final(cache).store() == store_after_batch(
            old(cache).store(),
            batch@.subrange(start as int, batch@.len() as int),
        ),
{
    let ghost ss0 = cache.refs();
    let ghost s0 = cache.store();
    let ghost ids = batch_ids(batch@);
    let n = batch.len();
    let mut current: i64 = anchor;
    let mut j: usize = start;
    proof {
        assert(batch@.subrange(start as int, start as int) =~= Seq::<I>::empty());
        assert(splice_after(ss0, anchor, ids.subrange(start as int, start as int), false) == ss0);
        cache.lemma_wf_slices();
    }
    while j < n
        invariant
            cache.wf(),
            crate::refcache::slices_wf(ss0),
            start <= j <= n,
            n == batch@.len(),
            ids == batch_ids(batch@),
            slices_contain(ss0, anchor),
            distinct_seq(ids.subrange(start as int, n as int)),
            forall|jj: int| start <= jj < n ==> !slices_contain(ss0, #[trigger] ids[jj]),
            set_bottom && start < n ==> !has_bottom_bound(ss0),
            current == (if j == start {
                anchor
            } else {
                ids[j - 1]
            }),
            cache.refs() == splice_after(
                ss0,
                anchor,
                ids.subrange(start as int, j as int),
                set_bottom && j == n,
            ),
            cache.store() == store_after_batch(s0, batch@.subrange(start as int, j as int)),
            forall|x: i64|
                slices_contain(cache.refs(), x) <==> (slices_contain(ss0, x)
                    || ids.subrange(start as int, j as int).contains(x)),
        decreases n - j,
    {
        let ghost ss_j = cache.refs();
        let value = batch[j].duplicate();
        let id = value.get_list_identifier();
        proof {
            assert(value == batch@[j as int]);
            assert(id == ids[j as int]);
        }
        let flag = set_bottom && j + 1 == n;
        proof {
            cache.lemma_wf_slices();
            if flag {
                assert(!has_bottom_bound(ss_j)) by {
                    lemma_splice_after_preserves_bottom(ss0, anchor, ids.subrange(start as int, j as int));
                }
            }
            assert(!slices_contain(ss_j, id)) by {
                if ids.subrange(start as int, j as int).contains(id) {
                    let jj = choose|jj: int|
                        0 <= jj < j - start && #[trigger] ids.subrange(start as int, j as int)[jj]
                            == id;
                    assert(ids[start + jj] == ids[j as int]);
                    assert(ids.subrange(start as int, n as int)[jj] == ids.subrange(
                        start as int,
                        n as int,
                    )[j - start]);
                }
            }
        }
        cache.insert(AsyncListIndex::After(current), value, false, flag);
        proof {
            lemma_walk_after_extend(ss0, anchor, ids, start as int, j as int, flag);
            assert(cache.refs() == splice_after(
                ss0,
                anchor,
                ids.subrange(start as int, (j + 1) as int),
                set_bottom && j + 1 == n,
            ));
            assert(batch@.subrange(start as int, (j + 1) as int) =~= batch@.subrange(
                start as int,
                j as int,
            ).push(batch@[j as int]));
            lemma_store_after_push(s0, batch@.subrange(start as int, j as int), batch@[j as int]);
            assert forall|x: i64|
                slices_contain(cache.refs(), x) <==> (slices_contain(ss0, x) || ids.subrange(
                    start as int,
                    (j + 1) as int,
                ).contains(x)) by {
                assert(slices_contain(cache.refs(), x) <==> (slices_contain(ss_j, x) || x == ids[
                    j as int
                ]));
                assert(slices_contain(ss_j, x) <==> (slices_contain(ss0, x) || ids.subrange(
                    start as int,
                    j as int,
                ).contains(x)));
                assert(ids.subrange(start as int, (j + 1) as int) =~= ids.subrange(
                    start as int,
                    j as int,
                ).push(ids[j as int]));
                if ids.subrange(start as int, (j + 1) as int).contains(x) {
                    let jj = choose|jj: int|
                        0 <= jj < j + 1 - start && #[trigger] ids.subrange(
                            start as int,
                            (j + 1) as int,
                        )[jj] == x;
                    if jj < j - start {
                        assert(ids.subrange(start as int, j as int)[jj] == x);
                    }
                }
                if ids.subrange(start as int, j as int).contains(x) {
                    let jj = choose|jj: int|
                        0 <= jj < j - start && #[trigger] ids.subrange(start as int, j as int)[jj]
                            == x;
                    assert(ids.subrange(start as int, (j + 1) as int)[jj] == x);
                }
                if x == ids[j as int] {
                    assert(ids.subrange(start as int, (j + 1) as int)[j - start] == x);
                }
            }
        }
        current = id;
        j = j + 1;
    }
}

/// Fold a batch fetched for a `Before(anchor)` query into the cache:
/// the batch walks upward (older items), nearest first. A batch
/// shorter than the limit is the signal that the fetch reached the
/// true start: the outermost inserted item is marked as the first, and
/// a zero-length batch marks the anchor's own segment instead, since
/// nothing at all lies above the anchor.
pub fn apply_batch_before<I: AsyncListItem>(
    cache: &mut AsyncListCache<I>,
    anchor: i64,
    batch: &Vec<I>,
    limit: usize,
)
    requires
        old(cache).wf(),
        slices_contain(old(cache).refs(), anchor),
        batch@.len() <= limit,
        distinct_seq(batch_ids(batch@)),
        forall|j: int|
            0 <= j < batch@.len() ==> !slices_contain(
                old(cache).refs(),
                #[trigger] batch_ids(batch@)[j],
            ),
        batch@.len() < limit ==> !has_top_bound(old(cache).refs()),
    ensures
        final(cache).wf(),
        batch@.len() > 0 ==> final(cache).refs() == splice_before(
            old(cache).refs(),
            anchor,
            batch_ids(batch@),
            batch@.len() < limit,
        ),
        batch@.len() == 0 && limit > 0 ==> final(cache).refs() == crate::refcache::spec_mark_top(
            old(cache).refs(),
            anchor,
        ),
        batch@.len() == 0 && limit == 0 ==> final(cache).refs() == old(cache).refs(),
        final(cache).store() == store_after_batch(old(cache).store(), batch@),
{
    let set_top = batch.len() < limit;
    if batch.len() == 0 {
        if limit > 0 {
            cache.mark_top_bound(anchor);
        }
    } else {
        walk_before(cache, anchor, batch, 0, set_top);
        proof {
            assert(batch_ids(batch@).subrange(0, batch@.len() as int) =~= batch_ids(batch@));
            assert(batch@.subrange(0, batch@.len() as int) =~= batch@);
        }
    }
}

/// Fold a batch fetched for an `After(anchor)` query into the cache:
/// the batch walks downward (newer items), nearest first. A batch
/// shorter than the limit is the signal that the fetch reached the
/// true end: the outermost inserted item is marked as the last, and a
/// zero-length batch marks the anchor's own segment instead, since
/// nothing at all lies below the anchor.
pub fn apply_batch_after<I: AsyncListItem>(
    cache: &mut AsyncListCache<I>,
    anchor: i64,
    batch: &Vec<I>,
    limit: usize,
)
    requires
        old(cache).wf(),
        slices_contain(old(cache).refs(), anchor),
        batch@.len() <= limit,
        distinct_seq(batch_ids(batch@)),
        forall|j: int|
            0 <= j < batch@.len() ==> !slices_contain(
                old(cache).refs(),
                #[trigger] batch_ids(batch@)[j],
            ),
        batch@.len() < limit ==> !has_bottom_bound(old(cache).refs()),
    ensures
        final(cache).wf(),
        batch@.len() > 0 ==> final(cache).refs() == splice_after(
            old(cache).refs(),
            anchor,
            batch_ids(batch@),
            batch@.len() < limit,
        ),
        batch@.len() == 0 && limit > 0 ==> final(cache).refs()
            == crate::refcache::spec_mark_bottom(old(cache).refs(), anchor),
        batch@.len() == 0 && limit == 0 ==> final(cache).refs() == old(cache).refs(),
        final(cache).store() == store_after_batch(old(cache).store(), batch@),
{
    let set_bottom = batch.len() < limit;
    if batch.len() == 0 {
        if limit > 0 {
            cache.mark_bottom_bound(anchor);
        }
    } else {
        walk_after(cache, anchor, batch, 0, set_bottom);
        proof {
            assert(batch_ids(batch@).subrange(0, batch@.len() as int) =~= batch_ids(batch@));
            assert(batch@.subrange(0, batch@.len() as int) =~= batch@);
        }
    }
}

/// Fold a batch fetched for a `RelativeToBottom(0)` query into the
/// cache: the batch arrives newest first, so its head is appended at
/// the true end and the rest walks upward from it; a short batch marks
/// the outermost (oldest) item as the true start.
pub fn apply_batch_bottom<I: AsyncListItem>(
    cache: &mut AsyncListCache<I>,
    batch: &Vec<I>,
    limit: usize,
)
    requires
        old(cache).wf(),
        batch@.len() <= limit,
        distinct_seq(batch_ids(batch@)),
        forall|j: int|
            0 <= j < batch@.len() ==> !slices_contain(
                old(cache).refs(),
                #[trigger] batch_ids(batch@)[j],
            ),
        has_bottom_bound(old(cache).refs()) || old(cache).refs().len() == 0,
        batch@.len() < limit && batch@.len() > 0 ==> !has_top_bound(old(cache).refs()),
    ensures
        final(cache).wf(),
        batch@.len() == 0 ==> final(cache).refs() == old(cache).refs() && final(cache).store()
            == old(cache).store(),
        batch@.len() > 1 || (batch@.len() == limit && batch@.len() > 0) ==> final(cache).refs()
            == splice_before(
            spec_append_bottom(old(cache).refs(), batch_ids(batch@)[0]),
            batch_ids(batch@)[0],
            batch_ids(batch@).subrange(1, batch@.len() as int),
            batch@.len() < limit,
        ),
        batch@.len() == 1 && batch@.len() < limit ==> final(cache).refs()
            == crate::refcache::spec_mark_top(
            spec_append_bottom(old(cache).refs(), batch_ids(batch@)[0]),
            batch_ids(batch@)[0],
        ),
        final(cache).store() == store_after_batch(old(cache).store(), batch@),
{
    let ghost ss0 = cache.refs();
    let ghost s0 = cache.store();
    let ghost ids = batch_ids(batch@);
    if batch.len() == 0 {
        proof {
            assert(batch@.subrange(0, 0) =~= Seq::<I>::empty());
            assert(store_after_batch(s0, batch@) == s0);
        }
        return ;
    }
    let first = batch[0].duplicate();
    let first_id = first.get_list_identifier();
    proof {
        assert(first == batch@[0]);
        assert(first_id == ids[0]);
    }
    cache.append_bottom(first);
    proof {
        cache.lemma_wf_slices();
        if batch@.len() < limit {
            lemma_append_bottom_preserves_top(ss0, first_id);
        }
        assert forall|j: int|
            1 <= j < batch@.len() implies !slices_contain(cache.refs(), #[trigger] ids[j]) by {
            if ids[j] == ids[0] {
                assert(ids.subrange(0, ids.len() as int)[j] == ids.subrange(
                    0,
                    ids.len() as int,
                )[0]);
                assert(ids =~= ids.subrange(0, ids.len() as int));
            }
        }
        assert forall|j: int|
            1 <= j < batch@.len() implies !slices_contain(
                cache.refs(),
                #[trigger] batch_ids(batch@)[j],
            ) by {
            assert(!slices_contain(cache.refs(), ids[j]));
        }
        assert(distinct_seq(ids.subrange(1, batch@.len() as int))) by {
            assert forall|i: int, jx: int|
                0 <= i < jx < ids.subrange(1, batch@.len() as int).len() implies ids.subrange(
                1,
                batch@.len() as int,
            )[i] != ids.subrange(1, batch@.len() as int)[jx] by {
                assert(ids.subrange(1, batch@.len() as int)[i] == ids[1 + i]);
                assert(ids.subrange(1, batch@.len() as int)[jx] == ids[1 + jx]);
            }
        }
    }
    let set_top = batch.len() < limit;
    if batch.len() == 1 && set_top {
        cache.mark_top_bound(first_id);
        proof {
            assert(batch@.subrange(1, batch@.len() as int) =~= batch@.drop_first());
            lemma_store_after_first(s0, batch@);
            assert(store_after_batch(s0.insert(ids[0], batch@[0]), batch@.drop_first())
                == s0.insert(ids[0], batch@[0]));
        }
    } else {
        walk_before(cache, first_id, batch, 1, set_top);
        proof {
            assert(batch@.subrange(1, batch@.len() as int) =~= batch@.drop_first());
            lemma_store_after_first(s0, batch@);
        }
    }
}

/// Appending at the bottom never creates or moves a top boundary.
proof fn lemma_append_bottom_preserves_top(ss: Seq<SliceModel>, identifier: i64)
    requires
        !has_top_bound(ss),
    ensures
        !has_top_bound(spec_append_bottom(ss, identifier)),
{
    let t = spec_append_bottom(ss, identifier);
    if crate::refcache::has_bottom_bound(ss) {
        let k = choose|k: int| 0 <= k < ss.len() && (#[trigger] ss[k]).is_bounded_at_bottom;
        assert forall|j: int| 0 <= j < t.len() implies !(#[trigger] t[j]).is_bounded_at_top by {
            assert(!ss[j].is_bounded_at_top);
            if j != k {
                assert(t[j] == ss[j]);
            }
        }
    } else {
        assert forall|j: int| 0 <= j < t.len() implies !(#[trigger] t[j]).is_bounded_at_top by {
            if j < ss.len() {
                assert(!ss[j].is_bounded_at_top);
                assert(t[j] == ss[j]);
            } else {
                assert(t[j] == crate::refcache::singleton_model(identifier, false, true));
            }
        }
    }
}

/// Folding a whole batch into the store is folding its head and then
/// its tail.
proof fn lemma_store_after_first<I: AsyncListItem>(s: Map<i64, I>, batch: Seq<I>)
    requires
        batch.len() > 0,
    ensures
        store_after_batch(s, batch) == store_after_batch(
            s.insert(batch[0].list_identifier(), batch[0]),
            batch.subrange(1, batch.len() as int),
        ),
{
    assert(batch.drop_first() =~= batch.subrange(1, batch.len() as int));
}

/// Whether the `j`-th batch identifier is new to the segment index and
/// not a repeat of an earlier batch position.
pub open spec fn usable_at(ss: Seq<SliceModel>, ids: Seq<i64>, j: int) -> bool {
    !slices_contain(ss, ids[j]) && forall|i: int| 0 <= i < j ==> ids[i] != ids[j]
}

/// The length of the longest batch prefix whose identifiers are all
/// new to the segment index and pairwise distinct.
pub open spec fn fresh_prefix_len(ss: Seq<SliceModel>, ids: Seq<i64>, from: int) -> int
    decreases ids.len() - from,
    when 0 <= from <= ids.len()
{
    if from >= ids.len() {
        ids.len() as int
    } else if !usable_at(ss, ids, from) {
        from
    } else {
        fresh_prefix_len(ss, ids, from + 1)
    }
}

/// Stepping the prefix bound over positions already known usable does
/// not change it.
proof fn lemma_fresh_prefix_step(ss: Seq<SliceModel>, ids: Seq<i64>, from: int, upto: int)
    requires
        0 <= from <= upto <= ids.len(),
        forall|i: int| from <= i < upto ==> usable_at(ss, ids, i),
    ensures
        fresh_prefix_len(ss, ids, from) == fresh_prefix_len(ss, ids, upto),
    decreases upto - from,
{
    if from < upto {
        assert(usable_at(ss, ids, from));
        lemma_fresh_prefix_step(ss, ids, from + 1, upto);
    }
}

/// The longest usable prefix of a fetched batch: every identifier in
/// the returned prefix is new to the segment index and occurs only
/// once, and the prefix ends at the batch's end or at the first
/// identifier that breaks one of the two conditions. Feeding the
/// prefix to a batch applier meets its freshness conditions; a caller
/// that saw the prefix fall short of the whole batch must not treat
/// the shortened prefix as an edge signal.
pub fn fresh_prefix<I: AsyncListItem>(cache: &AsyncListCache<I>, batch: &Vec<I>) -> (r: Vec<I>)
    requires
        cache.wf(),
    ensures
        r@ == batch@.subrange(0, fresh_prefix_len(cache.refs(), batch_ids(batch@), 0)),
        r@.len() <= batch@.len(),
        distinct_seq(batch_ids(r@)),
        forall|j: int|
            0 <= j < r@.len() ==> !slices_contain(cache.refs(), #[trigger] batch_ids(r@)[j]),
        r@.len() == batch@.len() || !usable_at(
            cache.refs(),
            batch_ids(batch@),
            r@.len() as int,
        ),
{
    let ghost ss = cache.refs();
    let ghost ids = batch_ids(batch@);
    let mut fresh: Vec<I> = Vec::new();
    let mut j: usize = 0;
    let mut stop = false;
    let n = batch.len();
    proof {
        assert(fresh@ =~= batch@.subrange(0, 0));
    }
    while j < n && !stop
        invariant
            cache.wf(),
            ss == cache.refs(),
            ids == batch_ids(batch@),
            j <= n,
            n == batch@.len(),
            fresh@ == batch@.subrange(0, j as int),
            forall|i: int| 0 <= i < j ==> usable_at(ss, ids, i),
            stop ==> j < n && !usable_at(ss, ids, j as int),
        decreases n - j, (if stop {
            0int
        } else {
            1int
        }),
    {
        let id = batch[j].get_list_identifier();
        proof {
            assert(id == ids[j as int]);
        }
        if cache.is_positioned(id) {
            proof {
                assert(!usable_at(ss, ids, j as int));
            }
            stop = true;
        } else if contains_id(&fresh, id) {
            proof {
                let i = choose|i: int|
                    0 <= i < fresh@.len() && #[trigger] batch_ids(fresh@)[i] == id;
                assert(batch_ids(fresh@)[i] == fresh@[i].list_identifier());
                assert(fresh@[i] == batch@[i]);
                assert(ids[i] == id);
                assert(!usable_at(ss, ids, j as int));
            }
            stop = true;
        } else {
            proof {
                assert(usable_at(ss, ids, j as int)) by {
                    assert forall|i: int| 0 <= i < j implies ids[i] != ids[j as int] by {
                        if ids[i] == ids[j as int] {
                            assert(batch_ids(fresh@)[i] == fresh@[i].list_identifier());
                            assert(fresh@[i] == batch@[i]);
                            assert(batch_ids(fresh@)[i] == id);
                            assert(batch_ids(fresh@).contains(id));
                        }
                    }
                }
            }
            let value = batch[j].duplicate();
            fresh.push(value);
            proof {
                assert(fresh@ =~= batch@.subrange(0, j + 1));
            }
            j = j + 1;
        }
    }
    proof {
        if j < n {
            assert(!usable_at(ss, ids, j as int));
        }
        lemma_fresh_prefix_step(ss, ids, 0, j as int);
        assert(fresh_prefix_len(ss, ids, 0) == j as int);
        assert forall|jj: int|
            0 <= jj < fresh@.len() implies !slices_contain(ss, #[trigger] batch_ids(fresh@)[jj]) by {
            assert(batch_ids(fresh@)[jj] == fresh@[jj].list_identifier());
            assert(fresh@[jj] == batch@[jj]);
            assert(batch_ids(fresh@)[jj] == ids[jj]);
            assert(usable_at(ss, ids, jj));
        }
        assert forall|i: int, jj: int|
            0 <= i < jj < batch_ids(fresh@).len() implies batch_ids(fresh@)[i] != batch_ids(
            fresh@,
        )[jj] by {
            assert(batch_ids(fresh@)[i] == ids[i]);
            assert(batch_ids(fresh@)[jj] == ids[jj]);
            assert(usable_at(ss, ids, jj));
        }
    }
    fresh
}

/// Law: folding in any batch of items whose identifiers all differ
/// from `kept_id` never disturbs the stored payload for `kept_id` —
/// so repeated `find` returns the same item no matter how many other
/// appends intervene.
pub proof fn lemma_append_find_stable_sequence<I: AsyncListItem>(
    s: Map<i64, I>,
    kept_id: i64,
    appended: Seq<I>,
)
    requires
        s.dom().contains(kept_id),
        forall|j: int|
            0 <= j < appended.len() ==> (#[trigger] appended[j]).list_identifier() != kept_id,
    ensures
        store_after_batch(s, appended).dom().contains(kept_id),
        store_after_batch(s, appended)[kept_id] == s[kept_id],
    decreases appended.len(),
{
    if appended.len() > 0 {
        let rest = appended.drop_first();
        assert forall|j: int|
            0 <= j < rest.len() implies (#[trigger] rest[j]).list_identifier() != kept_id by {
            assert(rest[j] == appended[j + 1]);
        }
        lemma_append_find_stable_sequence(
            s.insert(appended[0].list_identifier(), appended[0]),
            kept_id,
            rest,
        );
    }
}

/// Whether some item of `v` carries the identifier `id`.
fn contains_id<I: AsyncListItem>(v: &Vec<I>, id: i64) -> (r: bool)
    ensures
        r == batch_ids(v@).contains(id),
{
    let mut t: usize = 0;
    while t < v.len()
        invariant
            t <= v@.len(),
            forall|i: int| 0 <= i < t ==> #[trigger] batch_ids(v@)[i] != id,
        decreases v@.len() - t,
    {
        if v[t].get_list_identifier() == id {
            proof {
                assert(batch_ids(v@)[t as int] == id);
            }
            return true;
        }
        proof {
            assert(batch_ids(v@)[t as int] == v@[t as int].list_identifier());
        }
        t = t + 1;
    }
    false
}

/// Fold a batch fetched for a `Before` query whose anchor the index
/// does not know: the nearest item opens a new detached window and the
/// rest walks upward from it. A short batch still proves the outermost
/// item is the true start.
pub fn apply_batch_detached_before<I: AsyncListItem>(
    cache: &mut AsyncListCache<I>,
    batch: &Vec<I>,
    limit: usize,
)
    requires
        old(cache).wf(),
        batch@.len() > 0,
        batch@.len() <= limit,
        distinct_seq(batch_ids(batch@)),
        forall|j: int|
            0 <= j < batch@.len() ==> !slices_contain(
                old(cache).refs(),
                #[trigger] batch_ids(batch@)[j],
            ),
        batch@.len() < limit ==> !has_top_bound(old(cache).refs()),
    ensures
        final(cache).wf(),
        final(cache).refs() == splice_before(
            old(cache).refs().push(
                crate::refcache::singleton_model(batch_ids(batch@)[0], false, false),
            ),
            batch_ids(batch@)[0],
            batch_ids(batch@).subrange(1, batch@.len() as int),
            batch@.len() < limit,
        ),
        final(cache).store() == store_after_batch(old(cache).store(), batch@),
{
    let ghost ss0 = cache.refs();
    let ghost s0 = cache.store();
    let ghost ids = batch_ids(batch@);
    let first = batch[0].duplicate();
    let first_id = first.get_list_identifier();
    proof {
        assert(first == batch@[0]);
        assert(first_id == ids[0]);
    }
    cache.insert_detached(first);
    proof {
        if batch@.len() < limit {
            assert(!has_top_bound(cache.refs())) by {
                let t = cache.refs();
                assert forall|j: int|
                    0 <= j < t.len() implies !(#[trigger] t[j]).is_bounded_at_top by {
                    if j < ss0.len() {
                        assert(t[j] == ss0[j]);
                    } else {
                        assert(t[j] == crate::refcache::singleton_model(ids[0], false, false));
                    }
                }
            }
        }
        assert forall|j: int|
            1 <= j < batch@.len() implies !slices_contain(
                cache.refs(),
                #[trigger] batch_ids(batch@)[j],
            ) by {
            if ids[j] == ids[0] {
                assert(ids.subrange(0, ids.len() as int)[j] == ids.subrange(
                    0,
                    ids.len() as int,
                )[0]);
                assert(ids =~= ids.subrange(0, ids.len() as int));
            }
        }
        assert(distinct_seq(ids.subrange(1, batch@.len() as int))) by {
            assert forall|i: int, jx: int|
                0 <= i < jx < ids.subrange(1, batch@.len() as int).len() implies ids.subrange(
                1,
                batch@.len() as int,
            )[i] != ids.subrange(1, batch@.len() as int)[jx] by {
                assert(ids.subrange(1, batch@.len() as int)[i] == ids[1 + i]);
                assert(ids.subrange(1, batch@.len() as int)[jx] == ids[1 + jx]);
            }
        }
    }
    let set_top = batch.len() < limit;
    walk_before(cache, first_id, batch, 1, set_top);
    proof {
        assert(batch@.subrange(1, batch@.len() as int) =~= batch@.drop_first());
        lemma_store_after_first(s0, batch@);
    }
}

/// Fold a batch fetched for an `After` query whose anchor the index
/// does not know: the nearest item opens a new detached window and the
/// rest walks downward from it. A short batch still proves the
/// outermost item is the true end.
pub fn apply_batch_detached_after<I: AsyncListItem>(
    cache: &mut AsyncListCache<I>,
    batch: &Vec<I>,
    limit: usize,
)
    requires
        old(cache).wf(),
        batch@.len() > 0,
        batch@.len() <= limit,
        distinct_seq(batch_ids(batch@)),
        forall|j: int|
            0 <= j < batch@.len() ==> !slices_contain(
                old(cache).refs(),
                #[trigger] batch_ids(batch@)[j],
            ),
        batch@.len() < limit ==> !has_bottom_bound(old(cache).refs()),
    ensures
        final(cache).wf(),
        final(cache).refs() == splice_after(
            old(cache).refs().push(
                crate::refcache::singleton_model(batch_ids(batch@)[0], false, false),
            ),
            batch_ids(batch@)[0],
            batch_ids(batch@).subrange(1, batch@.len() as int),
            batch@.len() < limit,
        ),
        final(cache).store() == store_after_batch(old(cache).store(), batch@),
{
    let ghost ss0 = cache.refs();
    let ghost s0 = cache.store();
    let ghost ids = batch_ids(batch@);
    let first = batch[0].duplicate();
    let first_id = first.get_list_identifier();
    proof {
        assert(first == batch@[0]);
        assert(first_id == ids[0]);
    }
    cache.insert_detached(first);
    proof {
        if batch@.len() < limit {
            assert(!has_bottom_bound(cache.refs())) by {
                let t = cache.refs();
                assert forall|j: int|
                    0 <= j < t.len() implies !(#[trigger] t[j]).is_bounded_at_bottom by {
                    if j < ss0.len() {
                        assert(t[j] == ss0[j]);
                    } else {
                        assert(t[j] == crate::refcache::singleton_model(ids[0], false, false));
                    }
                }
            }
        }
        assert forall|j: int|
            1 <= j < batch@.len() implies !slices_contain(
                cache.refs(),
                #[trigger] batch_ids(batch@)[j],
            ) by {
            if ids[j] == ids[0] {
                assert(ids.subrange(0, ids.len() as int)[j] == ids.subrange(
                    0,
                    ids.len() as int,
                )[0]);
                assert(ids =~= ids.subrange(0, ids.len() as int));
            }
        }
        assert(distinct_seq(ids.subrange(1, batch@.len() as int))) by {
            assert forall|i: int, jx: int|
                0 <= i < jx < ids.subrange(1, batch@.len() as int).len() implies ids.subrange(
                1,
                batch@.len() as int,
            )[i] != ids.subrange(1, batch@.len() as int)[jx] by {
                assert(ids.subrange(1, batch@.len() as int)[i] == ids[1 + i]);
                assert(ids.subrange(1, batch@.len() as int)[jx] == ids[1 + jx]);
            }
        }
    }
    let set_bottom = batch.len() < limit;
    walk_after(cache, first_id, batch, 1, set_bottom);
    proof {
        assert(batch@.subrange(1, batch@.len() as int) =~= batch@.drop_first());
        lemma_store_after_first(s0, batch@);
    }
}

} // verus!
