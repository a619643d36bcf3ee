//! The ordered-list cache: a segment index for positional knowledge
//! composed with a flat item store for payloads, behind a single query
//! surface.

use std::collections::HashMap;

use vstd::prelude::*;

use crate::async_list::AsyncListIndex;
use crate::async_list::AsyncListItem;
use crate::async_list::AsyncListResult;
use crate::refcache::CacheReferences;
use crate::refcache::bridges;
use crate::refcache::has_bottom_bound;
use crate::refcache::has_top_bound;
use crate::refcache::scan_slices;
use crate::refcache::slices_contain;
use crate::refcache::spec_append_bottom;
use crate::refcache::spec_bottom_bound;
use crate::refcache::spec_insert;
use crate::refcache::spec_top_bound;
use crate::refcache::position_consistent;
use crate::refcache::singleton_model;
use crate::refcacheslice::Exists;
use crate::refcacheslice::SliceModel;

verus! {

broadcast use vstd::std_specs::hash::group_hash_axioms;

/// A partial cache of a remotely hosted ordered list.
///
/// The segment index records which identifiers are known and how they
/// are ordered; the item store maps each identifier to its payload. The
/// store may hold items whose position is unknown, but every identifier
/// the segment index knows has a payload in the store.
pub struct AsyncListCache<I: AsyncListItem> {
    cache_refs: CacheReferences,
    cache_map: HashMap<i64, I>,
}

impl<I: AsyncListItem> AsyncListCache<I> {
    /// The positional knowledge: the family of segment models.
    pub closed spec fn refs(&self) -> Seq<SliceModel> {
        self.cache_refs.slices()
    }

    /// The item store: identifier to payload.
    pub closed spec fn store(&self) -> Map<i64, I> {
        self.cache_map@
    }

    /// The cache invariant: the segment index is well formed, every
    /// identifier it knows has a stored payload, and every stored
    /// payload is keyed by its own identifier.
    pub closed spec fn wf(&self) -> bool {
        &&& self.cache_refs.wf()
        &&& forall|x: i64|
            slices_contain(self.refs(), x) ==> #[trigger] self.store().dom().contains(x)
        &&& forall|x: i64|
            #[trigger] self.store().dom().contains(x) ==> self.store()[x].list_identifier() == x
    }

    /// A well-formed cache has a well-formed segment family.
    pub proof fn lemma_wf_slices(&self)
        requires
            self.wf(),
        ensures
            crate::refcache::slices_wf(self.refs()),
            forall|x: i64|
                slices_contain(self.refs(), x) ==> #[trigger] self.store().dom().contains(x),
            forall|x: i64|
                #[trigger] self.store().dom().contains(x) ==> self.store()[x].list_identifier()
                    == x,
    {
        self.cache_refs.lemma_wf_slices();
    }

    /// Law: at most one segment is ever bounded at the top and at most
    /// one at the bottom; every mutation preserves this.
    pub proof fn lemma_boundary_uniqueness(&self)
        requires
            self.wf(),
        ensures
            forall|k1: int, k2: int|
                0 <= k1 < self.refs().len() && 0 <= k2 < self.refs().len()
                    && (#[trigger] self.refs()[k1]).is_bounded_at_top
                    && (#[trigger] self.refs()[k2]).is_bounded_at_top ==> k1 == k2,
            forall|k1: int, k2: int|
                0 <= k1 < self.refs().len() && 0 <= k2 < self.refs().len()
                    && (#[trigger] self.refs()[k1]).is_bounded_at_bottom
                    && (#[trigger] self.refs()[k2]).is_bounded_at_bottom ==> k1 == k2,
    {
        self.cache_refs.lemma_wf_slices();
        crate::refcache::lemma_boundary_uniqueness(self.refs());
    }

    /// After one mutation, the two store-related invariant conjuncts
    /// follow from the membership change of the segment index and from
    /// the one store insertion.
    proof fn lemma_store_extension(&self, prev: Self, identifier: i64, value: I)
        requires
            prev.wf(),
            value.list_identifier() == identifier,
            self.store() == prev.store().insert(identifier, value),
            forall|x: i64|
                slices_contain(self.refs(), x) <==> (slices_contain(prev.refs(), x) || x
                    == identifier),
        ensures
            forall|x: i64|
                slices_contain(self.refs(), x) ==> #[trigger] self.store().dom().contains(x),
            forall|x: i64|
                #[trigger] self.store().dom().contains(x) ==> self.store()[x].list_identifier()
                    == x,
    {
        assert forall|x: i64|
            slices_contain(self.refs(), x) implies #[trigger] self.store().dom().contains(x) by {
            if x != identifier {
                assert(slices_contain(prev.refs(), x));
                assert(prev.store().dom().contains(x));
            }
        }
        assert forall|x: i64|
            #[trigger] self.store().dom().contains(x) implies self.store()[x].list_identifier()
                == x by {
            if x != identifier {
                assert(prev.store().dom().contains(x));
            }
        }
    }

    pub fn new() -> (r: Self)
        ensures
            r.wf(),
            r.refs() == Seq::<SliceModel>::empty(),
            r.store() == Map::<i64, I>::empty(),
    {
        AsyncListCache { cache_refs: CacheReferences::new(), cache_map: HashMap::new() }
    }

    /// Record a newly arrived item at the true end of the sequence.
    pub fn append_bottom(&mut self, value: I)
        requires
            old(self).wf(),
            !slices_contain(old(self).refs(), value.list_identifier()),
            has_bottom_bound(old(self).refs()) || old(self).refs().len() == 0,
        ensures
            final(self).wf(),
            final(self).refs() == spec_append_bottom(old(self).refs(), value.list_identifier()),
            final(self).store() == old(self).store().insert(value.list_identifier(), value),
            forall|x: i64|
                slices_contain(final(self).refs(), x) <==> (slices_contain(old(self).refs(), x)
                    || x == value.list_identifier()),
    {
        let identifier = value.get_list_identifier();
        self.cache_refs.append_bottom(identifier);
        self.cache_map.insert(identifier, value);
        proof {
            self.lemma_store_extension(*old(self), identifier, value);
        }
    }

    /// Record an item at the position described by `index`, optionally
    /// marking it as the true first or last item of the sequence.
    ///
    /// A fresh identifier extends or opens a segment. An identifier the
    /// index already knows is accepted in two shapes: recorded at
    /// exactly the queried position, in which case only the stored
    /// payload is overwritten and the position bookkeeping is
    /// untouched, or standing as the facing edge of a different
    /// segment, in which case the insertion bridges the gap and the
    /// two segments are merged into one.
    pub fn insert(&mut self, index: AsyncListIndex<i64>, value: I, is_top: bool, is_bottom: bool)
        requires
            old(self).wf(),
            !slices_contain(old(self).refs(), value.list_identifier()) || position_consistent(
                old(self).refs(),
                index,
                value.list_identifier(),
            ) || bridges(old(self).refs(), index, value.list_identifier()),
            (position_consistent(old(self).refs(), index, value.list_identifier()) || bridges(
                old(self).refs(),
                index,
                value.list_identifier(),
            )) ==> !is_top && !is_bottom,
            (index matches AsyncListIndex::Before(_) || index matches AsyncListIndex::After(_))
                || old(self).refs().len() == 0,
            is_top ==> !has_top_bound(old(self).refs()),
            is_bottom ==> !has_bottom_bound(old(self).refs()),
        ensures
            final(self).wf(),
            final(self).refs() == spec_insert(
                old(self).refs(),
                index,
                value.list_identifier(),
                is_top,
                is_bottom,
            ),
            final(self).store() == old(self).store().insert(value.list_identifier(), value),
            forall|x: i64|
                slices_contain(final(self).refs(), x) <==> (slices_contain(old(self).refs(), x)
                    || x == value.list_identifier()),
    {
        let identifier = value.get_list_identifier();
        self.cache_map.insert(identifier, value);
        self.cache_refs.insert(index, identifier, is_top, is_bottom);
        proof {
            self.lemma_store_extension(*old(self), identifier, value);
        }
    }

    /// Record an item the caller knows to be adjacent to nothing yet
    /// discovered and to be neither end of the sequence.
    pub fn insert_detached(&mut self, value: I)
        requires
            old(self).wf(),
            !slices_contain(old(self).refs(), value.list_identifier()),
        ensures
            final(self).wf(),
            final(self).refs() == old(self).refs().push(
                singleton_model(value.list_identifier(), false, false),
            ),
            final(self).store() == old(self).store().insert(value.list_identifier(), value),
            forall|x: i64|
                slices_contain(final(self).refs(), x) <==> (slices_contain(old(self).refs(), x)
                    || x == value.list_identifier()),
    {
        let identifier = value.get_list_identifier();
        self.cache_map.insert(identifier, value);
        self.cache_refs.insert_detached(identifier);
        proof {
            self.lemma_store_extension(*old(self), identifier, value);
        }
    }

    /// Whether the segment index knows the position of `identifier`
    /// (as opposed to merely storing its payload).
    pub fn is_positioned(&self, identifier: i64) -> (r: bool)
        requires
            self.wf(),
        ensures
            r == slices_contain(self.refs(), identifier),
    {
        self.cache_refs.is_positioned(identifier)
    }

    /// Whether inserting `value_identifier` at `index` would bridge two
    /// segments: the anchor is the edge element of one segment and the
    /// identifier is already the facing edge element of a different
    /// one.
    pub fn bridges_at(&self, index: AsyncListIndex<i64>, value_identifier: i64) -> (r: bool)
        requires
            self.wf(),
        ensures
            r == bridges(self.refs(), index, value_identifier),
    {
        self.cache_refs.bridges_at(index, value_identifier)
    }

    /// Record that the segment knowing `anchor` begins at the true
    /// start of the sequence: a zero-length answer to an upward fetch
    /// proves nothing lies above the anchor.
    pub fn mark_top_bound(&mut self, anchor: i64)
        requires
            old(self).wf(),
            slices_contain(old(self).refs(), anchor),
            !has_top_bound(old(self).refs()),
        ensures
            final(self).wf(),
            final(self).refs() == crate::refcache::spec_mark_top(old(self).refs(), anchor),
            final(self).store() == old(self).store(),
    {
        self.cache_refs.mark_top_bound(anchor);
        proof {
            assert forall|x: i64|
                slices_contain(self.refs(), x) implies #[trigger] self.store().dom().contains(
                x,
            ) by {
                assert(slices_contain(self.cache_refs.slices(), x));
                assert(slices_contain(old(self).cache_refs.slices(), x));
                assert(slices_contain(old(self).refs(), x));
                assert(old(self).store().dom().contains(x));
            }
            assert forall|x: i64|
                #[trigger] self.store().dom().contains(x) implies self.store()[x].list_identifier()
                    == x by {
                assert(old(self).store().dom().contains(x));
                assert(old(self).store()[x].list_identifier() == x);
            }
        }
    }

    /// Record that the segment knowing `anchor` ends at the true end of
    /// the sequence: a zero-length answer to a downward fetch proves
    /// nothing lies below the anchor.
    pub fn mark_bottom_bound(&mut self, anchor: i64)
        requires
            old(self).wf(),
            slices_contain(old(self).refs(), anchor),
            !has_bottom_bound(old(self).refs()),
        ensures
            final(self).wf(),
            final(self).refs() == crate::refcache::spec_mark_bottom(old(self).refs(), anchor),
            final(self).store() == old(self).store(),
    {
        self.cache_refs.mark_bottom_bound(anchor);
        proof {
            assert forall|x: i64|
                slices_contain(self.refs(), x) implies #[trigger] self.store().dom().contains(
                x,
            ) by {
                assert(slices_contain(self.cache_refs.slices(), x));
                assert(slices_contain(old(self).cache_refs.slices(), x));
                assert(slices_contain(old(self).refs(), x));
                assert(old(self).store().dom().contains(x));
            }
            assert forall|x: i64|
                #[trigger] self.store().dom().contains(x) implies self.store()[x].list_identifier()
                    == x by {
                assert(old(self).store().dom().contains(x));
                assert(old(self).store()[x].list_identifier() == x);
            }
        }
    }

    /// The identifier of the true first item, when known.
    pub fn bounded_at_top_by(&self) -> (r: Option<i64>)
        requires
            self.wf(),
        ensures
            r == spec_top_bound(self.refs()),
    {
        self.cache_refs.top_bound()
    }

    /// The identifier of the true last item, when known.
    pub fn bounded_at_bottom_by(&self) -> (r: Option<i64>)
        requires
            self.wf(),
        ensures
            r == spec_bottom_bound(self.refs()),
    {
        self.cache_refs.bottom_bound()
    }

    /// Answer a positional query: a definite hit carries the stored
    /// payload and says whether that item is the true first or last of
    /// the sequence; `No` means the position is proven absent; `Unknown`
    /// asks the caller to consult the remote source.
    pub fn get(&self, index: AsyncListIndex<i64>) -> (r: Exists<AsyncListResult<I>>)
        requires
            self.wf(),
        ensures
            match scan_slices(self.refs(), index) {
                Exists::Yes(id) => r matches Exists::Yes(res) && res.content == self.store()[id]
                    && res.is_top == (spec_top_bound(self.refs()) == Some(id)) && res.is_bottom
                    == (spec_bottom_bound(self.refs()) == Some(id)),
                Exists::No => r is No,
                Exists::Unknown => r is Unknown,
            },
    {
        let cache_result = self.cache_refs.get(index);

        match cache_result {
            Exists::Yes(id) => {
                proof {
                    crate::refcache::lemma_scan_yes_contained(self.refs(), index, id);
                    assert(self.store().dom().contains(id));
                }
                let stored = self.cache_map.get(&id);
                proof {
                    assert(self.cache_map@.contains_key(id));
                }
                let content = stored.unwrap().duplicate();
                let top_bound = self.cache_refs.top_bound();
                let bottom_bound = self.cache_refs.bottom_bound();
                let content_id = content.get_list_identifier();
                let is_top = match top_bound {
                    Some(v) => v == content_id,
                    None => false,
                };
                let is_bottom = match bottom_bound {
                    Some(v) => v == content_id,
                    None => false,
                };
                Exists::Yes(AsyncListResult { content, is_top, is_bottom })
            },
            Exists::No => Exists::No,
            Exists::Unknown => Exists::Unknown,
        }
    }

    /// Look an item up by identifier alone, independent of any
    /// positional knowledge.
    pub fn find(&self, identifier: &i64) -> (r: Option<I>)
        ensures
            r == (if self.store().dom().contains(*identifier) {
                Some(self.store()[*identifier])
            } else {
                None::<I>
            }),
    {
        match self.cache_map.get(identifier) {
            Some(value) => Some(value.duplicate()),
            None => None,
        }
    }
}

/// Law: appending an item with one identifier never disturbs what
/// `find` returns for another. Applying this step once per intervening
/// append shows that repeated `find` after `append_bottom` always
/// returns the same item, no matter how many other appends intervene.
pub proof fn lemma_append_find_stable<I: AsyncListItem>(
    pre: AsyncListCache<I>,
    post: AsyncListCache<I>,
    kept: I,
    appended: I,
)
    requires
        pre.store().dom().contains(kept.list_identifier()),
        pre.store()[kept.list_identifier()] == kept,
        post.store() == pre.store().insert(appended.list_identifier(), appended),
        appended.list_identifier() != kept.list_identifier(),
    ensures
        post.store().dom().contains(kept.list_identifier()),
        post.store()[kept.list_identifier()] == kept,
{
}

/// Law: re-inserting an identifier already recorded at exactly the
/// queried position overwrites its stored payload and moves nothing in
/// the segment index.
pub proof fn lemma_payload_overwrite<I: AsyncListItem>(
    pre: AsyncListCache<I>,
    post: AsyncListCache<I>,
    index: AsyncListIndex<i64>,
    value: I,
)
    requires
        position_consistent(pre.refs(), index, value.list_identifier()),
        post.refs() == spec_insert(pre.refs(), index, value.list_identifier(), false, false),
        post.store() == pre.store().insert(value.list_identifier(), value),
    ensures
        post.refs() == pre.refs(),
        post.store().dom().contains(value.list_identifier()),
        post.store()[value.list_identifier()] == value,
{
}

/// Law: after inserting a fresh item after a known anchor, `find` on
/// the item's identifier returns the item itself, `After(anchor)`
/// answers the item, and `Before(item)` answers the anchor.
pub proof fn lemma_insert_round_trip_after<I: AsyncListItem>(
    pre: AsyncListCache<I>,
    post: AsyncListCache<I>,
    anchor: i64,
    value: I,
)
    requires
        pre.wf(),
        slices_contain(pre.refs(), anchor),
        !slices_contain(pre.refs(), value.list_identifier()),
        post.refs() == spec_insert(
            pre.refs(),
            AsyncListIndex::After(anchor),
            value.list_identifier(),
            false,
            false,
        ),
        post.store() == pre.store().insert(value.list_identifier(), value),
    ensures
        post.store().dom().contains(value.list_identifier()),
        post.store()[value.list_identifier()] == value,
        scan_slices(post.refs(), AsyncListIndex::After(anchor)) == Exists::Yes(
            value.list_identifier(),
        ),
        scan_slices(post.refs(), AsyncListIndex::Before(value.list_identifier())) == Exists::Yes(
            anchor,
        ),
{
    pre.cache_refs.lemma_wf_slices();
    crate::refcache::lemma_insert_after_links(pre.refs(), anchor, value.list_identifier());
}

/// Law: after inserting a fresh item before a known anchor, `find` on
/// the item's identifier returns the item itself, `Before(anchor)`
/// answers the item, and `After(item)` answers the anchor.
pub proof fn lemma_insert_round_trip_before<I: AsyncListItem>(
    pre: AsyncListCache<I>,
    post: AsyncListCache<I>,
    anchor: i64,
    value: I,
)
    requires
        pre.wf(),
        slices_contain(pre.refs(), anchor),
        !slices_contain(pre.refs(), value.list_identifier()),
        post.refs() == spec_insert(
            pre.refs(),
            AsyncListIndex::Before(anchor),
            value.list_identifier(),
            false,
            false,
        ),
        post.store() == pre.store().insert(value.list_identifier(), value),
    ensures
        post.store().dom().contains(value.list_identifier()),
        post.store()[value.list_identifier()] == value,
        scan_slices(post.refs(), AsyncListIndex::Before(anchor)) == Exists::Yes(
            value.list_identifier(),
        ),
        scan_slices(post.refs(), AsyncListIndex::After(value.list_identifier())) == Exists::Yes(
            anchor,
        ),
{
    pre.cache_refs.lemma_wf_slices();
    crate::refcache::lemma_insert_before_links(pre.refs(), anchor, value.list_identifier());
}

impl<I: AsyncListItem> Default for AsyncListCache<I> {
    fn default() -> (r: Self)
        ensures
            r.wf(),
            r.refs() == Seq::<SliceModel>::empty(),
            r.store() == Map::<i64, I>::empty(),
    {
        AsyncListCache::new()
    }
}

} // verus!
