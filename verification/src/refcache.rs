//! The segment index: an arena of segments plus at most one pointer to
//! the segment whose top edge is the true start of the sequence, and at
//! most one pointer to the segment whose bottom edge is the true end.
//! Owns the insertion algorithm: an insertion either extends the one
//! segment that can interpret its anchor, or opens a new segment.

use vstd::prelude::*;

use crate::async_list::AsyncListIndex;
use crate::refcacheslice::CacheReferencesSlice;
use crate::refcacheslice::Exists;
use crate::refcacheslice::Position;
use crate::refcacheslice::SliceModel;
use crate::refcacheslice::distinct_seq;
use crate::refcacheslice::lemma_index_of_distinct;

verus! {

/// Some segment of `ss` knows the identifier `x`.
pub open spec fn slices_contain(ss: Seq<SliceModel>, x: i64) -> bool {
    exists|k: int| 0 <= k < ss.len() && #[trigger] ss[k].contains(x)
}

/// Well-formedness of a family of segments: every segment is non-empty
/// and duplicate-free, no identifier is known to two segments, and at
/// most one segment touches each end of the true sequence.
pub open spec fn slices_wf(ss: Seq<SliceModel>) -> bool {
    &&& forall|k: int| 0 <= k < ss.len() ==> (#[trigger] ss[k]).wf()
    &&& forall|k1: int, k2: int, x: i64|
        0 <= k1 < ss.len() && 0 <= k2 < ss.len() && #[trigger] ss[k1].contains(x)
            && #[trigger] ss[k2].contains(x) ==> k1 == k2
    &&& forall|k1: int, k2: int|
        0 <= k1 < ss.len() && 0 <= k2 < ss.len() && (#[trigger] ss[k1]).is_bounded_at_top
            && (#[trigger] ss[k2]).is_bounded_at_top ==> k1 == k2
    &&& forall|k1: int, k2: int|
        0 <= k1 < ss.len() && 0 <= k2 < ss.len() && (#[trigger] ss[k1]).is_bounded_at_bottom
            && (#[trigger] ss[k2]).is_bounded_at_bottom ==> k1 == k2
}

/// Some segment's top edge is the true start of the sequence.
pub open spec fn has_top_bound(ss: Seq<SliceModel>) -> bool {
    exists|k: int| 0 <= k < ss.len() && (#[trigger] ss[k]).is_bounded_at_top
}

/// Some segment's bottom edge is the true end of the sequence.
pub open spec fn has_bottom_bound(ss: Seq<SliceModel>) -> bool {
    exists|k: int| 0 <= k < ss.len() && (#[trigger] ss[k]).is_bounded_at_bottom
}

/// The identifier of the true first item, if a segment touching the top
/// is known.
pub open spec fn spec_top_bound(ss: Seq<SliceModel>) -> Option<i64> {
    if has_top_bound(ss) {
        let k = choose|k: int| 0 <= k < ss.len() && (#[trigger] ss[k]).is_bounded_at_top;
        Some(ss[k].items.first())
    } else {
        None
    }
}

/// The identifier of the true last item, if a segment touching the
/// bottom is known.
pub open spec fn spec_bottom_bound(ss: Seq<SliceModel>) -> Option<i64> {
    if has_bottom_bound(ss) {
        let k = choose|k: int| 0 <= k < ss.len() && (#[trigger] ss[k]).is_bounded_at_bottom;
        Some(ss[k].items.last())
    } else {
        None
    }
}

/// Whether the segment `m` can interpret `index` at all (a `Yes` or a
/// definite `No`, as opposed to `Unknown`).
pub open spec fn answers(m: SliceModel, index: AsyncListIndex<i64>) -> bool {
    !(m.spec_get(index) is Unknown)
}

/// What a scan of all segments answers: under well-formedness at most
/// one segment can interpret a query, and its answer is decisive; if no
/// segment can, the position is unknown.
pub open spec fn scan_slices(ss: Seq<SliceModel>, index: AsyncListIndex<i64>) -> Exists<i64> {
    if exists|k: int| 0 <= k < ss.len() && answers(#[trigger] ss[k], index) {
        let k = choose|k: int| 0 <= k < ss.len() && answers(#[trigger] ss[k], index);
        ss[k].spec_get(index)
    } else {
        Exists::Unknown
    }
}

/// Some segment of `ss` can accept an insertion anchored by `index`.
pub open spec fn has_insert_candidate(ss: Seq<SliceModel>, index: AsyncListIndex<i64>) -> bool {
    exists|k: int| 0 <= k < ss.len() && (#[trigger] ss[k]).spec_can_insert(index) is Some
}

/// The index of the segment that accepts an insertion anchored by
/// `index`; under well-formedness it is unique.
pub open spec fn insert_candidate(ss: Seq<SliceModel>, index: AsyncListIndex<i64>) -> int {
    choose|k: int| 0 <= k < ss.len() && (#[trigger] ss[k]).spec_can_insert(index) is Some
}

/// The slot of the segment that knows `x`; under well-formedness it is
/// unique.
pub open spec fn slot_of(ss: Seq<SliceModel>, x: i64) -> int {
    choose|k: int| 0 <= k < ss.len() && #[trigger] ss[k].contains(x)
}

/// The inserted identifier is already recorded at exactly the position
/// the query names: such an insertion is a payload refresh and moves
/// nothing in the segment index.
pub open spec fn position_consistent(
    ss: Seq<SliceModel>,
    index: AsyncListIndex<i64>,
    item: i64,
) -> bool {
    slices_contain(ss, item) && scan_slices(ss, index) == Exists::Yes(item)
}

/// The bridging shape: the anchor is the edge element of one segment
/// and the inserted identifier is already the facing edge element of a
/// different segment, so recording their adjacency closes the gap
/// between the two segments.
pub open spec fn bridges(ss: Seq<SliceModel>, index: AsyncListIndex<i64>, item: i64) -> bool {
    slices_contain(ss, item) && match index {
        AsyncListIndex::After(anchor) => slices_contain(ss, anchor) && slot_of(ss, anchor)
            != slot_of(ss, item) && ss[slot_of(ss, anchor)].items.last() == anchor && ss[slot_of(
            ss,
            item,
        )].items.first() == item,
        AsyncListIndex::Before(anchor) => slices_contain(ss, anchor) && slot_of(ss, anchor)
            != slot_of(ss, item) && ss[slot_of(ss, anchor)].items.first() == anchor && ss[slot_of(
            ss,
            item,
        )].items.last() == item,
        _ => false,
    }
}

/// The two bridged segments replaced by their concatenation: the merged
/// segment stands where the left run stood, keeps the left run's top
/// flag and the right run's bottom flag, and the right run's slot is
/// retired.
pub open spec fn merge_slots(ss: Seq<SliceModel>, left: int, right: int) -> Seq<SliceModel> {
    ss.update(
        left,
        SliceModel {
            items: ss[left].items + ss[right].items,
            is_bounded_at_top: ss[left].is_bounded_at_top,
            is_bounded_at_bottom: ss[right].is_bounded_at_bottom,
        },
    ).remove(right)
}

/// The merge a bridging insertion performs: for `After(anchor)` the
/// item's segment is the right run, for `Before(anchor)` it is the
/// left run.
pub open spec fn spec_merge(
    ss: Seq<SliceModel>,
    index: AsyncListIndex<i64>,
    item: i64,
) -> Seq<SliceModel> {
    match index {
        AsyncListIndex::After(anchor) => merge_slots(ss, slot_of(ss, anchor), slot_of(ss, item)),
        AsyncListIndex::Before(anchor) => merge_slots(ss, slot_of(ss, item), slot_of(ss, anchor)),
        _ => ss,
    }
}

/// The family after learning that the segment knowing `anchor` begins
/// at the true start of the sequence.
pub open spec fn spec_mark_top(ss: Seq<SliceModel>, anchor: i64) -> Seq<SliceModel> {
    let k = slot_of(ss, anchor);
    ss.update(
        k,
        SliceModel {
            items: ss[k].items,
            is_bounded_at_top: true,
            is_bounded_at_bottom: ss[k].is_bounded_at_bottom,
        },
    )
}

/// The family after learning that the segment knowing `anchor` ends at
/// the true end of the sequence.
pub open spec fn spec_mark_bottom(ss: Seq<SliceModel>, anchor: i64) -> Seq<SliceModel> {
    let k = slot_of(ss, anchor);
    ss.update(
        k,
        SliceModel {
            items: ss[k].items,
            is_bounded_at_top: ss[k].is_bounded_at_top,
            is_bounded_at_bottom: true,
        },
    )
}

/// A newly opened segment holding a single identifier.
pub open spec fn singleton_model(item: i64, is_top: bool, is_bottom: bool) -> SliceModel {
    SliceModel { items: seq![item], is_bounded_at_top: is_top, is_bounded_at_bottom: is_bottom }
}

/// The family of segments after inserting `item` at `index`: an
/// identifier already recorded at that very position changes nothing;
/// one that bridges two segments merges them; a fresh identifier is
/// spliced into the unique candidate segment, or opens a new singleton
/// segment.
pub open spec fn spec_insert(
    ss: Seq<SliceModel>,
    index: AsyncListIndex<i64>,
    item: i64,
    is_top: bool,
    is_bottom: bool,
) -> Seq<SliceModel> {
    if position_consistent(ss, index, item) {
        ss
    } else if bridges(ss, index, item) {
        spec_merge(ss, index, item)
    } else if has_insert_candidate(ss, index) {
        let k = insert_candidate(ss, index);
        ss.update(k, ss[k].spec_insert(index, item, is_top, is_bottom))
    } else {
        ss.push(singleton_model(item, is_top, is_bottom))
    }
}

/// The family of segments after appending `identifier` at the true end:
/// the unique bottom-bounded segment grows, or (when no segment exists
/// at all) a first, bottom-bounded singleton segment is opened.
pub open spec fn spec_append_bottom(ss: Seq<SliceModel>, identifier: i64) -> Seq<SliceModel> {
    if has_bottom_bound(ss) {
        let k = choose|k: int| 0 <= k < ss.len() && (#[trigger] ss[k]).is_bounded_at_bottom;
        ss.update(
            k,
            SliceModel {
                items: ss[k].items.push(identifier),
                is_bounded_at_top: ss[k].is_bounded_at_top,
                is_bounded_at_bottom: ss[k].is_bounded_at_bottom,
            },
        )
    } else {
        ss.push(singleton_model(identifier, false, true))
    }
}

/// Splicing an element into a sequence adds exactly that element to its
/// membership.
pub proof fn lemma_insert_contains(s: Seq<i64>, p: int, v: i64, x: i64)
    requires
        0 <= p <= s.len(),
    ensures
        s.insert(p, v).contains(x) <==> (s.contains(x) || x == v),
{
    let t = s.insert(p, v);
    s.insert_ensures(p, v);
    if s.contains(x) {
        let i = choose|i: int| 0 <= i < s.len() && s[i] == x;
        if i < p {
            assert(t[i] == x);
        } else {
            assert(t[i + 1] == x);
        }
    }
    if x == v {
        assert(t[p] == x);
    }
    if t.contains(x) && x != v {
        let i = choose|i: int| 0 <= i < t.len() && t[i] == x;
        if i < p {
            assert(s[i] == x);
            assert(s.contains(x));
        } else if i == p {
            assert(t[i] == v);
        } else {
            assert(t[(i - 1) + 1] == s[i - 1]);
            assert(s.contains(x));
        }
    }
}

/// Under well-formedness, at most one segment can interpret a given
/// query: relative queries are claimed by the unique bounded segment,
/// anchored queries by the unique segment knowing the anchor.
pub proof fn lemma_answer_unique(
    ss: Seq<SliceModel>,
    index: AsyncListIndex<i64>,
    k1: int,
    k2: int,
)
    requires
        slices_wf(ss),
        0 <= k1 < ss.len(),
        0 <= k2 < ss.len(),
        answers(ss[k1], index),
        answers(ss[k2], index),
    ensures
        k1 == k2,
{
    match index {
        AsyncListIndex::RelativeToTop(_) => {
            assert(ss[k1].is_bounded_at_top);
            assert(ss[k2].is_bounded_at_top);
        },
        AsyncListIndex::RelativeToBottom(_) => {
            assert(ss[k1].is_bounded_at_bottom);
            assert(ss[k2].is_bounded_at_bottom);
        },
        AsyncListIndex::After(anchor) => {
            assert(ss[k1].contains(anchor));
            assert(ss[k2].contains(anchor));
        },
        AsyncListIndex::Before(anchor) => {
            assert(ss[k1].contains(anchor));
            assert(ss[k2].contains(anchor));
        },
    }
}

/// The segment index. Segments live in an arena; the two optional
/// pointers name the arena slot of the top-bounded and bottom-bounded
/// segment, when one exists.
pub struct CacheReferences {
    dense_segments: Vec<CacheReferencesSlice>,
    top_bounded_identifier: Option<usize>,
    bottom_bounded_identifier: Option<usize>,
}

impl CacheReferences {
    /// The mathematical content of the index: the family of segment
    /// models, in arena order.
    pub closed spec fn slices(&self) -> Seq<SliceModel> {
        self.dense_segments@.map_values(|s: CacheReferencesSlice| s@)
    }

    /// The index invariant: the segment family is well formed and each
    /// boundary pointer names exactly the segment carrying the matching
    /// flag.
    pub closed spec fn wf(&self) -> bool {
        &&& slices_wf(self.slices())
        &&& match self.top_bounded_identifier {
            Some(i) => i < self.slices().len() && self.slices()[i as int].is_bounded_at_top,
            None => !has_top_bound(self.slices()),
        }
        &&& match self.bottom_bounded_identifier {
            Some(i) => i < self.slices().len() && self.slices()[i as int].is_bounded_at_bottom,
            None => !has_bottom_bound(self.slices()),
        }
    }

    /// A well-formed index has a well-formed segment family.
    pub proof fn lemma_wf_slices(&self)
        requires
            self.wf(),
        ensures
            slices_wf(self.slices()),
    {
    }

    pub fn new() -> (r: Self)
        ensures
            r.wf(),
            r.slices() == Seq::<SliceModel>::empty(),
    {
        let r = CacheReferences {
            dense_segments: Vec::new(),
            top_bounded_identifier: None,
            bottom_bounded_identifier: None,
        };
        proof {
            assert(r.slices() =~= Seq::<SliceModel>::empty());
        }
        r
    }

    /// The identifier of the true first item, when known.
    pub fn top_bound(&self) -> (r: Option<i64>)
        requires
            self.wf(),
        ensures
            r == spec_top_bound(self.slices()),
    {
        match self.top_bounded_identifier {
            None => None,
            Some(i) => {
                let first = self.dense_segments[i].item_references[0];
                proof {
                    let k = choose|k: int|
                        0 <= k < self.slices().len() && (#[trigger] self.slices()[k]).is_bounded_at_top;
                    assert(k == i as int);
                }
                Some(first)
            },
        }
    }

    /// The identifier of the true last item, when known.
    pub fn bottom_bound(&self) -> (r: Option<i64>)
        requires
            self.wf(),
        ensures
            r == spec_bottom_bound(self.slices()),
    {
        match self.bottom_bounded_identifier {
            None => None,
            Some(i) => {
                let n = self.dense_segments[i].item_references.len();
                let last = self.dense_segments[i].item_references[n - 1];
                proof {
                    let k = choose|k: int|
                        0 <= k < self.slices().len() && (#[trigger] self.slices()[k]).is_bounded_at_bottom;
                    assert(k == i as int);
                }
                Some(last)
            },
        }
    }

    /// Answer a positional query by scanning the segments.
    pub fn get(&self, index: AsyncListIndex<i64>) -> (r: Exists<i64>)
        requires
            self.wf(),
        ensures
            r == scan_slices(self.slices(), index),
    {
        let ghost ss = self.slices();
        let mut k: usize = 0;
        while k < self.dense_segments.len()
            invariant
                self.wf(),
                ss == self.slices(),
                k <= ss.len(),
                forall|j: int| 0 <= j < k ==> !answers(ss[j], index),
            decreases ss.len() - k,
        {
            proof {
                assert(ss[k as int] == self.dense_segments@[k as int]@);
                assert(ss[k as int].wf());
            }
            let result = self.dense_segments[k].get(index);
            match result {
                Exists::Yes(value) => {
                    proof {
                        assert(answers(ss[k as int], index));
                        let j = choose|j: int| 0 <= j < ss.len() && answers(#[trigger] ss[j], index);
                        lemma_answer_unique(ss, index, j, k as int);
                    }
                    return Exists::Yes(value);
                },
                Exists::No => {
                    proof {
                        assert(answers(ss[k as int], index));
                        let j = choose|j: int| 0 <= j < ss.len() && answers(#[trigger] ss[j], index);
                        lemma_answer_unique(ss, index, j, k as int);
                    }
                    return Exists::No;
                },
                Exists::Unknown => {},
            }
            k = k + 1;
        }
        Exists::Unknown
    }

    /// The arena slot of the unique segment that can accept an insertion
    /// anchored by `index`, together with where the insertion lands.
    fn find_candidate(&self, index: AsyncListIndex<i64>) -> (r: Option<(Position, usize)>)
        requires
            self.wf(),
            index matches AsyncListIndex::Before(_) || index matches AsyncListIndex::After(_),
        ensures
            match r {
                Some(pk) => 0 <= pk.1 < self.slices().len() && self.slices()[pk.1 as int].spec_can_insert(
                    index,
                ) == Some(pk.0) && forall|j: int|
                    0 <= j < self.slices().len() && j != pk.1 ==> (#[trigger] self.slices()[j]).spec_can_insert(
                        index,
                    ) is None,
                None => forall|j: int|
                    0 <= j < self.slices().len() ==> (#[trigger] self.slices()[j]).spec_can_insert(
                        index,
                    ) is None,
            },
    {
        let ghost ss = self.slices();
        let mut k: usize = 0;
        while k < self.dense_segments.len()
            invariant
                self.wf(),
                ss == self.slices(),
                k <= ss.len(),
                index matches AsyncListIndex::Before(_) || index matches AsyncListIndex::After(_),
                forall|j: int| 0 <= j < k ==> (#[trigger] ss[j]).spec_can_insert(index) is None,
            decreases ss.len() - k,
        {
            proof {
                assert(ss[k as int] == self.dense_segments@[k as int]@);
                assert(ss[k as int].wf());
            }
            match self.dense_segments[k].can_insert(index) {
                Some(position) => {
                    proof {
                        let anchor = match index {
                            AsyncListIndex::After(a) => a,
                            AsyncListIndex::Before(a) => a,
                            AsyncListIndex::RelativeToTop(_) => 0,
                            AsyncListIndex::RelativeToBottom(_) => 0,
                        };
                        assert(ss[k as int].contains(anchor));
                        assert forall|j: int|
                            0 <= j < ss.len() && j != k ==> (#[trigger] ss[j]).spec_can_insert(
                                index,
                            ) is None by {
                            if 0 <= j < ss.len() && j != k && ss[j].spec_can_insert(index) is Some {
                                assert(ss[j].contains(anchor));
                            }
                        }
                    }
                    return Some((position, k));
                },
                None => {},
            }
            k = k + 1;
        }
        None
    }

    /// The arena slot of the unique segment that knows `x`.
    fn find_slot(&self, x: i64) -> (r: Option<usize>)
        requires
            self.wf(),
        ensures
            match r {
                Some(k) => 0 <= k < self.slices().len() && self.slices()[k as int].contains(x)
                    && forall|j: int|
                    0 <= j < self.slices().len() && j != k ==> !(#[trigger] self.slices()[j]).contains(
                        x,
                    ),
                None => !slices_contain(self.slices(), x),
            },
    {
        let ghost ss = self.slices();
        let mut k: usize = 0;
        while k < self.dense_segments.len()
            invariant
                self.wf(),
                ss == self.slices(),
                k <= ss.len(),
                forall|j: int| 0 <= j < k ==> !(#[trigger] ss[j]).contains(x),
            decreases ss.len() - k,
        {
            proof {
                assert(ss[k as int] == self.dense_segments@[k as int]@);
            }
            if self.dense_segments[k].contains_item(x) {
                proof {
                    assert forall|j: int|
                        0 <= j < ss.len() && j != k ==> !(#[trigger] ss[j]).contains(x) by {
                        if 0 <= j < ss.len() && j != k && ss[j].contains(x) {
                            assert(ss[k as int].contains(x));
                        }
                    }
                }
                return Some(k);
            }
            k = k + 1;
        }
        None
    }

    /// Join the segment in slot `right` onto the bottom edge of the
    /// segment in slot `left`: the merged segment keeps the left run's
    /// top flag and the right run's bottom flag, and the right slot is
    /// retired.
    fn merge_segments(&mut self, left: usize, right: usize)
        requires
            old(self).wf(),
            left < old(self).slices().len(),
            right < old(self).slices().len(),
            left != right,
        ensures
            final(self).wf(),
            final(self).slices() == merge_slots(old(self).slices(), left as int, right as int),
            forall|x: i64|
                slices_contain(final(self).slices(), x) <==> slices_contain(
                    old(self).slices(),
                    x,
                ),
    {
        let ghost ss = self.slices();
        let ghost dold = self.dense_segments@;
        let mut right_slice = self.dense_segments.remove(right);
        let left_pos = if left < right {
            left
        } else {
            left - 1
        };
        let mut left_slice = self.dense_segments.remove(left_pos);
        left_slice.item_references.append(&mut right_slice.item_references);
        left_slice.is_bounded_at_bottom = right_slice.is_bounded_at_bottom;
        self.dense_segments.insert(left_pos, left_slice);
        proof {
            let merged = SliceModel {
                items: ss[left as int].items + ss[right as int].items,
                is_bounded_at_top: ss[left as int].is_bounded_at_top,
                is_bounded_at_bottom: ss[right as int].is_bounded_at_bottom,
            };
            let target = ss.update(left as int, merged).remove(right as int);
            let d1 = dold.remove(right as int);
            dold.remove_ensures(right as int);
            let d2 = d1.remove(left_pos as int);
            d1.remove_ensures(left_pos as int);
            let segv = self.dense_segments@[left_pos as int];
            d2.insert_ensures(left_pos as int, segv);
            assert(self.dense_segments@ == d2.insert(left_pos as int, segv));
            assert(segv@ =~~= merged);
            assert forall|j: int|
                0 <= j < target.len() implies self.dense_segments@[j]@ == target[j] by {
                ss.update(left as int, merged).remove_ensures(right as int);
                if j < left_pos {
                    assert(self.dense_segments@[j] == d2[j]);
                    assert(d2[j] == d1[j]);
                    if (j as int) < right as int {
                        assert(d1[j] == dold[j]);
                    } else {
                        assert(d1[j] == dold[j + 1]);
                    }
                } else if j == left_pos {
                    assert(self.dense_segments@[j] == segv);
                } else {
                    assert(self.dense_segments@[(j - 1) + 1] == d2[j - 1]);
                    assert(d2[j - 1] == d1[j]);
                    if (j as int) < right as int {
                        assert(d1[j] == dold[j]);
                    } else {
                        assert(d1[j] == dold[j + 1]);
                    }
                }
            }
            assert(self.slices() =~~= target);
            lemma_merge_preserves_wf(ss, left as int, right as int);
        }
        self.refresh_bounds();
    }

    /// Rebuild the two boundary pointers by scanning for the (unique)
    /// flagged segments.
    fn refresh_bounds(&mut self)
        requires
            slices_wf(old(self).slices()),
        ensures
            final(self).slices() == old(self).slices(),
            final(self).wf(),
    {
        let ghost ss = self.slices();
        let mut top: Option<usize> = None;
        let mut bottom: Option<usize> = None;
        let mut k: usize = 0;
        while k < self.dense_segments.len()
            invariant
                ss == self.slices(),
                slices_wf(ss),
                k <= ss.len(),
                match top {
                    Some(i) => i < k && ss[i as int].is_bounded_at_top,
                    None => forall|j: int| 0 <= j < k ==> !(#[trigger] ss[j]).is_bounded_at_top,
                },
                match bottom {
                    Some(i) => i < k && ss[i as int].is_bounded_at_bottom,
                    None => forall|j: int|
                        0 <= j < k ==> !(#[trigger] ss[j]).is_bounded_at_bottom,
                },
            decreases ss.len() - k,
        {
            proof {
                assert(ss[k as int] == self.dense_segments@[k as int]@);
            }
            if self.dense_segments[k].is_bounded_at_top {
                top = Some(k);
            }
            if self.dense_segments[k].is_bounded_at_bottom {
                bottom = Some(k);
            }
            k = k + 1;
        }
        self.top_bounded_identifier = top;
        self.bottom_bounded_identifier = bottom;
    }

    /// Whether some segment knows `x`.
    pub fn is_positioned(&self, x: i64) -> (r: bool)
        requires
            self.wf(),
        ensures
            r == slices_contain(self.slices(), x),
    {
        match self.find_slot(x) {
            Some(_) => true,
            None => false,
        }
    }

    /// Whether inserting `item` at `index` would bridge two segments:
    /// the anchor is the edge element of one segment and `item` is
    /// already the facing edge element of a different one.
    pub fn bridges_at(&self, index: AsyncListIndex<i64>, item: i64) -> (r: bool)
        requires
            self.wf(),
        ensures
            r == bridges(self.slices(), index, item),
    {
        let ghost ss = self.slices();
        let known = self.find_slot(item);
        let kx = match known {
            Some(kx) => kx,
            None => {
                return false;
            },
        };
        proof {
            assert(ss[kx as int].contains(item));
            assert(slices_contain(ss, item));
            assert(slot_of(ss, item) == kx as int) by {
                let sx = slot_of(ss, item);
                assert(ss[sx].contains(item));
            }
        }
        match index {
            AsyncListIndex::After(anchor) => {
                match self.find_slot(anchor) {
                    None => false,
                    Some(ka) => {
                        proof {
                            assert(ss[ka as int] == self.dense_segments@[ka as int]@);
                            assert(ss[kx as int] == self.dense_segments@[kx as int]@);
                            assert(ss[ka as int].wf());
                            assert(ss[kx as int].wf());
                            assert(slot_of(ss, anchor) == ka as int) by {
                                let sa = slot_of(ss, anchor);
                                assert(ss[sa].contains(anchor));
                                assert(ss[ka as int].contains(anchor));
                            }
                        }
                        let na = self.dense_segments[ka].item_references.len();
                        let a_last = self.dense_segments[ka].item_references[na - 1];
                        let x_first = self.dense_segments[kx].item_references[0];
                        ka != kx && a_last == anchor && x_first == item
                    },
                }
            },
            AsyncListIndex::Before(anchor) => {
                match self.find_slot(anchor) {
                    None => false,
                    Some(ka) => {
                        proof {
                            assert(ss[ka as int] == self.dense_segments@[ka as int]@);
                            assert(ss[kx as int] == self.dense_segments@[kx as int]@);
                            assert(ss[ka as int].wf());
                            assert(ss[kx as int].wf());
                            assert(slot_of(ss, anchor) == ka as int) by {
                                let sa = slot_of(ss, anchor);
                                assert(ss[sa].contains(anchor));
                                assert(ss[ka as int].contains(anchor));
                            }
                        }
                        let nx = self.dense_segments[kx].item_references.len();
                        let x_last = self.dense_segments[kx].item_references[nx - 1];
                        let a_first = self.dense_segments[ka].item_references[0];
                        ka != kx && a_first == anchor && x_last == item
                    },
                }
            },
            AsyncListIndex::RelativeToTop(_) => false,
            AsyncListIndex::RelativeToBottom(_) => false,
        }
    }

    /// Record that the segment knowing `anchor` begins at the true
    /// start of the sequence: a zero-length answer to an upward fetch
    /// proves nothing lies above the anchor.
    pub fn mark_top_bound(&mut self, anchor: i64)
        requires
            old(self).wf(),
            slices_contain(old(self).slices(), anchor),
            !has_top_bound(old(self).slices()),
        ensures
            final(self).wf(),
            final(self).slices() == spec_mark_top(old(self).slices(), anchor),
            forall|x: i64|
                slices_contain(final(self).slices(), x) <==> slices_contain(
                    old(self).slices(),
                    x,
                ),
    {
        let ghost ss = self.slices();
        let ghost dold = self.dense_segments@;
        let found = self.find_slot(anchor);
        match found {
            Some(k) => {
                proof {
                    assert(slot_of(ss, anchor) == k as int) by {
                        let sa = slot_of(ss, anchor);
                        assert(ss[sa].contains(anchor));
                    }
                }
                let mut seg = self.dense_segments.remove(k);
                seg.is_bounded_at_top = true;
                self.dense_segments.insert(k, seg);
                self.top_bounded_identifier = Some(k);
                proof {
                    let updated = SliceModel {
                        items: ss[k as int].items,
                        is_bounded_at_top: true,
                        is_bounded_at_bottom: ss[k as int].is_bounded_at_bottom,
                    };
                    let d1 = dold.remove(k as int);
                    dold.remove_ensures(k as int);
                    let segv = self.dense_segments@[k as int];
                    d1.insert_ensures(k as int, segv);
                    assert(self.dense_segments@ == d1.insert(k as int, segv));
                    assert(segv@ == updated);
                    assert forall|j: int|
                        0 <= j < ss.len() && j != k as int implies self.dense_segments@[j]
                            == dold[j] by {
                        if j < k as int {
                            assert(d1.insert(k as int, segv)[j] == d1[j]);
                            assert(d1[j] == dold[j]);
                        } else {
                            assert(d1.insert(k as int, segv)[(j - 1) + 1] == d1[j - 1]);
                            assert(d1[j - 1] == dold[j]);
                        }
                    }
                    let t = self.slices();
                    assert(t =~~= spec_mark_top(ss, anchor));
                    assert forall|k1: int, k2: int, xv: i64|
                        0 <= k1 < t.len() && 0 <= k2 < t.len() && #[trigger] t[k1].contains(xv)
                            && #[trigger] t[k2].contains(xv) implies k1 == k2 by {
                        assert(ss[k1].contains(xv));
                        assert(ss[k2].contains(xv));
                    }
                    assert forall|k1: int, k2: int|
                        0 <= k1 < t.len() && 0 <= k2 < t.len() && (#[trigger] t[k1]).is_bounded_at_top
                            && (#[trigger] t[k2]).is_bounded_at_top implies k1 == k2 by {
                        if k1 != k as int {
                            assert(ss[k1].is_bounded_at_top);
                        }
                        if k2 != k as int {
                            assert(ss[k2].is_bounded_at_top);
                        }
                    }
                    assert forall|k1: int, k2: int|
                        0 <= k1 < t.len() && 0 <= k2 < t.len()
                            && (#[trigger] t[k1]).is_bounded_at_bottom
                            && (#[trigger] t[k2]).is_bounded_at_bottom implies k1 == k2 by {
                        assert(ss[k1].is_bounded_at_bottom);
                        assert(ss[k2].is_bounded_at_bottom);
                    }
                    assert forall|xv: i64|
                        slices_contain(t, xv) <==> slices_contain(ss, xv) by {
                        if slices_contain(t, xv) {
                            let j = choose|j: int| 0 <= j < t.len() && #[trigger] t[j].contains(xv);
                            assert(ss[j].contains(xv));
                        }
                        if slices_contain(ss, xv) {
                            let j = choose|j: int|
                                0 <= j < ss.len() && #[trigger] ss[j].contains(xv);
                            assert(t[j].contains(xv));
                        }
                    }
                }
            },
            None => {
                proof {
                    assert(false);
                }
            },
        }
    }

    /// Record that the segment knowing `anchor` ends at the true end of
    /// the sequence: a zero-length answer to a downward fetch proves
    /// nothing lies below the anchor.
    pub fn mark_bottom_bound(&mut self, anchor: i64)
        requires
            old(self).wf(),
            slices_contain(old(self).slices(), anchor),
            !has_bottom_bound(old(self).slices()),
        ensures
            final(self).wf(),
            final(self).slices() == spec_mark_bottom(old(self).slices(), anchor),
            forall|x: i64|
                slices_contain(final(self).slices(), x) <==> slices_contain(
                    old(self).slices(),
                    x,
                ),
    {
        let ghost ss = self.slices();
        let ghost dold = self.dense_segments@;
        let found = self.find_slot(anchor);
        match found {
            Some(k) => {
                proof {
                    assert(slot_of(ss, anchor) == k as int) by {
                        let sa = slot_of(ss, anchor);
                        assert(ss[sa].contains(anchor));
                    }
                }
                let mut seg = self.dense_segments.remove(k);
                seg.is_bounded_at_bottom = true;
                self.dense_segments.insert(k, seg);
                self.bottom_bounded_identifier = Some(k);
                proof {
                    let updated = SliceModel {
                        items: ss[k as int].items,
                        is_bounded_at_top: ss[k as int].is_bounded_at_top,
                        is_bounded_at_bottom: true,
                    };
                    let d1 = dold.remove(k as int);
                    dold.remove_ensures(k as int);
                    let segv = self.dense_segments@[k as int];
                    d1.insert_ensures(k as int, segv);
                    assert(self.dense_segments@ == d1.insert(k as int, segv));
                    assert(segv@ == updated);
                    assert forall|j: int|
                        0 <= j < ss.len() && j != k as int implies self.dense_segments@[j]
                            == dold[j] by {
                        if j < k as int {
                            assert(d1.insert(k as int, segv)[j] == d1[j]);
                            assert(d1[j] == dold[j]);
                        } else {
                            assert(d1.insert(k as int, segv)[(j - 1) + 1] == d1[j - 1]);
                            assert(d1[j - 1] == dold[j]);
                        }
                    }
                    let t = self.slices();
                    assert(t =~~= spec_mark_bottom(ss, anchor));
                    assert forall|k1: int, k2: int, xv: i64|
                        0 <= k1 < t.len() && 0 <= k2 < t.len() && #[trigger] t[k1].contains(xv)
                            && #[trigger] t[k2].contains(xv) implies k1 == k2 by {
                        assert(ss[k1].contains(xv));
                        assert(ss[k2].contains(xv));
                    }
                    assert forall|k1: int, k2: int|
                        0 <= k1 < t.len() && 0 <= k2 < t.len() && (#[trigger] t[k1]).is_bounded_at_top
                            && (#[trigger] t[k2]).is_bounded_at_top implies k1 == k2 by {
                        assert(ss[k1].is_bounded_at_top);
                        assert(ss[k2].is_bounded_at_top);
                    }
                    assert forall|k1: int, k2: int|
                        0 <= k1 < t.len() && 0 <= k2 < t.len()
                            && (#[trigger] t[k1]).is_bounded_at_bottom
                            && (#[trigger] t[k2]).is_bounded_at_bottom implies k1 == k2 by {
                        if k1 != k as int {
                            assert(ss[k1].is_bounded_at_bottom);
                        }
                        if k2 != k as int {
                            assert(ss[k2].is_bounded_at_bottom);
                        }
                    }
                    assert forall|xv: i64|
                        slices_contain(t, xv) <==> slices_contain(ss, xv) by {
                        if slices_contain(t, xv) {
                            let j = choose|j: int| 0 <= j < t.len() && #[trigger] t[j].contains(xv);
                            assert(ss[j].contains(xv));
                        }
                        if slices_contain(ss, xv) {
                            let j = choose|j: int|
                                0 <= j < ss.len() && #[trigger] ss[j].contains(xv);
                            assert(t[j].contains(xv));
                        }
                    }
                }
            },
            None => {
                proof {
                    assert(false);
                }
            },
        }
    }

    /// Open a new, unbounded singleton segment for an identifier the
    /// caller knows to be adjacent to nothing yet discovered and to be
    /// neither end of the sequence.
    pub fn insert_detached(&mut self, item: i64)
        requires
            old(self).wf(),
            !slices_contain(old(self).slices(), item),
        ensures
            final(self).wf(),
            final(self).slices() == old(self).slices().push(singleton_model(item, false, false)),
            forall|x: i64|
                slices_contain(final(self).slices(), x) <==> (slices_contain(
                    old(self).slices(),
                    x,
                ) || x == item),
    {
        let ghost ss = self.slices();
        let slice = CacheReferencesSlice {
            is_bounded_at_top: false,
            is_bounded_at_bottom: false,
            item_references: vec![item],
        };
        self.dense_segments.push(slice);
        proof {
            let m = singleton_model(item, false, false);
            assert(self.slices() =~~= ss.push(m));
            lemma_singleton_contains(item, false, false, item);
            assert forall|x: i64| m.contains(x) implies !slices_contain(ss, x) by {
                lemma_singleton_contains(item, false, false, x);
            }
            lemma_push_preserves_wf(ss, m);
            assert forall|x: i64|
                slices_contain(self.slices(), x) <==> (slices_contain(ss, x) || x == item) by {
                lemma_push_membership(ss, m, x);
                lemma_singleton_contains(item, false, false, x);
            }
        }
    }

    /// Insert `item` at the position described by `index`.
    ///
    /// A fresh identifier is spliced into the unique segment that can
    /// interpret the anchor, or opens a new singleton segment carrying
    /// the requested boundary flags. An identifier the index already
    /// knows is accepted in two shapes: recorded at exactly the queried
    /// position (a payload refresh upstream; the index moves nothing),
    /// or standing as the facing edge of a different segment, in which
    /// case the insertion bridges the gap and the two segments are
    /// merged into one.
    pub fn insert(&mut self, index: AsyncListIndex<i64>, item: i64, is_top: bool, is_bottom: bool)
        requires
            old(self).wf(),
            !slices_contain(old(self).slices(), item) || position_consistent(
                old(self).slices(),
                index,
                item,
            ) || bridges(old(self).slices(), index, item),
            (position_consistent(old(self).slices(), index, item) || bridges(
                old(self).slices(),
                index,
                item,
            )) ==> !is_top && !is_bottom,
            (index matches AsyncListIndex::Before(_) || index matches AsyncListIndex::After(_))
                || old(self).slices().len() == 0,
            is_top ==> !has_top_bound(old(self).slices()),
            is_bottom ==> !has_bottom_bound(old(self).slices()),
        ensures
            final(self).wf(),
            final(self).slices() == spec_insert(old(self).slices(), index, item, is_top, is_bottom),
            forall|x: i64|
                slices_contain(final(self).slices(), x) <==> (slices_contain(
                    old(self).slices(),
                    x,
                ) || x == item),
    {
        let ghost ss = self.slices();
        let is_anchored = match index {
            AsyncListIndex::Before(_) => true,
            AsyncListIndex::After(_) => true,
            AsyncListIndex::RelativeToTop(_) => false,
            AsyncListIndex::RelativeToBottom(_) => false,
        };
        let known = if is_anchored {
            self.find_slot(item)
        } else {
            None
        };
        match known {
            None => {
                proof {
                    if !is_anchored {
                        assert(ss.len() == 0);
                        assert(!slices_contain(ss, item));
                    }
                }
                self.insert_fresh(index, item, is_top, is_bottom);
            },
            Some(kx) => {
                proof {
                    assert(ss[kx as int].contains(item));
                    assert(slices_contain(ss, item));
                }
                match index {
                    AsyncListIndex::After(anchor) => {
                        let ka_opt = self.find_slot(anchor);
                        match ka_opt {
                            None => {
                                proof {
                                    if position_consistent(ss, index, item) {
                                        let jj = choose|jj: int|
                                            0 <= jj < ss.len() && answers(#[trigger] ss[jj], index);
                                        assert(ss[jj].contains(anchor));
                                        assert(slices_contain(ss, anchor));
                                    }
                                    if bridges(ss, index, item) {
                                        assert(slices_contain(ss, anchor));
                                        let sa = slot_of(ss, anchor);
                                        assert(ss[sa].contains(anchor));
                                    }
                                    assert(false);
                                }
                            },
                            Some(ka) => {
                                proof {
                                    assert(ss[ka as int] == self.dense_segments@[ka as int]@);
                                    assert(ss[kx as int] == self.dense_segments@[kx as int]@);
                                    assert(ss[ka as int].wf());
                                    assert(ss[kx as int].wf());
                                }
                                let na = self.dense_segments[ka].item_references.len();
                                let a_last = self.dense_segments[ka].item_references[na - 1];
                                let x_first = self.dense_segments[kx].item_references[0];
                                proof {
                                    assert(a_last == ss[ka as int].items.last());
                                    assert(x_first == ss[kx as int].items.first());
                                    assert(slot_of(ss, anchor) == ka as int) by {
                                        let sa = slot_of(ss, anchor);
                                        assert(ss[ka as int].contains(anchor));
                                        assert(ss[sa].contains(anchor));
                                    }
                                    assert(slot_of(ss, item) == kx as int) by {
                                        let sx = slot_of(ss, item);
                                        assert(ss[sx].contains(item));
                                    }
                                }
                                if ka != kx && a_last == anchor && x_first == item {
                                    proof {
                                        assert(bridges(ss, index, item));
                                        assert(!position_consistent(ss, index, item)) by {
                                            if scan_slices(ss, index) == Exists::Yes(item) {
                                                let jj = choose|jj: int|
                                                    0 <= jj < ss.len() && answers(
                                                        #[trigger] ss[jj],
                                                        index,
                                                    );
                                                assert(ss[jj].contains(anchor));
                                                assert(jj == ka as int);
                                                lemma_index_of_distinct(
                                                    ss[ka as int].items,
                                                    anchor,
                                                    ss[ka as int].items.len() - 1,
                                                );
                                            }
                                        }
                                    }
                                    self.merge_segments(ka, kx);
                                    proof {
                                        assert(self.slices() == spec_insert(
                                            ss,
                                            index,
                                            item,
                                            is_top,
                                            is_bottom,
                                        ));
                                        assert forall|x: i64|
                                            slices_contain(self.slices(), x) <==> (slices_contain(
                                                ss,
                                                x,
                                            ) || x == item) by {
                                            if x == item {
                                                assert(slices_contain(ss, item));
                                            }
                                        }
                                    }
                                } else {
                                    proof {
                                        assert(!bridges(ss, index, item));
                                        assert(position_consistent(ss, index, item));
                                        assert(spec_insert(ss, index, item, is_top, is_bottom)
                                            == ss);
                                        assert forall|x: i64|
                                            slices_contain(self.slices(), x) <==> (slices_contain(
                                                ss,
                                                x,
                                            ) || x == item) by {
                                            if x == item {
                                                assert(slices_contain(ss, item));
                                            }
                                        }
                                    }
                                }
                            },
                        }
                    },
                    AsyncListIndex::Before(anchor) => {
                        let ka_opt = self.find_slot(anchor);
                        match ka_opt {
                            None => {
                                proof {
                                    if position_consistent(ss, index, item) {
                                        let jj = choose|jj: int|
                                            0 <= jj < ss.len() && answers(#[trigger] ss[jj], index);
                                        assert(ss[jj].contains(anchor));
                                        assert(slices_contain(ss, anchor));
                                    }
                                    if bridges(ss, index, item) {
                                        assert(slices_contain(ss, anchor));
                                        let sa = slot_of(ss, anchor);
                                        assert(ss[sa].contains(anchor));
                                    }
                                    assert(false);
                                }
                            },
                            Some(ka) => {
                                proof {
                                    assert(ss[ka as int] == self.dense_segments@[ka as int]@);
                                    assert(ss[kx as int] == self.dense_segments@[kx as int]@);
                                    assert(ss[ka as int].wf());
                                    assert(ss[kx as int].wf());
                                }
                                let nx = self.dense_segments[kx].item_references.len();
                                let x_last = self.dense_segments[kx].item_references[nx - 1];
                                let a_first = self.dense_segments[ka].item_references[0];
                                proof {
                                    assert(x_last == ss[kx as int].items.last());
                                    assert(a_first == ss[ka as int].items.first());
                                    assert(slot_of(ss, anchor) == ka as int) by {
                                        let sa = slot_of(ss, anchor);
                                        assert(ss[ka as int].contains(anchor));
                                        assert(ss[sa].contains(anchor));
                                    }
                                    assert(slot_of(ss, item) == kx as int) by {
                                        let sx = slot_of(ss, item);
                                        assert(ss[sx].contains(item));
                                    }
                                }
                                if ka != kx && a_first == anchor && x_last == item {
                                    proof {
                                        assert(bridges(ss, index, item));
                                        assert(!position_consistent(ss, index, item)) by {
                                            if scan_slices(ss, index) == Exists::Yes(item) {
                                                let jj = choose|jj: int|
                                                    0 <= jj < ss.len() && answers(
                                                        #[trigger] ss[jj],
                                                        index,
                                                    );
                                                assert(ss[jj].contains(anchor));
                                                assert(jj == ka as int);
                                                lemma_index_of_distinct(
                                                    ss[ka as int].items,
                                                    anchor,
                                                    0,
                                                );
                                            }
                                        }
                                    }
                                    self.merge_segments(kx, ka);
                                    proof {
                                        assert(self.slices() == spec_insert(
                                            ss,
                                            index,
                                            item,
                                            is_top,
                                            is_bottom,
                                        ));
                                        assert forall|x: i64|
                                            slices_contain(self.slices(), x) <==> (slices_contain(
                                                ss,
                                                x,
                                            ) || x == item) by {
                                            if x == item {
                                                assert(slices_contain(ss, item));
                                            }
                                        }
                                    }
                                } else {
                                    proof {
                                        assert(!bridges(ss, index, item));
                                        assert(position_consistent(ss, index, item));
                                        assert(spec_insert(ss, index, item, is_top, is_bottom)
                                            == ss);
                                        assert forall|x: i64|
                                            slices_contain(self.slices(), x) <==> (slices_contain(
                                                ss,
                                                x,
                                            ) || x == item) by {
                                            if x == item {
                                                assert(slices_contain(ss, item));
                                            }
                                        }
                                    }
                                }
                            },
                        }
                    },
                    AsyncListIndex::RelativeToTop(_) => {
                        proof {
                            assert((kx as int) < ss.len());
                            assert(false);
                        }
                    },
                    AsyncListIndex::RelativeToBottom(_) => {
                        proof {
                            assert((kx as int) < ss.len());
                            assert(false);
                        }
                    },
                }
            },
        }
    }

    /// Splice a fresh identifier into the unique segment that can
    /// interpret the anchor, or open a new singleton segment carrying
    /// the requested boundary flags.
    fn insert_fresh(&mut self, index: AsyncListIndex<i64>, item: i64, is_top: bool, is_bottom: bool)
        requires
            old(self).wf(),
            !slices_contain(old(self).slices(), item),
            (index matches AsyncListIndex::Before(_) || index matches AsyncListIndex::After(_))
                || old(self).slices().len() == 0,
            is_top ==> !has_top_bound(old(self).slices()),
            is_bottom ==> !has_bottom_bound(old(self).slices()),
        ensures
            final(self).wf(),
            final(self).slices() == spec_insert(old(self).slices(), index, item, is_top, is_bottom),
            forall|x: i64|
                slices_contain(final(self).slices(), x) <==> (slices_contain(
                    old(self).slices(),
                    x,
                ) || x == item),
    {
        let ghost ss = self.slices();
        let ghost dold = self.dense_segments@;
        let is_anchored = match index {
            AsyncListIndex::Before(_) => true,
            AsyncListIndex::After(_) => true,
            AsyncListIndex::RelativeToTop(_) => false,
            AsyncListIndex::RelativeToBottom(_) => false,
        };
        let candidate = if is_anchored {
            self.find_candidate(index)
        } else {
            None
        };
        match candidate {
            None => {
                let slice = CacheReferencesSlice {
                    is_bounded_at_top: is_top,
                    is_bounded_at_bottom: is_bottom,
                    item_references: vec![item],
                };
                let id = self.dense_segments.len();
                self.dense_segments.push(slice);
                if is_bottom {
                    self.bottom_bounded_identifier = Some(id);
                }
                if is_top {
                    self.top_bounded_identifier = Some(id);
                }
                proof {
                    let m = singleton_model(item, is_top, is_bottom);
                    assert(!has_insert_candidate(ss, index));
                    assert(self.slices() =~~= ss.push(m));
                    lemma_singleton_contains(item, is_top, is_bottom, item);
                    assert forall|x: i64| m.contains(x) implies !slices_contain(ss, x) by {
                        lemma_singleton_contains(item, is_top, is_bottom, x);
                    }
                    lemma_push_preserves_wf(ss, m);
                    assert forall|x: i64|
                        slices_contain(self.slices(), x) <==> (slices_contain(ss, x) || x == item) by {
                        lemma_push_membership(ss, m, x);
                        lemma_singleton_contains(item, is_top, is_bottom, x);
                    }
                    let t = self.slices();
                    if !is_top && old(self).top_bounded_identifier is None {
                        assert forall|j: int|
                            0 <= j < t.len() implies !(#[trigger] t[j]).is_bounded_at_top by {
                            if j < ss.len() {
                                assert(t[j] == ss[j]);
                                assert(!has_top_bound(ss) ==> !ss[j].is_bounded_at_top);
                            } else {
                                assert(t[j] == m);
                            }
                        }
                    }
                    if !is_bottom && old(self).bottom_bounded_identifier is None {
                        assert forall|j: int|
                            0 <= j < t.len() implies !(#[trigger] t[j]).is_bounded_at_bottom by {
                            if j < ss.len() {
                                assert(t[j] == ss[j]);
                                assert(!has_bottom_bound(ss) ==> !ss[j].is_bounded_at_bottom);
                            } else {
                                assert(t[j] == m);
                            }
                        }
                    }
                }
            },
            Some((_position, k)) => {
                proof {
                    assert(has_insert_candidate(ss, index));
                    let k0 = insert_candidate(ss, index);
                    assert(ss[k0].spec_can_insert(index) is Some);
                    assert(k0 == k as int);
                    assert(ss[k as int] == dold[k as int]@);
                    if ss[k as int].contains(item) {
                        assert(slices_contain(ss, item));
                    }
                }
                let mut seg = self.dense_segments.remove(k);
                seg.insert(index, item, is_bottom, is_top);
                self.dense_segments.insert(k, seg);
                if is_top {
                    self.top_bounded_identifier = Some(k);
                }
                if is_bottom {
                    self.bottom_bounded_identifier = Some(k);
                }
                proof {
                    let updated = ss[k as int].spec_insert(index, item, is_top, is_bottom);
                    let d1 = dold.remove(k as int);
                    dold.remove_ensures(k as int);
                    let segv = self.dense_segments@[k as int];
                    d1.insert_ensures(k as int, segv);
                    assert(self.dense_segments@ == d1.insert(k as int, segv));
                    assert(segv@ == updated);
                    assert forall|j: int|
                        0 <= j < ss.len() && j != k as int implies self.dense_segments@[j]
                            == dold[j] by {
                        if j < k as int {
                            assert(d1.insert(k as int, segv)[j] == d1[j]);
                            assert(d1[j] == dold[j]);
                        } else {
                            assert(d1.insert(k as int, segv)[(j - 1) + 1] == d1[j - 1]);
                            assert(d1[j - 1] == dold[j]);
                        }
                    }
                    assert(self.slices() =~~= ss.update(k as int, updated));
                    lemma_update_insert_preserves_wf(ss, k as int, index, item, is_top, is_bottom);
                    assert forall|x: i64|
                        slices_contain(self.slices(), x) <==> (slices_contain(ss, x) || x == item) by {
                        lemma_update_insert_membership(ss, k as int, index, item, is_top, is_bottom, x);
                    }
                    lemma_model_insert(ss[k as int], index, item, is_top, is_bottom);
                    let t = self.slices();
                    if !is_top && old(self).top_bounded_identifier is None {
                        assert forall|j: int|
                            0 <= j < t.len() implies !(#[trigger] t[j]).is_bounded_at_top by {
                            assert(!has_top_bound(ss) ==> !ss[j].is_bounded_at_top);
                        }
                    }
                    if !is_bottom && old(self).bottom_bounded_identifier is None {
                        assert forall|j: int|
                            0 <= j < t.len() implies !(#[trigger] t[j]).is_bounded_at_bottom by {
                            assert(!has_bottom_bound(ss) ==> !ss[j].is_bounded_at_bottom);
                        }
                    }
                }
            },
        }
    }

    /// Append `identifier` at the true end of the sequence: the unique
    /// bottom-bounded segment grows by one, or a first bottom-bounded
    /// segment is opened when the index is empty.
    pub fn append_bottom(&mut self, identifier: i64)
        requires
            old(self).wf(),
            !slices_contain(old(self).slices(), identifier),
            has_bottom_bound(old(self).slices()) || old(self).slices().len() == 0,
        ensures
            final(self).wf(),
            final(self).slices() == spec_append_bottom(old(self).slices(), identifier),
            forall|x: i64|
                slices_contain(final(self).slices(), x) <==> (slices_contain(
                    old(self).slices(),
                    x,
                ) || x == identifier),
    {
        let ghost ss = self.slices();
        let ghost dold = self.dense_segments@;
        let found = self.find_bottom_segment();
        match found {
            Some(k) => {
                proof {
                    let k0 = choose|j: int|
                        0 <= j < ss.len() && (#[trigger] ss[j]).is_bounded_at_bottom;
                    assert(k0 == k as int);
                    assert(ss[k as int] == dold[k as int]@);
                    if ss[k as int].contains(identifier) {
                        assert(slices_contain(ss, identifier));
                    }
                }
                let mut seg = self.dense_segments.remove(k);
                seg.append_bottom(identifier);
                self.dense_segments.insert(k, seg);
                proof {
                    let updated = SliceModel {
                        items: ss[k as int].items.push(identifier),
                        is_bounded_at_top: ss[k as int].is_bounded_at_top,
                        is_bounded_at_bottom: ss[k as int].is_bounded_at_bottom,
                    };
                    let d1 = dold.remove(k as int);
                    dold.remove_ensures(k as int);
                    let segv = self.dense_segments@[k as int];
                    d1.insert_ensures(k as int, segv);
                    assert(self.dense_segments@ == d1.insert(k as int, segv));
                    assert(segv@ == updated);
                    assert forall|j: int|
                        0 <= j < ss.len() && j != k as int implies self.dense_segments@[j]
                            == dold[j] by {
                        if j < k as int {
                            assert(d1.insert(k as int, segv)[j] == d1[j]);
                            assert(d1[j] == dold[j]);
                        } else {
                            assert(d1.insert(k as int, segv)[(j - 1) + 1] == d1[j - 1]);
                            assert(d1[j - 1] == dold[j]);
                        }
                    }
                    assert(self.slices() =~~= ss.update(k as int, updated));
                    lemma_update_push_preserves_wf(ss, k as int, identifier);
                    assert forall|x: i64|
                        slices_contain(self.slices(), x) <==> (slices_contain(ss, x)
                            || x == identifier) by {
                        lemma_update_push_membership(ss, k as int, identifier, x);
                    }
                }
            },
            None => {
                self.insert(
                    AsyncListIndex::RelativeToBottom(0),
                    identifier,
                    false,
                    true,
                );
            },
        }
    }

    /// The arena slot of the unique bottom-bounded segment, found by
    /// asking each segment for its own last item.
    fn find_bottom_segment(&self) -> (r: Option<usize>)
        requires
            self.wf(),
        ensures
            match r {
                Some(k) => 0 <= k < self.slices().len() && self.slices()[k as int].is_bounded_at_bottom,
                None => !has_bottom_bound(self.slices()),
            },
    {
        let ghost ss = self.slices();
        let mut k: usize = 0;
        while k < self.dense_segments.len()
            invariant
                self.wf(),
                ss == self.slices(),
                k <= ss.len(),
                forall|j: int| 0 <= j < k ==> !(#[trigger] ss[j]).is_bounded_at_bottom,
            decreases ss.len() - k,
        {
            proof {
                assert(ss[k as int] == self.dense_segments@[k as int]@);
                assert(ss[k as int].wf());
            }
            let result = self.dense_segments[k].get(AsyncListIndex::RelativeToBottom(0));
            match result {
                Exists::Yes(_) => {
                    return Some(k);
                },
                _ => {
                    proof {
                        assert(ss[k as int].wf());
                        if ss[k as int].is_bounded_at_bottom {
                            assert(ss[k as int].spec_get(AsyncListIndex::RelativeToBottom(0))
                                == Exists::Yes(ss[k as int].items.last()));
                        }
                    }
                },
            }
            k = k + 1;
        }
        None
    }
}


/// Law: at most one segment is ever bounded at the top and at most one
/// at the bottom. Every mutation of the index preserves its invariant,
/// of which these uniqueness facts are part.
pub proof fn lemma_boundary_uniqueness(ss: Seq<SliceModel>)
    requires
        slices_wf(ss),
    ensures
        forall|k1: int, k2: int|
            0 <= k1 < ss.len() && 0 <= k2 < ss.len() && (#[trigger] ss[k1]).is_bounded_at_top
                && (#[trigger] ss[k2]).is_bounded_at_top ==> k1 == k2,
        forall|k1: int, k2: int|
            0 <= k1 < ss.len() && 0 <= k2 < ss.len() && (#[trigger] ss[k1]).is_bounded_at_bottom
                && (#[trigger] ss[k2]).is_bounded_at_bottom ==> k1 == k2,
{
}

/// Law: inserting a fresh item after a known anchor makes the item the
/// definite answer to `After(anchor)`, and the anchor the definite
/// answer to `Before(item)`.
pub proof fn lemma_insert_after_links(ss: Seq<SliceModel>, a: i64, b: i64)
    requires
        slices_wf(ss),
        slices_contain(ss, a),
        !slices_contain(ss, b),
    ensures
        slices_wf(spec_insert(ss, AsyncListIndex::After(a), b, false, false)),
        scan_slices(
            spec_insert(ss, AsyncListIndex::After(a), b, false, false),
            AsyncListIndex::After(a),
        ) == Exists::Yes(b),
        scan_slices(
            spec_insert(ss, AsyncListIndex::After(a), b, false, false),
            AsyncListIndex::Before(b),
        ) == Exists::Yes(a),
{
    let index = AsyncListIndex::After(a);
    let k = choose|k: int| 0 <= k < ss.len() && #[trigger] ss[k].contains(a);
    assert(ss[k].spec_can_insert(index) is Some);
    assert(has_insert_candidate(ss, index));
    let k0 = insert_candidate(ss, index);
    assert(ss[k0].spec_can_insert(index) is Some);
    assert(ss[k0].contains(a));
    assert(k0 == k);
    let m = ss[k];
    let i_a = m.items.index_of(a);
    assert(m.items[i_a] == a && 0 <= i_a < m.items.len());
    let p = i_a + 1;
    let updated = m.spec_insert(index, b, false, false);
    if m.contains(b) {
        assert(slices_contain(ss, b));
    }
    lemma_model_insert(m, index, b, false, false);
    assert(updated.items == m.items.insert(p, b));
    m.items.insert_ensures(p, b);
    let t = ss.update(k, updated);
    assert(spec_insert(ss, index, b, false, false) == t);
    lemma_update_insert_preserves_wf(ss, k, index, b, false, false);
    assert(updated.items[p] == b);
    assert(updated.items[i_a] == a);
    assert(updated.wf());
    lemma_index_of_distinct(updated.items, a, i_a);
    lemma_index_of_distinct(updated.items, b, p);
    assert(updated.spec_get(index) == Exists::Yes(b));
    assert(updated.spec_get(AsyncListIndex::Before(b)) == Exists::Yes(a));
    assert(answers(t[k], index));
    let j1 = choose|j: int| 0 <= j < t.len() && answers(#[trigger] t[j], index);
    lemma_answer_unique(t, index, j1, k);
    assert(scan_slices(t, index) == Exists::Yes(b));
    assert(answers(t[k], AsyncListIndex::Before(b)));
    let j2 = choose|j: int| 0 <= j < t.len() && answers(#[trigger] t[j], AsyncListIndex::Before(b));
    lemma_answer_unique(t, AsyncListIndex::Before(b), j2, k);
    assert(scan_slices(t, AsyncListIndex::Before(b)) == Exists::Yes(a));
}

/// Law: inserting a fresh item before a known anchor makes the item the
/// definite answer to `Before(anchor)`, and the anchor the definite
/// answer to `After(item)`.
pub proof fn lemma_insert_before_links(ss: Seq<SliceModel>, c: i64, b: i64)
    requires
        slices_wf(ss),
        slices_contain(ss, c),
        !slices_contain(ss, b),
    ensures
        slices_wf(spec_insert(ss, AsyncListIndex::Before(c), b, false, false)),
        scan_slices(
            spec_insert(ss, AsyncListIndex::Before(c), b, false, false),
            AsyncListIndex::Before(c),
        ) == Exists::Yes(b),
        scan_slices(
            spec_insert(ss, AsyncListIndex::Before(c), b, false, false),
            AsyncListIndex::After(b),
        ) == Exists::Yes(c),
{
    let index = AsyncListIndex::Before(c);
    let k = choose|k: int| 0 <= k < ss.len() && #[trigger] ss[k].contains(c);
    assert(ss[k].spec_can_insert(index) is Some);
    assert(has_insert_candidate(ss, index));
    let k0 = insert_candidate(ss, index);
    assert(ss[k0].spec_can_insert(index) is Some);
    assert(ss[k0].contains(c));
    assert(k0 == k);
    let m = ss[k];
    let i_c = m.items.index_of(c);
    assert(m.items[i_c] == c && 0 <= i_c < m.items.len());
    let p = i_c;
    let updated = m.spec_insert(index, b, false, false);
    if m.contains(b) {
        assert(slices_contain(ss, b));
    }
    lemma_model_insert(m, index, b, false, false);
    assert(updated.items == m.items.insert(p, b));
    m.items.insert_ensures(p, b);
    let t = ss.update(k, updated);
    assert(spec_insert(ss, index, b, false, false) == t);
    lemma_update_insert_preserves_wf(ss, k, index, b, false, false);
    assert(updated.items[p] == b);
    assert(updated.items[i_c + 1] == c);
    assert(updated.wf());
    lemma_index_of_distinct(updated.items, c, i_c + 1);
    lemma_index_of_distinct(updated.items, b, p);
    assert(updated.spec_get(index) == Exists::Yes(b));
    assert(updated.spec_get(AsyncListIndex::After(b)) == Exists::Yes(c));
    assert(answers(t[k], index));
    let j1 = choose|j: int| 0 <= j < t.len() && answers(#[trigger] t[j], index);
    lemma_answer_unique(t, index, j1, k);
    assert(scan_slices(t, index) == Exists::Yes(b));
    assert(answers(t[k], AsyncListIndex::After(b)));
    let j2 = choose|j: int| 0 <= j < t.len() && answers(#[trigger] t[j], AsyncListIndex::After(b));
    lemma_answer_unique(t, AsyncListIndex::After(b), j2, k);
    assert(scan_slices(t, AsyncListIndex::After(b)) == Exists::Yes(c));
}

/// Law: when a two-item segment `[a, c]` is known, supplying the
/// bridging item `b` via either anchor direction — after `a` or before
/// `c` — yields the same family, whose bridged segment reads exactly
/// `[a, b, c]`, with `After(a)` and `Before(c)` both answering `b`.
pub proof fn lemma_bridge_merge(ss: Seq<SliceModel>, k: int, a: i64, b: i64, c: i64)
    requires
        slices_wf(ss),
        0 <= k < ss.len(),
        ss[k].items == seq![a, c],
        !slices_contain(ss, b),
    ensures
        spec_insert(ss, AsyncListIndex::After(a), b, false, false) == spec_insert(
            ss,
            AsyncListIndex::Before(c),
            b,
            false,
            false,
        ),
        spec_insert(ss, AsyncListIndex::After(a), b, false, false) == ss.update(
            k,
            (SliceModel {
                items: seq![a, b, c],
                is_bounded_at_top: ss[k].is_bounded_at_top,
                is_bounded_at_bottom: ss[k].is_bounded_at_bottom,
            }),
        ),
        scan_slices(
            spec_insert(ss, AsyncListIndex::After(a), b, false, false),
            AsyncListIndex::After(a),
        ) == Exists::Yes(b),
        scan_slices(
            spec_insert(ss, AsyncListIndex::After(a), b, false, false),
            AsyncListIndex::Before(c),
        ) == Exists::Yes(b),
{
    let m = ss[k];
    assert(m.wf());
    assert(m.items[0] == a && m.items[1] == c);
    assert(a != c);
    assert(m.contains(a) && m.contains(c));
    assert(slices_contain(ss, a));
    assert(slices_contain(ss, c));
    lemma_index_of_distinct(m.items, a, 0);
    lemma_index_of_distinct(m.items, c, 1);
    let after = AsyncListIndex::After(a);
    let before = AsyncListIndex::Before(c);

    assert(m.spec_can_insert(after) is Some);
    assert(has_insert_candidate(ss, after));
    let ka = insert_candidate(ss, after);
    assert(ss[ka].spec_can_insert(after) is Some);
    assert(ss[ka].contains(a));
    assert(ka == k);

    assert(m.spec_can_insert(before) is Some);
    assert(has_insert_candidate(ss, before));
    let kb = insert_candidate(ss, before);
    assert(ss[kb].spec_can_insert(before) is Some);
    assert(ss[kb].contains(c));
    assert(kb == k);

    let via_after = m.spec_insert(after, b, false, false);
    let via_before = m.spec_insert(before, b, false, false);
    assert(via_after.items == m.items.insert(1, b));
    assert(via_before.items == m.items.insert(1, b));
    assert(via_after == via_before);

    m.items.insert_ensures(1, b);
    assert(via_after.items.len() == 3);
    assert(via_after.items[0] == a && via_after.items[1] == b && via_after.items[2] == c);
    assert(via_after.items =~= seq![a, b, c]);
    assert(via_after =~~= (SliceModel {
        items: seq![a, b, c],
        is_bounded_at_top: ss[k].is_bounded_at_top,
        is_bounded_at_bottom: ss[k].is_bounded_at_bottom,
    }));

    lemma_insert_after_links(ss, a, b);
    lemma_insert_before_links(ss, c, b);
    assert(spec_insert(ss, after, b, false, false) == ss.update(k, via_after));
    assert(spec_insert(ss, before, b, false, false) == ss.update(k, via_before));
}

/// A definite hit of a scan names an identifier that some segment
/// knows.
pub proof fn lemma_scan_yes_contained(ss: Seq<SliceModel>, index: AsyncListIndex<i64>, id: i64)
    requires
        scan_slices(ss, index) == Exists::Yes(id),
    ensures
        slices_contain(ss, id),
{
    let k = choose|k: int| 0 <= k < ss.len() && answers(#[trigger] ss[k], index);
    assert(ss[k].spec_get(index) == Exists::Yes(id));
    let m = ss[k];
    match index {
        AsyncListIndex::RelativeToTop(count) => {
            assert(m.items[count as int] == id);
            assert(m.items.contains(id));
        },
        AsyncListIndex::RelativeToBottom(count) => {
            assert(m.items[m.items.len() - 1 - count] == id);
            assert(m.items.contains(id));
        },
        AsyncListIndex::After(anchor) => {
            let i = m.items.index_of(anchor);
            assert(m.items.contains(anchor));
            assert(m.items[i] == anchor);
            assert(m.items[i + 1] == id);
            assert(m.items.contains(id));
        },
        AsyncListIndex::Before(anchor) => {
            let i = m.items.index_of(anchor);
            assert(m.items.contains(anchor));
            assert(m.items[i] == anchor);
            assert(m.items[i - 1] == id);
            assert(m.items.contains(id));
        },
    }
    assert(m.contains(id));
}

/// A singleton segment knows exactly its one identifier.
proof fn lemma_singleton_contains(item: i64, is_top: bool, is_bottom: bool, x: i64)
    ensures
        singleton_model(item, is_top, is_bottom).contains(x) <==> x == item,
        singleton_model(item, is_top, is_bottom).wf(),
{
    let m = singleton_model(item, is_top, is_bottom);
    assert(m.items.len() == 1);
    if x == item {
        assert(m.items[0] == x);
    }
    if m.contains(x) {
        let i = choose|i: int| 0 <= i < m.items.len() && m.items[i] == x;
        assert(i == 0);
    }
}

/// Appending a fresh singleton segment preserves well-formedness when
/// its boundary flags do not compete with an existing bounded segment.
proof fn lemma_push_preserves_wf(ss: Seq<SliceModel>, m: SliceModel)
    requires
        slices_wf(ss),
        m.wf(),
        forall|x: i64| m.contains(x) ==> !slices_contain(ss, x),
        m.is_bounded_at_top ==> !has_top_bound(ss),
        m.is_bounded_at_bottom ==> !has_bottom_bound(ss),
    ensures
        slices_wf(ss.push(m)),
{
    let t = ss.push(m);
    let n = ss.len() as int;
    assert(forall|j: int| 0 <= j < n ==> t[j] == ss[j]);
    assert(t[n] == m);
    assert forall|k1: int, k2: int, x: i64|
        0 <= k1 < t.len() && 0 <= k2 < t.len() && #[trigger] t[k1].contains(x)
            && #[trigger] t[k2].contains(x) implies k1 == k2 by {
        if k1 < n && k2 == n {
            assert(ss[k1].contains(x));
            assert(slices_contain(ss, x));
        } else if k2 < n && k1 == n {
            assert(ss[k2].contains(x));
            assert(slices_contain(ss, x));
        } else if k1 < n && k2 < n {
            assert(ss[k1].contains(x));
            assert(ss[k2].contains(x));
        }
    }
    assert forall|k1: int, k2: int|
        0 <= k1 < t.len() && 0 <= k2 < t.len() && (#[trigger] t[k1]).is_bounded_at_top
            && (#[trigger] t[k2]).is_bounded_at_top implies k1 == k2 by {
        if k1 < n && k2 == n {
            assert(has_top_bound(ss));
        } else if k2 < n && k1 == n {
            assert(has_top_bound(ss));
        }
    }
    assert forall|k1: int, k2: int|
        0 <= k1 < t.len() && 0 <= k2 < t.len() && (#[trigger] t[k1]).is_bounded_at_bottom
            && (#[trigger] t[k2]).is_bounded_at_bottom implies k1 == k2 by {
        if k1 < n && k2 == n {
            assert(has_bottom_bound(ss));
        } else if k2 < n && k1 == n {
            assert(has_bottom_bound(ss));
        }
    }
}

/// Membership of a family after appending one segment.
proof fn lemma_push_membership(ss: Seq<SliceModel>, m: SliceModel, x: i64)
    ensures
        slices_contain(ss.push(m), x) <==> (slices_contain(ss, x) || m.contains(x)),
{
    let t = ss.push(m);
    let n = ss.len() as int;
    if slices_contain(ss, x) {
        let k = choose|k: int| 0 <= k < ss.len() && #[trigger] ss[k].contains(x);
        assert(t[k].contains(x));
    }
    if m.contains(x) {
        assert(t[n].contains(x));
    }
    if slices_contain(t, x) {
        let k = choose|k: int| 0 <= k < t.len() && #[trigger] t[k].contains(x);
        if k < n {
            assert(ss[k].contains(x));
            assert(slices_contain(ss, x));
        } else {
            assert(m.contains(x));
        }
    }
}

/// The splice position named by a `Before`/`After` anchor is a valid
/// position of the anchored segment, and the spliced items are exactly
/// an insertion at that position.
proof fn lemma_can_insert_position(m: SliceModel, index: AsyncListIndex<i64>)
    requires
        m.wf(),
        m.spec_can_insert(index) is Some,
    ensures
        match index {
            AsyncListIndex::After(anchor) => m.items.contains(anchor) && 0 <= m.items.index_of(
                anchor,
            ) + 1 <= m.items.len(),
            AsyncListIndex::Before(anchor) => m.items.contains(anchor) && 0 <= m.items.index_of(
                anchor,
            ) <= m.items.len(),
            _ => false,
        },
{
    match index {
        AsyncListIndex::After(anchor) => {
            let i = m.items.index_of(anchor);
            assert(m.items[i] == anchor);
        },
        AsyncListIndex::Before(anchor) => {
            let i = m.items.index_of(anchor);
            assert(m.items[i] == anchor);
        },
        _ => {},
    }
}

/// Splicing a fresh element keeps a segment's item list non-empty and
/// duplicate-free.
proof fn lemma_spliced_wf(s: Seq<i64>, p: int, v: i64)
    requires
        distinct_seq(s),
        !s.contains(v),
        0 <= p <= s.len(),
    ensures
        s.insert(p, v).len() == s.len() + 1,
        distinct_seq(s.insert(p, v)),
{
    let t = s.insert(p, v);
    s.insert_ensures(p, v);
    assert forall|i: int, j: int| 0 <= i < j < t.len() implies t[i] != t[j] by {
        if i == p {
            assert(t[(j - 1) + 1] == s[j - 1]);
            assert(s.contains(s[j - 1]));
        } else if j == p {
            assert(t[i] == s[i]);
            assert(s.contains(s[i]));
        } else {
            let oi = if i < p { i } else { i - 1 };
            let oj = if j < p { j } else { j - 1 };
            if i < p {
                assert(t[i] == s[oi]);
            } else {
                assert(t[oi + 1] == s[oi]);
            }
            if j < p {
                assert(t[j] == s[oj]);
            } else {
                assert(t[oj + 1] == s[oj]);
            }
            if v == s[oi] {
                assert(s.contains(v));
            }
            if v == s[oj] {
                assert(s.contains(v));
            }
        }
    }
}

/// What splicing does to one segment's content and flags.
proof fn lemma_model_insert(m: SliceModel, index: AsyncListIndex<i64>, item: i64, is_top: bool, is_bottom: bool)
    requires
        m.wf(),
        m.spec_can_insert(index) is Some,
        !m.contains(item),
    ensures
        m.spec_insert(index, item, is_top, is_bottom).wf(),
        forall|x: i64|
            m.spec_insert(index, item, is_top, is_bottom).contains(x) <==> (m.contains(x) || x
                == item),
        m.spec_insert(index, item, is_top, is_bottom).is_bounded_at_top == (m.is_bounded_at_top
            || is_top),
        m.spec_insert(index, item, is_top, is_bottom).is_bounded_at_bottom == (
        m.is_bounded_at_bottom || is_bottom),
{
    let updated = m.spec_insert(index, item, is_top, is_bottom);
    let position = match index {
        AsyncListIndex::After(anchor) => m.items.index_of(anchor) + 1,
        AsyncListIndex::Before(anchor) => m.items.index_of(anchor),
        _ => 0,
    };
    lemma_can_insert_position(m, index);
    assert(updated.items == m.items.insert(position, item));
    lemma_spliced_wf(m.items, position, item);
    assert forall|x: i64| updated.contains(x) <==> (m.contains(x) || x == item) by {
        lemma_insert_contains(m.items, position, item, x);
    }
}

/// Splicing a globally fresh identifier into one segment preserves
/// well-formedness of the family.
proof fn lemma_update_insert_preserves_wf(
    ss: Seq<SliceModel>,
    k: int,
    index: AsyncListIndex<i64>,
    item: i64,
    is_top: bool,
    is_bottom: bool,
)
    requires
        slices_wf(ss),
        0 <= k < ss.len(),
        ss[k].spec_can_insert(index) is Some,
        !slices_contain(ss, item),
        is_top ==> !has_top_bound(ss),
        is_bottom ==> !has_bottom_bound(ss),
    ensures
        slices_wf(ss.update(k, ss[k].spec_insert(index, item, is_top, is_bottom))),
{
    let updated = ss[k].spec_insert(index, item, is_top, is_bottom);
    let t = ss.update(k, updated);
    if ss[k].contains(item) {
        assert(slices_contain(ss, item));
    }
    lemma_model_insert(ss[k], index, item, is_top, is_bottom);
    assert forall|k1: int, k2: int, x: i64|
        0 <= k1 < t.len() && 0 <= k2 < t.len() && #[trigger] t[k1].contains(x)
            && #[trigger] t[k2].contains(x) implies k1 == k2 by {
        if k1 != k2 {
            if k1 == k {
                assert(ss[k2].contains(x));
                assert(ss[k].contains(x) || x == item);
                if x == item {
                    assert(slices_contain(ss, x));
                } else {
                    assert(ss[k].contains(x));
                }
            } else if k2 == k {
                assert(ss[k1].contains(x));
                assert(ss[k].contains(x) || x == item);
                if x == item {
                    assert(slices_contain(ss, x));
                } else {
                    assert(ss[k].contains(x));
                }
            } else {
                assert(ss[k1].contains(x));
                assert(ss[k2].contains(x));
            }
        }
    }
    assert forall|k1: int, k2: int|
        0 <= k1 < t.len() && 0 <= k2 < t.len() && (#[trigger] t[k1]).is_bounded_at_top
            && (#[trigger] t[k2]).is_bounded_at_top implies k1 == k2 by {
        if k1 != k2 {
            let other = if k1 == k { k2 } else { k1 };
            if k1 == k || k2 == k {
                assert(ss[other].is_bounded_at_top);
                if is_top {
                    assert(has_top_bound(ss));
                } else {
                    assert(ss[k].is_bounded_at_top);
                }
            } else {
                assert(ss[k1].is_bounded_at_top);
                assert(ss[k2].is_bounded_at_top);
            }
        }
    }
    assert forall|k1: int, k2: int|
        0 <= k1 < t.len() && 0 <= k2 < t.len() && (#[trigger] t[k1]).is_bounded_at_bottom
            && (#[trigger] t[k2]).is_bounded_at_bottom implies k1 == k2 by {
        if k1 != k2 {
            let other = if k1 == k { k2 } else { k1 };
            if k1 == k || k2 == k {
                assert(ss[other].is_bounded_at_bottom);
                if is_bottom {
                    assert(has_bottom_bound(ss));
                } else {
                    assert(ss[k].is_bounded_at_bottom);
                }
            } else {
                assert(ss[k1].is_bounded_at_bottom);
                assert(ss[k2].is_bounded_at_bottom);
            }
        }
    }
}

/// Membership of a family after splicing one identifier into one
/// segment.
proof fn lemma_update_insert_membership(
    ss: Seq<SliceModel>,
    k: int,
    index: AsyncListIndex<i64>,
    item: i64,
    is_top: bool,
    is_bottom: bool,
    x: i64,
)
    requires
        slices_wf(ss),
        0 <= k < ss.len(),
        ss[k].spec_can_insert(index) is Some,
        !slices_contain(ss, item),
    ensures
        slices_contain(ss.update(k, ss[k].spec_insert(index, item, is_top, is_bottom)), x) <==> (
        slices_contain(ss, x) || x == item),
{
    let updated = ss[k].spec_insert(index, item, is_top, is_bottom);
    let t = ss.update(k, updated);
    if ss[k].contains(item) {
        assert(slices_contain(ss, item));
    }
    lemma_model_insert(ss[k], index, item, is_top, is_bottom);
    if slices_contain(t, x) {
        let j = choose|j: int| 0 <= j < t.len() && #[trigger] t[j].contains(x);
        if j == k {
            if x != item {
                assert(ss[k].contains(x));
                assert(slices_contain(ss, x));
            }
        } else {
            assert(ss[j].contains(x));
            assert(slices_contain(ss, x));
        }
    }
    if slices_contain(ss, x) {
        let j = choose|j: int| 0 <= j < ss.len() && #[trigger] ss[j].contains(x);
        if j == k {
            assert(t[k].contains(x));
        } else {
            assert(t[j].contains(x));
        }
        assert(slices_contain(t, x));
    }
    if x == item {
        assert(t[k].contains(x));
        assert(slices_contain(t, x));
    }
}

/// Growing the bottom-bounded segment by a globally fresh identifier
/// preserves well-formedness of the family.
proof fn lemma_update_push_preserves_wf(ss: Seq<SliceModel>, k: int, identifier: i64)
    requires
        slices_wf(ss),
        0 <= k < ss.len(),
        !slices_contain(ss, identifier),
    ensures
        slices_wf(
            ss.update(
                k,
                SliceModel {
                    items: ss[k].items.push(identifier),
                    is_bounded_at_top: ss[k].is_bounded_at_top,
                    is_bounded_at_bottom: ss[k].is_bounded_at_bottom,
                },
            ),
        ),
{
    let updated = SliceModel {
        items: ss[k].items.push(identifier),
        is_bounded_at_top: ss[k].is_bounded_at_top,
        is_bounded_at_bottom: ss[k].is_bounded_at_bottom,
    };
    let t = ss.update(k, updated);
    if ss[k].contains(identifier) {
        assert(slices_contain(ss, identifier));
    }
    let len = ss[k].items.len() as int;
    assert(updated.items =~= ss[k].items.insert(len, identifier));
    lemma_spliced_wf(ss[k].items, len, identifier);
    assert forall|x: i64| updated.contains(x) <==> (ss[k].contains(x) || x == identifier) by {
        lemma_insert_contains(ss[k].items, len, identifier, x);
    }
    assert forall|k1: int, k2: int, x: i64|
        0 <= k1 < t.len() && 0 <= k2 < t.len() && #[trigger] t[k1].contains(x)
            && #[trigger] t[k2].contains(x) implies k1 == k2 by {
        if k1 != k2 {
            if k1 == k {
                assert(ss[k2].contains(x));
                if x == identifier {
                    assert(slices_contain(ss, x));
                } else {
                    assert(ss[k].contains(x));
                }
            } else if k2 == k {
                assert(ss[k1].contains(x));
                if x == identifier {
                    assert(slices_contain(ss, x));
                } else {
                    assert(ss[k].contains(x));
                }
            } else {
                assert(ss[k1].contains(x));
                assert(ss[k2].contains(x));
            }
        }
    }
    assert forall|k1: int, k2: int|
        0 <= k1 < t.len() && 0 <= k2 < t.len() && (#[trigger] t[k1]).is_bounded_at_top
            && (#[trigger] t[k2]).is_bounded_at_top implies k1 == k2 by {
        assert(ss[k1].is_bounded_at_top == t[k1].is_bounded_at_top);
        assert(ss[k2].is_bounded_at_top == t[k2].is_bounded_at_top);
    }
    assert forall|k1: int, k2: int|
        0 <= k1 < t.len() && 0 <= k2 < t.len() && (#[trigger] t[k1]).is_bounded_at_bottom
            && (#[trigger] t[k2]).is_bounded_at_bottom implies k1 == k2 by {
        assert(ss[k1].is_bounded_at_bottom == t[k1].is_bounded_at_bottom);
        assert(ss[k2].is_bounded_at_bottom == t[k2].is_bounded_at_bottom);
    }
}

/// Membership of a family after growing one segment at its bottom edge.
proof fn lemma_update_push_membership(ss: Seq<SliceModel>, k: int, identifier: i64, x: i64)
    requires
        0 <= k < ss.len(),
    ensures
        slices_contain(
            ss.update(
                k,
                SliceModel {
                    items: ss[k].items.push(identifier),
                    is_bounded_at_top: ss[k].is_bounded_at_top,
                    is_bounded_at_bottom: ss[k].is_bounded_at_bottom,
                },
            ),
            x,
        ) <==> (slices_contain(ss, x) || x == identifier),
{
    let updated = SliceModel {
        items: ss[k].items.push(identifier),
        is_bounded_at_top: ss[k].is_bounded_at_top,
        is_bounded_at_bottom: ss[k].is_bounded_at_bottom,
    };
    let t = ss.update(k, updated);
    let len = ss[k].items.len() as int;
    assert(updated.items =~= ss[k].items.insert(len, identifier));
    lemma_insert_contains(ss[k].items, len, identifier, x);
    if slices_contain(t, x) {
        let j = choose|j: int| 0 <= j < t.len() && #[trigger] t[j].contains(x);
        if j == k {
            if x != identifier {
                assert(ss[k].contains(x));
                assert(slices_contain(ss, x));
            }
        } else {
            assert(ss[j].contains(x));
            assert(slices_contain(ss, x));
        }
    }
    if slices_contain(ss, x) {
        let j = choose|j: int| 0 <= j < ss.len() && #[trigger] ss[j].contains(x);
        if j == k {
            assert(t[k].contains(x));
        } else {
            assert(t[j].contains(x));
        }
        assert(slices_contain(t, x));
    }
    if x == identifier {
        assert(t[k].contains(x));
        assert(slices_contain(t, x));
    }
}

/// Concatenating two duplicate-free runs with no identifier in common
/// yields a duplicate-free run.
proof fn lemma_concat_distinct(s1: Seq<i64>, s2: Seq<i64>)
    requires
        distinct_seq(s1),
        distinct_seq(s2),
        forall|x: i64| s1.contains(x) ==> !s2.contains(x),
    ensures
        distinct_seq(s1 + s2),
{
    let t = s1 + s2;
    assert forall|i: int, j: int| 0 <= i < j < t.len() implies t[i] != t[j] by {
        if i < s1.len() && j < s1.len() {
            assert(t[i] == s1[i] && t[j] == s1[j]);
        } else if i < s1.len() && j >= s1.len() {
            assert(t[i] == s1[i] && t[j] == s2[j - s1.len()]);
            if t[i] == t[j] {
                assert(s1.contains(t[i]));
                assert(s2.contains(t[j]));
            }
        } else {
            assert(t[i] == s2[i - s1.len()] && t[j] == s2[j - s1.len()]);
        }
    }
}

/// Replacing two segments by their concatenation preserves
/// well-formedness of the family and changes no membership.
proof fn lemma_merge_preserves_wf(ss: Seq<SliceModel>, left: int, right: int)
    requires
        slices_wf(ss),
        0 <= left < ss.len(),
        0 <= right < ss.len(),
        left != right,
    ensures
        slices_wf(merge_slots(ss, left, right)),
        forall|x: i64| slices_contain(merge_slots(ss, left, right), x) <==> slices_contain(ss, x),
        merge_slots(ss, left, right).len() == ss.len() - 1,
{
    let merged = SliceModel {
        items: ss[left].items + ss[right].items,
        is_bounded_at_top: ss[left].is_bounded_at_top,
        is_bounded_at_bottom: ss[right].is_bounded_at_bottom,
    };
    let u = ss.update(left, merged);
    let t = u.remove(right);
    u.remove_ensures(right);
    assert(t.len() == ss.len() - 1);
    // Where each slot of the result came from.
    let ghost orig = |j: int| if j < right { j } else { j + 1 };
    assert forall|j: int| 0 <= j < t.len() implies t[j] == (if orig(j) == left {
        merged
    } else {
        ss[orig(j)]
    }) by {
        if j < right {
            assert(t[j] == u[j]);
        } else {
            assert(t[j] == u[j + 1]);
        }
    }
    assert forall|x: i64| merged.contains(x) <==> (ss[left].contains(x) || ss[right].contains(
        x,
    )) by {
        let items = merged.items;
        if ss[left].contains(x) {
            let i = choose|i: int| 0 <= i < ss[left].items.len() && ss[left].items[i] == x;
            assert(items[i] == x);
        }
        if ss[right].contains(x) {
            let i = choose|i: int| 0 <= i < ss[right].items.len() && ss[right].items[i] == x;
            assert(items[ss[left].items.len() + i] == x);
        }
        if items.contains(x) {
            let i = choose|i: int| 0 <= i < items.len() && items[i] == x;
            if i < ss[left].items.len() {
                assert(ss[left].items[i] == x);
            } else {
                assert(ss[right].items[i - ss[left].items.len()] == x);
            }
        }
    }
    assert(merged.wf()) by {
        assert forall|x: i64| ss[left].items.contains(x) implies !ss[right].items.contains(
            x,
        ) by {
            if ss[right].items.contains(x) {
                assert(ss[left].contains(x));
                assert(ss[right].contains(x));
                assert(left == right);
            }
        }
        lemma_concat_distinct(ss[left].items, ss[right].items);
        assert(merged.items.len() > 0);
    }
    assert forall|j: int| 0 <= j < t.len() implies (#[trigger] t[j]).wf() by {
        if orig(j) != left {
            assert(ss[orig(j)].wf());
        }
    }
    assert forall|k1: int, k2: int, x: i64|
        0 <= k1 < t.len() && 0 <= k2 < t.len() && #[trigger] t[k1].contains(x)
            && #[trigger] t[k2].contains(x) implies k1 == k2 by {
        if k1 != k2 {
            let o1 = orig(k1);
            let o2 = orig(k2);
            assert(o1 != o2);
            if o1 == left {
                assert(ss[left].contains(x) || ss[right].contains(x));
                assert(ss[o2].contains(x));
            } else if o2 == left {
                assert(ss[left].contains(x) || ss[right].contains(x));
                assert(ss[o1].contains(x));
            } else {
                assert(ss[o1].contains(x));
                assert(ss[o2].contains(x));
            }
        }
    }
    assert forall|k1: int, k2: int|
        0 <= k1 < t.len() && 0 <= k2 < t.len() && (#[trigger] t[k1]).is_bounded_at_top
            && (#[trigger] t[k2]).is_bounded_at_top implies k1 == k2 by {
        if k1 != k2 {
            let o1 = orig(k1);
            let o2 = orig(k2);
            if o1 == left {
                assert(ss[left].is_bounded_at_top);
                assert(ss[o2].is_bounded_at_top);
            } else if o2 == left {
                assert(ss[left].is_bounded_at_top);
                assert(ss[o1].is_bounded_at_top);
            } else {
                assert(ss[o1].is_bounded_at_top);
                assert(ss[o2].is_bounded_at_top);
            }
        }
    }
    assert forall|k1: int, k2: int|
        0 <= k1 < t.len() && 0 <= k2 < t.len() && (#[trigger] t[k1]).is_bounded_at_bottom
            && (#[trigger] t[k2]).is_bounded_at_bottom implies k1 == k2 by {
        if k1 != k2 {
            let o1 = orig(k1);
            let o2 = orig(k2);
            if o1 == left {
                assert(ss[right].is_bounded_at_bottom);
                assert(ss[o2].is_bounded_at_bottom);
            } else if o2 == left {
                assert(ss[right].is_bounded_at_bottom);
                assert(ss[o1].is_bounded_at_bottom);
            } else {
                assert(ss[o1].is_bounded_at_bottom);
                assert(ss[o2].is_bounded_at_bottom);
            }
        }
    }
    assert forall|x: i64| slices_contain(t, x) <==> slices_contain(ss, x) by {
        if slices_contain(t, x) {
            let j = choose|j: int| 0 <= j < t.len() && #[trigger] t[j].contains(x);
            if orig(j) == left {
                assert(ss[left].contains(x) || ss[right].contains(x));
                assert(slices_contain(ss, x));
            } else {
                assert(ss[orig(j)].contains(x));
                assert(slices_contain(ss, x));
            }
        }
        if slices_contain(ss, x) {
            let k = choose|k: int| 0 <= k < ss.len() && #[trigger] ss[k].contains(x);
            let home = if k == left || k == right {
                if left < right {
                    left
                } else {
                    left - 1
                }
            } else if k < right {
                k
            } else {
                k - 1
            };
            assert(t[home].contains(x));
            assert(slices_contain(t, x));
        }
    }
}

/// Law: an insertion in the bridging shape — the anchor ends one run
/// and the inserted identifier begins another — merges the two runs,
/// and afterwards the queries across the closed gap answer definitely
/// in both directions.
pub proof fn lemma_bridge_completes_after(ss: Seq<SliceModel>, kl: int, kr: int, a: i64, x: i64)
    requires
        slices_wf(ss),
        0 <= kl < ss.len(),
        0 <= kr < ss.len(),
        kl != kr,
        ss[kl].items.last() == a,
        ss[kr].items.first() == x,
    ensures
        bridges(ss, AsyncListIndex::After(a), x),
        spec_insert(ss, AsyncListIndex::After(a), x, false, false) == merge_slots(ss, kl, kr),
        scan_slices(merge_slots(ss, kl, kr), AsyncListIndex::After(a)) == Exists::Yes(x),
        scan_slices(merge_slots(ss, kl, kr), AsyncListIndex::Before(x)) == Exists::Yes(a),
{
    let index = AsyncListIndex::After(a);
    assert(ss[kl].wf());
    assert(ss[kr].wf());
    assert(ss[kl].contains(a)) by {
        assert(ss[kl].items[ss[kl].items.len() - 1] == a);
    }
    assert(ss[kr].contains(x)) by {
        assert(ss[kr].items[0] == x);
    }
    assert(slices_contain(ss, a));
    assert(slices_contain(ss, x));
    assert(slot_of(ss, a) == kl) by {
        let sa = slot_of(ss, a);
        assert(ss[sa].contains(a));
    }
    assert(slot_of(ss, x) == kr) by {
        let sx = slot_of(ss, x);
        assert(ss[sx].contains(x));
    }
    assert(bridges(ss, index, x));
    assert(!position_consistent(ss, index, x)) by {
        if scan_slices(ss, index) == Exists::Yes(x) {
            let jj = choose|jj: int| 0 <= jj < ss.len() && answers(#[trigger] ss[jj], index);
            assert(ss[jj].contains(a));
            assert(jj == kl);
            lemma_index_of_distinct(ss[kl].items, a, ss[kl].items.len() - 1);
        }
    }
    assert(spec_insert(ss, index, x, false, false) == merge_slots(ss, kl, kr));

    lemma_merge_preserves_wf(ss, kl, kr);
    let m = SliceModel {
        items: ss[kl].items + ss[kr].items,
        is_bounded_at_top: ss[kl].is_bounded_at_top,
        is_bounded_at_bottom: ss[kr].is_bounded_at_bottom,
    };
    let t = merge_slots(ss, kl, kr);
    let pos = if kl < kr {
        kl
    } else {
        kl - 1
    };
    ss.update(kl, m).remove_ensures(kr);
    assert(t[pos] == m) by {
        if kl < kr {
            assert(t[kl] == ss.update(kl, m)[kl]);
        } else {
            assert(t[(kl - 1) + 0] == ss.update(kl, m)[kl]) by {
                assert(t[kl - 1] == ss.update(kl, m)[(kl - 1) + 1]);
            }
        }
    }
    let nl = ss[kl].items.len() as int;
    assert(m.items[nl - 1] == a);
    assert(m.items[nl] == x);
    assert(0 <= pos < t.len());
    assert(m.wf());
    lemma_index_of_distinct(m.items, a, nl - 1);
    lemma_index_of_distinct(m.items, x, nl);
    assert(m.contains(a) && m.contains(x));
    assert(m.spec_get(index) == Exists::Yes(x));
    assert(m.spec_get(AsyncListIndex::Before(x)) == Exists::Yes(a));
    assert(answers(t[pos], index));
    let j1 = choose|j: int| 0 <= j < t.len() && answers(#[trigger] t[j], index);
    lemma_answer_unique(t, index, j1, pos);
    assert(scan_slices(t, index) == Exists::Yes(x));
    assert(answers(t[pos], AsyncListIndex::Before(x)));
    let j2 = choose|j: int| 0 <= j < t.len() && answers(#[trigger] t[j], AsyncListIndex::Before(x));
    lemma_answer_unique(t, AsyncListIndex::Before(x), j2, pos);
    assert(scan_slices(t, AsyncListIndex::Before(x)) == Exists::Yes(a));
}

/// Law: the mirror bridging shape — the anchor begins one run and the
/// inserted identifier ends another — merges the same way.
pub proof fn lemma_bridge_completes_before(ss: Seq<SliceModel>, kl: int, kr: int, b: i64, x: i64)
    requires
        slices_wf(ss),
        0 <= kl < ss.len(),
        0 <= kr < ss.len(),
        kl != kr,
        ss[kl].items.last() == x,
        ss[kr].items.first() == b,
    ensures
        bridges(ss, AsyncListIndex::Before(b), x),
        spec_insert(ss, AsyncListIndex::Before(b), x, false, false) == merge_slots(ss, kl, kr),
        scan_slices(merge_slots(ss, kl, kr), AsyncListIndex::Before(b)) == Exists::Yes(x),
        scan_slices(merge_slots(ss, kl, kr), AsyncListIndex::After(x)) == Exists::Yes(b),
{
    let index = AsyncListIndex::Before(b);
    assert(ss[kl].wf());
    assert(ss[kr].wf());
    assert(ss[kl].contains(x)) by {
        assert(ss[kl].items[ss[kl].items.len() - 1] == x);
    }
    assert(ss[kr].contains(b)) by {
        assert(ss[kr].items[0] == b);
    }
    assert(slices_contain(ss, b));
    assert(slices_contain(ss, x));
    assert(slot_of(ss, b) == kr) by {
        let sb = slot_of(ss, b);
        assert(ss[sb].contains(b));
    }
    assert(slot_of(ss, x) == kl) by {
        let sx = slot_of(ss, x);
        assert(ss[sx].contains(x));
    }
    assert(bridges(ss, index, x));
    assert(!position_consistent(ss, index, x)) by {
        if scan_slices(ss, index) == Exists::Yes(x) {
            let jj = choose|jj: int| 0 <= jj < ss.len() && answers(#[trigger] ss[jj], index);
            assert(ss[jj].contains(b));
            assert(jj == kr);
            lemma_index_of_distinct(ss[kr].items, b, 0);
        }
    }
    assert(spec_insert(ss, index, x, false, false) == merge_slots(ss, kl, kr));

    lemma_merge_preserves_wf(ss, kl, kr);
    let m = SliceModel {
        items: ss[kl].items + ss[kr].items,
        is_bounded_at_top: ss[kl].is_bounded_at_top,
        is_bounded_at_bottom: ss[kr].is_bounded_at_bottom,
    };
    let t = merge_slots(ss, kl, kr);
    let pos = if kl < kr {
        kl
    } else {
        kl - 1
    };
    ss.update(kl, m).remove_ensures(kr);
    assert(t[pos] == m) by {
        if kl < kr {
            assert(t[kl] == ss.update(kl, m)[kl]);
        } else {
            assert(t[kl - 1] == ss.update(kl, m)[(kl - 1) + 1]);
        }
    }
    let nl = ss[kl].items.len() as int;
    assert(m.items[nl - 1] == x);
    assert(m.items[nl] == b);
    assert(0 <= pos < t.len());
    assert(m.wf());
    lemma_index_of_distinct(m.items, x, nl - 1);
    lemma_index_of_distinct(m.items, b, nl);
    assert(m.contains(b) && m.contains(x));
    assert(m.spec_get(index) == Exists::Yes(x));
    assert(m.spec_get(AsyncListIndex::After(x)) == Exists::Yes(b));
    assert(answers(t[pos], index));
    let j1 = choose|j: int| 0 <= j < t.len() && answers(#[trigger] t[j], index);
    lemma_answer_unique(t, index, j1, pos);
    assert(scan_slices(t, index) == Exists::Yes(x));
    assert(answers(t[pos], AsyncListIndex::After(x)));
    let j2 = choose|j: int| 0 <= j < t.len() && answers(#[trigger] t[j], AsyncListIndex::After(x));
    lemma_answer_unique(t, AsyncListIndex::After(x), j2, pos);
    assert(scan_slices(t, AsyncListIndex::After(x)) == Exists::Yes(b));
}

/// Law: when two known runs `[.., a]` and `[b, ..]` are separated by
/// exactly the fresh item `x`, supplying `x` via `After(a)` and then
/// `Before(b)`, or via `Before(b)` and then `After(a)`, yields the
/// same family: the one merged run with `x` between its two halves,
/// keeping the left run's top flag and the right run's bottom flag —
/// and every query across the closed gap answers definitely.
#[verifier::rlimit(100)]
#[verifier::spinoff_prover]
pub proof fn lemma_bridge_either_direction(
    ss: Seq<SliceModel>,
    kl: int,
    kr: int,
    a: i64,
    b: i64,
    x: i64,
)
    requires
        slices_wf(ss),
        0 <= kl < ss.len(),
        0 <= kr < ss.len(),
        kl != kr,
        ss[kl].items.last() == a,
        ss[kr].items.first() == b,
        !slices_contain(ss, x),
    ensures
        spec_insert(
            spec_insert(ss, AsyncListIndex::After(a), x, false, false),
            AsyncListIndex::Before(b),
            x,
            false,
            false,
        ) == spec_insert(
            spec_insert(ss, AsyncListIndex::Before(b), x, false, false),
            AsyncListIndex::After(a),
            x,
            false,
            false,
        ),
        spec_insert(
            spec_insert(ss, AsyncListIndex::After(a), x, false, false),
            AsyncListIndex::Before(b),
            x,
            false,
            false,
        ) == ss.update(
            kl,
            (SliceModel {
                items: ss[kl].items + seq![x] + ss[kr].items,
                is_bounded_at_top: ss[kl].is_bounded_at_top,
                is_bounded_at_bottom: ss[kr].is_bounded_at_bottom,
            }),
        ).remove(kr),
        scan_slices(
            spec_insert(
                spec_insert(ss, AsyncListIndex::After(a), x, false, false),
                AsyncListIndex::Before(b),
                x,
                false,
                false,
            ),
            AsyncListIndex::After(a),
        ) == Exists::Yes(x),
        scan_slices(
            spec_insert(
                spec_insert(ss, AsyncListIndex::After(a), x, false, false),
                AsyncListIndex::Before(b),
                x,
                false,
                false,
            ),
            AsyncListIndex::Before(b),
        ) == Exists::Yes(x),
{
    let after = AsyncListIndex::After(a);
    let before = AsyncListIndex::Before(b);
    let bridged = SliceModel {
        items: ss[kl].items + seq![x] + ss[kr].items,
        is_bounded_at_top: ss[kl].is_bounded_at_top,
        is_bounded_at_bottom: ss[kr].is_bounded_at_bottom,
    };
    let target = ss.update(kl, bridged).remove(kr);
    assert(ss[kl].wf());
    assert(ss[kr].wf());
    assert(ss[kl].contains(a)) by {
        assert(ss[kl].items[ss[kl].items.len() - 1] == a);
    }
    assert(ss[kr].contains(b)) by {
        assert(ss[kr].items[0] == b);
    }
    assert(slices_contain(ss, a));
    assert(slices_contain(ss, b));

    // First route: splice x after a, then bridge at b.
    let s1 = spec_insert(ss, after, x, false, false);
    assert(has_insert_candidate(ss, after)) by {
        assert(ss[kl].spec_can_insert(after) is Some);
    }
    let k1 = insert_candidate(ss, after);
    assert(ss[k1].spec_can_insert(after) is Some);
    assert(ss[k1].contains(a));
    assert(k1 == kl);
    lemma_index_of_distinct(ss[kl].items, a, ss[kl].items.len() - 1);
    let grown_left = ss[kl].spec_insert(after, x, false, false);
    assert(s1 == ss.update(kl, grown_left));
    assert(grown_left.items == ss[kl].items.insert(ss[kl].items.len() as int, x));
    ss[kl].items.insert_ensures(ss[kl].items.len() as int, x);
    assert(grown_left.items =~= ss[kl].items + seq![x]);
    lemma_update_insert_preserves_wf(ss, kl, after, x, false, false);
    assert(s1[kl].items.last() == x);
    assert(s1[kr] == ss[kr]);
    assert(s1[kr].items.first() == b);
    lemma_bridge_completes_before(s1, kl, kr, b, x);
    assert(spec_insert(s1, before, x, false, false) == merge_slots(s1, kl, kr));
    assert(merge_slots(s1, kl, kr) =~~= target) by {
        assert((s1[kl].items + s1[kr].items) =~= bridged.items);
        assert(s1.update(
            kl,
            (SliceModel {
                items: s1[kl].items + s1[kr].items,
                is_bounded_at_top: s1[kl].is_bounded_at_top,
                is_bounded_at_bottom: s1[kr].is_bounded_at_bottom,
            }),
        ) =~~= ss.update(kl, bridged));
    }

    // Second route: splice x before b, then bridge at a.
    let t1 = spec_insert(ss, before, x, false, false);
    assert(has_insert_candidate(ss, before)) by {
        assert(ss[kr].spec_can_insert(before) is Some);
    }
    let k2 = insert_candidate(ss, before);
    assert(ss[k2].spec_can_insert(before) is Some);
    assert(ss[k2].contains(b));
    assert(k2 == kr);
    lemma_index_of_distinct(ss[kr].items, b, 0);
    let grown_right = ss[kr].spec_insert(before, x, false, false);
    assert(t1 == ss.update(kr, grown_right));
    assert(grown_right.items == ss[kr].items.insert(0, x));
    ss[kr].items.insert_ensures(0, x);
    assert(grown_right.items =~= seq![x] + ss[kr].items);
    lemma_update_insert_preserves_wf(ss, kr, before, x, false, false);
    assert(t1[kr].items.first() == x);
    assert(t1[kl] == ss[kl]);
    assert(t1[kl].items.last() == a);
    lemma_bridge_completes_after(t1, kl, kr, a, x);
    assert(spec_insert(t1, after, x, false, false) == merge_slots(t1, kl, kr));
    assert(merge_slots(t1, kl, kr) =~= target) by {
        let m2 = SliceModel {
            items: t1[kl].items + t1[kr].items,
            is_bounded_at_top: t1[kl].is_bounded_at_top,
            is_bounded_at_bottom: t1[kr].is_bounded_at_bottom,
        };
        assert((t1[kl].items + t1[kr].items) =~= bridged.items);
        assert(m2 =~~= bridged);
        let u2 = t1.update(kl, m2);
        let u0 = ss.update(kl, bridged);
        u2.remove_ensures(kr);
        u0.remove_ensures(kr);
        assert forall|j: int| 0 <= j < u2.remove(kr).len() implies u2.remove(kr)[j] == u0.remove(
            kr,
        )[j] by {
            if j < kr {
                assert(u2.remove(kr)[j] == u2[j]);
                assert(u0.remove(kr)[j] == u0[j]);
                if j != kl {
                    assert(u2[j] == t1[j]);
                    assert(t1[j] == ss[j]);
                }
            } else {
                assert(u2.remove(kr)[j] == u2[j + 1]);
                assert(u0.remove(kr)[j] == u0[j + 1]);
                if j + 1 != kl {
                    assert(u2[j + 1] == t1[j + 1]);
                    assert(t1[j + 1] == ss[j + 1]);
                }
            }
        }
    }
    assert(scan_slices(merge_slots(s1, kl, kr), before) == Exists::Yes(x));
    assert(scan_slices(merge_slots(t1, kl, kr), after) == Exists::Yes(x));
}

} // verus!
