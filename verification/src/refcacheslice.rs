//! A segment: one maximal contiguous run of known identifiers, in true
//! list order, together with two flags saying whether its edges coincide
//! with the true start (top) and true end (bottom) of the remote
//! sequence.

use vstd::prelude::*;

use crate::async_list::AsyncListIndex;

verus! {

/// Tri-state existence: `No` means the position is proven absent (a
/// boundary flag rules it out); `Unknown` means the cache has no
/// information and the caller must consult the remote source.
#[derive(Clone, Copy, Debug, PartialEq, Eq)]
pub enum Exists<T> {
    Yes(T),
    No,
    Unknown,
}

/// Where an anchored insertion lands relative to a segment.
#[derive(Clone, Copy, Debug, PartialEq, Eq)]
pub enum Position {
    /// Immediately before the segment's first element (closer to the top).
    Before,
    /// Immediately after the segment's last element (closer to the bottom).
    After,
    Inside,
}

/// The mathematical content of a segment: its identifiers in true order
/// and its two boundary flags.
#[verifier::ext_equal]
pub ghost struct SliceModel {
    pub items: Seq<i64>,
    pub is_bounded_at_top: bool,
    pub is_bounded_at_bottom: bool,
}

/// No identifier occurs twice in `s`.
pub open spec fn distinct_seq(s: Seq<i64>) -> bool {
    forall|i: int, j: int| 0 <= i < j < s.len() ==> s[i] != s[j]
}

impl SliceModel {
    /// A segment is well formed when it is non-empty and mentions each
    /// identifier at most once.
    pub open spec fn wf(self) -> bool {
        self.items.len() > 0 && distinct_seq(self.items)
    }

    pub open spec fn contains(self, x: i64) -> bool {
        self.items.contains(x)
    }

    /// What this segment alone can say about a positional query:
    /// a query it cannot interpret at all (anchor absent, or a
    /// bound-relative query without the matching flag) is `Unknown`; an
    /// offset that falls off an edge is `No` exactly when the flag at that
    /// edge is set; an offset inside the run is a definite hit.
    pub open spec fn spec_get(self, index: AsyncListIndex<i64>) -> Exists<i64>
        recommends
            self.wf(),
    {
        match index {
            AsyncListIndex::RelativeToTop(count) => {
                if self.is_bounded_at_top {
                    if count < self.items.len() {
                        Exists::Yes(self.items[count as int])
                    } else if self.is_bounded_at_bottom {
                        Exists::No
                    } else {
                        Exists::Unknown
                    }
                } else {
                    Exists::Unknown
                }
            },
            AsyncListIndex::RelativeToBottom(count) => {
                if self.is_bounded_at_bottom {
                    if count < self.items.len() {
                        Exists::Yes(self.items[self.items.len() - 1 - count])
                    } else if self.is_bounded_at_top {
                        Exists::No
                    } else {
                        Exists::Unknown
                    }
                } else {
                    Exists::Unknown
                }
            },
            AsyncListIndex::After(anchor) => {
                if self.items.contains(anchor) {
                    let i = self.items.index_of(anchor);
                    if i + 1 < self.items.len() {
                        Exists::Yes(self.items[i + 1])
                    } else if self.is_bounded_at_bottom {
                        Exists::No
                    } else {
                        Exists::Unknown
                    }
                } else {
                    Exists::Unknown
                }
            },
            AsyncListIndex::Before(anchor) => {
                if self.items.contains(anchor) {
                    let i = self.items.index_of(anchor);
                    if i > 0 {
                        Exists::Yes(self.items[i - 1])
                    } else if self.is_bounded_at_top {
                        Exists::No
                    } else {
                        Exists::Unknown
                    }
                } else {
                    Exists::Unknown
                }
            },
        }
    }

    /// Whether an anchored insertion can use this segment, and where it
    /// would land. Only `Before`/`After` queries take part in insertion
    /// planning.
    pub open spec fn spec_can_insert(self, index: AsyncListIndex<i64>) -> Option<Position>
        recommends
            self.wf(),
            index matches AsyncListIndex::Before(_) || index matches AsyncListIndex::After(_),
    {
        match index {
            AsyncListIndex::After(anchor) => {
                if self.items.contains(anchor) {
                    if self.items.index_of(anchor) == self.items.len() - 1 {
                        Some(Position::After)
                    } else {
                        Some(Position::Inside)
                    }
                } else {
                    None
                }
            },
            AsyncListIndex::Before(anchor) => {
                if self.items.contains(anchor) {
                    if self.items.index_of(anchor) == 0 {
                        Some(Position::Before)
                    } else {
                        Some(Position::Inside)
                    }
                } else {
                    None
                }
            },
            _ => None,
        }
    }

    /// The segment after splicing `value` next to the anchor of `index`
    /// and strengthening the boundary flags as requested.
    pub open spec fn spec_insert(
        self,
        index: AsyncListIndex<i64>,
        value: i64,
        is_top: bool,
        is_bottom: bool,
    ) -> SliceModel
        recommends
            self.wf(),
            self.spec_can_insert(index) is Some,
    {
        let position = match index {
            AsyncListIndex::After(anchor) => self.items.index_of(anchor) + 1,
            AsyncListIndex::Before(anchor) => self.items.index_of(anchor),
            _ => 0,
        };
        SliceModel {
            items: self.items.insert(position, value),
            is_bounded_at_top: self.is_bounded_at_top || is_top,
            is_bounded_at_bottom: self.is_bounded_at_bottom || is_bottom,
        }
    }
}

/// A segment as stored: identifiers from top (index 0) to bottom (last
/// index). The list must never be empty while the segment exists.
#[derive(Debug)]
pub struct CacheReferencesSlice {
    pub is_bounded_at_top: bool,
    pub is_bounded_at_bottom: bool,
    pub item_references: Vec<i64>,
}

impl View for CacheReferencesSlice {
    type V = SliceModel;

    open spec fn view(&self) -> SliceModel {
        SliceModel {
            items: self.item_references@,
            is_bounded_at_top: self.is_bounded_at_top,
            is_bounded_at_bottom: self.is_bounded_at_bottom,
        }
    }
}

/// The unique index of `x` in a distinct sequence that contains it is
/// also what `index_of` denotes.
pub proof fn lemma_index_of_distinct(s: Seq<i64>, x: i64, i: int)
    requires
        distinct_seq(s),
        0 <= i < s.len(),
        s[i] == x,
    ensures
        s.index_of(x) == i,
        s.contains(x),
{
    assert(s.contains(x));
    let j = s.index_of(x);
    assert(0 <= j < s.len() && s[j] == x);
    if i != j {
        assert(s[i] == s[j]);
    }
}

impl CacheReferencesSlice {
    /// The position of `item` in this segment, scanning from the top, or
    /// `None` when the segment does not contain it.
    fn find_index_of(&self, item: i64) -> (r: Option<usize>)
        ensures
            match r {
                Some(i) => i < self.item_references@.len() && self.item_references@[i as int]
                    == item && forall|j: int| 0 <= j < i ==> self.item_references@[j] != item,
                None => !self.item_references@.contains(item),
            },
    {
        let mut i: usize = 0;
        while i < self.item_references.len()
            invariant
                i <= self.item_references@.len(),
                forall|j: int| 0 <= j < i ==> self.item_references@[j] != item,
            decreases self.item_references@.len() - i,
        {
            if self.item_references[i] == item {
                return Some(i);
            }
            i = i + 1;
        }
        None
    }

    /// Whether this segment knows `item`.
    pub fn contains_item(&self, item: i64) -> (r: bool)
        ensures
            r == self@.contains(item),
    {
        match self.find_index_of(item) {
            Some(_) => true,
            None => false,
        }
    }

    /// Extend this segment at its bottom edge. Only the segment whose
    /// bottom edge is the true end of the sequence may be extended this
    /// way.
    pub fn append_bottom(&mut self, index: i64)
        requires
            old(self)@.wf(),
            old(self).is_bounded_at_bottom,
            !old(self)@.contains(index),
        ensures
            final(self)@.items == old(self)@.items.push(index),
            final(self).is_bounded_at_top == old(self).is_bounded_at_top,
            final(self).is_bounded_at_bottom == old(self).is_bounded_at_bottom,
            final(self)@.wf(),
    {
        self.item_references.push(index);
        proof {
            assert forall|i: int, j: int|
                0 <= i < j < self@.items.len() implies self@.items[i] != self@.items[j] by {
                if j == self@.items.len() - 1 {
                    assert(old(self)@.items[i] == self@.items[i]);
                    assert(old(self)@.items.contains(self@.items[i]));
                }
            }
        }
    }

    /// Answer a positional query from this segment alone.
    pub fn get(&self, index: AsyncListIndex<i64>) -> (r: Exists<i64>)
        requires
            self@.wf(),
        ensures
            r == self@.spec_get(index),
    {
        match index {
            AsyncListIndex::RelativeToTop(count) => {
                if !self.is_bounded_at_top {
                    Exists::Unknown
                } else if count < self.item_references.len() {
                    Exists::Yes(self.item_references[count])
                } else if self.is_bounded_at_bottom {
                    Exists::No
                } else {
                    Exists::Unknown
                }
            },
            AsyncListIndex::RelativeToBottom(count) => {
                if !self.is_bounded_at_bottom {
                    Exists::Unknown
                } else if count < self.item_references.len() {
                    Exists::Yes(self.item_references[self.item_references.len() - 1 - count])
                } else if self.is_bounded_at_top {
                    Exists::No
                } else {
                    Exists::Unknown
                }
            },
            AsyncListIndex::After(anchor) => {
                match self.find_index_of(anchor) {
                    None => Exists::Unknown,
                    Some(i) => {
                        proof {
                            lemma_index_of_distinct(self@.items, anchor, i as int);
                        }
                        let n = self.item_references.len();
                        if i + 1 < n {
                            Exists::Yes(self.item_references[i + 1])
                        } else if self.is_bounded_at_bottom {
                            Exists::No
                        } else {
                            Exists::Unknown
                        }
                    },
                }
            },
            AsyncListIndex::Before(anchor) => {
                match self.find_index_of(anchor) {
                    None => Exists::Unknown,
                    Some(i) => {
                        proof {
                            lemma_index_of_distinct(self@.items, anchor, i as int);
                        }
                        if i > 0 {
                            Exists::Yes(self.item_references[i - 1])
                        } else if self.is_bounded_at_top {
                            Exists::No
                        } else {
                            Exists::Unknown
                        }
                    },
                }
            },
        }
    }

    /// Whether an anchored insertion can use this segment, and where it
    /// would land.
    pub fn can_insert(&self, index: AsyncListIndex<i64>) -> (r: Option<Position>)
        requires
            self@.wf(),
            index matches AsyncListIndex::Before(_) || index matches AsyncListIndex::After(_),
        ensures
            r == self@.spec_can_insert(index),
    {
        match index {
            AsyncListIndex::After(anchor) => {
                match self.find_index_of(anchor) {
                    None => None,
                    Some(i) => {
                        proof {
                            lemma_index_of_distinct(self@.items, anchor, i as int);
                        }
                        if i == self.item_references.len() - 1 {
                            Some(Position::After)
                        } else {
                            Some(Position::Inside)
                        }
                    },
                }
            },
            AsyncListIndex::Before(anchor) => {
                match self.find_index_of(anchor) {
                    None => None,
                    Some(i) => {
                        proof {
                            lemma_index_of_distinct(self@.items, anchor, i as int);
                        }
                        if i == 0 {
                            Some(Position::Before)
                        } else {
                            Some(Position::Inside)
                        }
                    },
                }
            },
            _ => None,
        }
    }

    /// Splice `value` immediately next to the anchor of `index`, and set
    /// the requested boundary flags.
    pub fn insert(&mut self, index: AsyncListIndex<i64>, value: i64, is_bottom: bool, is_top: bool)
        requires
            old(self)@.wf(),
            old(self)@.spec_can_insert(index) is Some,
            !old(self)@.contains(value),
        ensures
            final(self)@ == old(self)@.spec_insert(index, value, is_top, is_bottom),
            final(self)@.wf(),
    {
        if is_bottom {
            self.is_bounded_at_bottom = true;
        }
        if is_top {
            self.is_bounded_at_top = true;
        }

        match index {
            AsyncListIndex::After(anchor) => {
                let i = self.find_index_of(anchor).unwrap();
                proof {
                    lemma_index_of_distinct(self@.items, anchor, i as int);
                }
                let n = self.item_references.len();
                assert(i < n);
                self.item_references.insert(i + 1, value);
            },
            AsyncListIndex::Before(anchor) => {
                let i = self.find_index_of(anchor).unwrap();
                proof {
                    lemma_index_of_distinct(self@.items, anchor, i as int);
                }
                self.item_references.insert(i, value);
            },
            _ => {
                proof {
                    assert(false);
                }
            },
        }
        proof {
            lemma_insert_distinct(old(self)@.items, self@.items, value);
        }
    }
}

/// Splicing a fresh identifier into a distinct sequence keeps it
/// distinct.
proof fn lemma_insert_distinct(before: Seq<i64>, after: Seq<i64>, value: i64)
    requires
        distinct_seq(before),
        !before.contains(value),
        exists|p: int| 0 <= p <= before.len() && after == before.insert(p, value),
    ensures
        distinct_seq(after),
{
    let p = choose|p: int| 0 <= p <= before.len() && after == before.insert(p, value);
    assert forall|i: int, j: int| 0 <= i < j < after.len() implies after[i] != after[j] by {
        let oi = if i < p { i } else { i - 1 };
        let oj = if j < p { j } else { j - 1 };
        if i == p {
            assert(after[j] == before[oj]);
            assert(before.contains(before[oj]));
        } else if j == p {
            assert(after[i] == before[oi]);
            assert(before.contains(before[oi]));
        } else {
            assert(after[i] == before[oi]);
            assert(after[j] == before[oj]);
        }
    }
}

} // verus!
