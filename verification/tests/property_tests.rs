use std::fmt::Debug;

use scope_cache::async_list::AsyncListIndex;
use scope_cache::async_list::AsyncListResult;
use scope_cache::async_list::ListItem;
use scope_cache::cache::AsyncListCache;
use scope_cache::async_list::AsyncListItem;
use scope_cache::fetch::apply_batch_after;
use scope_cache::fetch::apply_batch_before;
use scope_cache::fetch::apply_batch_bottom;
use scope_cache::fetch::apply_batch_detached_before;
use scope_cache::fetch::fresh_prefix;
use scope_cache::message::IconRenderConfig;
use scope_cache::reaction::MessageReactionType;
use scope_cache::reaction::ReactionEmoji;
use scope_cache::reaction::ReactionOperation;
use scope_cache::refcacheslice::Exists;
use scope_cache::settings::Settings;
use scope_cache::snowflake::Snowflake;

fn expect_yes<I: PartialEq + Eq + Debug>(result: Exists<AsyncListResult<I>>, item: I) {
    if let Exists::Yes(found) = result {
        assert_eq!(found.content, item);
    } else {
        panic!("Expected a definite hit")
    }
}

/// Repeated `find` after `append_bottom` returns the same item no
/// matter how many other appends intervene.
#[test]
fn append_find_is_stable_across_other_appends() {
    let mut cache = AsyncListCache::<ListItem>::new();
    cache.append_bottom(ListItem(7));
    assert_eq!(cache.find(&7), Some(ListItem(7)));
    cache.append_bottom(ListItem(8));
    assert_eq!(cache.find(&7), Some(ListItem(7)));
    cache.append_bottom(ListItem(9));
    cache.append_bottom(ListItem(10));
    assert_eq!(cache.find(&7), Some(ListItem(7)));
    assert_eq!(cache.find(&7), Some(ListItem(7)));
}

/// The bottom bound always follows the most recent append, whatever
/// else was inserted in between.
#[test]
fn bottom_bound_is_unique_across_insertions() {
    let mut cache = AsyncListCache::<ListItem>::new();
    cache.append_bottom(ListItem(0));
    assert_eq!(cache.bounded_at_bottom_by(), Some(0));
    cache.insert_detached(ListItem(100));
    cache.insert(AsyncListIndex::Before(100), ListItem(99), false, false);
    assert_eq!(cache.bounded_at_bottom_by(), Some(0));
    cache.append_bottom(ListItem(1));
    assert_eq!(cache.bounded_at_bottom_by(), Some(1));
    assert_eq!(cache.bounded_at_top_by(), None);
}

/// A position ruled out by both boundary flags is proven absent, while
/// the same query on an unbounded segment only reports missing
/// information.
#[test]
fn no_and_unknown_are_distinguished() {
    let mut bounded = AsyncListCache::<ListItem>::new();
    bounded.append_bottom(ListItem(10));
    bounded.insert(AsyncListIndex::Before(10), ListItem(5), true, false);
    expect_yes(bounded.get(AsyncListIndex::RelativeToBottom(1)), ListItem(5));
    assert!(matches!(bounded.get(AsyncListIndex::RelativeToBottom(2)), Exists::No));
    assert!(matches!(bounded.get(AsyncListIndex::Before(5)), Exists::No));

    let mut bottom_only = AsyncListCache::<ListItem>::new();
    bottom_only.append_bottom(ListItem(10));
    assert!(matches!(bottom_only.get(AsyncListIndex::RelativeToBottom(1)), Exists::Unknown));

    let mut unbounded = AsyncListCache::<ListItem>::new();
    unbounded.insert_detached(ListItem(10));
    assert!(matches!(unbounded.get(AsyncListIndex::RelativeToBottom(1)), Exists::Unknown));
    assert!(matches!(unbounded.get(AsyncListIndex::RelativeToBottom(0)), Exists::Unknown));
}

/// Inserting the middle item of a two-item run places it between its
/// neighbors: both anchored queries answer the new item.
#[test]
fn merge_inside_two_item_segment() {
    let mut cache = AsyncListCache::<ListItem>::new();
    cache.insert_detached(ListItem(100));
    cache.insert(AsyncListIndex::After(100), ListItem(102), false, false);
    cache.insert(AsyncListIndex::After(100), ListItem(101), false, false);

    expect_yes(cache.get(AsyncListIndex::After(100)), ListItem(101));
    expect_yes(cache.get(AsyncListIndex::Before(102)), ListItem(101));
    expect_yes(cache.get(AsyncListIndex::After(101)), ListItem(102));
    expect_yes(cache.get(AsyncListIndex::Before(101)), ListItem(100));
}

/// Five anchored insertions around a detached start merge into the
/// single run `[-2, -1, 0, 1, 2]`.
#[test]
fn scenario_detached_then_anchored_insertions() {
    let mut cache = AsyncListCache::<ListItem>::new();
    cache.insert_detached(ListItem(0));
    cache.insert(AsyncListIndex::After(0), ListItem(2), false, false);
    cache.insert(AsyncListIndex::Before(0), ListItem(-2), false, false);
    cache.insert(AsyncListIndex::After(-2), ListItem(-1), false, false);
    cache.insert(AsyncListIndex::Before(2), ListItem(1), false, false);

    expect_yes(cache.get(AsyncListIndex::After(1)), ListItem(2));
    expect_yes(cache.get(AsyncListIndex::Before(-1)), ListItem(-2));
    expect_yes(cache.get(AsyncListIndex::After(-2)), ListItem(-1));
    expect_yes(cache.get(AsyncListIndex::After(-1)), ListItem(0));
    expect_yes(cache.get(AsyncListIndex::After(0)), ListItem(1));
    expect_yes(cache.get(AsyncListIndex::Before(2)), ListItem(1));
}

/// Bridging two independent runs `[0, 1]` and `[3, 4]` with the item
/// `2`, anchored from the right first, links every neighbor pair.
#[test]
fn scenario_bridge_anchored_from_right() {
    let mut cache = AsyncListCache::<ListItem>::new();
    cache.insert_detached(ListItem(0));
    cache.insert(AsyncListIndex::After(0), ListItem(1), false, false);
    cache.insert_detached(ListItem(3));
    cache.insert(AsyncListIndex::After(3), ListItem(4), false, false);

    cache.insert(AsyncListIndex::Before(3), ListItem(2), false, false);
    cache.insert(AsyncListIndex::After(1), ListItem(2), false, false);

    expect_yes(cache.get(AsyncListIndex::After(0)), ListItem(1));
    expect_yes(cache.get(AsyncListIndex::After(1)), ListItem(2));
    expect_yes(cache.get(AsyncListIndex::After(2)), ListItem(3));
    expect_yes(cache.get(AsyncListIndex::After(3)), ListItem(4));
    expect_yes(cache.get(AsyncListIndex::Before(4)), ListItem(3));
    expect_yes(cache.get(AsyncListIndex::Before(3)), ListItem(2));
    expect_yes(cache.get(AsyncListIndex::Before(2)), ListItem(1));
    expect_yes(cache.get(AsyncListIndex::Before(1)), ListItem(0));
}

/// The same bridge built with the anchor directions swapped answers
/// every neighbor query identically.
#[test]
fn scenario_bridge_anchored_from_left() {
    let mut cache = AsyncListCache::<ListItem>::new();
    cache.insert_detached(ListItem(0));
    cache.insert(AsyncListIndex::After(0), ListItem(1), false, false);
    cache.insert_detached(ListItem(3));
    cache.insert(AsyncListIndex::After(3), ListItem(4), false, false);

    cache.insert(AsyncListIndex::After(1), ListItem(2), false, false);
    cache.insert(AsyncListIndex::Before(3), ListItem(2), false, false);

    expect_yes(cache.get(AsyncListIndex::After(0)), ListItem(1));
    expect_yes(cache.get(AsyncListIndex::After(1)), ListItem(2));
    expect_yes(cache.get(AsyncListIndex::After(2)), ListItem(3));
    expect_yes(cache.get(AsyncListIndex::After(3)), ListItem(4));
    expect_yes(cache.get(AsyncListIndex::Before(4)), ListItem(3));
    expect_yes(cache.get(AsyncListIndex::Before(3)), ListItem(2));
    expect_yes(cache.get(AsyncListIndex::Before(2)), ListItem(1));
    expect_yes(cache.get(AsyncListIndex::Before(1)), ListItem(0));
}

/// An item found by a positional query comes back with the right
/// boundary marks on it.
#[test]
fn get_reports_boundary_flags_of_the_hit() {
    let mut cache = AsyncListCache::<ListItem>::new();
    cache.append_bottom(ListItem(20));
    cache.insert(AsyncListIndex::Before(20), ListItem(19), false, false);
    cache.insert(AsyncListIndex::Before(19), ListItem(18), true, false);

    if let Exists::Yes(result) = cache.get(AsyncListIndex::RelativeToBottom(0)) {
        assert_eq!(result.content, ListItem(20));
        assert!(!result.is_top);
        assert!(result.is_bottom);
    } else {
        panic!("Expected a definite hit")
    }
    if let Exists::Yes(result) = cache.get(AsyncListIndex::RelativeToTop(0)) {
        assert_eq!(result.content, ListItem(18));
        assert!(result.is_top);
        assert!(!result.is_bottom);
    } else {
        panic!("Expected a definite hit")
    }
}

/// A most-recent batch (newest first) lands in bottom-up order; a
/// short batch proves the oldest item is the true start.
#[test]
fn batch_bottom_marks_both_edges_when_short() {
    let mut cache = AsyncListCache::<ListItem>::new();
    let batch = vec![ListItem(30), ListItem(20), ListItem(10)];
    apply_batch_bottom(&mut cache, &batch, 5);

    assert_eq!(cache.bounded_at_bottom_by(), Some(30));
    assert_eq!(cache.bounded_at_top_by(), Some(10));
    expect_yes(cache.get(AsyncListIndex::RelativeToBottom(0)), ListItem(30));
    expect_yes(cache.get(AsyncListIndex::RelativeToBottom(1)), ListItem(20));
    expect_yes(cache.get(AsyncListIndex::RelativeToBottom(2)), ListItem(10));
    expect_yes(cache.get(AsyncListIndex::RelativeToTop(0)), ListItem(10));
    assert!(matches!(cache.get(AsyncListIndex::Before(10)), Exists::No));
    assert!(matches!(cache.get(AsyncListIndex::After(30)), Exists::No));
}

/// A full batch of older items extends the run without proving any
/// boundary.
#[test]
fn batch_before_full_leaves_top_open() {
    let mut cache = AsyncListCache::<ListItem>::new();
    cache.insert_detached(ListItem(50));
    let batch = vec![ListItem(40), ListItem(30)];
    apply_batch_before(&mut cache, 50, &batch, 2);

    expect_yes(cache.get(AsyncListIndex::Before(50)), ListItem(40));
    expect_yes(cache.get(AsyncListIndex::Before(40)), ListItem(30));
    assert!(matches!(cache.get(AsyncListIndex::Before(30)), Exists::Unknown));
    assert_eq!(cache.bounded_at_top_by(), None);
}

/// A short batch of newer items proves the newest one is the true end.
#[test]
fn batch_after_short_closes_the_bottom() {
    let mut cache = AsyncListCache::<ListItem>::new();
    cache.insert_detached(ListItem(50));
    let batch = vec![ListItem(60), ListItem(70)];
    apply_batch_after(&mut cache, 50, &batch, 3);

    expect_yes(cache.get(AsyncListIndex::After(50)), ListItem(60));
    expect_yes(cache.get(AsyncListIndex::After(60)), ListItem(70));
    assert!(matches!(cache.get(AsyncListIndex::After(70)), Exists::No));
    assert_eq!(cache.bounded_at_bottom_by(), Some(70));
    expect_yes(cache.get(AsyncListIndex::RelativeToBottom(2)), ListItem(50));
}

/// An empty batch changes nothing.
#[test]
fn batch_bottom_empty_is_a_no_op() {
    let mut cache = AsyncListCache::<ListItem>::new();
    cache.insert_detached(ListItem(1));
    let batch: Vec<ListItem> = vec![];
    apply_batch_bottom(&mut cache, &batch, 5);
    assert_eq!(cache.find(&1), Some(ListItem(1)));
    assert_eq!(cache.bounded_at_bottom_by(), None);
}

#[test]
fn icon_render_config_sizes() {
    assert_eq!(IconRenderConfig::small().size(), 32);
    assert_eq!(IconRenderConfig::default().size(), 1024);
    assert_eq!(IconRenderConfig::small().with_size(64).size(), 64);
}

#[test]
fn settings_start_without_token() {
    let settings = Settings::new();
    assert!(settings.token.is_none());
}

#[test]
fn snowflake_from_u64_keeps_the_value() {
    let flake = Snowflake::from(123456789u64);
    assert_eq!(flake.0, 123456789u64);
    assert_eq!(flake, Snowflake(123456789));
}

#[test]
fn reaction_values_compare_by_content() {
    let simple = ReactionEmoji::Simple(String::from("thumbs"));
    assert_eq!(simple, ReactionEmoji::Simple(String::from("thumbs")));
    let custom = ReactionEmoji::Custom {
        url: String::from("https://example.invalid/e.png"),
        animated: false,
        name: Some(String::from("party")),
        id: 42,
    };
    assert_ne!(simple, custom);
    let op = ReactionOperation::Add(custom.clone(), MessageReactionType::Burst);
    assert!(matches!(op, ReactionOperation::Add(_, MessageReactionType::Burst)));
}

/// An item whose payload is more than its identifier, for observing
/// payload overwrites.
#[derive(Clone, Copy, PartialEq, Eq, Debug)]
struct NotedItem {
    id: i64,
    note: u8,
}

impl AsyncListItem for NotedItem {
    fn list_identifier(&self) -> i64 {
        self.id
    }

    fn get_list_identifier(&self) -> i64 {
        self.id
    }

    fn duplicate(&self) -> Self {
        *self
    }
}

/// Re-inserting an identifier at exactly its recorded position
/// overwrites the payload and moves nothing.
#[test]
fn reinsert_at_same_position_overwrites_payload() {
    let mut cache = AsyncListCache::<NotedItem>::new();
    cache.insert_detached(NotedItem { id: 1, note: 10 });
    cache.insert(AsyncListIndex::After(1), NotedItem { id: 2, note: 20 }, false, false);

    cache.insert(AsyncListIndex::After(1), NotedItem { id: 2, note: 21 }, false, false);

    assert_eq!(cache.find(&2), Some(NotedItem { id: 2, note: 21 }));
    if let Exists::Yes(found) = cache.get(AsyncListIndex::After(1)) {
        assert_eq!(found.content, NotedItem { id: 2, note: 21 });
    } else {
        panic!("Expected a definite hit")
    }
    if let Exists::Yes(found) = cache.get(AsyncListIndex::Before(2)) {
        assert_eq!(found.content, NotedItem { id: 1, note: 10 });
    } else {
        panic!("Expected a definite hit")
    }
}

/// A bridging insertion joins the runs: the merged window answers a
/// bound-relative query end to end once an edge is known.
#[test]
fn bridge_merges_the_two_runs() {
    let mut cache = AsyncListCache::<ListItem>::new();
    cache.append_bottom(ListItem(4));
    cache.insert(AsyncListIndex::Before(4), ListItem(3), false, false);
    cache.insert_detached(ListItem(0));
    cache.insert(AsyncListIndex::After(0), ListItem(1), false, false);

    cache.insert(AsyncListIndex::After(1), ListItem(2), false, false);
    cache.insert(AsyncListIndex::Before(3), ListItem(2), false, false);

    expect_yes(cache.get(AsyncListIndex::RelativeToBottom(0)), ListItem(4));
    expect_yes(cache.get(AsyncListIndex::RelativeToBottom(2)), ListItem(2));
    expect_yes(cache.get(AsyncListIndex::RelativeToBottom(4)), ListItem(0));
}

/// A zero-length answer to a directional fetch proves the anchor's
/// segment touches the true edge in that direction.
#[test]
fn empty_batch_marks_the_edge() {
    let mut cache = AsyncListCache::<ListItem>::new();
    cache.insert_detached(ListItem(0));
    let empty: Vec<ListItem> = vec![];
    apply_batch_before(&mut cache, 0, &empty, 4);
    assert_eq!(cache.bounded_at_top_by(), Some(0));
    assert!(matches!(cache.get(AsyncListIndex::Before(0)), Exists::No));

    apply_batch_after(&mut cache, 0, &empty, 4);
    assert_eq!(cache.bounded_at_bottom_by(), Some(0));
    assert!(matches!(cache.get(AsyncListIndex::After(0)), Exists::No));
}

/// A single-item short bottom batch is the whole history: both edges
/// become known.
#[test]
fn single_item_short_bottom_batch_bounds_both_edges() {
    let mut cache = AsyncListCache::<ListItem>::new();
    let batch = vec![ListItem(5)];
    apply_batch_bottom(&mut cache, &batch, 4);
    assert_eq!(cache.bounded_at_top_by(), Some(5));
    assert_eq!(cache.bounded_at_bottom_by(), Some(5));
    assert!(matches!(cache.get(AsyncListIndex::Before(5)), Exists::No));
    assert!(matches!(cache.get(AsyncListIndex::After(5)), Exists::No));
}

/// The usable prefix of a fetched batch stops at the first identifier
/// the index already knows or the first repeat.
#[test]
fn fresh_prefix_stops_at_known_data() {
    let mut cache = AsyncListCache::<ListItem>::new();
    cache.insert_detached(ListItem(10));
    let batch = vec![ListItem(9), ListItem(8), ListItem(10), ListItem(7)];
    let prefix = fresh_prefix(&cache, &batch);
    assert_eq!(prefix, vec![ListItem(9), ListItem(8)]);

    let with_repeat = vec![ListItem(6), ListItem(6)];
    let prefix = fresh_prefix(&cache, &with_repeat);
    assert_eq!(prefix, vec![ListItem(6)]);
}

/// A fetched batch whose tail reaches a known window: the fresh part
/// is applied without an edge signal and the seam is closed with one
/// bridging insertion.
#[test]
fn truncated_batch_bridges_at_the_seam() {
    let mut cache = AsyncListCache::<ListItem>::new();
    cache.insert_detached(ListItem(0));
    cache.insert(AsyncListIndex::After(0), ListItem(1), false, false);
    cache.insert_detached(ListItem(4));
    cache.insert(AsyncListIndex::After(4), ListItem(5), false, false);

    // The remote answers a Before(4) fetch with [3, 2, 1, 0]; only
    // [3, 2] is new, so the shortened batch must not look like an
    // edge signal.
    let batch = vec![ListItem(3), ListItem(2), ListItem(1), ListItem(0)];
    let prefix = fresh_prefix(&cache, &batch);
    assert_eq!(prefix, vec![ListItem(3), ListItem(2)]);
    let truncated = prefix.len() < batch.len();
    let limit = if truncated { prefix.len() } else { 4 };
    apply_batch_before(&mut cache, 4, &prefix, limit);
    assert_eq!(cache.bounded_at_top_by(), None);

    // The seam: the next step before the oldest applied item lands on
    // the known window's tail, which bridges the two runs.
    let seam = batch[prefix.len()];
    let oldest = prefix[prefix.len() - 1].0;
    assert!(cache.is_positioned(seam.0));
    assert!(cache.bridges_at(AsyncListIndex::Before(oldest), seam.0));
    cache.insert(AsyncListIndex::Before(oldest), seam, false, false);

    expect_yes(cache.get(AsyncListIndex::After(1)), ListItem(2));
    expect_yes(cache.get(AsyncListIndex::Before(2)), ListItem(1));
    expect_yes(cache.get(AsyncListIndex::After(0)), ListItem(1));
    expect_yes(cache.get(AsyncListIndex::After(3)), ListItem(4));
}

/// A fetch for an anchor the cache does not know opens a new detached
/// window; a short batch still proves the true start.
#[test]
fn detached_batch_opens_a_new_window() {
    let mut cache = AsyncListCache::<ListItem>::new();
    cache.insert_detached(ListItem(50));
    let batch = vec![ListItem(20), ListItem(19)];
    apply_batch_detached_before(&mut cache, &batch, 4);

    expect_yes(cache.get(AsyncListIndex::Before(20)), ListItem(19));
    expect_yes(cache.get(AsyncListIndex::After(19)), ListItem(20));
    assert!(matches!(cache.get(AsyncListIndex::Before(19)), Exists::No));
    assert_eq!(cache.bounded_at_top_by(), Some(19));
    assert_eq!(cache.find(&50), Some(ListItem(50)));
    assert!(matches!(cache.get(AsyncListIndex::After(20)), Exists::Unknown));
}
