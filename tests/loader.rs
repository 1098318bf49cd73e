use newsfeed::cache::ItemCache;
use newsfeed::feed::Feed;
use newsfeed::item::{FetchError, Item, ItemId};
use newsfeed::pages::{Category, PageList, PageWindow};

fn item(id: usize, kids: &[usize]) -> Item {
    let mut item = Item::blank(ItemId(id), 1_700_000_000);
    item.kids = kids.iter().map(|&k| ItemId(k)).collect();
    item
}

fn ids(range: std::ops::Range<usize>) -> Vec<ItemId> {
    range.map(ItemId).collect()
}

#[test]
fn ensure_twice_issues_one_fetch() {
    let mut cache = ItemCache::new();
    assert!(cache.ensure(ItemId(7)));
    assert!(!cache.ensure(ItemId(7)));
    assert!(cache.is_pending(ItemId(7)));
}

#[test]
fn shared_child_is_fetched_once() {
    let mut cache = ItemCache::new();
    cache.ensure(ItemId(1));
    cache.ensure(ItemId(2));
    cache.resolve(ItemId(1), Ok(item(1, &[3])));
    cache.resolve(ItemId(2), Ok(item(2, &[3])));
    let story = item(0, &[1, 2]);
    let mut issued = Vec::new();
    assert!(!cache.ensure_loaded(&story, &mut issued));
    assert_eq!(issued, vec![ItemId(3)]);
}

#[test]
fn evict_resolved_root_takes_its_subtree() {
    let mut cache = ItemCache::new();
    for id in [10, 11, 12, 13, 99] {
        cache.ensure(ItemId(id));
    }
    cache.resolve(ItemId(10), Ok(item(10, &[11, 12])));
    cache.resolve(ItemId(12), Ok(item(12, &[13])));
    cache.evict_subtree(ItemId(10));
    for id in [10, 11, 12, 13] {
        assert!(!cache.contains(ItemId(id)));
    }
    assert!(cache.contains(ItemId(99)));
}

#[test]
fn evict_pending_root_takes_only_the_root() {
    let mut cache = ItemCache::new();
    cache.ensure(ItemId(1));
    cache.ensure(ItemId(2));
    cache.evict_subtree(ItemId(1));
    assert!(!cache.contains(ItemId(1)));
    assert!(cache.contains(ItemId(2)));
}

#[test]
fn evict_failed_root_keeps_other_entries() {
    let mut cache = ItemCache::new();
    cache.ensure(ItemId(1));
    cache.ensure(ItemId(2));
    cache.resolve(ItemId(1), Err(FetchError::Missing));
    assert!(cache.failure(ItemId(1)).is_some());
    cache.evict_subtree(ItemId(1));
    assert!(!cache.contains(ItemId(1)));
    assert!(cache.contains(ItemId(2)));
}

#[test]
fn eviction_stops_on_a_cycle() {
    let mut cache = ItemCache::new();
    cache.ensure(ItemId(1));
    cache.ensure(ItemId(2));
    cache.resolve(ItemId(1), Ok(item(1, &[2])));
    cache.resolve(ItemId(2), Ok(item(2, &[1])));
    cache.evict_subtree(ItemId(1));
    assert!(!cache.contains(ItemId(1)));
    assert!(!cache.contains(ItemId(2)));
}

#[test]
fn page_window_past_the_end_is_empty() {
    let window = PageWindow { index: 3, size: 15 };
    assert_eq!(window.visible_ids(&ids(0..40)), Vec::<ItemId>::new());
    assert_eq!(window.visible_ids(&ids(0..50)), ids(45..50));
    assert_eq!(window.range(50), (45, 50));
}

#[test]
fn page_window_navigation() {
    let mut window = PageWindow::new(15);
    window.retreat();
    assert_eq!(window.index, 0);
    window.advance();
    window.advance();
    assert_eq!(window.index, 2);
    window.retreat();
    assert_eq!(window.index, 1);
    window.reset();
    assert_eq!(window.index, 0);
    assert_eq!(window.visible_ids(&ids(0..20)), ids(0..15));
}

#[test]
fn page_list_goes_through_loading() {
    let mut pages = PageList::Loading;
    pages.fetched(Ok(ids(0..3)));
    assert!(matches!(&pages, PageList::Done(v) if v.len() == 3));
    pages.fetched(Err("late".to_string()));
    assert!(matches!(&pages, PageList::Done(_)));
    pages.restart();
    assert!(pages.is_loading());
    pages.fetched(Err("down".to_string()));
    assert!(matches!(&pages, PageList::Failed(e) if e == "down"));
    pages.fetched(Ok(ids(0..1)));
    assert!(matches!(&pages, PageList::Failed(_)));
}

fn depth_three(first_sibling_first: bool) {
    // 0 -> [1, 2]; 1 -> [3]; 2 -> [4]; 3 -> [5]; 4 -> []; 5 -> []
    let tree: Vec<(usize, Vec<usize>)> = vec![
        (1, vec![3]),
        (2, vec![4]),
        (3, vec![5]),
        (4, vec![]),
        (5, vec![]),
    ];
    let kids_of = |id: usize| tree.iter().find(|(i, _)| *i == id).unwrap().1.clone();
    let root = item(0, &[1, 2]);
    let mut cache = ItemCache::new();
    let mut results = Vec::new();
    for tick in 0..4 {
        let mut issued = Vec::new();
        results.push(cache.ensure_loaded(&root, &mut issued));
        if !first_sibling_first {
            issued.reverse();
        }
        for id in issued {
            cache.resolve(id, Ok(item(id.0, &kids_of(id.0))));
        }
        let _ = tick;
    }
    assert_eq!(results, vec![false, false, false, true]);
}

#[test]
fn tree_loads_one_level_per_tick() {
    depth_three(true);
    depth_three(false);
}

fn settle(resolve_child_first: bool) -> Vec<(usize, bool)> {
    let mut cache = ItemCache::new();
    cache.ensure(ItemId(1));
    cache.ensure(ItemId(2));
    if resolve_child_first {
        cache.resolve(ItemId(2), Ok(item(2, &[])));
        cache.resolve(ItemId(1), Ok(item(1, &[2])));
    } else {
        cache.resolve(ItemId(1), Ok(item(1, &[2])));
        cache.resolve(ItemId(2), Ok(item(2, &[])));
    }
    let root = item(0, &[1]);
    let mut issued = Vec::new();
    assert!(cache.ensure_loaded(&root, &mut issued));
    assert!(issued.is_empty());
    (0..4)
        .map(|i| (i, cache.get(ItemId(i)).map(|it| it.kids.clone()) == Some(if i == 1 { vec![ItemId(2)] } else { vec![] })))
        .collect()
}

#[test]
fn resolution_order_does_not_change_the_cache() {
    assert_eq!(settle(true), settle(false));
}

#[test]
fn failed_child_does_not_block_completion() {
    let mut cache = ItemCache::new();
    let root = item(0, &[1, 2]);
    let mut issued = Vec::new();
    assert!(!cache.ensure_loaded(&root, &mut issued));
    cache.resolve(ItemId(1), Err(FetchError::Network("timeout".to_string())));
    cache.resolve(ItemId(2), Ok(item(2, &[])));
    let mut issued = Vec::new();
    assert!(cache.ensure_loaded(&root, &mut issued));
    assert!(issued.is_empty());
    assert!(!cache.any_pending());
}

#[test]
fn feed_asks_for_the_visible_page() {
    let mut feed = Feed::new(2);
    assert!(feed.any_pending());
    feed.list_fetched(Ok(ids(100..105)));
    let mut issued = Vec::new();
    assert!(feed.tick(&mut issued));
    assert_eq!(issued, ids(100..102));
    assert_eq!(feed.visible(), ids(100..102));
    assert!(feed.visible_pending());
    let mut again = Vec::new();
    feed.tick(&mut again);
    assert!(again.is_empty());
    assert!(!feed.next_page());
    feed.item_fetched(ItemId(100), Ok(item(100, &[])));
    feed.item_fetched(ItemId(101), Ok(item(101, &[7])));
    assert!(!feed.visible_pending());
    assert!(feed.next_page());
    assert_eq!(feed.window.index, 1);
    feed.go_back();
    assert_eq!(feed.window.index, 0);
}

#[test]
fn feed_loads_the_open_story_and_refreshes_it() {
    let mut feed = Feed::new(15);
    feed.list_fetched(Ok(ids(1..2)));
    let mut issued = Vec::new();
    feed.tick(&mut issued);
    feed.item_fetched(ItemId(1), Ok(item(1, &[5, 6])));
    feed.open_item(ItemId(1));
    let mut issued = Vec::new();
    assert!(!feed.tick(&mut issued));
    assert_eq!(issued.len(), 2);
    feed.item_fetched(ItemId(5), Ok(item(5, &[])));
    feed.item_fetched(ItemId(6), Ok(item(6, &[])));
    let mut issued = Vec::new();
    assert!(feed.tick(&mut issued));
    assert!(!feed.refresh());
    assert!(!feed.cache.contains(ItemId(1)));
    assert!(!feed.cache.contains(ItemId(5)));
    feed.go_back();
    assert!(feed.open.is_none());
    assert!(feed.refresh());
    assert!(feed.pages.is_loading());
}

#[test]
fn switching_category_starts_over() {
    let mut feed = Feed::new(15);
    feed.list_fetched(Ok(ids(1..3)));
    let mut issued = Vec::new();
    feed.tick(&mut issued);
    assert!(!feed.switch_category(Category::Top));
    assert!(feed.switch_category(Category::Ask));
    assert_eq!(feed.category.endpoint_prefix(), "ask");
    assert!(feed.pages.is_loading());
    assert!(!feed.cache.contains(ItemId(1)));
    assert_eq!(Category::Jobs.endpoint_prefix(), "job");
}
