use vstd::prelude::*;
use crate::cache::{
    child_of, children_of, distinct_ids, ids_of, loaded_kids, reach_set, reach_within, reached_from,
    reaches, settled, with_pending, ItemCache, Slot,
};
use crate::item::{FetchError, Item, ItemId};
use crate::pages::{window_end, window_start, Category, PageList, PageWindow};

verus! {

/// The ids on screen: the current page of the ranked list once it arrived.
pub open spec fn visible_of(pages: PageList, window: PageWindow) -> Seq<ItemId> {
    match pages {
        PageList::Done(ids) => ids@.subrange(
            window_start(ids@.len() as int, window.index as int, window.size as int),
            window_end(ids@.len() as int, window.index as int, window.size as int),
        ),
        _ => Seq::empty(),
    }
}

/// The cache after a tick has asked for the ids on screen.
pub open spec fn with_visible(m: Map<usize, Slot>, visible: Seq<ItemId>) -> Map<usize, Slot> {
    with_pending(m, ids_of(visible))
}

/// The key of the open item; zero when none is open.
pub open spec fn open_key(open: Option<ItemId>) -> usize {
    match open {
        Some(id) => id.0,
        None => 0,
    }
}

/// An item is open and has resolved in `m`.
pub open spec fn open_loaded(m: Map<usize, Slot>, open: Option<ItemId>) -> bool {
    open is Some && m.contains_key(open_key(open)) && m[open_key(open)] is Loaded
}

/// The cache after a tick: the ids on screen are asked for, then the
/// comment tree of the open item, once that item has resolved.
pub open spec fn after_tick(m: Map<usize, Slot>, visible: Seq<ItemId>, open: Option<ItemId>) -> Map<
    usize,
    Slot,
> {
    let m1 = with_visible(m, visible);
    if open_loaded(m1, open) {
        with_pending(m1, reached_from(m1, loaded_kids(m1, open_key(open))))
    } else {
        m1
    }
}

/// Adding pending entries changes no item's children.
proof fn lemma_pending_keeps_kids(m: Map<usize, Slot>, s: Set<usize>, y: usize)
    ensures
        loaded_kids(with_pending(m, s), y) == loaded_kids(m, y),
{
}

/// Two caches that agree on every item's children reach the same ids.
proof fn lemma_same_kids_same_reach(a: Map<usize, Slot>, b: Map<usize, Slot>, roots: Seq<ItemId>, n: nat)
    requires
        forall|y: usize| loaded_kids(a, y) == loaded_kids(b, y),
    ensures
        reach_set(a, roots, n) == reach_set(b, roots, n),
    decreases n,
{
    if n > 0 {
        lemma_same_kids_same_reach(a, b, roots, (n - 1) as nat);
        let prev = reach_set(a, roots, (n - 1) as nat);
        assert forall|x: usize| children_of(a, prev).contains(x) == children_of(b, prev).contains(x) by {
            if children_of(a, prev).contains(x) {
                let y = choose|y: usize| #[trigger] prev.contains(y) && child_of(a, y, x);
                assert(loaded_kids(a, y) == loaded_kids(b, y));
            }
            if children_of(b, prev).contains(x) {
                let y = choose|y: usize| #[trigger] prev.contains(y) && child_of(b, y, x);
                assert(loaded_kids(a, y) == loaded_kids(b, y));
            }
        }
        assert(children_of(a, prev) =~= children_of(b, prev));
    }
}

/// A tick on a cache that nothing changed since the last one asks for
/// nothing more: the cache stays as it is.
pub proof fn lemma_tick_idempotent(m: Map<usize, Slot>, visible: Seq<ItemId>, open: Option<ItemId>)
    ensures
        after_tick(after_tick(m, visible, open), visible, open) == after_tick(m, visible, open),
{
    let m1 = with_visible(m, visible);
    let t = after_tick(m, visible, open);
    let t1 = with_visible(t, visible);
    assert(t1 =~= t);
    if open_loaded(m1, open) {
        let key = open_key(open);
        let kids = loaded_kids(m1, key);
        let r = reached_from(m1, kids);
        assert forall|y: usize| loaded_kids(t, y) == loaded_kids(m1, y) by {
            lemma_pending_keeps_kids(m1, r, y);
        }
        assert(open_loaded(t1, open));
        assert(loaded_kids(t1, key) == kids);
        assert forall|x: usize| reached_from(t1, kids).contains(x) == r.contains(x) by {
            if reaches(t1, kids, x) {
                let n = choose|n: nat| #[trigger] reach_within(t1, kids, x, n);
                lemma_same_kids_same_reach(t1, m1, kids, n);
                assert(reach_within(m1, kids, x, n));
            }
            if reaches(m1, kids, x) {
                let n = choose|n: nat| #[trigger] reach_within(m1, kids, x, n);
                lemma_same_kids_same_reach(t1, m1, kids, n);
                assert(reach_within(t1, kids, x, n));
            }
        }
        assert(reached_from(t1, kids) =~= r);
        assert(with_pending(t1, r) =~= t);
    } else {
        assert(!open_loaded(t1, open));
    }
}

/// Everything the reader sees, and what it has asked for.
pub struct Feed {
    pub cache: ItemCache,
    pub pages: PageList,
    pub category: Category,
    pub window: PageWindow,
    /// The item whose comments are shown; none while the list is shown.
    pub open: Option<ItemId>,
}

impl Feed {
    pub open spec fn wf(&self) -> bool {
        self.cache.wf()
    }

    /// The top stories, first page, with `page_size` entries a page; the
    /// caller issues the fetch of that ranked list.
    pub fn new(page_size: usize) -> (r: Self)
        ensures
            r.wf(),
            r.cache@ == Map::<usize, Slot>::empty(),
            r.pages is Loading,
            r.category == Category::Top,
            r.window.index == 0,
            r.window.size == page_size,
            r.open is None,
    {
        Feed {
            cache: ItemCache::new(),
            pages: PageList::Loading,
            category: Category::Top,
            window: PageWindow::new(page_size),
            open: None,
        }
    }

    /// Records that the fetch of the ranked list finished.
    pub fn list_fetched(&mut self, outcome: Result<Vec<ItemId>, String>)
        requires
            old(self).wf(),
        ensures
            final(self).wf(),
            final(self).pages == crate::pages::page_step(
                old(self).pages,
                crate::pages::PageEvent::Fetched(outcome),
            ),
            final(self).cache@ == old(self).cache@,
            final(self).category == old(self).category,
            final(self).window == old(self).window,
            final(self).open == old(self).open,
    {
        self.pages.fetched(outcome);
    }

    /// Records that the fetch of item `id` finished.
    pub fn item_fetched(&mut self, id: ItemId, outcome: Result<Item, FetchError>)
        requires
            old(self).wf(),
        ensures
            final(self).wf(),
            final(self).cache@ == crate::cache::resolved(old(self).cache@, id.0, outcome),
            final(self).pages == old(self).pages,
            final(self).category == old(self).category,
            final(self).window == old(self).window,
            final(self).open == old(self).open,
    {
        self.cache.resolve(id, outcome);
    }

    /// One step of the reader: asks for the ids on screen, then for the
    /// comment tree of the open item once it has resolved. The ids whose
    /// fetch the caller must issue are appended to `issued`, each once.
    /// Returns whether the open item's comment tree has finished loading
    /// (true when nothing is open, or the open item has not resolved).
    pub fn tick(&mut self, issued: &mut Vec<ItemId>) -> (complete: bool)
        requires
            old(self).wf(),
        ensures
            final(self).wf(),
            final(self).cache@ == after_tick(
                old(self).cache@,
                visible_of(old(self).pages, old(self).window),
                old(self).open,
            ),
            complete == ({
                let m1 = with_visible(old(self).cache@, visible_of(old(self).pages, old(self).window));
                open_loaded(m1, old(self).open) ==> settled(
                    m1,
                    reached_from(m1, loaded_kids(m1, open_key(old(self).open))),
                )
            }),
            final(self).pages == old(self).pages,
            final(self).category == old(self).category,
            final(self).window == old(self).window,
            final(self).open == old(self).open,
            final(issued)@.len() >= old(issued)@.len(),
            final(issued)@.subrange(0, old(issued)@.len() as int) == old(issued)@,
            distinct_ids(final(issued)@.skip(old(issued)@.len() as int)),
            ids_of(final(issued)@.skip(old(issued)@.len() as int)) == final(self).cache@.dom().difference(
                old(self).cache@.dom(),
            ),
    {
        let ghost m0 = self.cache@;
        let ghost start = issued@.len();
        let mut visible: Vec<ItemId> = Vec::new();
        if let PageList::Done(ids) = &self.pages {
            visible = self.window.visible_ids(ids);
        }
        assert(visible@ == visible_of(self.pages, self.window));
        let mut i: usize = 0;
        proof {
            assert(self.cache@ =~= with_pending(m0, ids_of(visible@.subrange(0, 0))));
            assert(issued@.skip(start as int) =~= Seq::<ItemId>::empty());
            assert(issued@.subrange(0, start as int) == issued@);
        }
        while i < visible.len()
            invariant
                self.wf(),
                self.pages == old(self).pages,
                self.window == old(self).window,
                self.open == old(self).open,
                self.category == old(self).category,
                0 <= i <= visible@.len(),
                start == old(issued)@.len(),
                m0 == old(self).cache@,
                self.cache@ == with_pending(m0, ids_of(visible@.subrange(0, i as int))),
                issued@.len() >= start,
                issued@.subrange(0, start as int) == old(issued)@,
                distinct_ids(issued@.skip(start as int)),
                ids_of(issued@.skip(start as int)) == self.cache@.dom().difference(m0.dom()),
            decreases visible@.len() - i,
        {
            let id = visible[i];
            let ghost before = issued@;
            let ghost mi = self.cache@;
            let fresh = self.cache.ensure(id);
            if fresh {
                issued.push(id);
            }
            proof {
                let pre = visible@.subrange(0, i as int);
                let post = visible@.subrange(0, i + 1);
                assert(post == pre.push(id));
                assert forall|x: usize| ids_of(post).contains(x) == (ids_of(pre).contains(x) || x
                    == id.0) by {
                    if ids_of(post).contains(x) {
                        let k = choose|k: int| 0 <= k < post.len() && #[trigger] post[k].0 == x;
                        if k < pre.len() {
                            assert(pre[k].0 == x);
                        }
                    }
                    if ids_of(pre).contains(x) {
                        let k = choose|k: int| 0 <= k < pre.len() && #[trigger] pre[k].0 == x;
                        assert(post[k].0 == x);
                    }
                    if x == id.0 {
                        assert(post[i as int].0 == x);
                    }
                }
                assert(self.cache@ =~= with_pending(m0, ids_of(post)));
                if fresh {
                    assert(issued@.subrange(0, start as int) == before.subrange(0, start as int));
                    assert(issued@.skip(start as int) == before.skip(start as int).push(id));
                    assert(!mi.contains_key(id.0));
                    assert(!ids_of(before.skip(start as int)).contains(id.0));
                    assert forall|x: usize| ids_of(issued@.skip(start as int)).contains(x) == (ids_of(
                        before.skip(start as int),
                    ).contains(x) || x == id.0) by {
                        let s0 = before.skip(start as int);
                        let s1 = issued@.skip(start as int);
                        if ids_of(s1).contains(x) {
                            let k = choose|k: int| 0 <= k < s1.len() && #[trigger] s1[k].0 == x;
                            if k < s0.len() {
                                assert(s0[k].0 == x);
                            }
                        }
                        if ids_of(s0).contains(x) {
                            let k = choose|k: int| 0 <= k < s0.len() && #[trigger] s0[k].0 == x;
                            assert(s1[k].0 == x);
                        }
                        if x == id.0 {
                            assert(s1[s0.len() as int].0 == x);
                        }
                    }
                    assert(self.cache@.dom() =~= mi.dom().insert(id.0));
                    assert(!m0.dom().contains(id.0));
                    assert(ids_of(before.skip(start as int)) == mi.dom().difference(m0.dom()));
                    assert forall|x: usize| ids_of(issued@.skip(start as int)).contains(x)
                        == self.cache@.dom().difference(m0.dom()).contains(x) by {
                        assert(ids_of(before.skip(start as int)).contains(x) == mi.dom().difference(
                            m0.dom(),
                        ).contains(x));
                    }
                    assert(ids_of(issued@.skip(start as int)) =~= self.cache@.dom().difference(
                        m0.dom(),
                    ));
                } else {
                    assert(self.cache@ == mi);
                }
            }
            i += 1;
        }
        proof {
            assert(visible@.subrange(0, visible@.len() as int) == visible@);
        }
        let ghost m1 = self.cache@;
        let ghost mid = issued@;
        assert(m1 == with_visible(m0, visible_of(old(self).pages, old(self).window)));
        let mut complete = true;
        if let Some(id) = self.open {
            let mut kids: Vec<ItemId> = Vec::new();
            let mut loaded = false;
            if let Some(item) = self.cache.get(id) {
                kids = copy_ids(&item.kids);
                loaded = true;
            }
            assert(loaded == open_loaded(m1, self.open));
            if loaded {
                assert(kids@ == loaded_kids(m1, id.0));
                complete = self.cache.ensure_descendants(&kids, issued);
                proof {
                    let s0 = mid.skip(start as int);
                    let s1 = issued@.skip(start as int);
                    let s2 = issued@.skip(mid.len() as int);
                    assert(mid.subrange(0, start as int) == old(issued)@);
                    assert(issued@.subrange(0, mid.len() as int) == mid);
                    assert(s1 == s0 + s2);
                    assert forall|x: usize| ids_of(s1).contains(x) == (ids_of(s0).contains(x)
                        || ids_of(s2).contains(x)) by {
                        if ids_of(s1).contains(x) {
                            let k = choose|k: int| 0 <= k < s1.len() && #[trigger] s1[k].0 == x;
                            if k < s0.len() {
                                assert(s0[k].0 == x);
                            } else {
                                assert(s2[k - s0.len()].0 == x);
                            }
                        }
                        if ids_of(s0).contains(x) {
                            let k = choose|k: int| 0 <= k < s0.len() && #[trigger] s0[k].0 == x;
                            assert(s1[k].0 == x);
                        }
                        if ids_of(s2).contains(x) {
                            let k = choose|k: int| 0 <= k < s2.len() && #[trigger] s2[k].0 == x;
                            assert(s1[s0.len() + k].0 == x);
                        }
                    }
                    assert(ids_of(s2) =~= self.cache@.dom().difference(m1.dom()));
                    assert(ids_of(s1) =~= self.cache@.dom().difference(m0.dom()));
                    assert forall|a: int, b: int| 0 <= a < b < s1.len() implies s1[a].0 != s1[b].0 by {
                        if b < s0.len() {
                            assert(s0[a] == s1[a] && s0[b] == s1[b]);
                        } else if a >= s0.len() {
                            assert(s2[a - s0.len()] == s1[a] && s2[b - s0.len()] == s1[b]);
                        } else {
                            assert(ids_of(s0).contains(s1[a].0)) by {
                                assert(s0[a] == s1[a]);
                            }
                            assert(ids_of(s2).contains(s1[b].0)) by {
                                assert(s2[b - s0.len()] == s1[b]);
                            }
                        }
                    }
                }
            }
        }
        complete
    }

    /// The ids on screen, in their ranked order.
    pub fn visible(&self) -> (r: Vec<ItemId>)
        ensures
            r@ == visible_of(self.pages, self.window),
    {
        match &self.pages {
            PageList::Done(ids) => self.window.visible_ids(ids),
            _ => Vec::new(),
        }
    }

    /// Whether anything is in flight: the ranked list or any item.
    pub fn any_pending(&self) -> (r: bool)
        requires
            self.wf(),
        ensures
            r == (self.pages is Loading || exists|k: usize|
                self.cache@.contains_key(k) && #[trigger] self.cache@[k] is Pending),
    {
        self.pages.is_loading() || self.cache.any_pending()
    }

    /// Whether an item on screen is still in flight.
    pub fn visible_pending(&self) -> (r: bool)
        requires
            self.wf(),
        ensures
            r == exists|i: int|
                0 <= i < visible_of(self.pages, self.window).len() && {
                    let k = #[trigger] visible_of(self.pages, self.window)[i].0;
                    self.cache@.contains_key(k) && self.cache@[k] is Pending
                },
    {
        if let PageList::Done(ids) = &self.pages {
            let visible = self.window.visible_ids(ids);
            let mut i: usize = 0;
            while i < visible.len()
                invariant
                    0 <= i <= visible@.len(),
                    visible@ == visible_of(self.pages, self.window),
                    forall|j: int|
                        0 <= j < i ==> !{
                            let k = #[trigger] visible@[j].0;
                            self.cache@.contains_key(k) && self.cache@[k] is Pending
                        },
                decreases visible@.len() - i,
            {
                if self.cache.is_pending(visible[i]) {
                    return true;
                }
                i += 1;
            }
        }
        false
    }

    /// Shows the comments of `id`.
    pub fn open_item(&mut self, id: ItemId)
        ensures
            final(self).open == Some(id),
            final(self).cache == old(self).cache,
            final(self).pages == old(self).pages,
            final(self).category == old(self).category,
            final(self).window == old(self).window,
    {
        self.open = Some(id);
    }

    /// Goes back: from an open item to the list, else to the previous page.
    pub fn go_back(&mut self)
        ensures
            old(self).open is Some ==> final(self).open is None && final(self).window == old(
                self,
            ).window,
            old(self).open is None ==> final(self).open is None && final(self).window.size == old(
                self,
            ).window.size && final(self).window.index == if old(self).window.index > 0 {
                old(self).window.index - 1
            } else {
                0
            },
            final(self).cache == old(self).cache,
            final(self).pages == old(self).pages,
            final(self).category == old(self).category,
    {
        if self.open.is_some() {
            self.open = None;
        } else {
            self.window.retreat();
        }
    }

    /// Moves to the next page, unless something is still in flight.
    /// Returns whether it moved.
    pub fn next_page(&mut self) -> (moved: bool)
        requires
            old(self).wf(),
        ensures
            final(self).wf(),
            moved == !(old(self).pages is Loading || exists|k: usize|
                old(self).cache@.contains_key(k) && #[trigger] old(self).cache@[k] is Pending),
            moved ==> final(self).window.index == if old(self).window.index < usize::MAX {
                old(self).window.index + 1
            } else {
                old(self).window.index as int
            },
            !moved ==> final(self).window == old(self).window,
            final(self).window.size == old(self).window.size,
            final(self).cache == old(self).cache,
            final(self).pages == old(self).pages,
            final(self).category == old(self).category,
            final(self).open == old(self).open,
    {
        if self.any_pending() {
            false
        } else {
            self.window.advance();
            true
        }
    }

    /// Shows `category`. A new category drops every cached item, closes the
    /// open item, goes back to the first page and starts loading its ranked
    /// list. Returns whether the caller must issue that list's fetch.
    pub fn switch_category(&mut self, category: Category) -> (fetch_list: bool)
        requires
            old(self).wf(),
        ensures
            final(self).wf(),
            fetch_list == (category != old(self).category),
            fetch_list ==> {
                &&& final(self).category == category
                &&& final(self).cache@ == Map::<usize, Slot>::empty()
                &&& final(self).pages is Loading
                &&& final(self).window.index == 0
                &&& final(self).window.size == old(self).window.size
                &&& final(self).open is None
            },
            !fetch_list ==> *final(self) == *old(self),
    {
        if category == self.category {
            return false;
        }
        self.category = category;
        self.cache.clear();
        self.pages.restart();
        self.window.reset();
        self.open = None;
        true
    }

    /// Refreshes what is shown. With an item open, its cached subtree is
    /// evicted so that the next tick fetches it again; otherwise every cached
    /// item is dropped and the ranked list loads anew. Returns whether the
    /// caller must issue that list's fetch.
    pub fn refresh(&mut self) -> (fetch_list: bool)
        requires
            old(self).wf(),
        ensures
            final(self).wf(),
            fetch_list == old(self).open is None,
            old(self).open is Some ==> {
                &&& final(self).cache@ == crate::cache::evicted(
                    old(self).cache@,
                    open_key(old(self).open),
                )
                &&& final(self).pages == old(self).pages
            },
            old(self).open is None ==> {
                &&& final(self).cache@ == Map::<usize, Slot>::empty()
                &&& final(self).pages is Loading
            },
            final(self).category == old(self).category,
            final(self).window == old(self).window,
            final(self).open == old(self).open,
    {
        match self.open {
            Some(id) => {
                self.cache.evict_subtree(id);
                false
            },
            None => {
                self.cache.clear();
                self.pages.restart();
                true
            },
        }
    }
}

/// A copy of `ids`.
fn copy_ids(ids: &Vec<ItemId>) -> (r: Vec<ItemId>)
    ensures
        r@ == ids@,
{
    let mut r: Vec<ItemId> = Vec::new();
    let mut i: usize = 0;
    while i < ids.len()
        invariant
            0 <= i <= ids@.len(),
            r@ == ids@.subrange(0, i as int),
        decreases ids@.len() - i,
    {
        r.push(ids[i]);
        i += 1;
        assert(ids@.subrange(0, i as int) == ids@.subrange(0, i - 1).push(ids@[i - 1]));
    }
    assert(ids@.subrange(0, ids@.len() as int) == ids@);
    r
}

} // verus!
