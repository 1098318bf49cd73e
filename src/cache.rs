use vstd::prelude::*;
use std::collections::{HashMap, HashSet};
use crate::item::{FetchError, Item, ItemId};

verus! {

broadcast use vstd::std_specs::hash::group_hash_axioms;

/// What the cache knows of one id: its fetch is in flight, or it resolved.
#[derive(Debug)]
pub enum Slot {
    Pending,
    Loaded(Item),
    Failed(FetchError),
}

/// The children of `k` in `m` when `k` resolved to an item; none otherwise.
pub open spec fn loaded_kids(m: Map<usize, Slot>, k: usize) -> Seq<ItemId> {
    if m.contains_key(k) && m[k] is Loaded {
        m[k]->Loaded_0.kids@
    } else {
        Seq::empty()
    }
}

/// `s` lists the id `x`.
pub open spec fn lists(s: Seq<ItemId>, x: usize) -> bool {
    exists|i: int| 0 <= i < s.len() && #[trigger] s[i].0 == x
}

/// `x` is a child of the resolved item `y` in `m`.
pub open spec fn child_of(m: Map<usize, Slot>, y: usize, x: usize) -> bool {
    lists(loaded_kids(m, y), x)
}

/// The children, in `m`, of the resolved items among `s`.
pub open spec fn children_of(m: Map<usize, Slot>, s: Set<usize>) -> Set<usize> {
    Set::new(|x: usize| exists|y: usize| #[trigger] s.contains(y) && child_of(m, y, x))
}

/// The ids listed in `roots`, with those reached from them in at most `n`
/// steps from a resolved item to one of its children.
pub open spec fn reach_set(m: Map<usize, Slot>, roots: Seq<ItemId>, n: nat) -> Set<usize>
    decreases n,
{
    if n == 0 {
        Set::new(|x: usize| lists(roots, x))
    } else {
        reach_set(m, roots, (n - 1) as nat) + children_of(m, reach_set(m, roots, (n - 1) as nat))
    }
}

/// `x` is reached from `roots` in at most `n` steps.
pub open spec fn reach_within(m: Map<usize, Slot>, roots: Seq<ItemId>, x: usize, n: nat) -> bool {
    reach_set(m, roots, n).contains(x)
}

/// `x` is one of `roots` or a descendant of them through resolved items of `m`.
pub open spec fn reaches(m: Map<usize, Slot>, roots: Seq<ItemId>, x: usize) -> bool {
    exists|n: nat| #[trigger] reach_within(m, roots, x, n)
}

/// The ids that evicting `root` from `m` drops: `root` itself, and when it
/// resolved to an item, every id reached from its children through the
/// other resolved entries.
pub open spec fn subtree_of(m: Map<usize, Slot>, root: usize) -> Set<usize> {
    Set::new(|x: usize| x == root || reaches(m.remove(root), loaded_kids(m, root), x))
}

/// The cache after evicting the subtree of `root`.
pub open spec fn evicted(m: Map<usize, Slot>, root: usize) -> Map<usize, Slot> {
    m.remove_keys(subtree_of(m, root))
}

/// The cache after `ensure(id)`.
pub open spec fn ensured(m: Map<usize, Slot>, id: usize) -> Map<usize, Slot> {
    if m.contains_key(id) {
        m
    } else {
        m.insert(id, Slot::Pending)
    }
}

/// The slot that an outcome of a fetch resolves to.
pub open spec fn slot_of(outcome: Result<Item, FetchError>) -> Slot {
    match outcome {
        Ok(item) => Slot::Loaded(item),
        Err(e) => Slot::Failed(e),
    }
}

/// The cache after the fetch of `id` finished with `outcome`: a pending
/// entry takes the outcome; an evicted or already resolved one is left as is.
pub open spec fn resolved(m: Map<usize, Slot>, id: usize, outcome: Result<Item, FetchError>) -> Map<
    usize,
    Slot,
> {
    if m.contains_key(id) && m[id] is Pending {
        m.insert(id, slot_of(outcome))
    } else {
        m
    }
}

/// A reach in `n > 0` steps is a reach in fewer, or a child of one.
pub proof fn lemma_reach_step(m: Map<usize, Slot>, roots: Seq<ItemId>, x: usize, n: nat)
    requires
        n > 0,
        reach_within(m, roots, x, n),
    ensures
        reach_within(m, roots, x, (n - 1) as nat) || exists|y: usize|
            #[trigger] reach_within(m, roots, y, (n - 1) as nat) && #[trigger] child_of(m, y, x),
{
    let prev = reach_set(m, roots, (n - 1) as nat);
    if !prev.contains(x) {
        assert(children_of(m, prev).contains(x));
        let y = choose|y: usize| #[trigger] prev.contains(y) && child_of(m, y, x);
        assert(reach_within(m, roots, y, (n - 1) as nat));
    }
}

/// Reaching `x` from the children `kids` of `k` in a part of `big` is reaching
/// it from `roots`, which list `k`, in `big`, one step further.
proof fn lemma_reach_lift(
    small: Map<usize, Slot>,
    big: Map<usize, Slot>,
    roots: Seq<ItemId>,
    kids: Seq<ItemId>,
    k: usize,
    x: usize,
    n: nat,
)
    requires
        small.submap_of(big),
        lists(roots, k),
        forall|z: usize| lists(kids, z) ==> child_of(big, k, z),
        reach_within(small, kids, x, n),
    ensures
        reach_within(big, roots, x, n + 1),
    decreases n,
{
    assert(reach_within(big, roots, k, 0));
    if n == 0 {
        assert(child_of(big, k, x));
        assert(reach_within(big, roots, k, (n + 1 - 1) as nat) && child_of(big, k, x));
    } else if reach_within(small, kids, x, (n - 1) as nat) {
        lemma_reach_lift(small, big, roots, kids, k, x, (n - 1) as nat);
        assert(reach_within(big, roots, x, n));
    } else {
        lemma_reach_step(small, kids, x, n);
        let y = choose|y: usize|
            #[trigger] reach_within(small, kids, y, (n - 1) as nat) && #[trigger] child_of(small, y, x);
        lemma_reach_lift(small, big, roots, kids, k, y, (n - 1) as nat);
        assert(small.contains_key(y));
        assert(big.dom().contains(y) && small[y] == big[y]);
        assert(loaded_kids(small, y) == loaded_kids(big, y));
        assert(child_of(big, y, x));
    }
}

/// Once `root` and, with every dropped entry, all of its children are gone
/// from `fin`, so is everything reached from `root`'s children.
proof fn lemma_closed_drops_reached(
    m: Map<usize, Slot>,
    fin: Map<usize, Slot>,
    root: usize,
    x: usize,
    n: nat,
)
    requires
        !fin.contains_key(root),
        forall|y: usize, z: usize|
            m.contains_key(y) && !fin.contains_key(y) && #[trigger] child_of(m, y, z)
                ==> !fin.contains_key(z),
        reach_within(m.remove(root), loaded_kids(m, root), x, n),
    ensures
        !fin.contains_key(x),
    decreases n,
{
    if n == 0 {
        assert(child_of(m, root, x));
    } else if reach_within(m.remove(root), loaded_kids(m, root), x, (n - 1) as nat) {
        lemma_closed_drops_reached(m, fin, root, x, (n - 1) as nat);
    } else {
        lemma_reach_step(m.remove(root), loaded_kids(m, root), x, n);
        let y = choose|y: usize|
            #[trigger] reach_within(m.remove(root), loaded_kids(m, root), y, (n - 1) as nat)
                && #[trigger] child_of(m.remove(root), y, x);
        lemma_closed_drops_reached(m, fin, root, y, (n - 1) as nat);
        assert(loaded_kids(m.remove(root), y) == loaded_kids(m, y));
        assert(child_of(m, y, x));
    }
}

/// Every id reached from `roots` through the resolved items of `m`.
pub open spec fn reached_from(m: Map<usize, Slot>, roots: Seq<ItemId>) -> Set<usize> {
    Set::new(|x: usize| reaches(m, roots, x))
}

/// The ids that `s` lists.
pub open spec fn ids_of(s: Seq<ItemId>) -> Set<usize> {
    Set::new(|x: usize| lists(s, x))
}

/// The ids reached from `roots` through the resolved items of `m` that
/// have no entry in `m`: the fetches that loading them has to start.
pub open spec fn missing_from(m: Map<usize, Slot>, roots: Seq<ItemId>) -> Set<usize> {
    Set::new(|x: usize| reaches(m, roots, x) && !m.contains_key(x))
}

/// `m` with a pending entry for each id of `s` that it does not hold.
pub open spec fn with_pending(m: Map<usize, Slot>, s: Set<usize>) -> Map<usize, Slot> {
    Map::new(
        |x: usize| m.contains_key(x) || s.contains(x),
        |x: usize|
            if m.contains_key(x) {
                m[x]
            } else {
                Slot::Pending
            },
    )
}

/// Every id of `s` has an entry in `m` whose fetch has finished.
pub open spec fn settled(m: Map<usize, Slot>, s: Set<usize>) -> bool {
    forall|x: usize| s.contains(x) ==> m.contains_key(x) && !(#[trigger] m[x] is Pending)
}

/// No id stands twice in `s`.
pub open spec fn distinct_ids(s: Seq<ItemId>) -> bool {
    forall|i: int, j: int| 0 <= i < j < s.len() ==> s[i].0 != s[j].0
}

/// A child of a reached resolved item is reached one step later.
pub proof fn lemma_reach_child(m: Map<usize, Slot>, roots: Seq<ItemId>, y: usize, z: usize, n: nat)
    requires
        reach_within(m, roots, y, n),
        child_of(m, y, z),
    ensures
        reach_within(m, roots, z, n + 1),
{
    let prev = reach_set(m, roots, n);
    assert(prev.contains(y) && child_of(m, y, z));
    assert(children_of(m, prev).contains(z));
}

/// Appends `more` to `stack`.
fn push_all(stack: &mut Vec<ItemId>, more: &Vec<ItemId>)
    ensures
        final(stack)@ == old(stack)@ + more@,
{
    let mut j: usize = 0;
    while j < more.len()
        invariant
            0 <= j <= more.len(),
            stack@ == old(stack)@ + more@.subrange(0, j as int),
        decreases more.len() - j,
    {
        stack.push(more[j]);
        j += 1;
        assert(more@.subrange(0, j as int) == more@.subrange(0, j - 1) + seq![more@[j - 1]]);
    }
    assert(more@.subrange(0, more@.len() as int) == more@);
}

/// A set that holds `roots` and, with each resolved item, its children,
/// holds everything reached from `roots`.
proof fn lemma_closed_holds_reached(m: Map<usize, Slot>, roots: Seq<ItemId>, s: Set<usize>, x: usize, n: nat)
    requires
        forall|z: usize| lists(roots, z) ==> s.contains(z),
        forall|y: usize, z: usize| s.contains(y) && #[trigger] child_of(m, y, z) ==> s.contains(z),
        reach_within(m, roots, x, n),
    ensures
        s.contains(x),
    decreases n,
{
    if n > 0 {
        lemma_reach_step(m, roots, x, n);
        if reach_within(m, roots, x, (n - 1) as nat) {
            lemma_closed_holds_reached(m, roots, s, x, (n - 1) as nat);
        } else {
            let y = choose|y: usize|
                #[trigger] reach_within(m, roots, y, (n - 1) as nat) && #[trigger] child_of(m, y, x);
            lemma_closed_holds_reached(m, roots, s, y, (n - 1) as nat);
        }
    }
}

/// The ids of `m` whose fetch is still in flight.
pub open spec fn pending_ids(m: Map<usize, Slot>) -> Set<usize> {
    Set::new(|k: usize| m.contains_key(k) && m[k] is Pending)
}

/// Id-keyed store of at most one fetch per item.
pub struct ItemCache {
    entries: HashMap<usize, Slot>,
    in_flight: HashSet<usize>,
}

impl View for ItemCache {
    type V = Map<usize, Slot>;

    closed spec fn view(&self) -> Map<usize, Slot> {
        self.entries@
    }
}

impl ItemCache {
    /// The set of ids in flight is kept beside the entries.
    pub closed spec fn wf(&self) -> bool {
        self.in_flight@ == pending_ids(self.entries@)
    }

    /// An empty cache.
    pub fn new() -> (r: Self)
        ensures
            r.wf(),
            r@ == Map::<usize, Slot>::empty(),
    {
        let r = ItemCache { entries: HashMap::new(), in_flight: HashSet::new() };
        proof {
            assert(r.in_flight@ =~= pending_ids(r.entries@));
        }
        r
    }

    /// Starts tracking a fetch of `id` unless one is tracked already.
    /// Returns whether the caller has to issue that fetch.
    pub fn ensure(&mut self, id: ItemId) -> (issued: bool)
        requires
            old(self).wf(),
        ensures
            final(self).wf(),
            final(self)@ == ensured(old(self)@, id.0),
            issued == !old(self)@.contains_key(id.0),
    {
        if self.entries.contains_key(&id.0) {
            false
        } else {
            self.entries.insert(id.0, Slot::Pending);
            self.in_flight.insert(id.0);
            proof {
                assert(self.in_flight@ =~= pending_ids(self.entries@));
            }
            true
        }
    }

    /// Records that the fetch of `id` finished with `outcome`.
    pub fn resolve(&mut self, id: ItemId, outcome: Result<Item, FetchError>)
        requires
            old(self).wf(),
        ensures
            final(self).wf(),
            final(self)@ == resolved(old(self)@, id.0, outcome),
    {
        let pending = match self.entries.get(&id.0) {
            Some(Slot::Pending) => true,
            _ => false,
        };
        if pending {
            let slot = match outcome {
                Ok(item) => Slot::Loaded(item),
                Err(e) => Slot::Failed(e),
            };
            self.entries.insert(id.0, slot);
            self.in_flight.remove(&id.0);
            proof {
                assert(self.in_flight@ =~= pending_ids(self.entries@));
            }
        }
    }

    /// Whether an entry for `id` exists.
    pub fn contains(&self, id: ItemId) -> (r: bool)
        ensures
            r == self@.contains_key(id.0),
    {
        self.entries.contains_key(&id.0)
    }

    /// The item, when the fetch of `id` resolved successfully.
    pub fn get(&self, id: ItemId) -> (r: Option<&Item>)
        ensures
            match r {
                Some(item) => self@.contains_key(id.0) && self@[id.0] == Slot::Loaded(*item),
                None => !(self@.contains_key(id.0) && self@[id.0] is Loaded),
            },
    {
        match self.entries.get(&id.0) {
            Some(Slot::Loaded(item)) => Some(item),
            _ => None,
        }
    }

    /// The error, when the fetch of `id` resolved with a failure.
    pub fn failure(&self, id: ItemId) -> (r: Option<&FetchError>)
        ensures
            match r {
                Some(e) => self@.contains_key(id.0) && self@[id.0] == Slot::Failed(*e),
                None => !(self@.contains_key(id.0) && self@[id.0] is Failed),
            },
    {
        match self.entries.get(&id.0) {
            Some(Slot::Failed(e)) => Some(e),
            _ => None,
        }
    }

    /// Whether any tracked fetch is still in flight.
    pub fn any_pending(&self) -> (r: bool)
        requires
            self.wf(),
        ensures
            r == exists|k: usize| self@.contains_key(k) && #[trigger] self@[k] is Pending,
    {
        let r = !self.in_flight.is_empty();
        proof {
            if !r {
                assert forall|k: usize| !(self@.contains_key(k) && #[trigger] self@[k] is Pending) by {
                    if self@.contains_key(k) && self@[k] is Pending {
                        assert(self.in_flight@.contains(k));
                    }
                }
            } else {
                let k = self.in_flight@.choose();
                assert(self.in_flight@.contains(k));
                assert(self@.contains_key(k) && self@[k] is Pending);
            }
        }
        r
    }

    /// Whether the fetch of `id` is tracked and still in flight.
    pub fn is_pending(&self, id: ItemId) -> (r: bool)
        ensures
            r == (self@.contains_key(id.0) && self@[id.0] is Pending),
    {
        match self.entries.get(&id.0) {
            Some(Slot::Pending) => true,
            _ => false,
        }
    }

    /// Removes `root`; when it had resolved to an item, evicts the subtree of
    /// each of its children in turn.
    fn evict_from(&mut self, root: usize)
        requires
            old(self).wf(),
        ensures
            final(self).wf(),
            final(self)@.submap_of(old(self)@),
            !final(self)@.contains_key(root),
            forall|x: usize|
                old(self)@.contains_key(x) && !final(self)@.contains_key(x) ==> x == root
                    || reaches(old(self)@.remove(root), loaded_kids(old(self)@, root), x),
            forall|y: usize, z: usize|
                old(self)@.contains_key(y) && !final(self)@.contains_key(y) && #[trigger] child_of(
                    old(self)@,
                    y,
                    z,
                ) ==> !final(self)@.contains_key(z),
        decreases self@.len(),
    {
        let ghost m0 = self@;
        let removed = self.entries.remove(&root);
        self.in_flight.remove(&root);
        proof {
            assert(self.in_flight@ =~= pending_ids(self.entries@));
        }
        match removed {
            Some(Slot::Loaded(item)) => {
                let ghost m1 = self@;
                proof {
                    m0.lemma_remove_key_len(root);
                }
                let mut i: usize = 0;
                while i < item.kids.len()
                    invariant
                        self.wf(),
                        m0 == old(self)@,
                        m1 == m0.remove(root),
                        m0.contains_key(root),
                        m0[root] == Slot::Loaded(item),
                        m0.dom().finite(),
                        m0.dom().len() == 1 + m1.dom().len(),
                        0 <= i <= item.kids.len(),
                        self@.submap_of(m1),
                        forall|j: int| 0 <= j < i ==> !self@.contains_key(#[trigger] item.kids@[j].0),
                        forall|x: usize|
                            m0.contains_key(x) && !self@.contains_key(x) ==> x == root || reaches(
                                m1,
                                loaded_kids(m0, root),
                                x,
                            ),
                        forall|y: usize, z: usize|
                            m0.contains_key(y) && y != root && !self@.contains_key(y)
                                && #[trigger] child_of(m0, y, z) ==> !self@.contains_key(z),
                    decreases item.kids.len() - i,
                {
                    let kid = item.kids[i];
                    let ghost mi = self@;
                    proof {
                        assert(mi.dom().subset_of(m1.dom()));
                        vstd::set_lib::lemma_len_subset(mi.dom(), m1.dom());
                        assert(mi.len() < m0.len());
                    }
                    self.evict_from(kid.0);
                    proof {
                        let fin = self@;
                        let roots = loaded_kids(m0, root);
                        assert(lists(roots, kid.0)) by {
                            assert(roots[i as int].0 == kid.0);
                        }
                        assert forall|x: usize|
                            m0.contains_key(x) && !fin.contains_key(x) implies x == root || reaches(
                                m1,
                                roots,
                                x,
                            ) by {
                            if mi.contains_key(x) {
                                if x == kid.0 {
                                    assert(reach_within(m1, roots, x, 0));
                                } else {
                                    let n = choose|n: nat|
                                        #[trigger] reach_within(
                                            mi.remove(kid.0),
                                            loaded_kids(mi, kid.0),
                                            x,
                                            n,
                                        );
                                    assert forall|z: usize|
                                        lists(loaded_kids(mi, kid.0), z) implies child_of(
                                        m1,
                                        kid.0,
                                        z,
                                    ) by {
                                        assert(loaded_kids(mi, kid.0) == loaded_kids(m1, kid.0));
                                    }
                                    lemma_reach_lift(
                                        mi.remove(kid.0),
                                        m1,
                                        roots,
                                        loaded_kids(mi, kid.0),
                                        kid.0,
                                        x,
                                        n,
                                    );
                                }
                            }
                        }
                        assert forall|y: usize, z: usize|
                            m0.contains_key(y) && y != root && !fin.contains_key(y)
                                && #[trigger] child_of(m0, y, z) implies !fin.contains_key(z) by {
                            if mi.contains_key(y) {
                                assert(loaded_kids(mi, y) == loaded_kids(m0, y));
                                assert(child_of(mi, y, z));
                            }
                        }
                    }
                    i += 1;
                }
                proof {
                    let fin = self@;
                    assert(fin.submap_of(m0));
                    assert forall|y: usize, z: usize|
                        m0.contains_key(y) && !fin.contains_key(y) && #[trigger] child_of(m0, y, z)
                            implies !fin.contains_key(z) by {
                        if y == root {
                            let j = choose|j: int|
                                0 <= j < item.kids@.len() && #[trigger] item.kids@[j].0 == z;
                            assert(!fin.contains_key(item.kids@[j].0));
                        }
                    }
                }
            },
            _ => {},
        }
    }

    /// Removes the entry of `root`. When that fetch had resolved to an item,
    /// the subtree of each of its children is evicted too, depth first;
    /// a pending or failed root takes nothing else with it.
    pub fn evict_subtree(&mut self, root: ItemId)
        requires
            old(self).wf(),
        ensures
            final(self).wf(),
            final(self)@ == evicted(old(self)@, root.0),
    {
        self.evict_from(root.0);
        proof {
            let m0 = old(self)@;
            let fin = self@;
            let s = subtree_of(m0, root.0);
            assert forall|x: usize| fin.contains_key(x) implies !s.contains(x) by {
                if x != root.0 && reaches(m0.remove(root.0), loaded_kids(m0, root.0), x) {
                    let n = choose|n: nat|
                        #[trigger] reach_within(m0.remove(root.0), loaded_kids(m0, root.0), x, n);
                    lemma_closed_drops_reached(m0, fin, root.0, x, n);
                }
            }
            assert(fin =~= evicted(m0, root.0));
        }
    }

    /// Makes sure that every id reached from `roots` through resolved items
    /// has an entry, starting the fetches that are missing and appending
    /// their ids to `issued`. A failed fetch ends its branch.
    /// Returns whether every id so reached has finished its fetch.
    pub fn ensure_descendants(&mut self, roots: &Vec<ItemId>, issued: &mut Vec<ItemId>) -> (complete: bool)
        requires
            old(self).wf(),
        ensures
            final(self).wf(),
            final(self)@ == with_pending(old(self)@, reached_from(old(self)@, roots@)),
            complete == settled(old(self)@, reached_from(old(self)@, roots@)),
            final(issued)@.len() >= old(issued)@.len(),
            final(issued)@.subrange(0, old(issued)@.len() as int) == old(issued)@,
            distinct_ids(final(issued)@.skip(old(issued)@.len() as int)),
            ids_of(final(issued)@.skip(old(issued)@.len() as int)) == missing_from(
                old(self)@,
                roots@,
            ),
    {
        let ghost m0 = self@;
        let ghost reach = reached_from(m0, roots@);
        let ghost start = issued@.len();
        let mut stack: Vec<ItemId> = Vec::new();
        let mut i: usize = 0;
        while i < roots.len()
            invariant
                0 <= i <= roots.len(),
                stack@ == roots@.subrange(0, i as int),
            decreases roots.len() - i,
        {
            stack.push(roots[i]);
            i += 1;
            assert(roots@.subrange(0, i as int) == roots@.subrange(0, i - 1) + seq![roots@[i - 1]]);
        }
        proof {
            assert(stack@ == roots@);
            assert forall|j: int| 0 <= j < stack@.len() implies reach.contains(#[trigger] stack@[j].0) by {
                assert(reach_within(m0, roots@, stack@[j].0, 0));
            }
            assert(issued@.subrange(0, start as int) == issued@);
        }
        let mut seen: HashSet<usize> = HashSet::new();
        let mut complete = true;
        proof {
            assert(self@ =~= with_pending(m0, seen@));
            assert(issued@.skip(start as int) =~= Seq::<ItemId>::empty());
        }
        while stack.len() > 0
            invariant
                self.wf(),
                m0 == old(self)@,
                reach == reached_from(m0, roots@),
                start == old(issued)@.len(),
                m0.dom().finite(),
                self@ == with_pending(m0, seen@),
                seen@.subset_of(reach),
                forall|j: int| 0 <= j < stack@.len() ==> reach.contains(#[trigger] stack@[j].0),
                forall|z: usize| lists(roots@, z) ==> seen@.contains(z) || lists(stack@, z),
                forall|y: usize, z: usize|
                    seen@.contains(y) && #[trigger] child_of(m0, y, z) ==> seen@.contains(z)
                        || lists(stack@, z),
                complete == settled(m0, seen@),
                issued@.len() >= start,
                issued@.subrange(0, start as int) == old(issued)@,
                distinct_ids(issued@.skip(start as int)),
                forall|x: usize|
                    lists(issued@.skip(start as int), x) <==> (seen@.contains(x) && !m0.contains_key(x)),
            decreases m0.dom().difference(seen@).len(), stack.len(),
        {
            let ghost st = stack@;
            let ghost seen0 = seen@;
            let ghost self0 = self@;
            let ghost issued0 = issued@;
            let id = stack.pop().unwrap();
            proof {
                assert(st == stack@.push(id));
                assert(reach.contains(st[st.len() - 1].0));
                assert forall|z: usize| lists(st, z) implies z == id.0 || lists(stack@, z) by {
                    let k = choose|k: int| 0 <= k < st.len() && #[trigger] st[k].0 == z;
                    if k < stack@.len() {
                        assert(stack@[k].0 == z);
                    }
                }
            }
            if seen.contains(&id.0) {
                continue;
            }
            seen.insert(id.0);
            proof {
                let a = m0.dom();
                if a.contains(id.0) {
                    assert(a.difference(seen@) =~= a.difference(seen0).remove(id.0));
                } else {
                    assert(a.difference(seen@) =~= a.difference(seen0));
                }
                assert(self0.contains_key(id.0) == m0.contains_key(id.0));
            }
            if self.ensure(id) {
                issued.push(id);
                complete = false;
                proof {
                    assert(self@ =~= with_pending(m0, seen@));
                    assert(issued@.subrange(0, start as int) == issued0.subrange(0, start as int));
                    assert(issued@.skip(start as int) == issued0.skip(start as int).push(id));
                    assert forall|x: usize|
                        lists(issued@.skip(start as int), x) implies seen@.contains(x)
                            && !m0.contains_key(x) by {
                        let k = choose|k: int|
                            0 <= k < issued@.skip(start as int).len()
                                && #[trigger] issued@.skip(start as int)[k].0 == x;
                        if k < issued0.skip(start as int).len() {
                            assert(issued0.skip(start as int)[k].0 == x);
                        }
                    }
                    assert forall|x: usize|
                        seen@.contains(x) && !m0.contains_key(x) implies lists(
                        issued@.skip(start as int),
                        x,
                    ) by {
                        if x == id.0 {
                            assert(issued@.skip(start as int)[issued0.skip(start as int).len() as int].0
                                == x);
                        } else {
                            let k = choose|k: int|
                                0 <= k < issued0.skip(start as int).len()
                                    && #[trigger] issued0.skip(start as int)[k].0 == x;
                            assert(issued@.skip(start as int)[k].0 == x);
                        }
                    }
                    assert(!lists(issued0.skip(start as int), id.0));
                }
                continue;
            }
            proof {
                assert(self@ =~= with_pending(m0, seen@));
            }
            match self.entries.get(&id.0) {
                Some(Slot::Loaded(it)) => {
                    let ghost before = stack@;
                    push_all(&mut stack, &it.kids);
                    proof {
                        assert(loaded_kids(m0, id.0) == it.kids@);
                        assert forall|z: usize| lists(before, z) implies lists(stack@, z) by {
                            let k = choose|k: int| 0 <= k < before.len() && #[trigger] before[k].0 == z;
                            assert(stack@[k].0 == z);
                        }
                        assert forall|z: usize| child_of(m0, id.0, z) implies lists(stack@, z) by {
                            let k = choose|k: int| 0 <= k < it.kids@.len() && #[trigger] it.kids@[k].0 == z;
                            assert(stack@[before.len() + k].0 == z);
                        }
                        assert forall|j: int| 0 <= j < stack@.len() implies reach.contains(
                            #[trigger] stack@[j].0,
                        ) by {
                            if j >= before.len() {
                                let z = stack@[j].0;
                                assert(it.kids@[j - before.len()].0 == z);
                                assert(child_of(m0, id.0, z));
                                let n = choose|n: nat| #[trigger] reach_within(m0, roots@, id.0, n);
                                lemma_reach_child(m0, roots@, id.0, z, n);
                            }
                        }
                    }
                },
                Some(Slot::Pending) => {
                    complete = false;
                },
                _ => {},
            }
        }
        proof {
            assert forall|x: usize| reach.contains(x) implies seen@.contains(x) by {
                let n = choose|n: nat| #[trigger] reach_within(m0, roots@, x, n);
                lemma_closed_holds_reached(m0, roots@, seen@, x, n);
            }
            assert(seen@ =~= reach);
            assert forall|x: usize|
                ids_of(issued@.skip(start as int)).contains(x) == missing_from(m0, roots@).contains(
                    x,
                ) by {
                assert(ids_of(issued@.skip(start as int)).contains(x) == lists(
                    issued@.skip(start as int),
                    x,
                ));
                assert(reach.contains(x) == reaches(m0, roots@, x));
                assert(missing_from(m0, roots@).contains(x) == (reaches(m0, roots@, x)
                    && !m0.contains_key(x)));
            }
            assert(ids_of(issued@.skip(start as int)) =~= missing_from(m0, roots@));
        }
        complete
    }

    /// Makes sure that the whole comment tree under `item` is cached or on
    /// its way, as `ensure_descendants` does for `item`'s children.
    /// Returns whether every node of that tree has finished its fetch.
    pub fn ensure_loaded(&mut self, item: &Item, issued: &mut Vec<ItemId>) -> (complete: bool)
        requires
            old(self).wf(),
        ensures
            final(self).wf(),
            final(self)@ == with_pending(old(self)@, reached_from(old(self)@, item.kids@)),
            complete == settled(old(self)@, reached_from(old(self)@, item.kids@)),
            final(issued)@.len() >= old(issued)@.len(),
            final(issued)@.subrange(0, old(issued)@.len() as int) == old(issued)@,
            distinct_ids(final(issued)@.skip(old(issued)@.len() as int)),
            ids_of(final(issued)@.skip(old(issued)@.len() as int)) == missing_from(
                old(self)@,
                item.kids@,
            ),
    {
        self.ensure_descendants(&item.kids, issued)
    }

    /// Drops every entry.
    pub fn clear(&mut self)
        ensures
            final(self).wf(),
            final(self)@ == Map::<usize, Slot>::empty(),
    {
        self.entries.clear();
        self.in_flight.clear();
        proof {
            assert(self.in_flight@ =~= pending_ids(self.entries@));
        }
    }
}

} // verus!
