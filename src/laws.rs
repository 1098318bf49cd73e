use vstd::prelude::*;
use crate::cache::{
    child_of, distinct_ids, ensured, evicted, lemma_reach_child, lemma_reach_step, lists,
    loaded_kids, reach_within, reaches, resolved, subtree_of, Slot,
};
use crate::item::{FetchError, Item, ItemId};

verus! {

/// Ensuring an id a second time, before its fetch resolves, changes nothing:
/// the first call leaves an entry for it, so the second issues no fetch.
pub proof fn lemma_ensure_twice(m: Map<usize, Slot>, id: usize)
    ensures
        ensured(m, id).contains_key(id),
        ensured(ensured(m, id), id) == ensured(m, id),
{
}

/// Evicting a root whose fetch is still pending removes that root alone.
pub proof fn lemma_evict_pending_root(m: Map<usize, Slot>, root: usize)
    requires
        m.contains_key(root),
        m[root] is Pending,
    ensures
        evicted(m, root) == m.remove(root),
{
    let s = subtree_of(m, root);
    assert forall|x: usize| s.contains(x) implies x == root by {
        if x != root {
            let n = choose|n: nat| #[trigger] reach_within(m.remove(root), loaded_kids(m, root), x, n);
            lemma_reach_nothing(m.remove(root), loaded_kids(m, root), x, n);
        }
    }
    assert(evicted(m, root) =~= m.remove(root));
}

/// Evicting a resolved root with children `a` and `b`, where `b` resolved with
/// the single child `c` and neither `a` nor `c` resolved with children of
/// its own, removes exactly the root, `a`, `b` and `c`.
pub proof fn lemma_evict_two_levels(m: Map<usize, Slot>, root: usize, a: usize, b: usize, c: usize)
    requires
        root != a && root != b && root != c && a != b && a != c && b != c,
        m.contains_key(root) && m[root] is Loaded,
        loaded_kids(m, root) == seq![ItemId(a), ItemId(b)],
        m.contains_key(a) && loaded_kids(m, a).len() == 0,
        m.contains_key(b) && m[b] is Loaded,
        loaded_kids(m, b) == seq![ItemId(c)],
        m.contains_key(c) && loaded_kids(m, c).len() == 0,
    ensures
        evicted(m, root) == m.remove(root).remove(a).remove(b).remove(c),
{
    let rest = m.remove(root);
    let kids = loaded_kids(m, root);
    let four = set![root, a, b, c];
    assert(loaded_kids(rest, a) == loaded_kids(m, a));
    assert(loaded_kids(rest, b) == loaded_kids(m, b));
    assert(loaded_kids(rest, c) == loaded_kids(m, c));
    assert forall|x: usize| subtree_of(m, root).contains(x) <==> four.contains(x) by {
        if x == a {
            assert(kids[0].0 == a);
            assert(reach_within(rest, kids, a, 0));
        } else if x == b {
            assert(kids[1].0 == b);
            assert(reach_within(rest, kids, b, 0));
        } else if x == c {
            assert(kids[1].0 == b);
            assert(reach_within(rest, kids, b, 0));
            assert(loaded_kids(rest, b)[0].0 == c);
            lemma_reach_child(rest, kids, b, c, 0);
        } else if x != root && reaches(rest, kids, x) {
            let n = choose|n: nat| #[trigger] reach_within(rest, kids, x, n);
            lemma_reach_three(rest, kids, a, b, c, x, n);
        }
    }
    assert(subtree_of(m, root) =~= four);
    assert(evicted(m, root) =~= m.remove(root).remove(a).remove(b).remove(c));
}

/// From the children `[a, b]`, where only `b` has a child, `c`, nothing
/// but `a`, `b` and `c` is reached.
proof fn lemma_reach_three(
    m: Map<usize, Slot>,
    kids: Seq<ItemId>,
    a: usize,
    b: usize,
    c: usize,
    x: usize,
    n: nat,
)
    requires
        kids == seq![ItemId(a), ItemId(b)],
        loaded_kids(m, a).len() == 0,
        loaded_kids(m, b) == seq![ItemId(c)],
        loaded_kids(m, c).len() == 0,
        reach_within(m, kids, x, n),
    ensures
        x == a || x == b || x == c,
    decreases n,
{
    if n == 0 {
        let i = choose|i: int| 0 <= i < kids.len() && #[trigger] kids[i].0 == x;
    } else {
        lemma_reach_step(m, kids, x, n);
        if reach_within(m, kids, x, (n - 1) as nat) {
            lemma_reach_three(m, kids, a, b, c, x, (n - 1) as nat);
        } else {
            let y = choose|y: usize|
                #[trigger] reach_within(m, kids, y, (n - 1) as nat) && #[trigger] child_of(m, y, x);
            lemma_reach_three(m, kids, a, b, c, y, (n - 1) as nat);
            let i = choose|i: int|
                0 <= i < loaded_kids(m, y).len() && #[trigger] loaded_kids(m, y)[i].0 == x;
        }
    }
}

/// Fetches of different ids may resolve in either order: the cache ends
/// the same.
pub proof fn lemma_resolve_commutes(
    m: Map<usize, Slot>,
    a: usize,
    ra: Result<Item, FetchError>,
    b: usize,
    rb: Result<Item, FetchError>,
)
    requires
        a != b,
    ensures
        resolved(resolved(m, a, ra), b, rb) == resolved(resolved(m, b, rb), a, ra),
{
    assert(resolved(resolved(m, a, ra), b, rb) =~= resolved(resolved(m, b, rb), a, ra));
}

/// Ensuring one id and resolving the fetch of another may happen in
/// either order: the cache ends the same.
pub proof fn lemma_ensure_resolve_commute(
    m: Map<usize, Slot>,
    a: usize,
    b: usize,
    rb: Result<Item, FetchError>,
)
    requires
        a != b,
    ensures
        resolved(ensured(m, a), b, rb) == ensured(resolved(m, b, rb), a),
{
    assert(resolved(ensured(m, a), b, rb) =~= ensured(resolved(m, b, rb), a));
}

/// A list of fetches to issue in which no id stands twice lists an id it
/// holds exactly once: two parents that share a child start one fetch of it.
pub proof fn lemma_issued_once(issued: Seq<ItemId>, x: usize)
    requires
        distinct_ids(issued),
        lists(issued, x),
    ensures
        exists|i: int|
            0 <= i < issued.len() && #[trigger] issued[i].0 == x && forall|j: int|
                0 <= j < issued.len() && j != i ==> issued[j].0 != x,
{
    let i = choose|i: int| 0 <= i < issued.len() && #[trigger] issued[i].0 == x;
    assert forall|j: int| 0 <= j < issued.len() && j != i implies issued[j].0 != x by {
        if j < i {
            assert(issued[j].0 != issued[i].0);
        } else {
            assert(issued[i].0 != issued[j].0);
        }
    }
}

/// Nothing is reached from no roots.
proof fn lemma_reach_nothing(m: Map<usize, Slot>, roots: Seq<ItemId>, x: usize, n: nat)
    requires
        roots.len() == 0,
    ensures
        !reach_within(m, roots, x, n),
    decreases n,
{
    if n > 0 {
        if reach_within(m, roots, x, n) {
            lemma_reach_step(m, roots, x, n);
            if reach_within(m, roots, x, (n - 1) as nat) {
                lemma_reach_nothing(m, roots, x, (n - 1) as nat);
            } else {
                let y = choose|y: usize|
                    #[trigger] reach_within(m, roots, y, (n - 1) as nat) && #[trigger] child_of(m, y, x);
                lemma_reach_nothing(m, roots, y, (n - 1) as nat);
            }
        }
    }
}

} // verus!
