use crate::node::Node;
use vstd::prelude::*;

verus! {

/// `(x2, y2)` is one step east, west, south or north of `(x1, y1)`.
pub open spec fn adjacent(x1: int, y1: int, x2: int, y2: int) -> bool {
    ||| y1 == y2 && (x2 == x1 + 1 || x1 == x2 + 1)
    ||| x1 == x2 && (y2 == y1 + 1 || y1 == y2 + 1)
}

/// Cells `i` and `j` are grid neighbours.
pub open spec fn touching(nodes: Seq<Node>, i: int, j: int) -> bool {
    adjacent(nodes[i].x as int, nodes[i].y as int, nodes[j].x as int, nodes[j].y as int)
}

/// The cells not yet taken into the tree by the randomized walk.
pub open spec fn unvisited(nodes: Seq<Node>) -> Set<int> {
    Set::new(|i: int| 0 <= i < nodes.len() && !nodes[i].conn)
}

/// Cell `i` has no parent: it is the root of its component.
pub open spec fn is_root(nodes: Seq<Node>, i: int) -> bool {
    nodes[i].target is None
}

/// The cell reached from `i` by following at most `k` parent links; the walk
/// stays put once it reaches a root.
pub open spec fn climb(nodes: Seq<Node>, i: int, k: nat) -> int
    decreases k,
{
    if k == 0 {
        i
    } else {
        match nodes[i].target {
            Some(p) => climb(nodes, p as int, (k - 1) as nat),
            None => i,
        }
    }
}

/// One step up from `c`: its parent, or `c` itself at a root.
pub open spec fn next_up(nodes: Seq<Node>, c: int) -> int {
    match nodes[c].target {
        Some(p) => p as int,
        None => c,
    }
}

/// Every parent and every child index names a cell of the arena.
pub open spec fn edges_in_range(nodes: Seq<Node>) -> bool {
    &&& forall|i: int| #![trigger nodes[i].target]
        0 <= i < nodes.len() && nodes[i].target is Some ==> nodes[i].target->0 < nodes.len()
    &&& forall|i: int, k: int| #![trigger nodes[i].paths@[k]]
        0 <= i < nodes.len() && 0 <= k < nodes[i].paths@.len() ==> nodes[i].paths@[k] < nodes.len()
}

/// The two directions of every edge agree: a cell names `p` as its parent
/// exactly when `p` lists it among its children.
pub open spec fn consistent(nodes: Seq<Node>) -> bool {
    &&& forall|i: int| #![trigger nodes[i].target]
        0 <= i < nodes.len() && nodes[i].target is Some ==> nodes[nodes[i].target->0 as int].paths@.contains(
            i as usize,
        )
    &&& forall|p: int, k: int| #![trigger nodes[p].paths@[k]]
        0 <= p < nodes.len() && 0 <= k < nodes[p].paths@.len() ==> nodes[nodes[p].paths@[k] as int].target
            == Some(p as usize)
}

/// Every cell is unvisited and without edges.
pub open spec fn cleared(nodes: Seq<Node>) -> bool {
    forall|i: int| #![trigger nodes[i]]
        0 <= i < nodes.len() ==> !nodes[i].conn && nodes[i].paths@.len() == 0 && nodes[i].target is None
}

/// The cells that have no parent.
pub open spec fn roots(nodes: Seq<Node>) -> Set<int> {
    Set::new(|i: int| 0 <= i < nodes.len() && is_root(nodes, i))
}

/// The cells that have a parent, that is the number of tree edges.
pub open spec fn parented(nodes: Seq<Node>) -> Set<int> {
    Set::new(|i: int| 0 <= i < nodes.len() && !is_root(nodes, i))
}

/// The edges form one tree over all cells, rooted at `r`: edges agree in both
/// directions, `r` is the only root, and every cell's parent chain ends at `r`.
pub open spec fn spanning_tree(nodes: Seq<Node>, r: int) -> bool {
    &&& 0 <= r < nodes.len()
    &&& consistent(nodes)
    &&& forall|i: int| 0 <= i < nodes.len() ==> (#[trigger] is_root(nodes, i) <==> i == r)
    &&& forall|i: int| 0 <= i < nodes.len() ==> #[trigger] reaches(nodes, i, r)
}

/// The parent chain from `i` meets a root.
pub open spec fn has_root(nodes: Seq<Node>, i: int) -> bool {
    exists|k: nat| is_root(nodes, #[trigger] climb(nodes, i, k))
}

/// Every parent chain meets a root: the edges hold no cycle.
pub open spec fn rooted(nodes: Seq<Node>) -> bool {
    forall|i: int| 0 <= i < nodes.len() ==> #[trigger] has_root(nodes, i)
}

/// Every cell of `before` that was visited, other than `s`, has the same
/// children in `after`.
pub open spec fn children_kept_but(before: Seq<Node>, after: Seq<Node>, s: int) -> bool {
    forall|i: int|
        0 <= i < before.len() && #[trigger] before[i].conn && i != s ==> after[i].paths@ == before[i].paths@
}

/// No cell lists a child twice.
pub open spec fn children_unique(nodes: Seq<Node>) -> bool {
    forall|p: int| 0 <= p < nodes.len() ==> (#[trigger] nodes[p].paths@).no_duplicates()
}

/// Following parent links from `i` arrives at `r`.
pub open spec fn reaches(nodes: Seq<Node>, i: int, r: int) -> bool {
    exists|k: nat| #[trigger] climb(nodes, i, k) == r
}


/// What the randomized walk keeps true when it starts from a cleared grid:
/// edges agree; unvisited cells have no edges; every visited cell but the
/// start has a visited parent of lower rank; and every visited cell that
/// still touches an unvisited one is the current cell or waits on the stack.
#[verifier::opaque]
pub open spec fn walk_inv(nodes: Seq<Node>, start: int, rank: Seq<nat>, cur: int, stack: Seq<usize>) -> bool {
    &&& 0 <= start < nodes.len()
    &&& rank.len() == nodes.len()
    &&& consistent(nodes)
    &&& nodes[start].conn
    &&& nodes[start].target is None
    &&& forall|i: int| #![trigger nodes[i]]
        0 <= i < nodes.len() && !nodes[i].conn ==> nodes[i].target is None && nodes[i].paths@.len() == 0
    &&& forall|j: int| #![trigger nodes[j]]
        0 <= j < nodes.len() && nodes[j].conn && j != start ==> nodes[j].target is Some
            && nodes[j].target->0 < nodes.len() && nodes[nodes[j].target->0 as int].conn
            && rank[nodes[j].target->0 as int] < rank[j] && touching(nodes, j, nodes[j].target->0 as int)
    &&& children_unique(nodes)
    &&& forall|a: int, b: int|
        0 <= a < nodes.len() && 0 <= b < nodes.len() && nodes[a].conn && !nodes[b].conn && #[trigger] touching(
            nodes,
            a,
            b,
        ) ==> a == cur || stack.contains(a as usize)
}

/// The children of cell `i` after root `r` moves to its neighbour `c`: `r`
/// joins `c`'s children, and `c` leaves the children of its old parent.
pub open spec fn regrown_paths(nodes: Seq<Node>, r: int, c: int, i: int) -> Seq<usize> {
    let grown = if i == c && !nodes[c].paths@.contains(r as usize) {
        nodes[i].paths@.push(r as usize)
    } else {
        nodes[i].paths@
    };
    if nodes[c].target == Some(i as usize) {
        grown.filter(|v: usize| v != c as usize)
    } else {
        grown
    }
}

/// The parent of cell `i` after root `r` moves to its neighbour `c`: `c`
/// becomes the root and `r` its child.
pub open spec fn regrown_target(nodes: Seq<Node>, r: int, c: int, i: int) -> Option<usize> {
    if i == c {
        None
    } else if i == r {
        Some(c as usize)
    } else {
        nodes[i].target
    }
}

/// `after` is `before` with the root moved from `r` to `c`; positions and
/// visited flags are untouched.
pub open spec fn is_regrown(before: Seq<Node>, after: Seq<Node>, r: int, c: int) -> bool {
    &&& after.len() == before.len()
    &&& forall|i: int| #![trigger after[i]]
        0 <= i < after.len() ==> after[i].x == before[i].x && after[i].y == before[i].y && after[i].conn
            == before[i].conn && after[i].paths@ == regrown_paths(before, r, c, i) && after[i].target
            == regrown_target(before, r, c, i)
}

/// Moving the root from `r` to another cell `c` keeps the edges in
/// agreement, demotes `r` and promotes `c`: no other cell changes between
/// root and non-root.
pub proof fn lemma_regrown_consistent(before: Seq<Node>, after: Seq<Node>, r: int, c: int)
    requires
        edges_in_range(before),
        consistent(before),
        before.len() <= usize::MAX,
        0 <= r < before.len(),
        0 <= c < before.len(),
        r != c,
        is_root(before, r),
        is_regrown(before, after, r, c),
    ensures
        edges_in_range(after),
        consistent(after),
        roots(after) == roots(before).remove(r).insert(c),
{
    broadcast use vstd::seq_lib::group_filter_ensures;

    let n = before.len();
    let keep = |v: usize| v != c as usize;
    assert(after[c] == after[c]);
    assert(after[r] == after[r]);
    assert forall|i: int, k: int| #![trigger after[i].paths@[k]]
        0 <= i < n && 0 <= k < after[i].paths@.len() implies after[i].paths@[k] < n && after[
        after[i].paths@[k] as int].target == Some(i as usize) by {
        assert(after[i] == after[i]);
        let grown = if i == c && !before[c].paths@.contains(r as usize) {
            before[i].paths@.push(r as usize)
        } else {
            before[i].paths@
        };
        let v = after[i].paths@[k];
        assert(grown.contains(v)) by {
            if before[c].target == Some(i as usize) {
                assert(grown.filter(keep).contains(v));
                grown.lemma_filter_contains_rev(keep, v);
                assert(keep(v));
            }
        }
        let m = choose|m: int| 0 <= m < grown.len() && grown[m] == v;
        if i == c && m == before[c].paths@.len() && !before[c].paths@.contains(r as usize) {
            assert(v == r as usize);
        } else {
            assert(before[i].paths@[m] == v);
            assert(before[v as int].target == Some(i as usize));
            assert(v as int != r);
            if v as int == c {
                assert(before[c].target == Some(i as usize));
                assert(keep(v));
            }
            assert(after[v as int] == after[v as int]);
        }
    }
    assert forall|i: int| #![trigger after[i].target]
        0 <= i < n && after[i].target is Some implies after[i].target->0 < n && after[after[i].target->0 as int].paths@.contains(
        i as usize,
    ) by {
        assert(after[i] == after[i]);
        if i == r {
            let grown = if !before[c].paths@.contains(r as usize) {
                before[c].paths@.push(r as usize)
            } else {
                before[c].paths@
            };
            assert(grown.contains(r as usize)) by {
                if !before[c].paths@.contains(r as usize) {
                    assert(grown[grown.len() - 1] == r as usize);
                }
            }
            if before[c].target == Some(c as usize) {
                let m = choose|m: int| 0 <= m < grown.len() && grown[m] == r as usize;
                assert(keep(grown[m]));
            }
        } else {
            let p = before[i].target->0 as int;
            assert(before[p].paths@.contains(i as usize));
            let m = choose|m: int| 0 <= m < before[p].paths@.len() && before[p].paths@[m] == i as usize;
            assert(after[p] == after[p]);
            let grown = if p == c && !before[c].paths@.contains(r as usize) {
                before[p].paths@.push(r as usize)
            } else {
                before[p].paths@
            };
            assert(grown[m] == i as usize);
            if before[c].target == Some(p as usize) {
                assert(keep(grown[m]));
            }
        }
    }
    assert forall|i: int| 0 <= i < n && after[i].target is Some implies #[trigger] after[i].target->0 < n by {
        assert(after[i] == after[i]);
    }
    assert(roots(after) =~= roots(before).remove(r).insert(c)) by {
        assert forall|i: int| 0 <= i < n implies (is_root(after, i) <==> (#[trigger] is_root(before, i) && i != r) || i == c)
            by {
            assert(after[i] == after[i]);
        }
    }
}

/// Appending an element that is not there keeps a sequence free of duplicates.
pub proof fn lemma_push_unique(s: Seq<usize>, e: usize)
    requires
        s.no_duplicates(),
        !s.contains(e),
    ensures
        s.push(e).no_duplicates(),
{
    let t = s.push(e);
    assert forall|a: int, b: int| 0 <= a < t.len() && 0 <= b < t.len() && a != b implies t[a] != t[b] by {
        if a == s.len() {
            assert(t[b] == s[b]);
        } else if b == s.len() {
            assert(t[a] == s[a]);
        } else {
            assert(t[a] == s[a] && t[b] == s[b]);
        }
    }
}

/// Removing every occurrence of `v` keeps a sequence free of duplicates.
pub proof fn lemma_filter_unique(s: Seq<usize>, v: usize)
    requires
        s.no_duplicates(),
    ensures
        s.filter(|u: usize| u != v).no_duplicates(),
    decreases s.len(),
{
    reveal(Seq::filter);
    if s.len() > 0 {
        let front = s.drop_last();
        assert(front.no_duplicates());
        lemma_filter_unique(front, v);
        let keep = |u: usize| u != v;
        if keep(s.last()) {
            assert(!front.filter(keep).contains(s.last())) by {
                if front.filter(keep).contains(s.last()) {
                    front.lemma_filter_contains_rev(keep, s.last());
                    let j = choose|j: int| 0 <= j < front.len() && front[j] == s.last();
                    assert(s[j] == s[s.len() - 1]);
                }
            }
            lemma_push_unique(front.filter(keep), s.last());
        }
    }
}

/// Moving the root from `r` to `c` lists no child twice where none was.
pub proof fn lemma_regrown_unique(before: Seq<Node>, after: Seq<Node>, r: int, c: int)
    requires
        children_unique(before),
        0 <= c < before.len(),
        is_regrown(before, after, r, c),
    ensures
        children_unique(after),
{
    assert forall|i: int| 0 <= i < after.len() implies (#[trigger] after[i].paths@).no_duplicates() by {
        assert(after[i] == after[i]);
        assert(before[i].paths@.no_duplicates());
        let grown = if i == c && !before[c].paths@.contains(r as usize) {
            before[i].paths@.push(r as usize)
        } else {
            before[i].paths@
        };
        if i == c && !before[c].paths@.contains(r as usize) {
            lemma_push_unique(before[i].paths@, r as usize);
        }
        if before[c].target == Some(i as usize) {
            lemma_filter_unique(grown, c as usize);
        }
    }
}

/// A cell whose chain reached the old root `r` in `k` steps reaches the new
/// root `c` after the move.
proof fn lemma_regrown_reaches(before: Seq<Node>, after: Seq<Node>, r: int, c: int, i: int, k: nat)
    requires
        r != c,
        0 <= c < before.len(),
        before.len() <= usize::MAX,
        0 <= i < before.len(),
        edges_in_range(before),
        is_regrown(before, after, r, c),
        climb(before, i, k) == r,
    ensures
        reaches(after, i, c),
    decreases k,
{
    assert(after[i] == after[i]);
    if i == c {
        assert(climb(after, i, 0) == c);
    } else if i == r {
        assert(after[r].target == Some(c as usize));
        assert(climb(after, c as usize as int, 0) == c);
        assert(climb(after, i, 1) == climb(after, c as usize as int, 0));
    } else {
        let p = before[i].target->0 as int;
        lemma_regrown_reaches(before, after, r, c, p, (k - 1) as nat);
        let m = choose|m: nat| climb(after, p, m) == c;
        assert(climb(after, i, m + 1) == c);
    }
}

/// Moving the root of a spanning tree to a neighbour leaves a spanning tree
/// rooted at that neighbour: the grid stays one component.
pub proof fn lemma_regrown_spanning(before: Seq<Node>, after: Seq<Node>, r: int, c: int)
    requires
        edges_in_range(before),
        spanning_tree(before, r),
        before.len() <= usize::MAX,
        0 <= c < before.len(),
        r != c,
        is_regrown(before, after, r, c),
    ensures
        spanning_tree(after, c),
{
    lemma_regrown_consistent(before, after, r, c);
    assert forall|i: int| 0 <= i < after.len() implies (#[trigger] is_root(after, i) <==> i == c) by {
        assert(roots(after).contains(i) == (0 <= i < after.len() && is_root(after, i)));
        assert(roots(before).contains(i) == (0 <= i < before.len() && is_root(before, i)));
        assert(is_root(before, i) ==> i == r);
    }
    assert forall|i: int| 0 <= i < after.len() implies #[trigger] reaches(after, i, c) by {
        assert(reaches(before, i, r));
        let k = choose|k: nat| climb(before, i, k) == r;
        lemma_regrown_reaches(before, after, r, c, i, k);
    }
}

/// A spanning tree over `n` cells has one root and `n - 1` parent edges.
pub proof fn lemma_spanning_tree_edges(nodes: Seq<Node>, r: int)
    requires
        spanning_tree(nodes, r),
    ensures
        roots(nodes) == set![r],
        parented(nodes).finite(),
        parented(nodes).len() == nodes.len() - 1,
{
    assert(roots(nodes) =~= set![r]) by {
        assert forall|i: int| roots(nodes).contains(i) <==> i == r by {
            if 0 <= i < nodes.len() {
                assert(is_root(nodes, i) <==> i == r);
            }
        }
    }
    vstd::set_lib::lemma_int_range(0, nodes.len() as int);
    assert(parented(nodes) =~= vstd::set_lib::set_int_range(0, nodes.len() as int).remove(r)) by {
        assert forall|i: int| 0 <= i < nodes.len() implies (parented(nodes).contains(i) <==> i != r) by {
            assert(is_root(nodes, i) <==> i == r);
        }
    }
}

/// Where edges agree, a cell names `p` as its parent exactly when `p` lists
/// it among its children.
pub proof fn lemma_edges_agree(nodes: Seq<Node>, i: int, p: int)
    requires
        consistent(nodes),
        nodes.len() <= usize::MAX,
        0 <= i < nodes.len(),
        0 <= p < nodes.len(),
    ensures
        nodes[i].target == Some(p as usize) <==> nodes[p].paths@.contains(i as usize),
{
    if nodes[p].paths@.contains(i as usize) {
        let k = choose|k: int| 0 <= k < nodes[p].paths@.len() && nodes[p].paths@[k] == i as usize;
        assert(nodes[nodes[p].paths@[k] as int].target == Some(p as usize));
    }
}

/// A walk from a root never leaves it.
pub proof fn lemma_root_stays(nodes: Seq<Node>, r: int, k: nat)
    requires
        is_root(nodes, r),
    ensures
        climb(nodes, r, k) == r,
{
}

/// A walk of `k + 1` steps is a walk of `k` steps and one more.
pub proof fn lemma_climb_step(nodes: Seq<Node>, i: int, k: nat)
    ensures
        climb(nodes, i, k + 1) == next_up(nodes, climb(nodes, i, k)),
    decreases k,
{
    reveal_with_fuel(climb, 2);
    if k > 0 {
        if let Some(p) = nodes[i].target {
            lemma_climb_step(nodes, p as int, (k - 1) as nat);
        }
    }
}

/// Once the walk from `i` comes back to a cell, it repeats with period `s - j`.
proof fn lemma_climb_periodic(nodes: Seq<Node>, i: int, j: nat, s: nat, m: nat)
    requires
        j < s,
        climb(nodes, i, s) == climb(nodes, i, j),
        j <= m,
    ensures
        climb(nodes, i, (m + (s - j)) as nat) == climb(nodes, i, m),
    decreases m - j,
{
    if m > j {
        lemma_climb_periodic(nodes, i, j, s, (m - 1) as nat);
        lemma_climb_step(nodes, i, (m - 1) as nat);
        lemma_climb_step(nodes, i, (m - 1 + (s - j)) as nat);
    }
}

/// A walk that comes back to a cell before meeting a root never meets one.
pub proof fn lemma_cycle_has_no_root(nodes: Seq<Node>, i: int, j: nat, s: nat, k: nat)
    requires
        j < s,
        climb(nodes, i, s) == climb(nodes, i, j),
        forall|t: nat| t < s ==> !is_root(nodes, #[trigger] climb(nodes, i, t)),
    ensures
        !is_root(nodes, climb(nodes, i, k)),
    decreases k,
{
    if k >= s {
        let m = (k - (s - j)) as nat;
        lemma_climb_periodic(nodes, i, j, s, m);
        lemma_cycle_has_no_root(nodes, i, j, s, m);
    }
}

/// One advance of the randomized walk keeps its invariant: the unvisited
/// neighbour `next` of the current cell becomes its child and the new
/// current cell; the current cell waits on the stack when it still has
/// other unvisited neighbours.
pub proof fn lemma_walk_advance(
    before: Seq<Node>,
    after: Seq<Node>,
    start: int,
    rank: Seq<nat>,
    cur: int,
    next: int,
    st_before: Seq<usize>,
    st_after: Seq<usize>,
    pushed: bool,
)
    requires
        walk_inv(before, start, rank, cur, st_before),
        edges_in_range(before),
        before.len() <= usize::MAX,
        after.len() == before.len(),
        0 <= cur < before.len(),
        0 <= next < before.len(),
        before[cur].conn,
        !before[next].conn,
        touching(before, cur, next),
        forall|i: int| 0 <= i < before.len() && i != cur && i != next ==> #[trigger] after[i] == before[i],
        after[next].x == before[next].x && after[next].y == before[next].y && after[next].conn
            && after[next].paths == before[next].paths && after[next].target == Some(cur as usize),
        after[cur].x == before[cur].x && after[cur].y == before[cur].y && after[cur].conn == before[cur].conn
            && after[cur].target == before[cur].target && after[cur].paths@ == before[cur].paths@.push(
            next as usize,
        ),
        st_after == (if pushed {
            st_before.push(cur as usize)
        } else {
            st_before
        }),
        !pushed ==> forall|b: int|
            0 <= b < before.len() && !before[b].conn && #[trigger] touching(before, cur, b) ==> b == next,
    ensures
        walk_inv(after, start, rank.update(next, rank[cur] + 1), next, st_after),
{
    reveal(walk_inv);
    let n = before.len();
    let nodes = after;
    let rank2 = rank.update(next, rank[cur] + 1);
    assert(before[next] == before[next]);
    assert(before[cur] == before[cur]);
    assert forall|i: int| #![trigger nodes[i]] 0 <= i < n implies nodes[i].x == before[i].x && nodes[i].y == before[i].y by {
        assert(before[i] == before[i]);
    }
    assert(!before[cur].paths@.contains(next as usize)) by {
        if before[cur].paths@.contains(next as usize) {
            let m = choose|m: int| 0 <= m < before[cur].paths@.len() && before[cur].paths@[m] == next as usize;
            assert(before[before[cur].paths@[m] as int].target == Some(cur as usize));
        }
    }
    assert forall|i: int| #![trigger nodes[i].target]
        0 <= i < n && nodes[i].target is Some implies nodes[nodes[i].target->0 as int].paths@.contains(i as usize) by {
        if i == next {
            assert(nodes[cur].paths@[before[cur].paths@.len() as int] == next);
        } else {
            assert(before[i] == before[i]);
            let p = before[i].target->0 as int;
            assert(before[p].paths@.contains(i as usize));
            let m = choose|m: int| 0 <= m < before[p].paths@.len() && before[p].paths@[m] == i as usize;
            assert(nodes[p].paths@[m] == i as usize);
        }
    }
    assert forall|p: int, m: int| #![trigger nodes[p].paths@[m]]
        0 <= p < n && 0 <= m < nodes[p].paths@.len() implies nodes[nodes[p].paths@[m] as int].target == Some(p as usize) by {
        if p == cur && m == before[p].paths@.len() {
        } else {
            assert(before[p] == before[p]);
            assert(nodes[p].paths@[m] == before[p].paths@[m]);
            let c = before[p].paths@[m] as int;
            assert(before[c].target == Some(p as usize));
            assert(c != next);
        }
    }
    assert forall|p: int| 0 <= p < n implies (#[trigger] nodes[p].paths@).no_duplicates() by {
        assert(before[p].paths@.no_duplicates());
        if p == cur {
            let s = before[cur].paths@;
            assert forall|a: int, b: int| 0 <= a < s.len() + 1 && 0 <= b < s.len() + 1 && a != b implies nodes[p].paths@[a]
                != nodes[p].paths@[b] by {
                if a == s.len() {
                    assert(nodes[p].paths@[b] == s[b]);
                } else if b == s.len() {
                    assert(nodes[p].paths@[a] == s[a]);
                }
            }
        } else if p != next {
            assert(nodes[p] == before[p]);
        }
    }
    assert forall|a: int, b: int|
        0 <= a < n && 0 <= b < n && nodes[a].conn && !nodes[b].conn && #[trigger] touching(nodes, a, b) implies a
        == next || st_after.contains(a as usize) by {
        assert(touching(before, a, b));
        assert(before[b] == before[b]);
        if a != next {
            assert(before[a] == before[a]);
            if a == cur {
                if pushed {
                    assert(st_after[st_after.len() - 1] == cur);
                }
            } else {
                assert(st_before.contains(a as usize));
                let m = choose|m: int| 0 <= m < st_before.len() && st_before[m] == a as usize;
                assert(st_after[m] == a as usize);
            }
        }
    }
    assert forall|j: int| #![trigger nodes[j]]
        0 <= j < n && nodes[j].conn && j != start implies nodes[j].target is Some && nodes[j].target->0 < n
        && nodes[nodes[j].target->0 as int].conn && rank2[nodes[j].target->0 as int] < rank2[j] && touching(
        nodes,
        j,
        nodes[j].target->0 as int,
    ) by {
        assert(before[j] == before[j]);
        if j != next {
            let p = before[j].target->0 as int;
            assert(before[p].paths@.contains(j as usize));
            assert(before[p] == before[p]);
            assert(touching(before, j, p));
        }
    }
}

/// A cell whose parent chain strictly decreases a rank down to `r` reaches `r`.
pub proof fn lemma_ranked_reaches(nodes: Seq<Node>, r: int, rank: Seq<nat>, i: int)
    requires
        0 <= i < nodes.len(),
        rank.len() == nodes.len(),
        nodes[i].conn,
        forall|j: int| #![trigger nodes[j]]
            0 <= j < nodes.len() && nodes[j].conn && j != r ==> nodes[j].target is Some
                && nodes[j].target->0 < nodes.len() && nodes[nodes[j].target->0 as int].conn
                && rank[nodes[j].target->0 as int] < rank[j],
    ensures
        reaches(nodes, i, r),
    decreases rank[i],
{
    if i == r {
        assert(climb(nodes, i, 0) == r);
    } else {
        let p = nodes[i].target->0 as int;
        lemma_ranked_reaches(nodes, r, rank, p);
        let k = choose|k: nat| climb(nodes, p, k) == r;
        assert(climb(nodes, i, k + 1) == r);
    }
}

} // verus!
