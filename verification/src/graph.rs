//! Walks along operations, and which of them is the best.
//!
//! Operations are the edges of a graph: `edges[i]` holds the input and the output
//! state of operation `i`. A path is a sequence of operations.

use crate::refs::{OpRef, StateRef};
use vstd::prelude::*;

verus! {

/// Whether following `path` leads from one state to another.
pub open spec fn is_walk(
    edges: Seq<(StateRef, StateRef)>,
    path: Seq<OpRef>,
    from: StateRef,
    to: StateRef,
) -> bool
    decreases path.len(),
{
    if path.len() == 0 {
        from == to
    } else {
        let last = path.last().0 as int;
        &&& last < edges.len()
        &&& edges[last].1 == to
        &&& is_walk(edges, path.drop_last(), from, edges[last].0)
    }
}

/// Shorter paths come first; of two paths of one length, the one with the earlier
/// operation at the first place where they differ.
pub open spec fn precedes(a: Seq<OpRef>, b: Seq<OpRef>) -> bool {
    ||| a.len() < b.len()
    ||| a.len() == b.len() && exists|k: int| #[trigger] differ_at(a, b, k)
}

/// Two paths agree before place `k`, and `a` has the earlier operation there.
pub open spec fn differ_at(a: Seq<OpRef>, b: Seq<OpRef>, k: int) -> bool {
    &&& 0 <= k < a.len()
    &&& k < b.len()
    &&& a[k].0 < b[k].0
    &&& forall|i: int| 0 <= i < k ==> a[i] == b[i]
}

/// The first in order of the paths that lead from one state to another: a
/// shortest one, and among those the one whose operations were added first.
pub open spec fn is_best_walk(
    edges: Seq<(StateRef, StateRef)>,
    path: Seq<OpRef>,
    from: StateRef,
    to: StateRef,
) -> bool {
    &&& is_walk(edges, path, from, to)
    &&& forall|other: Seq<OpRef>| #[trigger]
        is_walk(edges, other, from, to) ==> other == path || precedes(path, other)
}

/// Whether any path leads from one state to another.
pub open spec fn reachable(
    edges: Seq<(StateRef, StateRef)>,
    from: StateRef,
    to: StateRef,
) -> bool {
    exists|path: Seq<OpRef>| is_walk(edges, path, from, to)
}

pub(crate) proof fn lemma_precedes_trans(a: Seq<OpRef>, b: Seq<OpRef>, c: Seq<OpRef>)
    requires
        precedes(a, b),
        precedes(b, c),
    ensures
        precedes(a, c),
{
    if a.len() == b.len() && b.len() == c.len() {
        let j = choose|k: int| differ_at(a, b, k);
        let k = choose|k: int| differ_at(b, c, k);
        if j <= k {
            assert(differ_at(a, c, j));
        } else {
            assert(differ_at(a, c, k));
        }
    }
}

pub(crate) proof fn lemma_precedes_asym(a: Seq<OpRef>, b: Seq<OpRef>)
    requires
        precedes(a, b),
    ensures
        !precedes(b, a),
        a != b,
{
    if a.len() == b.len() {
        let j = choose|k: int| differ_at(a, b, k);
        if exists|k: int| differ_at(b, a, k) {
            let k = choose|k: int| differ_at(b, a, k);
            if j < k {
                assert(b[j] == a[j]);
            }
        }
    }
}

pub(crate) proof fn lemma_precedes_total(a: Seq<OpRef>, b: Seq<OpRef>)
    ensures
        a == b || precedes(a, b) || precedes(b, a),
{
    if a.len() == b.len() && a != b {
        lemma_first_difference(a, b, a.len() as int);
    }
}

proof fn lemma_first_difference(a: Seq<OpRef>, b: Seq<OpRef>, n: int)
    requires
        0 <= n <= a.len(),
        a.len() == b.len(),
    ensures
        (forall|i: int| 0 <= i < n ==> a[i] == b[i]) || precedes(a, b) || precedes(b, a),
        a != b && n == a.len() ==> precedes(a, b) || precedes(b, a),
    decreases n,
{
    if n > 0 {
        lemma_first_difference(a, b, n - 1);
        if forall|i: int| 0 <= i < n - 1 ==> a[i] == b[i] {
            if a[n - 1].0 < b[n - 1].0 {
                assert(differ_at(a, b, n - 1));
            } else if b[n - 1].0 < a[n - 1].0 {
                assert(differ_at(b, a, n - 1));
            }
        }
    }
    if forall|i: int| 0 <= i < n ==> a[i] == b[i] {
        if n == a.len() {
            assert(a =~= b);
        }
    }
}

/// Of two paths of one length, the one that comes first has the earlier operation at the
/// first place where they differ.
pub(crate) proof fn lemma_precedes_first(a: Seq<OpRef>, b: Seq<OpRef>)
    requires
        a == b || precedes(a, b),
    ensures
        a.len() <= b.len(),
        a.len() == b.len() ==> forall|k: int|
            {
                &&& 0 <= k < b.len()
                &&& a.take(k) == b.take(k)
                &&& (#[trigger] a[k]) != b[k]
            } ==> a[k].0 < b[k].0,
{
    if a.len() == b.len() && a != b {
        let j = choose|j: int| differ_at(a, b, j);
        assert forall|k: int|
            {
                &&& 0 <= k < b.len()
                &&& a.take(k) == b.take(k)
                &&& (#[trigger] a[k]) != b[k]
            } implies a[k].0 < b[k].0 by {
            if j < k {
                assert(a.take(k)[j] == b.take(k)[j]);
            }
        }
    }
}

/// Extending two paths by one operation each keeps their order.
pub(crate) proof fn lemma_precedes_push(a: Seq<OpRef>, b: Seq<OpRef>, x: OpRef, y: OpRef)
    requires
        precedes(a, b) || (a == b && x.0 < y.0),
    ensures
        precedes(a.push(x), b.push(y)),
{
    if a == b {
        assert(differ_at(a.push(x), b.push(y), a.len() as int));
    } else if a.len() == b.len() {
        let k = choose|k: int| differ_at(a, b, k);
        assert(differ_at(a.push(x), b.push(y), k));
    }
}

pub(crate) proof fn lemma_walk_push(
    edges: Seq<(StateRef, StateRef)>,
    path: Seq<OpRef>,
    from: StateRef,
    op: OpRef,
)
    requires
        op.0 < edges.len(),
        is_walk(edges, path, from, edges[op.0 as int].0),
    ensures
        is_walk(edges, path.push(op), from, edges[op.0 as int].1),
{
    assert(path.push(op).drop_last() =~= path);
}

/// What a search has found: for each state that it reached, the path by which.
pub(crate) type Found = Map<StateRef, Seq<OpRef>>;

/// Whether a path comes before a bound, where there is one.
pub(crate) open spec fn below(path: Seq<OpRef>, bound: Option<Seq<OpRef>>) -> bool {
    bound matches Some(b) ==> precedes(path, b)
}

/// Operation `op`, taken from state `from`, leads to a state that was found by a
/// path no later than the one through `op`.
pub(crate) open spec fn taken(
    edges: Seq<(StateRef, StateRef)>,
    found: Found,
    from: StateRef,
    op: OpRef,
) -> bool {
    let to = edges[op.0 as int].1;
    &&& found.contains_key(to)
    &&& found[to] == found[from].push(op) || precedes(found[to], found[from].push(op))
}

/// Every operation that starts in a state found below the bound has been taken.
pub(crate) open spec fn closed(
    edges: Seq<(StateRef, StateRef)>,
    found: Found,
    bound: Option<Seq<OpRef>>,
) -> bool {
    forall|from: StateRef, op: OpRef| #[trigger]
        taken(edges, found, from, op) || !(found.contains_key(from) && below(found[from], bound)
            && op.0 < edges.len() && edges[op.0 as int].0 == from)
}

/// A walk below the bound leads to a state that was found, by a path no later.
pub(crate) proof fn lemma_found_best(
    edges: Seq<(StateRef, StateRef)>,
    found: Found,
    bound: Option<Seq<OpRef>>,
    start: StateRef,
    path: Seq<OpRef>,
    to: StateRef,
)
    requires
        closed(edges, found, bound),
        found.contains_key(start),
        found[start] == Seq::<OpRef>::empty(),
        is_walk(edges, path, start, to),
        below(path, bound),
    ensures
        found.contains_key(to),
        found[to] == path || precedes(found[to], path),
    decreases path.len(),
{
    if path.len() == 0 {
        assert(path =~= Seq::<OpRef>::empty());
    } else {
        let init = path.drop_last();
        let op = path.last();
        let from = edges[op.0 as int].0;
        if bound is Some {
            lemma_precedes_trans(init, path, bound->0);
        }
        lemma_found_best(edges, found, bound, start, init, from);
        if bound is Some && found[from] != init {
            lemma_precedes_trans(found[from], init, bound->0);
        }
        assert(taken(edges, found, from, op));
        assert(init.push(op) =~= path);
        if found[from] != init {
            lemma_precedes_push(found[from], init, op, op);
            if found[to] != found[from].push(op) {
                lemma_precedes_trans(found[to], found[from].push(op), path);
            }
        }
    }
}

/// There is at most one best path between two states.
pub proof fn law_best_walk_unique(
    edges: Seq<(StateRef, StateRef)>,
    a: Seq<OpRef>,
    b: Seq<OpRef>,
    from: StateRef,
    to: StateRef,
)
    requires
        is_best_walk(edges, a, from, to),
        is_best_walk(edges, b, from, to),
    ensures
        a == b,
{
    if a != b {
        lemma_precedes_asym(a, b);
    }
}

/// The best path is a shortest one.
pub proof fn law_best_walk_shortest(
    edges: Seq<(StateRef, StateRef)>,
    best: Seq<OpRef>,
    other: Seq<OpRef>,
    from: StateRef,
    to: StateRef,
)
    requires
        is_best_walk(edges, best, from, to),
        is_walk(edges, other, from, to),
    ensures
        best.len() <= other.len(),
{
}

/// Nothing has to be done to get from a state to itself.
pub proof fn law_best_walk_to_self(edges: Seq<(StateRef, StateRef)>, state: StateRef)
    ensures
        is_best_walk(edges, Seq::<OpRef>::empty(), state, state),
{
    assert forall|other: Seq<OpRef>| #[trigger] is_walk(edges, other, state, state) implies other
        == Seq::<OpRef>::empty() || precedes(Seq::<OpRef>::empty(), other) by {
        if other.len() == 0 {
            assert(other =~= Seq::<OpRef>::empty());
        }
    }
}

/// The state that a path has come to after `i` of its operations.
pub open spec fn state_after(
    edges: Seq<(StateRef, StateRef)>,
    path: Seq<OpRef>,
    from: StateRef,
    i: int,
) -> StateRef {
    if i <= 0 {
        from
    } else {
        edges[path[i - 1].0 as int].1
    }
}

/// Each operation of a path is one of those there are and takes up the state that
/// the ones before it have come to; the last one comes to the end.
pub proof fn law_walk_connects(
    edges: Seq<(StateRef, StateRef)>,
    path: Seq<OpRef>,
    from: StateRef,
    to: StateRef,
)
    requires
        is_walk(edges, path, from, to),
    ensures
        forall|i: int|
            0 <= i < path.len() ==> {
                &&& (#[trigger] path[i]).0 < edges.len()
                &&& edges[path[i].0 as int].0 == state_after(edges, path, from, i)
            },
        state_after(edges, path, from, path.len() as int) == to,
    decreases path.len(),
{
    if path.len() > 0 {
        let init = path.drop_last();
        law_walk_connects(edges, init, from, edges[path.last().0 as int].0);
        assert forall|i: int| 0 <= i < path.len() implies (#[trigger] path[i]).0 < edges.len()
            && edges[path[i].0 as int].0 == state_after(edges, path, from, i) by {
            if i < init.len() {
                assert(init[i] == path[i]);
            }
            if i > 0 {
                assert(init[i - 1] == path[i - 1]);
            }
        }
    }
}

/// Operations of which each takes up the state that the one before it comes to are a
/// path, from the state that the first one takes up to the one that the last one comes to.
pub proof fn law_connected_walk(
    edges: Seq<(StateRef, StateRef)>,
    path: Seq<OpRef>,
    from: StateRef,
    to: StateRef,
)
    requires
        forall|i: int| 0 <= i < path.len() ==> (#[trigger] path[i]).0 < edges.len(),
        forall|i: int|
            0 < i < path.len() ==> edges[(#[trigger] path[i]).0 as int].0 == edges[path[i
                - 1].0 as int].1,
        path.len() == 0 ==> from == to,
        path.len() > 0 ==> edges[path[0].0 as int].0 == from && edges[path.last().0 as int].1
            == to,
    ensures
        is_walk(edges, path, from, to),
    decreases path.len(),
{
    if path.len() > 0 {
        let init = path.drop_last();
        assert(path.last() == path[path.len() - 1]);
        assert(forall|i: int| 0 <= i < init.len() ==> init[i] == path[i]);
        if init.len() > 0 {
            assert(init.last() == path[path.len() - 2]);
        }
        law_connected_walk(edges, init, from, edges[path.last().0 as int].0);
    }
}

/// Leaving out what leads from a state back to it leaves a path.
proof fn lemma_walk_cut(
    edges: Seq<(StateRef, StateRef)>,
    path: Seq<OpRef>,
    from: StateRef,
    to: StateRef,
    i: int,
    j: int,
)
    requires
        is_walk(edges, path, from, to),
        0 <= i <= j <= path.len(),
        state_after(edges, path, from, i) == state_after(edges, path, from, j),
    ensures
        is_walk(edges, path.take(i) + path.skip(j), from, to),
    decreases path.len(),
{
    let cut = path.take(i) + path.skip(j);
    if j < path.len() {
        let init = path.drop_last();
        assert(cut.drop_last() =~= init.take(i) + init.skip(j));
        assert(cut.last() == path.last());
        lemma_walk_cut(edges, init, from, edges[path.last().0 as int].0, i, j);
    } else if i < path.len() {
        lemma_walk_take(edges, path, from, to, i);
        assert(cut =~= path.take(i));
    } else {
        assert(cut =~= path);
    }
}

proof fn lemma_walk_take(
    edges: Seq<(StateRef, StateRef)>,
    path: Seq<OpRef>,
    from: StateRef,
    to: StateRef,
    i: int,
)
    requires
        is_walk(edges, path, from, to),
        0 <= i <= path.len(),
    ensures
        is_walk(edges, path.take(i), from, state_after(edges, path, from, i)),
    decreases path.len(),
{
    if i == path.len() {
        assert(path.take(i) =~= path);
    } else {
        let init = path.drop_last();
        assert(init.take(i) =~= path.take(i));
        lemma_walk_take(edges, init, from, edges[path.last().0 as int].0, i);
    }
}

/// The best path comes through no state twice.
pub proof fn law_best_walk_simple(
    edges: Seq<(StateRef, StateRef)>,
    path: Seq<OpRef>,
    from: StateRef,
    to: StateRef,
    i: int,
    j: int,
)
    requires
        is_best_walk(edges, path, from, to),
        0 <= i < j <= path.len(),
    ensures
        state_after(edges, path, from, i) != state_after(edges, path, from, j),
{
    if state_after(edges, path, from, i) == state_after(edges, path, from, j) {
        lemma_walk_cut(edges, path, from, to, i, j);
    }
}

/// Following one path after another is a path.
proof fn lemma_walk_concat(
    edges: Seq<(StateRef, StateRef)>,
    a: Seq<OpRef>,
    b: Seq<OpRef>,
    from: StateRef,
    mid: StateRef,
    to: StateRef,
)
    requires
        is_walk(edges, a, from, mid),
        is_walk(edges, b, mid, to),
    ensures
        is_walk(edges, a + b, from, to),
    decreases b.len(),
{
    if b.len() == 0 {
        assert(a + b =~= a);
    } else {
        assert((a + b).drop_last() =~= a + b.drop_last());
        lemma_walk_concat(edges, a, b.drop_last(), from, mid, edges[b.last().0 as int].0);
    }
}

/// What remains of a path behind its first operations leads on from where these lead.
proof fn lemma_walk_skip(
    edges: Seq<(StateRef, StateRef)>,
    path: Seq<OpRef>,
    from: StateRef,
    to: StateRef,
    i: int,
)
    requires
        is_walk(edges, path, from, to),
        0 <= i <= path.len(),
    ensures
        is_walk(edges, path.skip(i), state_after(edges, path, from, i), to),
    decreases path.len(),
{
    if i < path.len() {
        let init = path.drop_last();
        assert(path.skip(i).drop_last() =~= init.skip(i));
        assert(path.skip(i).last() == path.last());
        lemma_walk_skip(edges, init, from, edges[path.last().0 as int].0, i);
    }
}

/// Going on alike keeps the order of two paths.
proof fn lemma_precedes_concat(a: Seq<OpRef>, b: Seq<OpRef>, rest: Seq<OpRef>)
    requires
        precedes(a, b),
    ensures
        precedes(a + rest, b + rest),
{
    if a.len() == b.len() {
        let k = choose|k: int| differ_at(a, b, k);
        assert(differ_at(a + rest, b + rest, k));
    }
}

/// The first operations of a best path are the best path to the state that they lead
/// to.
pub proof fn law_best_walk_prefix(
    edges: Seq<(StateRef, StateRef)>,
    path: Seq<OpRef>,
    from: StateRef,
    to: StateRef,
    i: int,
)
    requires
        is_best_walk(edges, path, from, to),
        0 <= i <= path.len(),
    ensures
        is_best_walk(edges, path.take(i), from, state_after(edges, path, from, i)),
{
    let mid = state_after(edges, path, from, i);
    let first = path.take(i);
    let rest = path.skip(i);
    lemma_walk_take(edges, path, from, to, i);
    lemma_walk_skip(edges, path, from, to, i);
    assert(first + rest =~= path);
    assert forall|other: Seq<OpRef>| #[trigger] is_walk(edges, other, from, mid) implies other
        == first || precedes(first, other) by {
        lemma_precedes_total(first, other);
        if precedes(other, first) {
            lemma_walk_concat(edges, other, rest, from, mid, to);
            lemma_precedes_concat(other, first, rest);
            lemma_precedes_asym(other + rest, path);
        }
    }
}

/// A path stays a path when operations are added.
pub proof fn law_walk_kept(
    edges: Seq<(StateRef, StateRef)>,
    more: Seq<(StateRef, StateRef)>,
    path: Seq<OpRef>,
    from: StateRef,
    to: StateRef,
)
    requires
        edges.is_prefix_of(more),
        is_walk(edges, path, from, to),
    ensures
        is_walk(more, path, from, to),
    decreases path.len(),
{
    if path.len() > 0 {
        let last = path.last().0 as int;
        assert(edges[last] == more[last]);
        law_walk_kept(edges, more, path.drop_last(), from, edges[last].0);
    }
}

/// The best path gets no longer when operations are added.
pub proof fn law_best_walk_no_longer(
    edges: Seq<(StateRef, StateRef)>,
    more: Seq<(StateRef, StateRef)>,
    path: Seq<OpRef>,
    new_path: Seq<OpRef>,
    from: StateRef,
    to: StateRef,
)
    requires
        edges.is_prefix_of(more),
        is_best_walk(edges, path, from, to),
        is_best_walk(more, new_path, from, to),
    ensures
        new_path.len() <= path.len(),
{
    law_walk_kept(edges, more, path, from, to);
}

} // verus!
