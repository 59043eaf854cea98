//! Finding a way from one state to another.

use crate::driver::Driver;
use crate::graph::{
    below, closed, is_best_walk, is_walk, lemma_found_best, lemma_precedes_asym,
    lemma_precedes_push, lemma_precedes_total, lemma_precedes_trans, lemma_walk_push, precedes,
    reachable, taken, Found,
};
use crate::refs::{OpRef, StateRef};
use crate::tables::{crumbs, marked, Breadcrumbs, StateMarks};
use vstd::prelude::*;

verus! {

/// What holds all through the search: `order` lists the states found so far in the
/// order of their paths, and the operations of the first `head` of them were taken.
spec fn searched(
    edges: Seq<(StateRef, StateRef)>,
    start: StateRef,
    found: Found,
    order: Seq<StateRef>,
    head: int,
) -> bool {
    &&& 0 <= head <= order.len()
    &&& found.contains_key(start)
    &&& found[start] == Seq::<OpRef>::empty()
    &&& forall|i: int| 0 <= i < order.len() ==> found.contains_key(#[trigger] order[i])
    &&& forall|s: StateRef| #[trigger] found.contains_key(s) ==> order.contains(s)
    &&& forall|s: StateRef| #[trigger]
        found.contains_key(s) ==> is_walk(edges, found[s], start, s)
    &&& forall|i: int, k: int|
        0 <= i < k < order.len() ==> precedes(
            found[#[trigger] order[i]],
            found[#[trigger] order[k]],
        )
    &&& forall|i: int, op: OpRef|
        0 <= i < head && op.0 < edges.len() && edges[op.0 as int].0 == order[i] ==> (
        #[trigger] taken(edges, found, order[i], op))
}

/// All paths found so far come before the path through `op` from state `from`.
spec fn ahead(found: Found, from: StateRef, op: u32) -> bool {
    forall|s: StateRef| #[trigger]
        found.contains_key(s) ==> precedes(found[s], found[from].push(OpRef(op)))
}

/// The marks and the breadcrumbs of the search tell what was found.
spec fn recorded(
    edges: Seq<(StateRef, StateRef)>,
    start: StateRef,
    found: Found,
    marks: Set<StateRef>,
    trail: Map<StateRef, OpRef>,
) -> bool {
    &&& marks == found.dom()
    &&& trail.dom() == found.dom().remove(start)
    &&& forall|s: StateRef| #[trigger]
        trail.contains_key(s) ==> {
            let op = trail[s];
            let from = edges[op.0 as int].0;
            &&& op.0 < edges.len()
            &&& edges[op.0 as int].1 == s
            &&& found.contains_key(from)
            &&& found[s] == found[from].push(op)
        }
}

/// How many operations lead to states outside of a set.
spec fn leading_out(edges: Seq<(StateRef, StateRef)>, inside: Set<StateRef>) -> nat
    decreases edges.len(),
{
    if edges.len() == 0 {
        0
    } else {
        leading_out(edges.drop_last(), inside) + if inside.contains(edges.last().1) {
            0nat
        } else {
            1nat
        }
    }
}

proof fn lemma_leading_out(
    edges: Seq<(StateRef, StateRef)>,
    small: Set<StateRef>,
    state: StateRef,
    i: int,
)
    requires
        !small.contains(state),
    ensures
        leading_out(edges, small.insert(state)) <= leading_out(edges, small),
        0 <= i < edges.len() && edges[i].1 == state ==> leading_out(edges, small.insert(state))
            < leading_out(edges, small),
    decreases edges.len(),
{
    if edges.len() > 0 {
        lemma_leading_out(edges.drop_last(), small, state, i);
    }
}

/// The search goes on to a state not found before, by an operation from the state
/// that it has come to.
proof fn lemma_discover(
    edges: Seq<(StateRef, StateRef)>,
    start: StateRef,
    found: Found,
    order: Seq<StateRef>,
    head: int,
    op: u32,
)
    requires
        searched(edges, start, found, order, head),
        head < order.len(),
        op < edges.len(),
        op < u32::MAX,
        edges[op as int].0 == order[head],
        !found.contains_key(edges[op as int].1),
        ahead(found, order[head], op),
        forall|done: OpRef|
            done.0 < op && edges[done.0 as int].0 == order[head] ==> #[trigger] taken(
                edges,
                found,
                order[head],
                done,
            ),
    ensures
        ({
            let to = edges[op as int].1;
            let next = found.insert(to, found[order[head]].push(OpRef(op)));
            &&& searched(edges, start, next, order.push(to), head)
            &&& ahead(next, order[head], (op + 1) as u32)
            &&& forall|done: OpRef|
                done.0 <= op && edges[done.0 as int].0 == order[head] ==> #[trigger] taken(
                    edges,
                    next,
                    order[head],
                    done,
                )
        }),
{
    let cur = order[head];
    let to = edges[op as int].1;
    let next = found.insert(to, found[cur].push(OpRef(op)));
    let next_order = order.push(to);
    assert(found.contains_key(cur));
    lemma_walk_push(edges, found[cur], start, OpRef(op));
    assert forall|s: StateRef| #[trigger] next.contains_key(s) implies next_order.contains(s) by {
        if s == to {
            assert(next_order[order.len() as int] == to);
        } else {
            let k = choose|k: int| 0 <= k < order.len() && order[k] == s;
            assert(next_order[k] == s);
        }
    }
    assert forall|i: int, k: int| 0 <= i < k < next_order.len() implies precedes(
        next[#[trigger] next_order[i]],
        next[#[trigger] next_order[k]],
    ) by {
        assert(found.contains_key(order[i]));
        if k < order.len() {
            assert(found.contains_key(order[k]));
        }
    }
    assert forall|i: int, done: OpRef|
        0 <= i < head && done.0 < edges.len() && edges[done.0 as int].0
            == next_order[i] implies #[trigger] taken(edges, next, next_order[i], done) by {
        assert(found.contains_key(order[i]));
        assert(taken(edges, found, order[i], done));
    }
    assert forall|s: StateRef| #[trigger] next.contains_key(s) implies precedes(
        next[s],
        next[cur].push(OpRef((op + 1) as u32)),
    ) by {
        lemma_precedes_push(found[cur], found[cur], OpRef(op), OpRef((op + 1) as u32));
        if s != to {
            lemma_precedes_trans(
                found[s],
                found[cur].push(OpRef(op)),
                found[cur].push(OpRef((op + 1) as u32)),
            );
        }
    }
    assert forall|done: OpRef|
        done.0 <= op && edges[done.0 as int].0 == cur implies #[trigger] taken(
        edges,
        next,
        cur,
        done,
    ) by {
        if done.0 < op {
            assert(taken(edges, found, cur, done));
        }
    }
}

/// The search has gone through the operations up to `op` without a new state.
proof fn lemma_ahead_next(found: Found, cur: StateRef, op: u32)
    requires
        ahead(found, cur, op),
        op < u32::MAX,
    ensures
        ahead(found, cur, (op + 1) as u32),
{
    assert forall|s: StateRef| #[trigger] found.contains_key(s) implies precedes(
        found[s],
        found[cur].push(OpRef((op + 1) as u32)),
    ) by {
        lemma_precedes_push(found[cur], found[cur], OpRef(op), OpRef((op + 1) as u32));
        lemma_precedes_trans(
            found[s],
            found[cur].push(OpRef(op)),
            found[cur].push(OpRef((op + 1) as u32)),
        );
    }
}

/// Paths ahead of one state's operations are ahead of those of a later state.
proof fn lemma_ahead_from(found: Found, cur: StateRef, op: u32, later: StateRef)
    requires
        ahead(found, cur, op),
        precedes(found[cur], found[later]),
    ensures
        ahead(found, later, 0),
{
    assert forall|s: StateRef| #[trigger] found.contains_key(s) implies precedes(
        found[s],
        found[later].push(OpRef(0)),
    ) by {
        lemma_precedes_push(found[cur], found[later], OpRef(op), OpRef(0));
        lemma_precedes_trans(found[s], found[cur].push(OpRef(op)), found[later].push(OpRef(0)));
    }
}

/// The operations taken are all those below the path to the state that the search
/// has come to, and all there are once it has come to the end.
proof fn lemma_searched_closed(
    edges: Seq<(StateRef, StateRef)>,
    start: StateRef,
    found: Found,
    order: Seq<StateRef>,
    head: int,
    bound: Option<Seq<OpRef>>,
)
    requires
        searched(edges, start, found, order, head),
        match bound {
            Some(b) => head < order.len() && b == found[order[head]],
            None => head == order.len(),
        },
    ensures
        closed(edges, found, bound),
{
    assert forall|from: StateRef, op: OpRef| #[trigger]
        taken(edges, found, from, op) || !(found.contains_key(from) && below(found[from], bound)
            && op.0 < edges.len() && edges[op.0 as int].0 == from) by {
        if found.contains_key(from) && below(found[from], bound) && op.0 < edges.len()
            && edges[op.0 as int].0 == from {
            let k = choose|k: int| 0 <= k < order.len() && order[k] == from;
            if bound is Some && head <= k {
                lemma_precedes_asym(found[from], bound->0);
                if head < k {
                    assert(precedes(found[order[head]], found[order[k]]));
                }
            }
            assert(taken(edges, found, order[k], op));
        }
    }
}

/// Where all operations below a bound were taken, the path found to the bound's
/// state is the best one; without a bound, every path found is.
proof fn lemma_search_result(
    edges: Seq<(StateRef, StateRef)>,
    found: Found,
    bound: Option<Seq<OpRef>>,
    start: StateRef,
    end: StateRef,
)
    requires
        closed(edges, found, bound),
        found.contains_key(start),
        found[start] == Seq::<OpRef>::empty(),
        found.contains_key(end) ==> is_walk(edges, found[end], start, end),
        bound matches Some(b) ==> found.contains_key(end) && found[end] == b,
    ensures
        found.contains_key(end) ==> is_best_walk(edges, found[end], start, end),
        !found.contains_key(end) ==> !reachable(edges, start, end),
{
    assert forall|other: Seq<OpRef>| #[trigger] is_walk(edges, other, start, end) implies {
        &&& found.contains_key(end)
        &&& other == found[end] || precedes(found[end], other)
    } by {
        if below(other, bound) {
            lemma_found_best(edges, found, bound, start, other, end);
        } else {
            lemma_precedes_total(found[end], other);
        }
    }
}

impl Driver {
    /// Find the operations that lead from one state to another: the fewest possible,
    /// and among as few the ones that were added first.
    pub fn find_path(&self, start: StateRef, end: StateRef) -> (path: Option<Vec<OpRef>>)
        requires
            self.wf(),
            start.valid(),
        ensures
            match path {
                Some(p) => is_best_walk(self.edges(), p@, start, end),
                None => !reachable(self.edges(), start, end),
            },
    {
        let ghost edges = self.edges();

        // Our start state is the input.
        let mut visited = StateMarks::new();
        visited.set(start);

        // Build the incoming edges for each vertex.
        let mut breadcrumbs = Breadcrumbs::new();

        // Breadth-first search.
        let mut state_queue: Vec<StateRef> = Vec::new();
        state_queue.push(start);
        let ghost mut found: Found = Map::empty().insert(start, Seq::empty());
        let ghost mut order: Seq<StateRef> = seq![start];
        let ghost mut head: int = 0;
        let ghost mut bound: Option<Seq<OpRef>> = None;
        proof {
            assert(state_queue@ =~= order.skip(0));
            assert(order[0] == start);
            assert(marked(visited) =~= found.dom());
            assert(crumbs(breadcrumbs).dom() =~= found.dom().remove(start));
        }
        let count: usize = self.ops.len();
        while !state_queue.is_empty()
            invariant_except_break
                bound is None,
                state_queue@ == order.skip(head),
            invariant
                self.wf(),
                edges == self.edges(),
                count == edges.len(),
                searched(edges, start, found, order, head),
                recorded(edges, start, found, marked(visited), crumbs(breadcrumbs)),
                forall|i: int| head <= i < order.len() ==> ahead(found, #[trigger] order[i], 0),
            ensures
                match bound {
                    Some(b) => head < order.len() && order[head] == end && found[end] == b,
                    None => head == order.len(),
                },
            decreases leading_out(edges, found.dom()), order.len() - head,
        {
            let cur_state = state_queue.remove(0);
            assert(cur_state == order[head]);
            assert(state_queue@ =~= order.skip(head + 1));

            // Finish when we reach the goal.
            if cur_state == end {
                proof {
                    bound = Some(found[end]);
                }
                break;
            }

            // Traverse any edge from the current state to an unvisited state.
            let ghost before = leading_out(edges, found.dom());
            let ghost before_len = order.len();
            let mut i: u32 = 0;
            while (i as usize) < count
                invariant
                    self.wf(),
                    edges == self.edges(),
                    count == edges.len(),
                    i <= count,
                    searched(edges, start, found, order, head),
                    recorded(edges, start, found, marked(visited), crumbs(breadcrumbs)),
                    head < order.len(),
                    cur_state == order[head],
                    state_queue@ == order.skip(head + 1),
                    ahead(found, cur_state, i),
                    forall|done: OpRef|
                        done.0 < i && edges[done.0 as int].0 == cur_state ==> #[trigger] taken(
                            edges,
                            found,
                            cur_state,
                            done,
                        ),
                    leading_out(edges, found.dom()) < before || (leading_out(edges, found.dom())
                        == before && order.len() == before_len),
                decreases count - i,
            {
                let op_ref = OpRef(i);
                let op = self.ops.at(op_ref);
                let output = op.meta.output;
                assert(edges[i as int] == (op.meta.input, output));
                if op.meta.input == cur_state && !visited.get(output) {
                    proof {
                        lemma_discover(edges, start, found, order, head, i);
                        lemma_leading_out(edges, found.dom(), output, i as int);
                    }
                    state_queue.push(output);
                    visited.set(output);
                    breadcrumbs.set(output, op_ref);
                    proof {
                        assert(found.contains_key(cur_state));
                        let next = found.insert(output, found[cur_state].push(op_ref));
                        assert(next.dom() =~= found.dom().insert(output));
                        assert(crumbs(breadcrumbs).dom() =~= next.dom().remove(start));
                        found = next;
                        order = order.push(output);
                        assert(state_queue@ =~= order.skip(head + 1));
                    }
                } else {
                    proof {
                        lemma_ahead_next(found, cur_state, i);
                    }
                }
                i = i + 1;
            }
            proof {
                head = head + 1;
                assert forall|k: int| head <= k < order.len() implies ahead(
                    found,
                    #[trigger] order[k],
                    0,
                ) by {
                    assert(precedes(found[cur_state], found[order[k]]));
                    lemma_ahead_from(found, cur_state, i, order[k]);
                }
            }
        }
        proof {
            lemma_searched_closed(edges, start, found, order, head, bound);
            lemma_search_result(edges, found, bound, start, end);
        }

        // Traverse the breadcrumbs backward to build up the path back from output to input.
        let mut op_path: Vec<OpRef> = Vec::new();
        let mut cur_state = end;
        while cur_state != start
            invariant
                self.wf(),
                edges == self.edges(),
                recorded(edges, start, found, marked(visited), crumbs(breadcrumbs)),
                found.contains_key(start),
                found[start] == Seq::<OpRef>::empty(),
                !found.contains_key(end) ==> !reachable(edges, start, end) && cur_state == end,
                found.contains_key(end) ==> found.contains_key(cur_state) && found[end]
                    == found[cur_state] + op_path@.reverse(),
            decreases found[cur_state].len(),
        {
            match breadcrumbs.get(cur_state) {
                Some(op) => {
                    op_path.push(op);
                    cur_state = self.ops.at(op).meta.input;
                    assert(edges[op.0 as int].0 == cur_state);
                },
                None => return None,
            }
        }
        let path = reversed(&op_path);
        assert(path@ =~= found[end]);
        Some(path)
    }
}

/// A list of operations from back to front.
fn reversed(list: &Vec<OpRef>) -> (back: Vec<OpRef>)
    ensures
        back@ == list@.reverse(),
{
    let mut back: Vec<OpRef> = Vec::new();
    let mut i: usize = list.len();
    while i > 0
        invariant
            i <= list@.len(),
            back@.len() == list@.len() - i,
            forall|k: int| 0 <= k < back@.len() ==> back@[k] == list@[list@.len() - 1 - k],
        decreases i,
    {
        i = i - 1;
        back.push(list[i]);
    }
    assert(back@ =~= list@.reverse());
    back
}

} // verus!
