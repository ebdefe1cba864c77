//! The reachability analyzer.
//!
//! [`Machine::find_non_empty`] computes, for each location, an interval of
//! register values from which an accepting location may still be reachable:
//! a bounded depth-first search over a symbolic execution tree whose nodes
//! are `(location, interval)` pairs, held in an append-only arena with
//! parent indices.  The executable search is pinned, step by step, to the
//! spec-level model defined here ([`spec_search_run`]), about which the
//! soundness and termination laws are then proved.

use vstd::prelude::*;

use crate::bound::TransitionBound;
use crate::machine::Machine;
use crate::machine::MachineError;
use crate::machine::Transition;
use crate::machine::Update;

verus! {

/// The hard budget on arena nodes: the search stops expanding once the
/// arena has grown past this many nodes.
pub const MAX_NODES: usize = 100;

/// Spec-level image of an arena node.
pub struct SearchNode {
    pub parent: Option<(int, TransitionBound)>,
    pub location: Seq<char>,
    pub interval: TransitionBound,
}

/// Spec-level image of the whole search state: the arena, the stack of
/// arena indices still to visit (top last), and the safe map as an
/// association list.
pub struct SearchState {
    pub nodes: Seq<SearchNode>,
    pub stack: Seq<int>,
    pub safe: Seq<(Seq<char>, TransitionBound)>,
}

/// There is an entry for `key` in the view-level association list.
pub open spec fn smap_has(entries: Seq<(Seq<char>, TransitionBound)>, key: Seq<char>) -> bool {
    exists|i: int| 0 <= i < entries.len() && entries[i].0 == key
}

/// The index of the entry for `key`.
pub open spec fn smap_idx(entries: Seq<(Seq<char>, TransitionBound)>, key: Seq<char>) -> int {
    choose|i: int| 0 <= i < entries.len() && entries[i].0 == key
}

/// The interval stored for `key` (meaningful when `smap_has` holds).
pub open spec fn smap_get(
    entries: Seq<(Seq<char>, TransitionBound)>,
    key: Seq<char>,
) -> TransitionBound {
    entries[smap_idx(entries, key)].1
}

/// No two entries share a key.
pub open spec fn skeys_unique(entries: Seq<(Seq<char>, TransitionBound)>) -> bool {
    forall|i: int, j: int|
        0 <= i < j < entries.len() ==> (#[trigger] entries[i]).0 != (#[trigger] entries[j]).0
}

/// Under unique keys, the entry at a matching index is the entry `smap_get`
/// speaks of.
pub proof fn lemma_smap_idx(entries: Seq<(Seq<char>, TransitionBound)>, key: Seq<char>, i: int)
    requires
        skeys_unique(entries),
        0 <= i < entries.len(),
        entries[i].0 == key,
    ensures
        smap_has(entries, key),
        smap_idx(entries, key) == i,
        smap_get(entries, key) == entries[i].1,
{
    assert(smap_has(entries, key));
    let j = smap_idx(entries, key);
    if i < j {
        assert(entries[i].0 != entries[j].0);
    } else if j < i {
        assert(entries[j].0 != entries[i].0);
    }
}

/// Widens the interval recorded for `loc` by `b`, inserting `b` when `loc`
/// has no entry yet.
pub open spec fn spec_safe_widen(
    safe: Seq<(Seq<char>, TransitionBound)>,
    loc: Seq<char>,
    b: TransitionBound,
) -> Seq<(Seq<char>, TransitionBound)> {
    if smap_has(safe, loc) {
        safe.update(smap_idx(safe, loc), (loc, smap_get(safe, loc).spec_union(b)))
    } else {
        safe.push((loc, b))
    }
}

/// Every parent index refers to an earlier arena slot.
pub open spec fn nodes_linked(nodes: Seq<SearchNode>) -> bool {
    forall|k: int|
        0 <= k < nodes.len() ==> match (#[trigger] nodes[k]).parent {
            Some(p) => 0 <= p.0 < k,
            None => true,
        }
}

/// Marks the path from `idx` back to the root as safe: for each parent
/// edge on the path, widens the parent location's entry by the edge's
/// post-intersection interval.
pub open spec fn spec_mark_path(
    nodes: Seq<SearchNode>,
    safe: Seq<(Seq<char>, TransitionBound)>,
    idx: int,
) -> Seq<(Seq<char>, TransitionBound)>
    decreases idx,
    when nodes_linked(nodes) && 0 <= idx < nodes.len()
{
    match nodes[idx].parent {
        None => safe,
        Some(p) => spec_mark_path(nodes, spec_safe_widen(safe, nodes[p.0].location, p.1), p.0),
    }
}

/// Expands the listed transitions out of the node `parent_idx` (whose
/// interval is `parent_interval`), in list order: every transition whose
/// bound intersects the interval contributes a child node, pushed onto the
/// arena and the stack.
pub open spec fn spec_expand_trans<U: Update>(
    ts: Seq<Transition<U>>,
    parent_idx: int,
    parent_interval: TransitionBound,
    nodes: Seq<SearchNode>,
    stack: Seq<int>,
) -> (Seq<SearchNode>, Seq<int>)
    decreases ts.len(),
{
    if ts.len() == 0 {
        (nodes, stack)
    } else {
        let prev = spec_expand_trans(ts.drop_last(), parent_idx, parent_interval, nodes, stack);
        let t = ts.last();
        match parent_interval.spec_intersect(t.bound) {
            Some(post) => (
                prev.0.push(
                    SearchNode {
                        parent: Some((parent_idx, post)),
                        location: t.to_location@,
                        interval: t.update.interval_spec(post),
                    },
                ),
                prev.1.push(prev.0.len() as int),
            ),
            None => prev,
        }
    }
}

/// The node popped by one search iteration scores a hit when its location
/// is accepting, or its whole interval is already known safe there.
pub open spec fn spec_hit<U: Update>(m: Machine<U>, st: SearchState, idx: int) -> bool {
    m.spec_accepting(st.nodes[idx].location) || (smap_has(st.safe, st.nodes[idx].location)
        && smap_get(st.safe, st.nodes[idx].location).spec_contains_all(st.nodes[idx].interval))
}

/// One iteration of the search loop: pop the top of the stack, mark the
/// path on a hit, then expand the popped node's transitions.
pub open spec fn spec_search_step<U: Update>(m: Machine<U>, st: SearchState) -> SearchState {
    let idx = st.stack.last();
    let node = st.nodes[idx];
    let safe1 = if spec_hit(m, st, idx) {
        spec_mark_path(st.nodes, st.safe, idx)
    } else {
        st.safe
    };
    let expanded = spec_expand_trans(
        m.spec_transitions(node.location),
        idx,
        node.interval,
        st.nodes,
        st.stack.drop_last(),
    );
    SearchState { nodes: expanded.0, stack: expanded.1, safe: safe1 }
}

/// The search stops once the arena exceeds the node budget or the stack is
/// exhausted.
pub open spec fn spec_search_done(st: SearchState) -> bool {
    st.nodes.len() > MAX_NODES || st.stack.len() == 0
}

/// The spec-level measure that shrinks with every search iteration.
pub open spec fn spec_search_measure(st: SearchState) -> int {
    if MAX_NODES + 1 - st.nodes.len() >= 0 {
        MAX_NODES + 1 - st.nodes.len()
    } else {
        0
    }
}

/// Expansion never shrinks the arena, and leaves the arena untouched
/// exactly when it pushes nothing on the stack.
pub proof fn lemma_expand_trans_growth<U: Update>(
    ts: Seq<Transition<U>>,
    parent_idx: int,
    parent_interval: TransitionBound,
    nodes: Seq<SearchNode>,
    stack: Seq<int>,
)
    ensures
        spec_expand_trans(ts, parent_idx, parent_interval, nodes, stack).0.len() >= nodes.len(),
        spec_expand_trans(ts, parent_idx, parent_interval, nodes, stack).1.len() - stack.len()
            == spec_expand_trans(ts, parent_idx, parent_interval, nodes, stack).0.len()
            - nodes.len(),
    decreases ts.len(),
{
    if ts.len() == 0 {
    } else {
        lemma_expand_trans_growth::<U>(ts.drop_last(), parent_idx, parent_interval, nodes, stack);
    }
}

/// Runs the search until it is done.  Terminates for every machine: each
/// iteration either grows the arena (which the budget caps) or, expanding
/// nothing, shrinks the stack.
pub open spec fn spec_search_run<U: Update>(m: Machine<U>, st: SearchState) -> SearchState
    decreases spec_search_measure(st), st.stack.len(),
{
    if spec_search_done(st) {
        st
    } else {
        proof {
            let idx = st.stack.last();
            let node = st.nodes[idx];
            lemma_expand_trans_growth::<U>(
                m.spec_transitions(node.location),
                idx,
                node.interval,
                st.nodes,
                st.stack.drop_last(),
            );
        }
        spec_search_run(m, spec_search_step(m, st))
    }
}

/// The seed safe map: every accepting name mapped to the fully unbounded
/// interval, in list order.
pub open spec fn spec_seed_safe(names: Seq<String>) -> Seq<(Seq<char>, TransitionBound)>
    decreases names.len(),
{
    if names.len() == 0 {
        Seq::empty()
    } else {
        spec_seed_safe(names.drop_last()).push(
            (names.last()@, TransitionBound { lower: None, upper: None }),
        )
    }
}

/// The initial search state for a machine started at `loc`: the seeded
/// safe map, a one-node arena holding `(loc, unbounded)`, and that node on
/// the stack.
pub open spec fn spec_search_init<U: Update>(m: Machine<U>, loc: Seq<char>) -> SearchState {
    SearchState {
        nodes: seq![
            SearchNode {
                parent: None,
                location: loc,
                interval: TransitionBound { lower: None, upper: None },
            },
        ],
        stack: seq![0],
        safe: spec_seed_safe(m.accepting@),
    }
}

/// The safe map computed by the analyzer for a machine started at `loc`:
/// the meaning of [`Machine::find_non_empty`].
pub open spec fn spec_analyze<U: Update>(m: Machine<U>, loc: Seq<char>) -> Seq<
    (Seq<char>, TransitionBound),
> {
    spec_search_run(m, spec_search_init(m, loc)).safe
}

/// The search explored everything: it stopped because the stack was
/// exhausted, not because the node budget cut it short.
pub open spec fn spec_search_complete<U: Update>(m: Machine<U>, loc: Seq<char>) -> bool {
    spec_search_run(m, spec_search_init(m, loc)).stack.len() == 0
}

/// `s2` keeps every entry of `s1`, each at least as wide.
pub open spec fn safe_extends(
    s1: Seq<(Seq<char>, TransitionBound)>,
    s2: Seq<(Seq<char>, TransitionBound)>,
) -> bool {
    forall|l: Seq<char>|
        #[trigger] smap_has(s1, l) ==> smap_has(s2, l) && smap_get(s2, l).spec_contains_all(
            smap_get(s1, l),
        )
}

/// Widening preserves unique keys, only grows the map, and leaves the
/// widened entry containing `b`.
pub proof fn lemma_safe_widen_props(
    safe: Seq<(Seq<char>, TransitionBound)>,
    loc: Seq<char>,
    b: TransitionBound,
)
    requires
        skeys_unique(safe),
    ensures
        skeys_unique(spec_safe_widen(safe, loc, b)),
        safe_extends(safe, spec_safe_widen(safe, loc, b)),
        smap_has(spec_safe_widen(safe, loc, b), loc),
        smap_get(spec_safe_widen(safe, loc, b), loc).spec_contains_all(b),
{
    let w = spec_safe_widen(safe, loc, b);
    if smap_has(safe, loc) {
        let i = smap_idx(safe, loc);
        assert(0 <= i < safe.len() && safe[i].0 == loc);
        assert forall|p: int, q: int| 0 <= p < q < w.len() implies (#[trigger] w[p]).0 != (
        #[trigger] w[q]).0 by {
            assert(w[p].0 == safe[p].0);
            assert(w[q].0 == safe[q].0);
        }
        lemma_smap_idx(w, loc, i);
        assert forall|l: Seq<char>| #[trigger] smap_has(safe, l) implies smap_has(w, l)
            && smap_get(w, l).spec_contains_all(smap_get(safe, l)) by {
            let k = choose|k: int| 0 <= k < safe.len() && safe[k].0 == l;
            lemma_smap_idx(safe, l, k);
            assert(w[k].0 == l);
            lemma_smap_idx(w, l, k);
        }
    } else {
        assert(w[safe.len() as int] == (loc, b));
        assert forall|p: int, q: int| 0 <= p < q < w.len() implies (#[trigger] w[p]).0 != (
        #[trigger] w[q]).0 by {
            if q == safe.len() as int {
                assert(w[p] == safe[p]);
                if safe[p].0 == loc {
                    assert(smap_has(safe, loc));
                }
            } else {
                assert(w[p] == safe[p]);
                assert(w[q] == safe[q]);
            }
        }
        lemma_smap_idx(w, loc, safe.len() as int);
        assert forall|l: Seq<char>| #[trigger] smap_has(safe, l) implies smap_has(w, l)
            && smap_get(w, l).spec_contains_all(smap_get(safe, l)) by {
            let k = choose|k: int| 0 <= k < safe.len() && safe[k].0 == l;
            lemma_smap_idx(safe, l, k);
            assert(w[k].0 == l);
            lemma_smap_idx(w, l, k);
        }
    }
}

/// [`safe_extends`] is reflexive and transitive.
pub proof fn lemma_safe_extends_refl(s: Seq<(Seq<char>, TransitionBound)>)
    ensures
        safe_extends(s, s),
{
}

pub proof fn lemma_safe_extends_trans(
    s1: Seq<(Seq<char>, TransitionBound)>,
    s2: Seq<(Seq<char>, TransitionBound)>,
    s3: Seq<(Seq<char>, TransitionBound)>,
)
    requires
        safe_extends(s1, s2),
        safe_extends(s2, s3),
    ensures
        safe_extends(s1, s3),
{
}

/// The parent edges on the path from `idx` to the root are all recorded in
/// the safe map: each parent location's entry contains the edge's
/// post-intersection interval.
pub open spec fn path_marked(
    nodes: Seq<SearchNode>,
    safe: Seq<(Seq<char>, TransitionBound)>,
    idx: int,
) -> bool
    decreases idx,
    when nodes_linked(nodes) && 0 <= idx < nodes.len()
{
    match nodes[idx].parent {
        None => true,
        Some(p) => {
            &&& smap_has(safe, nodes[p.0].location)
            &&& smap_get(safe, nodes[p.0].location).spec_contains_all(p.1)
            &&& path_marked(nodes, safe, p.0)
        },
    }
}

/// Marking only grows the safe map.
pub proof fn lemma_mark_path_extends(
    nodes: Seq<SearchNode>,
    safe: Seq<(Seq<char>, TransitionBound)>,
    idx: int,
)
    requires
        nodes_linked(nodes),
        0 <= idx < nodes.len(),
        skeys_unique(safe),
    ensures
        skeys_unique(spec_mark_path(nodes, safe, idx)),
        safe_extends(safe, spec_mark_path(nodes, safe, idx)),
    decreases idx,
{
    match nodes[idx].parent {
        None => {
            lemma_safe_extends_refl(safe);
        },
        Some(p) => {
            let s1 = spec_safe_widen(safe, nodes[p.0].location, p.1);
            lemma_safe_widen_props(safe, nodes[p.0].location, p.1);
            lemma_mark_path_extends(nodes, s1, p.0);
            lemma_safe_extends_trans(safe, s1, spec_mark_path(nodes, s1, p.0));
        },
    }
}

/// A marked path stays marked when the safe map only grows.
pub proof fn lemma_path_marked_extends(
    nodes: Seq<SearchNode>,
    s1: Seq<(Seq<char>, TransitionBound)>,
    s2: Seq<(Seq<char>, TransitionBound)>,
    idx: int,
)
    requires
        nodes_linked(nodes),
        0 <= idx < nodes.len(),
        path_marked(nodes, s1, idx),
        safe_extends(s1, s2),
    ensures
        path_marked(nodes, s2, idx),
    decreases idx,
{
    match nodes[idx].parent {
        None => {},
        Some(p) => {
            lemma_path_marked_extends(nodes, s1, s2, p.0);
        },
    }
}

/// After marking, the path from `idx` to the root is marked.
pub proof fn lemma_mark_path_marks(
    nodes: Seq<SearchNode>,
    safe: Seq<(Seq<char>, TransitionBound)>,
    idx: int,
)
    requires
        nodes_linked(nodes),
        0 <= idx < nodes.len(),
        skeys_unique(safe),
    ensures
        path_marked(nodes, spec_mark_path(nodes, safe, idx), idx),
    decreases idx,
{
    match nodes[idx].parent {
        None => {},
        Some(p) => {
            let s1 = spec_safe_widen(safe, nodes[p.0].location, p.1);
            lemma_safe_widen_props(safe, nodes[p.0].location, p.1);
            lemma_mark_path_marks(nodes, s1, p.0);
            lemma_mark_path_extends(nodes, s1, p.0);
            let s2 = spec_mark_path(nodes, s1, p.0);
            assert(smap_has(s2, nodes[p.0].location) && smap_get(
                s2,
                nodes[p.0].location,
            ).spec_contains_all(p.1));
        },
    }
}

/// A marked path stays marked when the arena only grows at the end.
pub proof fn lemma_path_marked_prefix(
    nodes1: Seq<SearchNode>,
    nodes2: Seq<SearchNode>,
    safe: Seq<(Seq<char>, TransitionBound)>,
    idx: int,
)
    requires
        nodes_linked(nodes1),
        nodes_linked(nodes2),
        nodes1.len() <= nodes2.len(),
        forall|k: int| 0 <= k < nodes1.len() ==> #[trigger] nodes2[k] == nodes1[k],
        0 <= idx < nodes1.len(),
        path_marked(nodes1, safe, idx),
    ensures
        path_marked(nodes2, safe, idx),
    decreases idx,
{
    match nodes1[idx].parent {
        None => {},
        Some(p) => {
            lemma_path_marked_prefix(nodes1, nodes2, safe, p.0);
        },
    }
}

/// The node at `i` has been expanded: every outgoing transition whose
/// bound intersects the node's interval has its child in the arena.
pub open spec fn expanded<U: Update>(m: Machine<U>, st: SearchState, i: int) -> bool {
    forall|t: Transition<U>|
        #[trigger] m.spec_transitions(st.nodes[i].location).contains(t)
            ==> match st.nodes[i].interval.spec_intersect(t.bound) {
            Some(post) => exists|c: int|
                #![auto]
                0 <= c < st.nodes.len() && st.nodes[c].parent == Some((i, post))
                    && st.nodes[c].location == t.to_location@ && st.nodes[c].interval
                    == t.update.interval_spec(post),
            None => true,
        }
}

/// The node at `i` has been fully processed: expanded, and, when its
/// location is accepting, its path has been marked.
pub open spec fn processed<U: Update>(m: Machine<U>, st: SearchState, i: int) -> bool {
    &&& expanded(m, st, i)
    &&& (m.spec_accepting(st.nodes[i].location) ==> path_marked(st.nodes, st.safe, i))
}

/// The search-state invariant: unique safe keys, well-linked arena, a
/// stack of valid indices, and every node off the stack processed.
pub open spec fn st_inv<U: Update>(m: Machine<U>, st: SearchState) -> bool {
    &&& skeys_unique(st.safe)
    &&& nodes_linked(st.nodes)
    &&& forall|k: int| 0 <= k < st.stack.len() ==> 0 <= #[trigger] st.stack[k] < st.nodes.len()
    &&& forall|i: int|
        0 <= i < st.nodes.len() && !st.stack.contains(i) ==> #[trigger] processed(m, st, i)
}

/// What expansion does to the arena and the stack: old slots unchanged,
/// new slots are children of the expanded node and sit on the stack, and a
/// child exists for every transition with a non-empty intersection.
pub proof fn lemma_expand_props<U: Update>(
    m: Machine<U>,
    ts: Seq<Transition<U>>,
    pidx: int,
    pint: TransitionBound,
    nodes: Seq<SearchNode>,
    stack: Seq<int>,
)
    requires
        0 <= pidx < nodes.len(),
    ensures
        ({
            let r = spec_expand_trans(ts, pidx, pint, nodes, stack);
            &&& r.0.len() >= nodes.len()
            &&& forall|k: int| 0 <= k < nodes.len() ==> #[trigger] r.0[k] == nodes[k]
            &&& forall|c: int|
                nodes.len() <= c < r.0.len() ==> ((#[trigger] r.0[c]).parent matches Some(p)
                    && p.0 == pidx)
            &&& r.1.len() >= stack.len()
            &&& forall|k: int| 0 <= k < stack.len() ==> #[trigger] r.1[k] == stack[k]
            &&& forall|k: int|
                0 <= k < r.1.len() ==> (0 <= k < stack.len() && #[trigger] r.1[k] == stack[k]) || (
                nodes.len() <= r.1[k] < r.0.len())
            &&& forall|c: int| nodes.len() <= c < r.0.len() ==> #[trigger] r.1.contains(c)
            &&& forall|t: Transition<U>|
                #[trigger] ts.contains(t) ==> match pint.spec_intersect(t.bound) {
                    Some(post) => exists|c: int|
                        #![auto]
                        nodes.len() <= c < r.0.len() && r.0[c].parent == Some((pidx, post))
                            && r.0[c].location == t.to_location@ && r.0[c].interval
                            == t.update.interval_spec(post),
                    None => true,
                }
        }),
    decreases ts.len(),
{
    if ts.len() == 0 {
    } else {
        lemma_expand_props::<U>(m, ts.drop_last(), pidx, pint, nodes, stack);
        let prev = spec_expand_trans(ts.drop_last(), pidx, pint, nodes, stack);
        let r = spec_expand_trans(ts, pidx, pint, nodes, stack);
        let t_last = ts.last();
        match pint.spec_intersect(t_last.bound) {
            Some(post) => {
                assert(r.0 == prev.0.push(
                    SearchNode {
                        parent: Some((pidx, post)),
                        location: t_last.to_location@,
                        interval: t_last.update.interval_spec(post),
                    },
                ));
                assert(r.1 == prev.1.push(prev.0.len() as int));
                assert(r.1.last() == prev.0.len() as int);
                assert forall|c: int| nodes.len() <= c < r.0.len() implies #[trigger] r.1.contains(
                    c,
                ) by {
                    if c < prev.0.len() {
                        assert(prev.1.contains(c));
                        let k = choose|k: int| 0 <= k < prev.1.len() && prev.1[k] == c;
                        assert(r.1[k] == c);
                    } else {
                        assert(r.1[r.1.len() - 1] == c);
                    }
                }
                assert forall|t: Transition<U>| #[trigger] ts.contains(t) implies match pint.spec_intersect(
                    t.bound,
                ) {
                    Some(post2) => exists|c: int|
                        #![auto]
                        nodes.len() <= c < r.0.len() && r.0[c].parent == Some((pidx, post2))
                            && r.0[c].location == t.to_location@ && r.0[c].interval
                            == t.update.interval_spec(post2),
                    None => true,
                } by {
                    let k = choose|k: int| 0 <= k < ts.len() && ts[k] == t;
                    if k < ts.len() - 1 {
                        assert(ts.drop_last()[k] == t);
                        assert(ts.drop_last().contains(t));
                        match pint.spec_intersect(t.bound) {
                            Some(post2) => {
                                let c = choose|c: int|
                                    #![auto]
                                    nodes.len() <= c < prev.0.len() && prev.0[c].parent == Some(
                                        (pidx, post2),
                                    ) && prev.0[c].location == t.to_location@ && prev.0[c].interval
                                        == t.update.interval_spec(post2);
                                assert(r.0[c] == prev.0[c]);
                            },
                            None => {},
                        }
                    } else {
                        assert(t == t_last);
                        assert(r.0[prev.0.len() as int].parent == Some((pidx, post)));
                    }
                }
            },
            None => {
                assert(r == prev);
                assert forall|t: Transition<U>| #[trigger] ts.contains(t) implies match pint.spec_intersect(
                    t.bound,
                ) {
                    Some(post2) => exists|c: int|
                        #![auto]
                        nodes.len() <= c < r.0.len() && r.0[c].parent == Some((pidx, post2))
                            && r.0[c].location == t.to_location@ && r.0[c].interval
                            == t.update.interval_spec(post2),
                    None => true,
                } by {
                    let k = choose|k: int| 0 <= k < ts.len() && ts[k] == t;
                    if k < ts.len() - 1 {
                        assert(ts.drop_last()[k] == t);
                        assert(ts.drop_last().contains(t));
                    } else {
                        assert(t == t_last);
                    }
                }
            },
        }
    }
}

/// One search step preserves the invariant, only grows the safe map, and
/// only appends to the arena.
pub proof fn lemma_step_preserves_inv<U: Update>(m: Machine<U>, st: SearchState)
    requires
        st_inv(m, st),
        !spec_search_done(st),
    ensures
        st_inv(m, spec_search_step(m, st)),
        safe_extends(st.safe, spec_search_step(m, st).safe),
        spec_search_step(m, st).nodes.len() >= st.nodes.len(),
        forall|k: int|
            0 <= k < st.nodes.len() ==> #[trigger] spec_search_step(m, st).nodes[k]
                == st.nodes[k],
{
    let idx = st.stack.last();
    let node = st.nodes[idx];
    let hit = spec_hit(m, st, idx);
    let safe1 = if hit {
        spec_mark_path(st.nodes, st.safe, idx)
    } else {
        st.safe
    };
    if hit {
        lemma_mark_path_extends(st.nodes, st.safe, idx);
    } else {
        lemma_safe_extends_refl(st.safe);
    }
    let ts = m.spec_transitions(node.location);
    lemma_expand_props::<U>(m, ts, idx, node.interval, st.nodes, st.stack.drop_last());
    let st1 = spec_search_step(m, st);
    assert(st1.safe == safe1);
    assert forall|k: int| 0 <= k < st1.nodes.len() implies match (#[trigger] st1.nodes[k]).parent {
        Some(p) => 0 <= p.0 < k,
        None => true,
    } by {
        if k < st.nodes.len() {
            assert(st1.nodes[k] == st.nodes[k]);
        }
    }
    assert forall|k: int| 0 <= k < st1.stack.len() implies 0 <= #[trigger] st1.stack[k]
        < st1.nodes.len() by {
        if 0 <= k < st.stack.len() - 1 {
            assert(st1.stack[k] == st.stack.drop_last()[k]);
            assert(st.stack.drop_last()[k] == st.stack[k]);
        }
    }
    assert forall|i: int| 0 <= i < st1.nodes.len() && !st1.stack.contains(i) implies #[trigger]
    processed(m, st1, i) by {
        if i >= st.nodes.len() {
            assert(st1.stack.contains(i));
            assert(false);
        } else if i == idx {
            assert(st1.nodes[i] == st.nodes[i]);
            assert forall|t: Transition<U>| #[trigger] m.spec_transitions(
                st1.nodes[i].location,
            ).contains(t) implies match st1.nodes[i].interval.spec_intersect(t.bound) {
                Some(post) => exists|c: int|
                    #![auto]
                    0 <= c < st1.nodes.len() && st1.nodes[c].parent == Some((i, post))
                        && st1.nodes[c].location == t.to_location@ && st1.nodes[c].interval
                        == t.update.interval_spec(post),
                None => true,
            } by {
                match st1.nodes[i].interval.spec_intersect(t.bound) {
                    Some(post) => {
                        let c = choose|c: int|
                            #![auto]
                            st.nodes.len() <= c < st1.nodes.len() && st1.nodes[c].parent == Some(
                                (idx, post),
                            ) && st1.nodes[c].location == t.to_location@ && st1.nodes[c].interval
                                == t.update.interval_spec(post);
                        assert(0 <= c < st1.nodes.len() && st1.nodes[c].parent == Some((i, post))
                            && st1.nodes[c].location == t.to_location@ && st1.nodes[c].interval
                            == t.update.interval_spec(post));
                    },
                    None => {},
                }
            }
            if m.spec_accepting(st1.nodes[i].location) {
                assert(hit);
                lemma_mark_path_marks(st.nodes, st.safe, idx);
                lemma_path_marked_prefix(st.nodes, st1.nodes, safe1, idx);
            }
        } else {
            if st.stack.contains(i) {
                let k = choose|k: int| 0 <= k < st.stack.len() && st.stack[k] == i;
                assert(k < st.stack.len() - 1);
                assert(st.stack.drop_last()[k] == i);
                assert(st1.stack[k] == i);
                assert(st1.stack.contains(i));
                assert(false);
            }
            assert(processed(m, st, i));
            assert(st1.nodes[i] == st.nodes[i]);
            assert forall|t: Transition<U>| #[trigger] m.spec_transitions(
                st1.nodes[i].location,
            ).contains(t) implies match st1.nodes[i].interval.spec_intersect(t.bound) {
                Some(post) => exists|c: int|
                    #![auto]
                    0 <= c < st1.nodes.len() && st1.nodes[c].parent == Some((i, post))
                        && st1.nodes[c].location == t.to_location@ && st1.nodes[c].interval
                        == t.update.interval_spec(post),
                None => true,
            } by {
                match st1.nodes[i].interval.spec_intersect(t.bound) {
                    Some(post) => {
                        let c = choose|c: int|
                            #![auto]
                            0 <= c < st.nodes.len() && st.nodes[c].parent == Some((i, post))
                                && st.nodes[c].location == t.to_location@ && st.nodes[c].interval
                                == t.update.interval_spec(post);
                        assert(st1.nodes[c] == st.nodes[c]);
                    },
                    None => {},
                }
            }
            if m.spec_accepting(st1.nodes[i].location) {
                lemma_path_marked_extends(st.nodes, st.safe, safe1, i);
                lemma_path_marked_prefix(st.nodes, st1.nodes, safe1, i);
            }
        }
    }
}

/// The whole search preserves the invariant, only grows the safe map and
/// the arena, and halts.
pub proof fn lemma_run_preserves_inv<U: Update>(m: Machine<U>, st: SearchState)
    requires
        st_inv(m, st),
    ensures
        st_inv(m, spec_search_run(m, st)),
        safe_extends(st.safe, spec_search_run(m, st).safe),
        spec_search_run(m, st).nodes.len() >= st.nodes.len(),
        forall|k: int|
            0 <= k < st.nodes.len() ==> #[trigger] spec_search_run(m, st).nodes[k]
                == st.nodes[k],
        spec_search_done(spec_search_run(m, st)),
    decreases spec_search_measure(st), st.stack.len(),
{
    if spec_search_done(st) {
        lemma_safe_extends_refl(st.safe);
    } else {
        lemma_step_preserves_inv::<U>(m, st);
        let idx = st.stack.last();
        let node = st.nodes[idx];
        lemma_expand_trans_growth::<U>(
            m.spec_transitions(node.location),
            idx,
            node.interval,
            st.nodes,
            st.stack.drop_last(),
        );
        let st1 = spec_search_step(m, st);
        lemma_run_preserves_inv::<U>(m, st1);
        lemma_safe_extends_trans(st.safe, st1.safe, spec_search_run(m, st).safe);
        assert forall|k: int| 0 <= k < st.nodes.len() implies #[trigger] spec_search_run(
            m,
            st,
        ).nodes[k] == st.nodes[k] by {
            assert(spec_search_run(m, st1).nodes[k] == st1.nodes[k]);
            assert(st1.nodes[k] == st.nodes[k]);
        }
    }
}

/// The seeded safe map lists the accepting names, each fully unbounded.
pub proof fn lemma_seed_props(names: Seq<String>)
    requires
        forall|i: int, j: int|
            0 <= i < j < names.len() ==> (#[trigger] names[i])@ != (#[trigger] names[j])@,
    ensures
        spec_seed_safe(names).len() == names.len(),
        forall|k: int|
            0 <= k < names.len() ==> #[trigger] spec_seed_safe(names)[k] == (
                names[k]@,
                TransitionBound { lower: None, upper: None },
            ),
        skeys_unique(spec_seed_safe(names)),
    decreases names.len(),
{
    if names.len() == 0 {
    } else {
        assert forall|i: int, j: int| 0 <= i < j < names.drop_last().len() implies (
        #[trigger] names.drop_last()[i])@ != (#[trigger] names.drop_last()[j])@ by {
            assert(names.drop_last()[i] == names[i]);
            assert(names.drop_last()[j] == names[j]);
        }
        lemma_seed_props(names.drop_last());
        let s = spec_seed_safe(names);
        assert forall|k: int| 0 <= k < names.len() implies #[trigger] s[k] == (
            names[k]@,
            TransitionBound { lower: None, upper: None },
        ) by {
            if k < names.len() - 1 {
                assert(s[k] == spec_seed_safe(names.drop_last())[k]);
                assert(names.drop_last()[k] == names[k]);
            } else {
                assert(s[k] == (names.last()@, TransitionBound { lower: None, upper: None }));
            }
        }
        assert forall|p: int, q: int| 0 <= p < q < s.len() implies (#[trigger] s[p]).0 != (
        #[trigger] s[q]).0 by {
            assert(s[p].0 == names[p]@);
            assert(s[q].0 == names[q]@);
        }
    }
}

/// The initial search state satisfies the invariant.
pub proof fn lemma_init_inv<U: Update>(m: Machine<U>, loc: Seq<char>)
    requires
        m.wf(),
    ensures
        st_inv(m, spec_search_init(m, loc)),
{
    lemma_seed_props(m.accepting@);
    let st = spec_search_init(m, loc);
    assert(st.stack[0] == 0);
    assert forall|i: int| 0 <= i < st.nodes.len() && !st.stack.contains(i) implies #[trigger]
    processed(m, st, i) by {
        assert(st.stack.contains(0));
        assert(false);
    }
}

/// Every update reachable through the machine's transitions has a sound
/// symbolic lift: the hypothesis of the analyzer's soundness laws.
pub open spec fn machine_lift_sound<U: Update>(m: Machine<U>) -> bool {
    forall|l: Seq<char>, t: Transition<U>|
        #[trigger] m.spec_transitions(l).contains(t) ==> crate::machine::lift_sound(t.update)
}

/// A concrete run along enabled-by-bounds transitions: `ts[k]` leaves
/// `locs[k]` while the register `ds[k]` lies inside its bound, consumes
/// `ins[k]`, and yields `ds[k+1]` at `locs[k+1]`.
pub open spec fn bound_run_ok<U: Update>(
    m: Machine<U>,
    ts: Seq<Transition<U>>,
    ins: Seq<U::I>,
    ds: Seq<u32>,
    locs: Seq<Seq<char>>,
) -> bool {
    &&& ds.len() == ts.len() + 1
    &&& locs.len() == ts.len() + 1
    &&& ins.len() == ts.len()
    &&& forall|k: int|
        0 <= k < ts.len() ==> {
            &&& m.spec_transitions(locs[k]).contains(#[trigger] ts[k])
            &&& ts[k].bound.spec_contains(ds[k])
            &&& locs[k + 1] == ts[k].to_location@
            &&& ds[k + 1] == ts[k].update.update_spec(ds[k], ins[k])
        }
}

/// The arena node `c` realizes the run's `j`-th configuration: it carries
/// its location, its interval contains its register value, and its parent
/// chain realizes the previous configurations.
pub open spec fn chain_ok<U: Update>(
    m: Machine<U>,
    st: SearchState,
    ts: Seq<Transition<U>>,
    ins: Seq<U::I>,
    ds: Seq<u32>,
    locs: Seq<Seq<char>>,
    j: int,
    c: int,
) -> bool
    decreases j,
    when 0 <= j
{
    &&& 0 <= c < st.nodes.len()
    &&& st.nodes[c].location == locs[j]
    &&& st.nodes[c].interval.spec_contains(ds[j])
    &&& if j == 0 {
        c == 0
    } else {
        exists|c2: int, post: TransitionBound|
            #![auto]
            chain_ok(m, st, ts, ins, ds, locs, j - 1, c2) && st.nodes[c2].interval.spec_intersect(
                ts[j - 1].bound,
            ) == Some(post) && post.spec_contains(ds[j - 1]) && st.nodes[c].parent == Some(
                (c2, post),
            )
    }
}

/// In a completed search, the symbolic tree realizes every prefix of every
/// bound-enabled run from the root.
pub proof fn lemma_chain_exists<U: Update>(
    m: Machine<U>,
    st: SearchState,
    ts: Seq<Transition<U>>,
    ins: Seq<U::I>,
    ds: Seq<u32>,
    locs: Seq<Seq<char>>,
    j: int,
)
    requires
        st_inv(m, st),
        st.stack.len() == 0,
        machine_lift_sound(m),
        bound_run_ok(m, ts, ins, ds, locs),
        st.nodes.len() >= 1,
        st.nodes[0].parent is None,
        st.nodes[0].location == locs[0],
        st.nodes[0].interval == (TransitionBound { lower: None, upper: None }),
        0 <= j <= ts.len(),
    ensures
        exists|c: int| #[trigger] chain_ok(m, st, ts, ins, ds, locs, j, c),
    decreases j,
{
    if j == 0 {
        assert(st.nodes[0].interval.spec_contains(ds[0]));
        assert(chain_ok(m, st, ts, ins, ds, locs, 0, 0));
    } else {
        lemma_chain_exists::<U>(m, st, ts, ins, ds, locs, j - 1);
        let c2 = choose|c2: int| #[trigger] chain_ok(m, st, ts, ins, ds, locs, j - 1, c2);
        assert(!st.stack.contains(c2));
        assert(processed(m, st, c2));
        let t = ts[j - 1];
        assert(m.spec_transitions(st.nodes[c2].location).contains(t));
        assert(st.nodes[c2].interval.spec_contains(ds[j - 1]));
        assert(t.bound.spec_contains(ds[j - 1]));
        let iv = st.nodes[c2].interval;
        assert(iv.lo() <= ds[j - 1] as int && ds[j - 1] as int <= iv.hi());
        assert(!(iv.lo() > t.bound.hi() || iv.hi() < t.bound.lo()));
        let post = iv.spec_intersect(t.bound)->Some_0;
        assert(iv.spec_intersect(t.bound) == Some(post));
        crate::bound::lemma_intersect_contains(iv, t.bound, post, ds[j - 1]);
        assert(post.spec_contains(ds[j - 1]));
        let c = choose|c: int|
            #![auto]
            0 <= c < st.nodes.len() && st.nodes[c].parent == Some((c2, post)) && st.nodes[c].location
                == t.to_location@ && st.nodes[c].interval == t.update.interval_spec(post);
        assert(crate::machine::lift_sound(t.update));
        assert(t.update.interval_spec(post).spec_contains(
            t.update.update_spec(ds[j - 1], ins[j - 1]),
        ));
        assert(st.nodes[c].interval.spec_contains(ds[j]));
        assert(st.nodes[c].location == locs[j]);
        assert(chain_ok(m, st, ts, ins, ds, locs, j, c));
    }
}

/// A marked chain covers every configuration before its end: the safe map
/// holds each of their locations with an interval containing the register.
pub proof fn lemma_chain_marked<U: Update>(
    m: Machine<U>,
    st: SearchState,
    ts: Seq<Transition<U>>,
    ins: Seq<U::I>,
    ds: Seq<u32>,
    locs: Seq<Seq<char>>,
    j: int,
    c: int,
)
    requires
        nodes_linked(st.nodes),
        0 <= j <= ts.len(),
        bound_run_ok(m, ts, ins, ds, locs),
        chain_ok(m, st, ts, ins, ds, locs, j, c),
        path_marked(st.nodes, st.safe, c),
    ensures
        forall|k: int|
            0 <= k < j ==> smap_has(st.safe, locs[k]) && smap_get(st.safe, #[trigger] locs[k]).spec_contains(
                ds[k],
            ),
    decreases j,
{
    if j == 0 {
    } else {
        let (c2, post) = choose|c2: int, post: TransitionBound|
            #![auto]
            chain_ok(m, st, ts, ins, ds, locs, j - 1, c2) && st.nodes[c2].interval.spec_intersect(
                ts[j - 1].bound,
            ) == Some(post) && post.spec_contains(ds[j - 1]) && st.nodes[c].parent == Some(
                (c2, post),
            );
        assert(smap_has(st.safe, st.nodes[c2].location));
        assert(smap_get(st.safe, st.nodes[c2].location).spec_contains_all(post));
        assert(st.nodes[c2].location == locs[j - 1]);
        assert(smap_get(st.safe, locs[j - 1]).spec_contains(ds[j - 1]));
        lemma_chain_marked::<U>(m, st, ts, ins, ds, locs, j - 1, c2);
        assert forall|k: int| 0 <= k < j implies smap_has(st.safe, locs[k]) && smap_get(
            st.safe,
            #[trigger] locs[k],
        ).spec_contains(ds[k]) by {
            if k < j - 1 {
            } else {
                assert(locs[k] == locs[j - 1]);
            }
        }
    }
}

/// Soundness of the analyzer for completed searches: every configuration
/// on a bound-enabled run from the start location into an accepting
/// location lies inside the computed safe map.
pub proof fn lemma_analyzer_covers_run<U: Update>(
    m: Machine<U>,
    l0: Seq<char>,
    ts: Seq<Transition<U>>,
    ins: Seq<U::I>,
    ds: Seq<u32>,
    locs: Seq<Seq<char>>,
)
    requires
        m.wf(),
        machine_lift_sound(m),
        spec_search_complete(m, l0),
        bound_run_ok(m, ts, ins, ds, locs),
        locs[0] == l0,
        m.spec_accepting(locs[ts.len() as int]),
    ensures
        forall|k: int|
            0 <= k <= ts.len() ==> smap_has(spec_analyze(m, l0), locs[k]) && smap_get(
                spec_analyze(m, l0),
                #[trigger] locs[k],
            ).spec_contains(ds[k]),
{
    let init = spec_search_init(m, l0);
    lemma_init_inv::<U>(m, l0);
    lemma_run_preserves_inv::<U>(m, init);
    let fin = spec_search_run(m, init);
    assert(fin.nodes[0] == init.nodes[0]);
    let n = ts.len() as int;
    lemma_chain_exists::<U>(m, fin, ts, ins, ds, locs, n);
    let c = choose|c: int| #[trigger] chain_ok(m, fin, ts, ins, ds, locs, n, c);
    assert(!fin.stack.contains(c));
    assert(processed(m, fin, c));
    assert(m.spec_accepting(fin.nodes[c].location));
    assert(path_marked(fin.nodes, fin.safe, c));
    lemma_chain_marked::<U>(m, fin, ts, ins, ds, locs, n, c);
    lemma_accepting_full_domain::<U>(m, l0, locs[n]);
    assert forall|k: int| 0 <= k <= n implies smap_has(spec_analyze(m, l0), locs[k]) && smap_get(
        spec_analyze(m, l0),
        #[trigger] locs[k],
    ).spec_contains(ds[k]) by {
        if k < n {
        } else {
            assert(locs[k] == locs[n]);
        }
    }
}

/// Every accepting location appears in the analyzer's map with an interval
/// containing the full register domain.
pub proof fn lemma_accepting_full_domain<U: Update>(m: Machine<U>, l0: Seq<char>, l: Seq<char>)
    requires
        m.wf(),
        m.spec_accepting(l),
    ensures
        smap_has(spec_analyze(m, l0), l),
        smap_get(spec_analyze(m, l0), l).lo() == 0,
        smap_get(spec_analyze(m, l0), l).hi() == u32::MAX as int,
{
    lemma_seed_props(m.accepting@);
    let seed = spec_seed_safe(m.accepting@);
    let i = choose|i: int| 0 <= i < m.accepting@.len() && m.accepting@[i]@ == l;
    assert(seed[i] == (m.accepting@[i]@, TransitionBound { lower: None, upper: None }));
    lemma_smap_idx(seed, l, i);
    assert(smap_get(seed, l) == (TransitionBound { lower: None, upper: None }));
    let init = spec_search_init(m, l0);
    lemma_init_inv::<U>(m, l0);
    lemma_run_preserves_inv::<U>(m, init);
    let fin = spec_search_run(m, init);
    assert(smap_has(fin.safe, l) && smap_get(fin.safe, l).spec_contains_all(smap_get(seed, l)));
}

/// An accepting run in trace semantics yields an explicit bound-enabled
/// transition chain ending at an accepting location.
pub proof fn lemma_has_run_to_chain<U: Update>(m: Machine<U>, l: Seq<char>, d: u32, w: Seq<U::I>)
    requires
        crate::machine::guards_within_bounds(m),
        m.spec_has_run(l, d, w),
    ensures
        exists|ts: Seq<Transition<U>>, ds: Seq<u32>, locs: Seq<Seq<char>>|
            #![auto]
            bound_run_ok(m, ts, w, ds, locs) && ts.len() == w.len() && locs[0] == l && ds[0] == d
                && m.spec_accepting(locs[w.len() as int]),
    decreases w.len(),
{
    if w.len() == 0 {
        let ts = Seq::<Transition<U>>::empty();
        let ds = seq![d];
        let locs = seq![l];
        assert(bound_run_ok(m, ts, w, ds, locs) && ts.len() == w.len() && locs[0] == l && ds[0]
            == d && m.spec_accepting(locs[w.len() as int]));
    } else {
        let t = choose|t: Transition<U>|
            #![auto]
            m.spec_transitions(l).contains(t) && t.update.enable_spec(d, w[0]) && m.spec_has_run(
                t.to_location@,
                t.update.update_spec(d, w[0]),
                w.drop_first(),
            );
        let d1 = t.update.update_spec(d, w[0]);
        lemma_has_run_to_chain::<U>(m, t.to_location@, d1, w.drop_first());
        let (ts2, ds2, locs2) = choose|
            ts2: Seq<Transition<U>>,
            ds2: Seq<u32>,
            locs2: Seq<Seq<char>>,
        |
            #![auto]
            bound_run_ok(m, ts2, w.drop_first(), ds2, locs2) && ts2.len() == w.drop_first().len()
                && locs2[0] == t.to_location@ && ds2[0] == d1 && m.spec_accepting(
                locs2[w.drop_first().len() as int],
            );
        let ts = seq![t] + ts2;
        let ds = seq![d] + ds2;
        let locs = seq![l] + locs2;
        assert forall|k: int| 0 <= k < ts.len() implies {
            &&& m.spec_transitions(locs[k]).contains(#[trigger] ts[k])
            &&& ts[k].bound.spec_contains(ds[k])
            &&& locs[k + 1] == ts[k].to_location@
            &&& ds[k + 1] == ts[k].update.update_spec(ds[k], w[k])
        } by {
            if k == 0 {
                assert(ts[0] == t);
                assert(locs[0] == l);
                assert(ds[0] == d);
                assert(locs[1] == locs2[0]);
                assert(ds[1] == ds2[0]);
            } else {
                assert(ts[k] == ts2[k - 1]);
                assert(locs[k] == locs2[k - 1]);
                assert(ds[k] == ds2[k - 1]);
                assert(locs[k + 1] == locs2[k]);
                assert(ds[k + 1] == ds2[k]);
                assert(w.drop_first()[k - 1] == w[k]);
            }
        }
        assert(locs[w.len() as int] == locs2[w.drop_first().len() as int]);
        assert(bound_run_ok(m, ts, w, ds, locs) && ts.len() == w.len() && locs[0] == l && ds[0]
            == d && m.spec_accepting(locs[w.len() as int]));
    }
}

/// An actual reached configuration yields an explicit bound-enabled
/// transition chain ending at it.
pub proof fn lemma_reaches_to_chain<U: Update>(
    m: Machine<U>,
    l: Seq<char>,
    d: u32,
    w: Seq<U::I>,
    l2: Seq<char>,
    d2: u32,
)
    requires
        crate::machine::guards_within_bounds(m),
        m.spec_reaches(l, d, w, l2, d2),
    ensures
        exists|ts: Seq<Transition<U>>, ds: Seq<u32>, locs: Seq<Seq<char>>|
            #![auto]
            bound_run_ok(m, ts, w, ds, locs) && ts.len() == w.len() && locs[0] == l && ds[0] == d
                && locs[w.len() as int] == l2 && ds[w.len() as int] == d2,
    decreases w.len(),
{
    if w.len() == 0 {
        let ts = Seq::<Transition<U>>::empty();
        let ds = seq![d];
        let locs = seq![l];
        assert(bound_run_ok(m, ts, w, ds, locs) && ts.len() == w.len() && locs[0] == l && ds[0]
            == d && locs[w.len() as int] == l2 && ds[w.len() as int] == d2);
    } else {
        let t = choose|t: Transition<U>|
            #![auto]
            m.spec_transitions(l).contains(t) && t.update.enable_spec(d, w[0]) && m.spec_reaches(
                t.to_location@,
                t.update.update_spec(d, w[0]),
                w.drop_first(),
                l2,
                d2,
            );
        let d1 = t.update.update_spec(d, w[0]);
        lemma_reaches_to_chain::<U>(m, t.to_location@, d1, w.drop_first(), l2, d2);
        let (ts2, ds2, locs2) = choose|
            ts2: Seq<Transition<U>>,
            ds2: Seq<u32>,
            locs2: Seq<Seq<char>>,
        |
            #![auto]
            bound_run_ok(m, ts2, w.drop_first(), ds2, locs2) && ts2.len() == w.drop_first().len()
                && locs2[0] == t.to_location@ && ds2[0] == d1 && locs2[w.drop_first().len() as int]
                == l2 && ds2[w.drop_first().len() as int] == d2;
        let ts = seq![t] + ts2;
        let ds = seq![d] + ds2;
        let locs = seq![l] + locs2;
        assert forall|k: int| 0 <= k < ts.len() implies {
            &&& m.spec_transitions(locs[k]).contains(#[trigger] ts[k])
            &&& ts[k].bound.spec_contains(ds[k])
            &&& locs[k + 1] == ts[k].to_location@
            &&& ds[k + 1] == ts[k].update.update_spec(ds[k], w[k])
        } by {
            if k == 0 {
                assert(ts[0] == t);
                assert(locs[0] == l);
                assert(ds[0] == d);
                assert(locs[1] == locs2[0]);
                assert(ds[1] == ds2[0]);
            } else {
                assert(ts[k] == ts2[k - 1]);
                assert(locs[k] == locs2[k - 1]);
                assert(ds[k] == ds2[k - 1]);
                assert(locs[k + 1] == locs2[k]);
                assert(ds[k + 1] == ds2[k]);
                assert(w.drop_first()[k - 1] == w[k]);
            }
        }
        assert(locs[w.len() as int] == locs2[w.drop_first().len() as int]);
        assert(bound_run_ok(m, ts, w, ds, locs) && ts.len() == w.len() && locs[0] == l && ds[0]
            == d && locs[w.len() as int] == l2 && ds[w.len() as int] == d2);
    }
}

/// Two bound-enabled chains compose when the first ends where the second
/// starts.
pub proof fn lemma_chain_concat<U: Update>(
    m: Machine<U>,
    ts1: Seq<Transition<U>>,
    in1: Seq<U::I>,
    ds1: Seq<u32>,
    locs1: Seq<Seq<char>>,
    ts2: Seq<Transition<U>>,
    in2: Seq<U::I>,
    ds2: Seq<u32>,
    locs2: Seq<Seq<char>>,
)
    requires
        bound_run_ok(m, ts1, in1, ds1, locs1),
        bound_run_ok(m, ts2, in2, ds2, locs2),
        locs1[ts1.len() as int] == locs2[0],
        ds1[ts1.len() as int] == ds2[0],
    ensures
        bound_run_ok(
            m,
            ts1 + ts2,
            in1 + in2,
            ds1 + ds2.drop_first(),
            locs1 + locs2.drop_first(),
        ),
        forall|k: int|
            0 <= k <= ts1.len() ==> (locs1 + locs2.drop_first())[k] == #[trigger] locs1[k] && (ds1
                + ds2.drop_first())[k] == ds1[k],
        (locs1 + locs2.drop_first())[(ts1.len() + ts2.len()) as int] == locs2[ts2.len() as int],
{
    let n1 = ts1.len() as int;
    let ts = ts1 + ts2;
    let ins = in1 + in2;
    let ds = ds1 + ds2.drop_first();
    let locs = locs1 + locs2.drop_first();
    assert(ds.len() == ts.len() + 1);
    assert(locs.len() == ts.len() + 1);
    assert forall|k: int| 0 <= k < ts.len() implies {
        &&& m.spec_transitions(locs[k]).contains(#[trigger] ts[k])
        &&& ts[k].bound.spec_contains(ds[k])
        &&& locs[k + 1] == ts[k].to_location@
        &&& ds[k + 1] == ts[k].update.update_spec(ds[k], ins[k])
    } by {
        if k < n1 {
            assert(ts[k] == ts1[k]);
            assert(ins[k] == in1[k]);
            assert(locs[k] == locs1[k]);
            assert(ds[k] == ds1[k]);
            if k + 1 < locs1.len() {
                assert(locs[k + 1] == locs1[k + 1]);
                assert(ds[k + 1] == ds1[k + 1]);
            }
        } else {
            assert(ts[k] == ts2[k - n1]);
            assert(ins[k] == in2[k - n1]);
            if k == n1 {
                assert(locs[k] == locs1[n1]);
                assert(ds[k] == ds1[n1]);
                assert(locs[k] == locs2[0]);
                assert(ds[k] == ds2[0]);
            } else {
                assert(locs[k] == locs2.drop_first()[k - n1 - 1]);
                assert(locs[k] == locs2[k - n1]);
                assert(ds[k] == ds2[k - n1]);
            }
            assert(locs[k + 1] == locs2.drop_first()[k - n1]);
            assert(locs[k + 1] == locs2[k - n1 + 1]);
            assert(ds[k + 1] == ds2[k - n1 + 1]);
        }
    }
    assert((locs1 + locs2.drop_first())[(ts1.len() + ts2.len()) as int] == locs2[ts2.len() as int]);
}

/// A configuration that a completed analysis leaves uncovered, reached
/// from the analyzed start by an actual word, cannot reach acceptance: no
/// further input word produces an accepting run from it.
pub proof fn lemma_uncovered_rejects<U: Update>(
    m: Machine<U>,
    l0: Seq<char>,
    d0: u32,
    p: Seq<U::I>,
    l: Seq<char>,
    d: u32,
    e: Seq<U::I>,
)
    requires
        m.wf(),
        machine_lift_sound(m),
        crate::machine::guards_within_bounds(m),
        spec_search_complete(m, l0),
        m.spec_reaches(l0, d0, p, l, d),
        !(smap_has(spec_analyze(m, l0), l) && smap_get(spec_analyze(m, l0), l).spec_contains(d)),
    ensures
        !m.spec_has_run(l, d, e),
{
    if m.spec_has_run(l, d, e) {
        lemma_reaches_to_chain::<U>(m, l0, d0, p, l, d);
        let (ts1, ds1, locs1) = choose|
            ts1: Seq<Transition<U>>,
            ds1: Seq<u32>,
            locs1: Seq<Seq<char>>,
        |
            #![auto]
            bound_run_ok(m, ts1, p, ds1, locs1) && ts1.len() == p.len() && locs1[0] == l0
                && ds1[0] == d0 && locs1[p.len() as int] == l && ds1[p.len() as int] == d;
        lemma_has_run_to_chain::<U>(m, l, d, e);
        let (ts2, ds2, locs2) = choose|
            ts2: Seq<Transition<U>>,
            ds2: Seq<u32>,
            locs2: Seq<Seq<char>>,
        |
            #![auto]
            bound_run_ok(m, ts2, e, ds2, locs2) && ts2.len() == e.len() && locs2[0] == l && ds2[0]
                == d && m.spec_accepting(locs2[e.len() as int]);
        lemma_chain_concat::<U>(m, ts1, p, ds1, locs1, ts2, e, ds2, locs2);
        let ts = ts1 + ts2;
        let locs = locs1 + locs2.drop_first();
        let ds = ds1 + ds2.drop_first();
        assert(m.spec_accepting(locs[ts.len() as int]));
        lemma_analyzer_covers_run::<U>(m, l0, ts, p + e, ds, locs);
        assert(locs[ts1.len() as int] == l);
        assert(ds[ts1.len() as int] == d);
        assert(smap_has(spec_analyze(m, l0), l) && smap_get(spec_analyze(m, l0), l).spec_contains(
            d,
        ));
        assert(false);
    }
}

/// The search always halts: its result is a done state, whatever the
/// machine's cyclicity.
pub proof fn lemma_search_halts<U: Update>(m: Machine<U>, st: SearchState)
    ensures
        spec_search_done(spec_search_run(m, st)),
    decreases spec_search_measure(st), st.stack.len(),
{
    if spec_search_done(st) {
    } else {
        let idx = st.stack.last();
        let node = st.nodes[idx];
        lemma_expand_trans_growth::<U>(
            m.spec_transitions(node.location),
            idx,
            node.interval,
            st.nodes,
            st.stack.drop_last(),
        );
        lemma_search_halts::<U>(m, spec_search_step(m, st));
    }
}

/// The spec-level image of an arena.
pub open spec fn arena_view(nodes: Seq<PathNode>) -> Seq<SearchNode> {
    nodes.map_values(|n: PathNode| n@)
}

/// The spec-level image of a stack of arena indices.
pub open spec fn stack_view(stack: Seq<usize>) -> Seq<int> {
    stack.map_values(|u: usize| u as int)
}

/// The spec-level image of a safe map held as a vector.
pub open spec fn safe_view(safe: Seq<(String, TransitionBound)>) -> Seq<
    (Seq<char>, TransitionBound),
> {
    safe.map_values(|e: (String, TransitionBound)| (e.0@, e.1))
}

/// An association list over strings and its view agree on lookups.
pub proof fn lemma_safe_view_get(safe: Seq<(String, TransitionBound)>, key: Seq<char>)
    requires
        crate::machine::keys_unique(safe),
    ensures
        skeys_unique(safe_view(safe)),
        smap_has(safe_view(safe), key) == crate::machine::map_has(safe, key),
        crate::machine::map_has(safe, key) ==> smap_get(safe_view(safe), key)
            == crate::machine::map_get(safe, key),
{
    let sv = safe_view(safe);
    assert forall|i: int, j: int| 0 <= i < j < sv.len() implies (#[trigger] sv[i]).0 != (
    #[trigger] sv[j]).0 by {
        assert(safe[i].0@ != safe[j].0@);
    }
    if smap_has(sv, key) {
        let i = choose|i: int| 0 <= i < sv.len() && sv[i].0 == key;
        assert(safe[i].0@ == key);
        assert(crate::machine::map_has(safe, key));
    }
    if crate::machine::map_has(safe, key) {
        let i = choose|i: int| 0 <= i < safe.len() && safe[i].0@ == key;
        assert(sv[i].0 == key);
        assert(smap_has(sv, key));
        crate::machine::lemma_map_idx(safe, key, i);
        lemma_smap_idx(sv, key, i);
    }
}

/// An arena node: its slot index, the parent edge (parent slot and the
/// post-intersection interval inside the parent's location), and the node's
/// own location and interval.
pub struct PathNode {
    pub idx: usize,
    pub parent: Option<(usize, TransitionBound)>,
    pub location: String,
    pub interval: TransitionBound,
}

impl View for PathNode {
    type V = SearchNode;

    open spec fn view(&self) -> SearchNode {
        SearchNode {
            parent: match self.parent {
                Some(p) => Some((p.0 as int, p.1)),
                None => None,
            },
            location: self.location@,
            interval: self.interval,
        }
    }
}

/// The arena indices from the root down to `idx`, following parent edges.
pub open spec fn spec_path(nodes: Seq<SearchNode>, idx: int) -> Seq<int>
    decreases idx,
    when nodes_linked(nodes) && 0 <= idx < nodes.len()
{
    match nodes[idx].parent {
        None => seq![idx],
        Some(p) => spec_path(nodes, p.0).push(idx),
    }
}

impl PathNode {
    /// The indices of the arena nodes from the root to this node, in path
    /// order.
    pub fn path_to(&self, table: &Vec<PathNode>) -> (r: Vec<usize>)
        requires
            nodes_linked(arena_view(table@)),
            (self.idx as int) < table@.len(),
            table@[self.idx as int]@ == self@,
        ensures
            stack_view(r@) == spec_path(arena_view(table@), self.idx as int),
    {
        let ghost nv = arena_view(table@);
        let mut rev: Vec<usize> = Vec::new();
        let mut cur: usize = self.idx;
        rev.push(cur);
        proof {
            assert(nv[cur as int] == table@[cur as int]@);
            assert(stack_view(rev@) =~= seq![cur as int]);
            assert(spec_path(nv, self.idx as int) == spec_path(nv, cur as int)
                + stack_view(rev@).drop_last().reverse());
        }
        while table[cur].parent.is_some()
            invariant
                nodes_linked(nv),
                nv == arena_view(table@),
                nv.len() == table@.len(),
                (cur as int) < nv.len(),
                rev@.len() >= 1,
                rev@.last() == cur,
                spec_path(nv, self.idx as int) == spec_path(nv, cur as int) + stack_view(
                    rev@,
                ).drop_last().reverse(),
            decreases cur,
        {
            proof {
                assert(nv[cur as int] == table@[cur as int]@);
            }
            if let Some(p) = table[cur].parent {
                let ghost old_rev = stack_view(rev@);
                rev.push(p.0);
                proof {
                    assert(stack_view(rev@) =~= old_rev.push(p.0 as int));
                    assert(stack_view(rev@).drop_last() =~= old_rev);
                    assert(old_rev.reverse() =~= seq![cur as int] + old_rev.drop_last().reverse());
                    assert(spec_path(nv, cur as int) == spec_path(nv, p.0 as int).push(cur as int));
                    assert(spec_path(nv, p.0 as int).push(cur as int) + old_rev.drop_last()
                        .reverse() =~= spec_path(nv, p.0 as int) + old_rev.reverse());
                }
                cur = p.0;
            }
        }
        proof {
            assert(nv[cur as int] == table@[cur as int]@);
            assert(spec_path(nv, cur as int) == seq![cur as int]);
            assert(spec_path(nv, self.idx as int) == seq![cur as int] + stack_view(
                rev@,
            ).drop_last().reverse());
            assert(seq![cur as int] + stack_view(rev@).drop_last().reverse() =~= stack_view(
                rev@,
            ).reverse());
        }
        let mut out: Vec<usize> = Vec::new();
        let n = rev.len();
        let mut i: usize = 0;
        while i < n
            invariant
                n == rev@.len(),
                0 <= i <= n,
                out@.len() == i,
                forall|k: int| 0 <= k < i ==> #[trigger] out@[k] == rev@[n - 1 - k],
            decreases n - i,
        {
            out.push(rev[n - 1 - i]);
            i = i + 1;
        }
        proof {
            assert(stack_view(out@) =~= stack_view(rev@).reverse());
        }
        out
    }
}

/// Widens the interval recorded for `loc` in the safe map by `b`,
/// inserting `b` when `loc` has no entry yet.
fn safe_widen(safe: &mut Vec<(String, TransitionBound)>, loc: &String, b: TransitionBound)
    requires
        crate::machine::keys_unique(old(safe)@),
    ensures
        crate::machine::keys_unique(final(safe)@),
        safe_view(final(safe)@) == spec_safe_widen(safe_view(old(safe)@), loc@, b),
{
    let ghost sv0 = safe_view(old(safe)@);
    proof {
        lemma_safe_view_get(old(safe)@, loc@);
    }
    let n = safe.len();
    let mut i: usize = 0;
    while i < n
        invariant
            n == safe@.len(),
            0 <= i <= n,
            safe@ == old(safe)@,
            sv0 == safe_view(old(safe)@),
            skeys_unique(sv0),
            crate::machine::keys_unique(safe@),
            forall|j: int| 0 <= j < i ==> (#[trigger] safe@[j]).0@ != loc@,
        decreases n - i,
    {
        if safe[i].0 == *loc {
            proof {
                crate::machine::lemma_map_idx(old(safe)@, loc@, i as int);
                lemma_smap_idx(sv0, loc@, i as int);
            }
            let mut entry = safe.remove(i);
            entry.1.union_with(&b);
            safe.insert(i, entry);
            proof {
                let updated = old(safe)@.update(i as int, entry);
                assert(safe@ =~= updated);
                assert forall|p: int, q: int| 0 <= p < q < safe@.len() implies (
                #[trigger] safe@[p]).0@ != (#[trigger] safe@[q]).0@ by {
                    assert(safe@[p].0 == old(safe)@[p].0);
                    assert(safe@[q].0 == old(safe)@[q].0);
                }
                assert(safe_view(safe@) =~= spec_safe_widen(sv0, loc@, b));
            }
            return ;
        }
        i = i + 1;
    }
    proof {
        assert(!crate::machine::map_has(safe@, loc@));
        assert(!smap_has(sv0, loc@));
    }
    safe.push((loc.clone(), b));
    proof {
        assert forall|p: int, q: int| 0 <= p < q < safe@.len() implies (#[trigger] safe@[p]).0@
            != (#[trigger] safe@[q]).0@ by {
            if q == safe@.len() - 1 {
                assert(safe@[p] == old(safe)@[p]);
            }
        }
        assert(safe_view(safe@) =~= spec_safe_widen(sv0, loc@, b));
    }
}

/// Marks the path from `idx` back to the root: widens the safe map by each
/// parent edge's post-intersection interval, walking leaf to root.
fn mark_path(
    nodes: &Vec<PathNode>,
    safe: &mut Vec<(String, TransitionBound)>,
    idx: usize,
)
    requires
        nodes_linked(arena_view(nodes@)),
        (idx as int) < nodes@.len(),
        crate::machine::keys_unique(old(safe)@),
    ensures
        crate::machine::keys_unique(final(safe)@),
        safe_view(final(safe)@) == spec_mark_path(
            arena_view(nodes@),
            safe_view(old(safe)@),
            idx as int,
        ),
{
    let ghost nv = arena_view(nodes@);
    let ghost target = spec_mark_path(nv, safe_view(old(safe)@), idx as int);
    let mut cur: usize = idx;
    while nodes[cur].parent.is_some()
        invariant
            nodes_linked(nv),
            nv == arena_view(nodes@),
            nv.len() == nodes@.len(),
            (cur as int) < nv.len(),
            crate::machine::keys_unique(safe@),
            target == spec_mark_path(nv, safe_view(safe@), cur as int),
        decreases cur,
    {
        proof {
            assert(nv[cur as int] == nodes@[cur as int]@);
        }
        if let Some(p) = nodes[cur].parent {
            proof {
                assert(nv[p.0 as int] == nodes@[p.0 as int]@);
            }
            safe_widen(safe, &nodes[p.0].location, p.1);
            cur = p.0;
        }
    }
    proof {
        assert(nv[cur as int] == nodes@[cur as int]@);
        assert(spec_mark_path(nv, safe_view(safe@), cur as int) == safe_view(safe@));
    }
}

impl<U: Update> Machine<U> {
    /// Computes, for each location, an interval of register values from
    /// which an accepting location may still be reachable, by a bounded
    /// depth-first search over the symbolic execution tree started at
    /// `(location, unbounded)`.  The result over-approximates reachability
    /// when every update's symbolic lift over-approximates its concrete
    /// step; it is exactly the spec-level search [`spec_analyze`].
    pub fn find_non_empty(&self, location: &str) -> (r: Result<
        Vec<(String, TransitionBound)>,
        MachineError,
    >)
        requires
            self.wf(),
        ensures
            r matches Ok(safe) && safe_view(safe@) == spec_analyze(*self, location@)
                && crate::machine::keys_unique(safe@),
    {
        let ghost init = spec_search_init(*self, location@);
        // Seed the safe map with every accepting location, fully unbounded.
        let mut safe: Vec<(String, TransitionBound)> = Vec::new();
        let a_end = self.accepting.len();
        let mut a: usize = 0;
        while a < a_end
            invariant
                self.wf(),
                a_end == self.accepting@.len(),
                0 <= a <= a_end,
                safe@.len() == a,
                forall|k: int|
                    0 <= k < a ==> (#[trigger] safe@[k]).0 == self.accepting@[k] && safe@[k].1
                        == (TransitionBound { lower: None, upper: None }),
                safe_view(safe@) == spec_seed_safe(self.accepting@.take(a as int)),
            decreases a_end - a,
        {
            let ghost prev = safe@;
            safe.push((self.accepting[a].clone(), TransitionBound::unbounded()));
            proof {
                assert(self.accepting@.take(a as int + 1).drop_last() =~= self.accepting@.take(
                    a as int,
                ));
                assert(self.accepting@.take(a as int + 1).last() == self.accepting@[a as int]);
                assert(safe_view(safe@) =~= spec_seed_safe(self.accepting@.take(a as int + 1)));
            }
            a = a + 1;
        }
        proof {
            assert(self.accepting@.take(a_end as int) =~= self.accepting@);
            assert forall|p: int, q: int| 0 <= p < q < safe@.len() implies (
            #[trigger] safe@[p]).0@ != (#[trigger] safe@[q]).0@ by {
                assert(self.accepting@[p]@ != self.accepting@[q]@);
            }
        }
        // The arena with the root node, and the visit stack.
        let mut nodes: Vec<PathNode> = Vec::new();
        nodes.push(
            PathNode {
                idx: 0,
                parent: None,
                interval: TransitionBound::unbounded(),
                location: location.to_owned(),
            },
        );
        let mut nodes_to_visit: Vec<usize> = Vec::new();
        nodes_to_visit.push(0);
        proof {
            assert(arena_view(nodes@) =~= init.nodes);
            assert(stack_view(nodes_to_visit@) =~= init.stack);
            assert(SearchState {
                nodes: arena_view(nodes@),
                stack: stack_view(nodes_to_visit@),
                safe: safe_view(safe@),
            } == init);
        }
        // Depth first search for accepting paths.
        while nodes.len() <= MAX_NODES && nodes_to_visit.len() > 0
            invariant
                self.wf(),
                crate::machine::keys_unique(safe@),
                nodes_linked(arena_view(nodes@)),
                nodes@.len() == arena_view(nodes@).len(),
                forall|k: int|
                    0 <= k < nodes_to_visit@.len() ==> 0 <= #[trigger] nodes_to_visit@[k]
                        < nodes@.len(),
                spec_search_run(
                    *self,
                    SearchState {
                        nodes: arena_view(nodes@),
                        stack: stack_view(nodes_to_visit@),
                        safe: safe_view(safe@),
                    },
                ) == spec_search_run(*self, init),
            decreases spec_search_measure(
                SearchState {
                    nodes: arena_view(nodes@),
                    stack: stack_view(nodes_to_visit@),
                    safe: safe_view(safe@),
                },
            ), nodes_to_visit@.len(),
        {
            let ghost st0 = SearchState {
                nodes: arena_view(nodes@),
                stack: stack_view(nodes_to_visit@),
                safe: safe_view(safe@),
            };
            let idx = match nodes_to_visit.pop() {
                Some(idx) => idx,
                None => {
                    return Err(MachineError::FindNonEmptyFailed);
                },
            };
            proof {
                assert(stack_view(nodes_to_visit@) =~= st0.stack.drop_last());
                assert(st0.stack.last() == idx as int);
                assert(st0.nodes[idx as int] == nodes@[idx as int]@);
            }
            // Hit test: accepting location, or interval already known safe.
            let mut hit = self.is_accepting(&nodes[idx].location);
            if !hit {
                proof {
                    lemma_safe_view_get(safe@, nodes@[idx as int].location@);
                }
                hit = match crate::machine::assoc_get(&safe, &nodes[idx].location) {
                    Some(b) => b.contains_interval(&nodes[idx].interval),
                    None => false,
                };
            }
            proof {
                assert(hit == spec_hit(*self, st0, idx as int));
            }
            if hit {
                mark_path(&nodes, &mut safe, idx);
            }
            proof {
                assert(safe_view(safe@) == (if spec_hit(*self, st0, idx as int) {
                    spec_mark_path(st0.nodes, st0.safe, idx as int)
                } else {
                    st0.safe
                }));
            }
            // Expand: follow each outgoing transition whose bound intersects
            // the node's interval.
            let node_interval = nodes[idx].interval;
            let ghost ts_all = self.spec_transitions(nodes@[idx as int].location@);
            match self.get_transitions(&nodes[idx].location) {
                Some(transitions) => {
                    let ghost ts = transitions@;
                    let ghost nodes0 = arena_view(nodes@);
                    let ghost stack0 = stack_view(nodes_to_visit@);
                    let m_end = transitions.len();
                    let mut j: usize = 0;
                    while j < m_end
                        invariant
                            m_end == ts.len(),
                            ts == transitions@,
                            0 <= j <= m_end,
                            (idx as int) < nodes0.len(),
                            nodes0.len() <= arena_view(nodes@).len(),
                            nodes@.len() == arena_view(nodes@).len(),
                            nodes_linked(nodes0),
                            nodes_linked(arena_view(nodes@)),
                            forall|k: int|
                                0 <= k < nodes_to_visit@.len() ==> 0 <= #[trigger]
                                nodes_to_visit@[k] < nodes@.len(),
                            (
                                arena_view(nodes@),
                                stack_view(nodes_to_visit@),
                            ) == spec_expand_trans(
                                ts.take(j as int),
                                idx as int,
                                node_interval,
                                nodes0,
                                stack0,
                            ),
                        decreases m_end - j,
                    {
                        let t = &transitions[j];
                        let ghost before_nodes = arena_view(nodes@);
                        let ghost before_stack = stack_view(nodes_to_visit@);
                        let child_idx = nodes.len();
                        match node_interval.intersect(&t.bound) {
                            Some(postcondition) => {
                                let next_interval = t.update.update_interval(postcondition);
                                nodes.push(
                                    PathNode {
                                        idx: child_idx,
                                        parent: Some((idx, postcondition)),
                                        interval: next_interval,
                                        location: t.to_location.clone(),
                                    },
                                );
                                nodes_to_visit.push(child_idx);
                                proof {
                                    assert(arena_view(nodes@) =~= before_nodes.push(
                                        nodes@[nodes@.len() - 1]@,
                                    ));
                                    assert(stack_view(nodes_to_visit@) =~= before_stack.push(
                                        child_idx as int,
                                    ));
                                }
                            },
                            None => {},
                        }
                        proof {
                            assert(ts.take(j as int + 1).drop_last() =~= ts.take(j as int));
                            assert(ts.take(j as int + 1).last() == ts[j as int]);
                            assert((arena_view(nodes@), stack_view(nodes_to_visit@))
                                == spec_expand_trans(
                                ts.take(j as int + 1),
                                idx as int,
                                node_interval,
                                nodes0,
                                stack0,
                            ));
                        }
                        j = j + 1;
                    }
                    proof {
                        assert(ts.take(m_end as int) =~= ts);
                    }
                },
                None => {
                    proof {
                        assert(ts_all =~= Seq::<Transition<U>>::empty());
                    }
                },
            }
            proof {
                let st1 = SearchState {
                    nodes: arena_view(nodes@),
                    stack: stack_view(nodes_to_visit@),
                    safe: safe_view(safe@),
                };
                assert(!spec_search_done(st0));
                assert(st1 == spec_search_step(*self, st0));
                assert(spec_search_run(*self, st0) == spec_search_run(*self, st1));
                lemma_expand_trans_growth::<U>(
                    self.spec_transitions(st0.nodes[idx as int].location),
                    idx as int,
                    st0.nodes[idx as int].interval,
                    st0.nodes,
                    st0.stack.drop_last(),
                );
            }
        }
        proof {
            let st_final = SearchState {
                nodes: arena_view(nodes@),
                stack: stack_view(nodes_to_visit@),
                safe: safe_view(safe@),
            };
            assert(spec_search_done(st_final));
            assert(spec_search_run(*self, st_final) == st_final);
            assert(safe_view(safe@) == spec_analyze(*self, location@));
        }
        Ok(safe)
    }
}

} // verus!
