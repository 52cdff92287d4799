//! Which handles a circuit reaches, and in which order they are met.
//!
//! A handle reaches its parents, and what they reach. The resolver meets the handles
//! that a circuit's last handle reaches from the largest number down: what it has not
//! met yet and knows of is pending.

use vstd::prelude::*;
use crate::precision::Precision;
use crate::qubits::{Claim, Parent, QubitGraph};

verus! {

/// Whether each handle of `path` but the first is a parent of the one before it.
pub open spec fn is_path<P: Precision>(graph: &QubitGraph<P>, path: Seq<int>) -> bool {
    &&& path.len() > 0
    &&& 0 <= path[0] < graph.nodes@.len()
    &&& forall|i: int| 0 < i < path.len() ==> graph.is_parent(path[i - 1], #[trigger] path[i])
}

/// Whether `from` is `to`, or reaches it through parents.
pub open spec fn reaches<P: Precision>(graph: &QubitGraph<P>, from: int, to: int) -> bool {
    exists|path: Seq<int>| #[trigger] is_path(graph, path) && path.first() == from && path.last() == to
}

/// Whether the handle is an origin.
pub open spec fn is_origin<P: Precision>(graph: &QubitGraph<P>, r: int) -> bool {
    graph.nodes@[r].parent is None
}

/// Whether the handle applies an operation.
pub open spec fn has_modifier<P: Precision>(graph: &QubitGraph<P>, r: int) -> bool {
    graph.nodes@[r].parent matches Some(Parent::Owned(_, Some(_)))
}

/// Whether the numbers fall.
pub open spec fn strictly_descending(s: Seq<usize>) -> bool {
    forall|i: int, j: int| 0 <= i < j < s.len() ==> s[i] > s[j]
}

/// Whether the numbers rise.
pub open spec fn strictly_ascending(s: Seq<usize>) -> bool {
    forall|i: int, j: int| 0 <= i < j < s.len() ==> s[i] < s[j]
}

/// Whether `frontier` lists the origins that `q` reaches, each once, from the one
/// made last to the one made first.
pub open spec fn is_frontier<P: Precision>(graph: &QubitGraph<P>, q: int, frontier: Seq<usize>) -> bool {
    &&& strictly_descending(frontier)
    &&& forall|r: usize|
        frontier.contains(r) <==> reaches(graph, q, r as int) && is_origin(graph, r as int)
}

/// Whether `ops` lists the handles that `q` reaches and that apply an operation, each
/// once, from the one made first to the one made last: no operation comes before one
/// that it depends on.
pub open spec fn is_schedule<P: Precision>(graph: &QubitGraph<P>, q: int, ops: Seq<usize>) -> bool {
    &&& strictly_ascending(ops)
    &&& forall|r: usize|
        ops.contains(r) <==> reaches(graph, q, r as int) && has_modifier(graph, r as int)
}

/// A handle reaches itself.
pub proof fn lemma_reaches_itself<P: Precision>(graph: &QubitGraph<P>, q: int)
    requires
        0 <= q < graph.nodes@.len(),
    ensures
        reaches(graph, q, q),
{
    assert(is_path(graph, seq![q]));
    assert(seq![q].first() == q && seq![q].last() == q);
}

/// A handle reaches the parents of what it reaches.
pub proof fn lemma_reaches_parent<P: Precision>(graph: &QubitGraph<P>, q: int, c: int, p: int)
    requires
        reaches(graph, q, c),
        graph.is_parent(c, p),
    ensures
        reaches(graph, q, p),
{
    let path = choose|path: Seq<int>| #[trigger]
        is_path(graph, path) && path.first() == q && path.last() == c;
    let longer = path.push(p);
    assert forall|i: int| 0 < i < longer.len() implies graph.is_parent(longer[i - 1], #[trigger] longer[i]) by {
        if i < path.len() {
            assert(graph.is_parent(path[i - 1], path[i]));
        }
    }
    assert(is_path(graph, longer));
    assert(longer.first() == q && longer.last() == p);
}

/// What a handle reaches, other than itself, is a parent of something it reaches.
pub proof fn lemma_reaches_through<P: Precision>(graph: &QubitGraph<P>, q: int, r: int) -> (c: int)
    requires
        reaches(graph, q, r),
        r != q,
    ensures
        reaches(graph, q, c),
        graph.is_parent(c, r),
{
    let path = choose|path: Seq<int>| #[trigger]
        is_path(graph, path) && path.first() == q && path.last() == r;
    let shorter = path.drop_last();
    assert(graph.is_parent(path[path.len() - 2], path[path.len() - 1]));
    assert forall|i: int| 0 < i < shorter.len() implies graph.is_parent(shorter[i - 1], #[trigger] shorter[i]) by {
        assert(graph.is_parent(path[i - 1], path[i]));
    }
    assert(is_path(graph, shorter));
    assert(shorter.first() == q && shorter.last() == path[path.len() - 2]);
    path[path.len() - 2]
}

/// A parent was made before its child.
pub proof fn lemma_parent_before<P: Precision>(graph: &QubitGraph<P>, c: int, p: int)
    requires
        graph.wf(),
        graph.is_parent(c, p),
    ensures
        0 <= p < c,
{
    assert(graph.node_wf(c));
}

/// What a handle reaches was made no later than the handle.
pub proof fn lemma_reaches_before<P: Precision>(graph: &QubitGraph<P>, q: int, r: int)
    requires
        graph.wf(),
        reaches(graph, q, r),
    ensures
        0 <= r <= q < graph.nodes@.len() <= usize::MAX,
{
    assert(graph.nodes@.len() == graph.nodes.len());
    let path = choose|path: Seq<int>| #[trigger]
        is_path(graph, path) && path.first() == q && path.last() == r;
    lemma_path_falls(graph, path, path.len() - 1);
}

/// Along a path the numbers fall.
proof fn lemma_path_falls<P: Precision>(graph: &QubitGraph<P>, path: Seq<int>, i: int)
    requires
        graph.wf(),
        is_path(graph, path),
        0 <= i < path.len(),
    ensures
        0 <= path[i] <= path[0],
    decreases i,
{
    if i > 0 {
        lemma_path_falls(graph, path, i - 1);
        assert(graph.is_parent(path[i - 1], path[i]));
        lemma_parent_before(graph, path[i - 1], path[i]);
    }
}

/// Whether something that `q` reaches, with a number of at least `bound`, has `r` as a
/// parent, or `r` is `q` itself.
pub open spec fn awaited<P: Precision>(graph: &QubitGraph<P>, q: int, bound: int, r: int) -> bool {
    r == q || exists|c: int| c >= bound && reaches(graph, q, c) && #[trigger] graph.is_parent(c, r)
}

/// What holds of the pending handles when every handle that `q` reaches with a number
/// of at least `bound` has been met: they are the handles below `bound` that are
/// awaited, each once.
pub open spec fn pending_below<P: Precision>(
    graph: &QubitGraph<P>,
    q: int,
    bound: int,
    pending: Seq<usize>,
) -> bool {
    &&& pending.no_duplicates()
    &&& forall|i: int|
        0 <= i < pending.len() ==> #[trigger] pending[i] < bound && reaches(
            graph,
            q,
            pending[i] as int,
        )
    &&& forall|r: int|
        0 <= r < bound && reaches(graph, q, r) ==> (pending.contains(r as usize) <==> #[trigger] awaited(
            graph,
            q,
            bound,
            r,
        ))
}

/// Between the largest pending handle and the bound, `q` reaches nothing.
pub proof fn lemma_nothing_between<P: Precision>(
    graph: &QubitGraph<P>,
    q: int,
    bound: int,
    pending: Seq<usize>,
    cur: int,
    r: int,
)
    requires
        graph.wf(),
        pending_below(graph, q, bound, pending),
        forall|i: int| 0 <= i < pending.len() ==> #[trigger] pending[i] <= cur,
        cur < r < bound,
    ensures
        !reaches(graph, q, r),
    decreases bound - r,
{
    if reaches(graph, q, r) {
        lemma_reaches_before(graph, q, r);
        if pending.contains(r as usize) {
            let i = choose|i: int| 0 <= i < pending.len() && pending[i] == r as usize;
            assert(pending[i] <= cur);
        }
        assert(!awaited(graph, q, bound, r));
        let c = lemma_reaches_through(graph, q, r);
        lemma_parent_before(graph, c, r);
        if c < bound {
            lemma_nothing_between(graph, q, bound, pending, cur, c);
        }
    }
}

/// Once the largest pending handle `cur` is met, and its parents are pending in its
/// place, the bound falls to `cur`.
pub proof fn lemma_advance<P: Precision>(
    graph: &QubitGraph<P>,
    q: int,
    bound: int,
    pending: Seq<usize>,
    cur: usize,
    next: Seq<usize>,
)
    requires
        graph.wf(),
        pending_below(graph, q, bound, pending),
        pending.contains(cur),
        forall|i: int| 0 <= i < pending.len() ==> #[trigger] pending[i] <= cur,
        next.no_duplicates(),
        forall|x: usize|
            next.contains(x) <==> (pending.contains(x) && x != cur) || graph.is_parent(
                cur as int,
                x as int,
            ),
    ensures
        pending_below(graph, q, cur as int, next),
{
    let at = choose|i: int| 0 <= i < pending.len() && pending[i] == cur;
    assert(pending[at] < bound && reaches(graph, q, cur as int));
    assert forall|i: int| 0 <= i < next.len() implies #[trigger] next[i] < cur && reaches(
        graph,
        q,
        next[i] as int,
    ) by {
        let x = next[i];
        assert(next.contains(x));
        if pending.contains(x) && x != cur {
            let i0 = choose|i0: int| 0 <= i0 < pending.len() && pending[i0] == x;
            assert(pending[i0] <= cur);
        } else {
            lemma_parent_before(graph, cur as int, x as int);
            lemma_reaches_parent(graph, q, cur as int, x as int);
        }
    }
    assert forall|r: int| 0 <= r < cur && reaches(graph, q, r) implies (next.contains(r as usize)
        <==> #[trigger] awaited(graph, q, cur as int, r)) by {
        assert(pending.contains(r as usize) <==> awaited(graph, q, bound, r));
        if next.contains(r as usize) {
            if graph.is_parent(cur as int, r) {
                assert(awaited(graph, q, cur as int, r));
            } else {
                assert(awaited(graph, q, bound, r));
                if r != q {
                    let c = choose|c: int|
                        c >= bound && reaches(graph, q, c) && #[trigger] graph.is_parent(c, r);
                    assert(c >= cur);
                }
            }
        }
        if awaited(graph, q, cur as int, r) {
            if r != q {
                let c = choose|c: int|
                    c >= cur && reaches(graph, q, c) && #[trigger] graph.is_parent(c, r);
                if c == cur {
                } else if c < bound {
                    lemma_nothing_between(graph, q, bound, pending, cur as int, c);
                } else {
                    assert(awaited(graph, q, bound, r));
                }
            }
        }
    }
}

/// The parents that the largest pending handle consumed are not pending, and none is
/// listed twice: nothing else uses them.
pub proof fn lemma_consumed_are_new<P: Precision>(
    graph: &QubitGraph<P>,
    q: int,
    bound: int,
    pending: Seq<usize>,
    cur: usize,
    consumed: Vec<usize>,
)
    requires
        graph.wf(),
        pending_below(graph, q, bound, pending),
        pending.contains(cur),
        graph.nodes@[cur as int].parent matches Some(Parent::Owned(ps, _)) && ps == consumed,
    ensures
        consumed@.no_duplicates(),
        forall|j: int| 0 <= j < consumed@.len() ==> !pending.contains(#[trigger] consumed@[j]),
{
    let parents = consumed@;
    assert(parents.len() == consumed.len());
    let at = choose|i: int| 0 <= i < pending.len() && pending[i] == cur;
    assert(pending[at] < bound && reaches(graph, q, cur as int));
    lemma_reaches_before(graph, q, cur as int);
    assert(graph.node_wf(cur as int));
    assert forall|j1: int, j2: int|
        0 <= j1 < parents.len() && 0 <= j2 < parents.len() && j1 != j2 implies parents[j1]
        != parents[j2] by {
        assert(graph.claims@[parents[j1] as int] == Claim::Owned(cur, j1 as usize));
        assert(graph.claims@[parents[j2] as int] == Claim::Owned(cur, j2 as usize));
    }
    assert forall|j: int| 0 <= j < parents.len() implies !pending.contains(#[trigger] parents[j]) by {
        let p = parents[j];
        assert(graph.claims@[p as int] == Claim::Owned(cur, j as usize));
        if pending.contains(p) {
            let i = choose|i: int| 0 <= i < pending.len() && pending[i] == p;
            assert(pending[i] < bound && reaches(graph, q, p as int));
            assert(awaited(graph, q, bound, p as int));
            let c = choose|c: int|
                c >= bound && reaches(graph, q, c) && #[trigger] graph.is_parent(c, p as int);
            assert(graph.node_wf(c));
            lemma_reaches_before(graph, q, c);
            match graph.nodes@[c].parent {
                Some(Parent::Owned(ps, _)) => {
                    assert(ps@.len() == ps.len());
                    let j2 = choose|j2: int| 0 <= j2 < ps@.len() && #[trigger] ps@[j2] == p as int;
                    assert(graph.claims@[ps@[j2] as int] == Claim::Owned(c as usize, j2 as usize));
                },
                _ => {},
            }
        }
    }
}

/// No operation comes before one that it depends on: where the handle at position `j`
/// of a schedule reaches the handle at position `i`, and is another handle, `i` comes
/// before `j`.
pub proof fn lemma_schedule_respects_dependencies<P: Precision>(
    graph: &QubitGraph<P>,
    q: int,
    ops: Seq<usize>,
    i: int,
    j: int,
)
    requires
        graph.wf(),
        is_schedule(graph, q, ops),
        0 <= i < ops.len(),
        0 <= j < ops.len(),
        i != j,
        reaches(graph, ops[j] as int, ops[i] as int),
    ensures
        i < j,
{
    lemma_reaches_before(graph, ops[j] as int, ops[i] as int);
}

/// Every operation that a circuit reaches is in its schedule once, however many
/// handles refer to the handle that applies it.
pub proof fn lemma_each_operation_once<P: Precision>(
    graph: &QubitGraph<P>,
    q: int,
    ops: Seq<usize>,
    r: usize,
) -> (at: int)
    requires
        is_schedule(graph, q, ops),
        reaches(graph, q, r as int),
        has_modifier(graph, r as int),
    ensures
        0 <= at < ops.len(),
        ops[at] == r,
        forall|i: int| 0 <= i < ops.len() && ops[i] == r ==> i == at,
{
    assert(ops.contains(r));
    let at = choose|at: int| 0 <= at < ops.len() && ops[at] == r;
    assert forall|i: int| 0 <= i < ops.len() && ops[i] == r implies i == at by {
        if i < at {
            assert(ops[i] < ops[at]);
        } else if at < i {
            assert(ops[at] < ops[i]);
        }
    }
    at
}

/// Every origin that a circuit reaches is in its frontier once.
pub proof fn lemma_each_origin_once<P: Precision>(
    graph: &QubitGraph<P>,
    q: int,
    frontier: Seq<usize>,
    r: usize,
) -> (at: int)
    requires
        is_frontier(graph, q, frontier),
        reaches(graph, q, r as int),
        is_origin(graph, r as int),
    ensures
        0 <= at < frontier.len(),
        frontier[at] == r,
        forall|i: int| 0 <= i < frontier.len() && frontier[i] == r ==> i == at,
{
    assert(frontier.contains(r));
    let at = choose|at: int| 0 <= at < frontier.len() && frontier[at] == r;
    assert forall|i: int| 0 <= i < frontier.len() && frontier[i] == r implies i == at by {
        if i < at {
            assert(frontier[i] > frontier[at]);
        } else if at < i {
            assert(frontier[at] > frontier[i]);
        }
    }
    at
}

/// A circuit has one schedule: whatever order its handles are met in, the order
/// in which its operations are applied is the same.
pub proof fn lemma_schedule_is_unique<P: Precision>(
    graph: &QubitGraph<P>,
    q: int,
    ops1: Seq<usize>,
    ops2: Seq<usize>,
)
    requires
        is_schedule(graph, q, ops1),
        is_schedule(graph, q, ops2),
    ensures
        ops1 == ops2,
{
    lemma_sorted_equal(ops1, ops2);
}

/// Two rising lists of the same numbers are one list.
proof fn lemma_sorted_equal(s1: Seq<usize>, s2: Seq<usize>)
    requires
        strictly_ascending(s1),
        strictly_ascending(s2),
        forall|r: usize| s1.contains(r) <==> s2.contains(r),
    ensures
        s1 == s2,
    decreases s1.len(),
{
    if s1.len() == 0 {
        if s2.len() > 0 {
            assert(s2.contains(s2[0]));
        }
    } else if s2.len() == 0 {
        assert(s1.contains(s1[0]));
    } else {
        let last1 = s1.last();
        let last2 = s2.last();
        assert(s1.contains(last1));
        assert(s2.contains(last2));
        let i2 = choose|i: int| 0 <= i < s2.len() && s2[i] == last1;
        let i1 = choose|i: int| 0 <= i < s1.len() && s1[i] == last2;
        assert(last1 == last2) by {
            if i2 < s2.len() - 1 {
                assert(s2[i2] < s2[s2.len() - 1]);
            }
            if i1 < s1.len() - 1 {
                assert(s1[i1] < s1[s1.len() - 1]);
            }
        }
        let f1 = s1.drop_last();
        let f2 = s2.drop_last();
        assert forall|r: usize| f1.contains(r) <==> f2.contains(r) by {
            if f1.contains(r) {
                let i = choose|i: int| 0 <= i < f1.len() && f1[i] == r;
                assert(s1[i] == r && s1[i] < s1[s1.len() - 1]);
                assert(s1.contains(r));
                let k = choose|k: int| 0 <= k < s2.len() && s2[k] == r;
                assert(f2[k] == r);
            }
            if f2.contains(r) {
                let i = choose|i: int| 0 <= i < f2.len() && f2[i] == r;
                assert(s2[i] == r && s2[i] < s2[s2.len() - 1]);
                assert(s2.contains(r));
                let k = choose|k: int| 0 <= k < s1.len() && s1[k] == r;
                assert(f1[k] == r);
            }
        }
        lemma_sorted_equal(f1, f2);
        assert(s1 =~= f1.push(last1));
        assert(s2 =~= f2.push(last2));
    }
}

/// A circuit has one frontier.
pub proof fn lemma_frontier_is_unique<P: Precision>(
    graph: &QubitGraph<P>,
    q: int,
    frontier1: Seq<usize>,
    frontier2: Seq<usize>,
)
    requires
        is_frontier(graph, q, frontier1),
        is_frontier(graph, q, frontier2),
    ensures
        frontier1 == frontier2,
{
    let rising1 = frontier1.reverse();
    let rising2 = frontier2.reverse();
    assert forall|r: usize| rising1.contains(r) <==> rising2.contains(r) by {
        lemma_reverse_contains(frontier1, r);
        lemma_reverse_contains(frontier2, r);
    }
    lemma_sorted_equal(rising1, rising2);
    assert(rising1.len() == frontier1.len());
    assert(rising2.len() == frontier2.len());
    assert forall|i: int| 0 <= i < frontier1.len() implies frontier1[i] == frontier2[i] by {
        assert(rising1[frontier1.len() - 1 - i] == frontier1[i]);
        assert(rising2[frontier2.len() - 1 - i] == frontier2[i]);
    }
    assert(frontier1 =~= frontier2);
}

/// A list holds what its reverse holds.
proof fn lemma_reverse_contains(s: Seq<usize>, r: usize)
    ensures
        s.reverse().contains(r) == s.contains(r),
{
    if s.contains(r) {
        let i = choose|i: int| 0 <= i < s.len() && s[i] == r;
        assert(s.reverse()[s.len() - 1 - i] == r);
    }
    if s.reverse().contains(r) {
        let i = choose|i: int| 0 <= i < s.reverse().len() && s.reverse()[i] == r;
        assert(s[s.len() - 1 - i] == r);
    }
}

} // verus!
