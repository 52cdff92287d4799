//! The resolver: from the last handle of a circuit to the origins that the circuit
//! starts from and the order in which its operations are applied.

use vstd::prelude::*;
use std::collections::VecDeque;
use crate::precision::Precision;
use crate::qubits::{Parent, QubitGraph};
use crate::reach::{awaited, has_modifier, is_frontier, is_origin, is_schedule, lemma_advance, lemma_consumed_are_new, lemma_nothing_between, lemma_reaches_before, lemma_reaches_itself, pending_below, reaches, strictly_ascending, strictly_descending};

verus! {

/// Whether the handle `q` is pending in `heap`.
pub fn qubit_in_heap(q: usize, heap: &Vec<usize>) -> (found: bool)
    ensures
        found == heap@.contains(q),
{
    let mut i: usize = 0;
    while i < heap.len()
        invariant
            i <= heap@.len(),
            forall|k: int| 0 <= k < i ==> heap@[k] != q,
        decreases heap@.len() - i,
    {
        if heap[i] == q {
            return true;
        }
        i = i + 1;
    }
    false
}

/// Takes the handle with the largest number out of `heap`.
fn pop_largest(heap: &mut Vec<usize>) -> (largest: usize)
    requires
        old(heap)@.len() > 0,
        old(heap)@.no_duplicates(),
    ensures
        old(heap)@.contains(largest),
        forall|i: int| 0 <= i < old(heap)@.len() ==> #[trigger] old(heap)@[i] <= largest,
        final(heap)@.no_duplicates(),
        forall|x: usize| final(heap)@.contains(x) <==> old(heap)@.contains(x) && x != largest,
{
    let mut at: usize = 0;
    let mut i: usize = 1;
    while i < heap.len()
        invariant
            heap@ == old(heap)@,
            0 <= at < i <= heap@.len(),
            forall|k: int| 0 <= k < i ==> #[trigger] heap@[k] <= heap@[at as int],
        decreases heap@.len() - i,
    {
        if heap[i] > heap[at] {
            at = i;
        }
        i = i + 1;
    }
    let largest = heap.remove(at);
    proof {
        let before = old(heap)@;
        let after = heap@;
        before.remove_ensures(at as int);
        assert forall|k: int| 0 <= k < after.len() implies #[trigger] after[k] == before[if k < at {
            k
        } else {
            k + 1
        }] by {}
        assert forall|k1: int, k2: int|
            0 <= k1 < after.len() && 0 <= k2 < after.len() && k1 != k2 implies after[k1]
            != after[k2] by {
            let b1 = if k1 < at { k1 } else { k1 + 1 };
            let b2 = if k2 < at { k2 } else { k2 + 1 };
            assert(after[k1] == before[b1] && after[k2] == before[b2]);
        }
        assert forall|x: usize| after.contains(x) <==> before.contains(x) && x != largest by {
            if after.contains(x) {
                let k = choose|k: int| 0 <= k < after.len() && after[k] == x;
                let b = if k < at { k } else { k + 1 };
                assert(before[b] == x);
            }
            if before.contains(x) && x != largest {
                let b = choose|b: int| 0 <= b < before.len() && before[b] == x;
                let k = if b < at { b } else { b - 1 };
                assert(after[k] == x);
            }
        }
    }
    largest
}

/// Whether `met` lists, of the handles that `q` reaches with a number of at least
/// `bound`, those that `pick` picks.
pub open spec fn lists_met<P: Precision>(
    graph: &QubitGraph<P>,
    q: int,
    bound: int,
    met: Seq<usize>,
    pick: spec_fn(int) -> bool,
) -> bool {
    forall|r: usize| met.contains(r) <==> r >= bound && reaches(graph, q, r as int) && pick(r as int)
}

/// Meeting a handle that is not picked leaves the list as it is.
proof fn lemma_met_passes<P: Precision>(
    graph: &QubitGraph<P>,
    q: int,
    bound: int,
    met: Seq<usize>,
    pick: spec_fn(int) -> bool,
    cur: usize,
)
    requires
        lists_met(graph, q, bound, met, pick),
        cur < bound,
        !pick(cur as int),
        forall|r: int| cur < r < bound ==> !reaches(graph, q, r),
    ensures
        lists_met(graph, q, cur as int, met, pick),
{
}

/// Meeting a handle that is picked adds it to the list.
proof fn lemma_met_takes<P: Precision>(
    graph: &QubitGraph<P>,
    q: int,
    bound: int,
    met: Seq<usize>,
    pick: spec_fn(int) -> bool,
    cur: usize,
    longer: Seq<usize>,
)
    requires
        lists_met(graph, q, bound, met, pick),
        cur < bound,
        pick(cur as int),
        reaches(graph, q, cur as int),
        forall|r: int| cur < r < bound ==> !reaches(graph, q, r),
        longer == met.push(cur) || longer == seq![cur] + met,
    ensures
        lists_met(graph, q, cur as int, longer, pick),
        forall|i: int| 0 <= i < met.len() ==> #[trigger] met[i] > cur,
{
    assert forall|i: int| 0 <= i < met.len() implies #[trigger] met[i] > cur by {
        assert(met.contains(met[i]));
    }
    assert forall|r: usize| longer.contains(r) <==> r >= cur && reaches(graph, q, r as int) && pick(
        r as int,
    ) by {
        if longer.contains(r) {
            let i = choose|i: int| 0 <= i < longer.len() && longer[i] == r;
            if longer == met.push(cur) {
                if i < met.len() {
                    assert(met.contains(met[i]));
                }
            } else {
                if i > 0 {
                    assert(met.contains(met[i - 1]));
                }
            }
        }
        if r >= cur && reaches(graph, q, r as int) && pick(r as int) {
            if r == cur {
                if longer == met.push(cur) {
                    assert(longer[met.len() as int] == cur);
                } else {
                    assert(longer[0] == cur);
                }
            } else {
                assert(met.contains(r));
                let i = choose|i: int| 0 <= i < met.len() && met[i] == r;
                if longer == met.push(cur) {
                    assert(longer[i] == r);
                } else {
                    assert(longer[i + 1] == r);
                }
            }
        }
    }
}

/// The origins that the handle `q` reaches, and the handles it reaches that apply an
/// operation, in the order in which the operations are to be applied.
///
/// The origins come from the one made last to the one made first. The operations
/// come from the one made first to the one made last, so that each comes after all
/// that it depends on; a handle that several others refer to is met once.
pub fn get_opfns_and_frontier<P: Precision>(graph: &QubitGraph<P>, q: usize) -> (resolved: (
    Vec<usize>,
    Vec<usize>,
))
    requires
        graph.wf(),
        q < graph.nodes@.len(),
    ensures
        is_frontier(graph, q as int, resolved.0@),
        is_schedule(graph, q as int, resolved.1@),
{
    let mut heap: Vec<usize> = Vec::new();
    heap.push(q);
    let mut frontier_qubits: Vec<usize> = Vec::new();
    let mut fn_queue: VecDeque<usize> = VecDeque::new();
    let ghost mut bound: int = q + 1;
    let ghost origins = |r: int| is_origin(graph, r);
    let ghost modifiers = |r: int| has_modifier(graph, r);
    proof {
        lemma_reaches_itself(graph, q as int);
        assert(heap@ =~= seq![q]);
        assert forall|r: int| 0 <= r < bound && reaches(graph, q as int, r) implies (heap@.contains(
            r as usize,
        ) <==> #[trigger] awaited(graph, q as int, bound, r)) by {
            if r == q {
                assert(heap@[0] == q);
            } else if awaited(graph, q as int, bound, r) {
                let c = choose|c: int|
                    c >= bound && reaches(graph, q as int, c) && #[trigger] graph.is_parent(c, r);
                lemma_reaches_before(graph, q as int, c);
            }
        }
        assert forall|r: usize| !(r >= bound && reaches(graph, q as int, r as int)) by {
            if reaches(graph, q as int, r as int) {
                lemma_reaches_before(graph, q as int, r as int);
            }
        }
    }
    while heap.len() > 0
        invariant
            graph.wf(),
            q < graph.nodes@.len(),
            0 <= bound <= q + 1,
            origins == (|r: int| is_origin(graph, r)),
            modifiers == (|r: int| has_modifier(graph, r)),
            pending_below(graph, q as int, bound, heap@),
            strictly_descending(frontier_qubits@),
            lists_met(graph, q as int, bound, frontier_qubits@, origins),
            strictly_ascending(fn_queue@),
            lists_met(graph, q as int, bound, fn_queue@, modifiers),
        decreases bound,
    {
        let ghost pending = heap@;
        let ghost met_origins = frontier_qubits@;
        let ghost met_modifiers = fn_queue@;
        let cur = pop_largest(&mut heap);
        let ghost rest = heap@;
        proof {
            let at = choose|i: int| 0 <= i < pending.len() && pending[i] == cur;
            assert(pending[at] < bound && reaches(graph, q as int, cur as int));
            lemma_reaches_before(graph, q as int, cur as int);
            assert forall|r: int| cur < r < bound implies !reaches(graph, q as int, r) by {
                lemma_nothing_between(graph, q as int, bound, pending, cur as int, r);
            }
        }
        match &graph.nodes[cur].parent {
            Some(Parent::Owned(parents, modifier)) => {
                if modifier.is_some() {
                    fn_queue.push_front(cur);
                    proof {
                        lemma_met_takes(graph, q as int, bound, met_modifiers, modifiers, cur, fn_queue@);
                    }
                } else {
                    proof {
                        lemma_met_passes(graph, q as int, bound, met_modifiers, modifiers, cur);
                    }
                }
                let mut j: usize = 0;
                while j < parents.len()
                    invariant
                        j <= parents@.len(),
                        heap@ == rest + parents@.take(j as int),
                    decreases parents@.len() - j,
                {
                    heap.push(parents[j]);
                    assert(heap@ =~= rest + parents@.take(j + 1));
                    j = j + 1;
                }
                proof {
                    assert(parents@.take(j as int) =~= parents@);
                    let next = heap@;
                    lemma_consumed_are_new(graph, q as int, bound, pending, cur, *parents);
                    assert forall|x: usize|
                        next.contains(x) <==> (pending.contains(x) && x != cur) || graph.is_parent(
                            cur as int,
                            x as int,
                        ) by {
                        if next.contains(x) {
                            let i = choose|i: int| 0 <= i < next.len() && next[i] == x;
                            if i < rest.len() {
                                assert(rest.contains(rest[i]));
                            } else {
                                assert(parents@[i - rest.len()] == x);
                            }
                        }
                        if pending.contains(x) && x != cur {
                            assert(rest.contains(x));
                            let i = choose|i: int| 0 <= i < rest.len() && rest[i] == x;
                            assert(next[i] == x);
                        }
                        if graph.is_parent(cur as int, x as int) {
                            let j2 = choose|j2: int|
                                0 <= j2 < parents@.len() && #[trigger] parents@[j2] == x as int;
                            assert(next[rest.len() + j2] == x);
                        }
                    }
                    assert forall|i1: int, i2: int|
                        0 <= i1 < next.len() && 0 <= i2 < next.len() && i1 != i2 implies next[i1]
                        != next[i2] by {
                        if i1 < rest.len() && i2 >= rest.len() {
                            assert(rest.contains(rest[i1]));
                            assert(!pending.contains(parents@[i2 - rest.len()]));
                        }
                        if i2 < rest.len() && i1 >= rest.len() {
                            assert(rest.contains(rest[i2]));
                            assert(!pending.contains(parents@[i1 - rest.len()]));
                        }
                    }
                    lemma_advance(graph, q as int, bound, pending, cur, next);
                    lemma_met_passes(graph, q as int, bound, met_origins, origins, cur);
                }
            },
            Some(Parent::Shared(parent)) => {
                if !qubit_in_heap(*parent, &heap) {
                    heap.push(*parent);
                }
                proof {
                    let next = heap@;
                    assert forall|x: usize|
                        next.contains(x) <==> (pending.contains(x) && x != cur) || graph.is_parent(
                            cur as int,
                            x as int,
                        ) by {
                        if next.contains(x) {
                            let i = choose|i: int| 0 <= i < next.len() && next[i] == x;
                            if i < rest.len() {
                                assert(rest.contains(rest[i]));
                            }
                        }
                        if pending.contains(x) && x != cur {
                            assert(rest.contains(x));
                            let i = choose|i: int| 0 <= i < rest.len() && rest[i] == x;
                            assert(next[i] == x);
                        }
                        if x == *parent {
                            if !rest.contains(x) {
                                assert(next[rest.len() as int] == x);
                            } else {
                                let i = choose|i: int| 0 <= i < rest.len() && rest[i] == x;
                                assert(next[i] == x);
                            }
                        }
                    }
                    assert forall|i1: int, i2: int|
                        0 <= i1 < next.len() && 0 <= i2 < next.len() && i1 != i2 implies next[i1]
                        != next[i2] by {
                        if i1 < rest.len() && i2 >= rest.len() {
                            assert(rest.contains(rest[i1]));
                        }
                        if i2 < rest.len() && i1 >= rest.len() {
                            assert(rest.contains(rest[i2]));
                        }
                    }
                    lemma_advance(graph, q as int, bound, pending, cur, next);
                    lemma_met_passes(graph, q as int, bound, met_origins, origins, cur);
                    lemma_met_passes(graph, q as int, bound, met_modifiers, modifiers, cur);
                }
            },
            None => {
                frontier_qubits.push(cur);
                proof {
                    lemma_advance(graph, q as int, bound, pending, cur, rest);
                    lemma_met_takes(graph, q as int, bound, met_origins, origins, cur, frontier_qubits@);
                    lemma_met_passes(graph, q as int, bound, met_modifiers, modifiers, cur);
                }
            },
        }
        proof {
            bound = cur as int;
        }
    }
    let mut ops: Vec<usize> = Vec::new();
    let ghost queued = fn_queue@;
    while fn_queue.len() > 0
        invariant
            queued == ops@ + fn_queue@,
        decreases fn_queue@.len(),
    {
        let ghost left = fn_queue@;
        let next = fn_queue.pop_front();
        match next {
            Some(op) => {
                ops.push(op);
                assert(ops@ + fn_queue@ =~= queued);
            },
            None => {},
        }
    }
    proof {
        assert(ops@ =~= queued);
        assert forall|r: int| 0 <= r < bound implies !reaches(graph, q as int, r) by {
            if r > -1 {
                lemma_nothing_between(graph, q as int, bound, heap@, -1, r);
            }
        }
    }
    (frontier_qubits, ops)
}

} // verus!
