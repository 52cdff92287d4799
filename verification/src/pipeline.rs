//! The pipeline: the operations of a circuit, folded over a state in the order in
//! which the graph of its qubits resolves them.

use vstd::prelude::*;
use vstd::arithmetic::power2::pow2;
use std::collections::HashMap;
use crate::precision::{Precision, is_one, is_zero};
use crate::state::{LocalQuantumState, QuantumState};
use crate::initial::{QubitInitialState, initial_states_valid, is_initial_vector, widened_width};
use crate::qubits::{Parent, QubitGraph};
use crate::reach::{is_frontier, is_schedule, lemma_frontier_is_unique, lemma_reaches_before};
use crate::resolve::get_opfns_and_frontier;

verus! {

/// What an operation does to the state.
pub enum StateModifierType<P: Precision> {
    /// Applies a unitary operator.
    UnitaryOp(P::Operator),
    /// Measures the qubits at the given indices, and records the outcome under the
    /// given id.
    MeasureState(u64, Vec<u64>),
}

/// An operation on the state, with a name to tell it by.
pub struct StateModifier<P: Precision> {
    /// The name of the operation.
    pub name: String,
    /// What the operation does.
    pub modifier: StateModifierType<P>,
}

impl<P: Precision> StateModifier<P> {
    /// The application of the unitary operator `op`.
    pub fn new_unitary(name: String, op: P::Operator) -> (made: StateModifier<P>)
        ensures
            made.name == name,
            made.modifier == StateModifierType::<P>::UnitaryOp(op),
    {
        StateModifier { name, modifier: StateModifierType::UnitaryOp(op) }
    }

    /// The measurement of the qubits at `indices`, recorded under `id`.
    pub fn new_measurement(name: String, id: u64, indices: Vec<u64>) -> (made: StateModifier<P>)
        ensures
            made.name == name,
            made.modifier == StateModifierType::<P>::MeasureState(id, indices),
    {
        StateModifier { name, modifier: StateModifierType::MeasureState(id, indices) }
    }
}

/// The outcomes of the measurements of a run: for each id, the outcome that was
/// measured last under it, with its probability.
pub struct MeasuredResults<P: Precision> {
    /// The outcomes by id.
    pub results: HashMap<u64, (u64, P::Probability)>,
}

impl<P: Precision> MeasuredResults<P> {
    /// No outcome yet.
    pub fn new() -> (made: MeasuredResults<P>)
        ensures
            made.results@ == Map::<u64, (u64, P::Probability)>::empty(),
    {
        MeasuredResults { results: HashMap::new() }
    }

    /// Records `outcome` under `id`, in place of what was recorded under it before.
    pub fn record(&mut self, id: u64, outcome: (u64, P::Probability))
        ensures
            final(self).results@ == old(self).results@.insert(id, outcome),
    {
        self.results.insert(id, outcome);
    }
}

/// Of two measurements that are recorded under one id, the later is the one that
/// stays.
pub proof fn lemma_later_measurement_stays<V>(results: Map<u64, V>, id: u64, first: V, second: V)
    ensures
        results.insert(id, first).insert(id, second) == results.insert(id, second),
        results.insert(id, first).insert(id, second)[id] == second,
{
    assert(results.insert(id, first).insert(id, second) =~= results.insert(id, second));
}

/// Whether a measurement of the qubits at `at`, with this outcome, recorded under
/// `id`, turned the state and the outcomes `pre` into `post`.
pub open spec fn is_measurement<P: Precision, QS: QuantumState<P>>(
    id: u64,
    at: &[u64],
    outcome: (u64, P::Probability),
    pre: (QS, Map<u64, (u64, P::Probability)>),
    post: (QS, Map<u64, (u64, P::Probability)>),
) -> bool {
    QS::measured(pre.0, at, post.0, outcome) && post.1 == pre.1.insert(id, outcome)
}

/// Whether the operation turned the state and the outcomes `pre` into `post`: a
/// unitary operator is applied to the state, and a measurement is made of the state
/// and recorded under its id.
pub open spec fn is_step<P: Precision, QS: QuantumState<P>>(
    modifier: StateModifier<P>,
    pre: (QS, Map<u64, (u64, P::Probability)>),
    post: (QS, Map<u64, (u64, P::Probability)>),
) -> bool {
    match modifier.modifier {
        StateModifierType::UnitaryOp(op) => QS::applied(pre.0, op, post.0) && post.1 == pre.1,
        StateModifierType::MeasureState(id, indices) => exists|
            at: &[u64],
            outcome: (u64, P::Probability),
        |
            at@ == indices@ && #[trigger] is_measurement::<P, QS>(id, at, outcome, pre, post),
    }
}

/// The outcomes grow with every operation: what was recorded under an id stays
/// recorded under it, a unitary operator leaves the outcomes as they are, and a
/// measurement is recorded under its id.
pub proof fn lemma_outcomes_grow<P: Precision, QS: QuantumState<P>>(
    modifier: StateModifier<P>,
    pre: (QS, Map<u64, (u64, P::Probability)>),
    post: (QS, Map<u64, (u64, P::Probability)>),
)
    requires
        is_step::<P, QS>(modifier, pre, post),
    ensures
        forall|id: u64| pre.1.contains_key(id) ==> post.1.contains_key(id),
        modifier.modifier is UnitaryOp ==> post.1 == pre.1,
        modifier.modifier matches StateModifierType::MeasureState(id, _) ==> post.1.contains_key(id),
{
    match modifier.modifier {
        StateModifierType::UnitaryOp(_) => {},
        StateModifierType::MeasureState(id, indices) => {
            let (at, outcome) = choose|at: &[u64], outcome: (u64, P::Probability)|
                at@ == indices@ && #[trigger] is_measurement::<P, QS>(id, at, outcome, pre, post);
            assert(post.1 == pre.1.insert(id, outcome));
        },
    }
}

/// Applies the operation to the state, and records the outcome if it is a
/// measurement.
pub fn fold_modify_state<P: Precision, QS: QuantumState<P>>(
    acc: (QS, MeasuredResults<P>),
    modifier: &StateModifier<P>,
) -> (next: (QS, MeasuredResults<P>))
    requires
        acc.0.wf(),
    ensures
        next.0.wf(),
        next.0.qubits() == acc.0.qubits(),
        is_step::<P, QS>(*modifier, (acc.0, acc.1.results@), (next.0, next.1.results@)),
{
    let (mut s, mut mr) = acc;
    match &modifier.modifier {
        StateModifierType::UnitaryOp(op) => {
            s.apply_op(op);
        },
        StateModifierType::MeasureState(id, indices) => {
            let at = indices.as_slice();
            let result = s.measure(at);
            mr.record(*id, result);
            proof {
                assert(is_measurement::<P, QS>(
                    *id,
                    at,
                    result,
                    (acc.0, acc.1.results@),
                    (s, mr.results@),
                ));
            }
        },
    }
    (s, mr)
}

/// The operation that the handle `r` applies.
pub open spec fn modifier_of<P: Precision>(graph: &QubitGraph<P>, r: int) -> StateModifier<P> {
    match graph.nodes@[r].parent {
        Some(Parent::Owned(_, Some(modifier))) => modifier,
        _ => arbitrary(),
    }
}

/// Whether the operations of the first `count` handles of `ops`, one after the other,
/// turned the state `start`, with no outcome yet, into `end`.
pub open spec fn is_run<P: Precision, QS: QuantumState<P>>(
    graph: &QubitGraph<P>,
    ops: Seq<usize>,
    count: nat,
    start: QS,
    end: (QS, Map<u64, (u64, P::Probability)>),
) -> bool
    decreases count,
{
    if count == 0 {
        end.0 == start && end.1 == Map::<u64, (u64, P::Probability)>::empty()
    } else {
        exists|mid: (QS, Map<u64, (u64, P::Probability)>)|
            is_run::<P, QS>(graph, ops, (count - 1) as nat, start, mid) && #[trigger] is_step::<P, QS>(
                modifier_of(graph, ops[count - 1] as int),
                mid,
                end,
            )
    }
}

/// Whether the operations that the handle `q` reaches, each after all that it depends
/// on, turned the state `start`, with no outcome yet, into `end`.
pub open spec fn is_pipeline_result<P: Precision, QS: QuantumState<P>>(
    graph: &QubitGraph<P>,
    q: int,
    start: QS,
    end: (QS, Map<u64, (u64, P::Probability)>),
) -> bool {
    exists|ops: Seq<usize>| #[trigger]
        is_schedule(graph, q, ops) && is_run::<P, QS>(graph, ops, ops.len(), start, end)
}

/// The number of qubits that the handles of `frontier` hold together.
pub open spec fn frontier_width<P: Precision>(graph: &QubitGraph<P>, frontier: Seq<usize>) -> nat
    decreases frontier.len(),
{
    if frontier.len() == 0 {
        0
    } else {
        frontier_width(graph, frontier.drop_last()) + graph.nodes@[frontier.last() as int].indices@.len()
    }
}

/// The width grows with the frontier.
proof fn lemma_frontier_width_grows<P: Precision>(graph: &QubitGraph<P>, frontier: Seq<usize>, i: int)
    requires
        0 <= i <= frontier.len(),
    ensures
        frontier_width(graph, frontier.take(i)) <= frontier_width(graph, frontier),
    decreases frontier.len(),
{
    if i < frontier.len() {
        lemma_frontier_width_grows(graph, frontier.drop_last(), i);
        assert(frontier.drop_last().take(i) =~= frontier.take(i));
    } else {
        assert(frontier.take(i) =~= frontier);
    }
}

/// The number of qubits that the handles of `frontier` hold together.
pub fn count_qubits<P: Precision>(graph: &QubitGraph<P>, frontier: &Vec<usize>) -> (n: u64)
    requires
        forall|i: int| 0 <= i < frontier@.len() ==> #[trigger] frontier@[i] < graph.nodes@.len(),
        frontier_width(graph, frontier@) <= u64::MAX,
    ensures
        n == frontier_width(graph, frontier@),
{
    let mut n: u64 = 0;
    let mut i: usize = 0;
    while i < frontier.len()
        invariant
            i <= frontier@.len(),
            forall|i: int| 0 <= i < frontier@.len() ==> #[trigger] frontier@[i] < graph.nodes@.len(),
            frontier_width(graph, frontier@) <= u64::MAX,
            n == frontier_width(graph, frontier@.take(i as int)),
        decreases frontier@.len() - i,
    {
        proof {
            lemma_frontier_width_grows(graph, frontier@, i + 1);
            assert(frontier@.take(i + 1).drop_last() =~= frontier@.take(i as int));
        }
        n = n + graph.nodes[frontier[i]].indices.len() as u64;
        i = i + 1;
    }
    proof {
        assert(frontier@.take(i as int) =~= frontier@);
    }
    n
}

/// Runs the circuit that ends in the handle `q`, on the state that `state_builder`
/// makes for the origins of the circuit: applies the operations that `q` reaches, each
/// after all that it depends on, and records the outcomes of the measurements.
pub fn run_with_statebuilder<P: Precision, QS: QuantumState<P>, F: FnOnce(Vec<usize>) -> QS>(
    graph: &QubitGraph<P>,
    q: usize,
    state_builder: F,
) -> (ran: (QS, MeasuredResults<P>))
    requires
        graph.wf(),
        q < graph.nodes@.len(),
        forall|frontier: Vec<usize>|
            is_frontier(graph, q as int, frontier@) ==> #[trigger] state_builder.requires((frontier,)),
        forall|frontier: Vec<usize>, start: QS| #[trigger]
            state_builder.ensures((frontier,), start) ==> start.wf(),
    ensures
        ran.0.wf(),
        exists|frontier: Vec<usize>, start: QS|
            is_frontier(graph, q as int, frontier@) && #[trigger] state_builder.ensures(
                (frontier,),
                start,
            ) && ran.0.qubits() == start.qubits() && is_pipeline_result::<P, QS>(
                graph,
                q as int,
                start,
                (ran.0, ran.1.results@),
            ),
{
    let (frontier, ops) = get_opfns_and_frontier(graph, q);
    let ghost origins = frontier;
    let state = state_builder(frontier);
    let ghost start = state;
    let mut acc = (state, MeasuredResults::new());
    let mut i: usize = 0;
    while i < ops.len()
        invariant
            i <= ops@.len(),
            graph.wf(),
            is_schedule(graph, q as int, ops@),
            acc.0.wf(),
            acc.0.qubits() == start.qubits(),
            is_run::<P, QS>(graph, ops@, i as nat, start, (acc.0, acc.1.results@)),
        decreases ops@.len() - i,
    {
        let ghost mid = (acc.0, acc.1.results@);
        proof {
            assert(ops@.contains(ops@[i as int]));
            lemma_reaches_before(graph, q as int, ops@[i as int] as int);
        }
        match &graph.nodes[ops[i]].parent {
            Some(Parent::Owned(_, Some(modifier))) => {
                acc = fold_modify_state(acc, modifier);
                proof {
                    assert(is_step::<P, QS>(
                        modifier_of(graph, ops@[i as int] as int),
                        mid,
                        (acc.0, acc.1.results@),
                    ));
                }
            },
            _ => {},
        }
        i = i + 1;
    }
    proof {
        assert(state_builder.ensures((origins,), start));
    }
    acc
}

/// Whether `start` is the state of `n` qubits that are all 0.
pub open spec fn is_unset<P: Precision, QS: QuantumState<P>>(start: QS, n: nat) -> bool {
    &&& start.wf()
    &&& start.qubits() == n
    &&& start.amplitudes().len() == pow2(n)
    &&& is_one::<P>(start.amplitudes()[0])
    &&& forall|k: int| 0 < k < start.amplitudes().len() ==> is_zero::<P>(#[trigger] start.amplitudes()[k])
}

/// Whether `start` is the state that `states` initialise, of `n` qubits or of as many
/// more as the largest index asks for.
pub open spec fn is_initialised<P: Precision, QS: QuantumState<P>>(
    start: QS,
    n: nat,
    states: Seq<QubitInitialState<P>>,
) -> bool {
    &&& start.wf()
    &&& start.qubits() == widened_width(n, states)
    &&& is_initial_vector::<P>(start.qubits(), states, start.amplitudes())
}

/// The handles of a frontier are handles of the graph.
proof fn lemma_frontier_in_graph<P: Precision>(graph: &QubitGraph<P>, q: int, frontier: Seq<usize>)
    requires
        graph.wf(),
        is_frontier(graph, q, frontier),
    ensures
        forall|i: int| 0 <= i < frontier.len() ==> #[trigger] frontier[i] < graph.nodes@.len(),
{
    assert forall|i: int| 0 <= i < frontier.len() implies #[trigger] frontier[i] < graph.nodes@.len() by {
        assert(frontier.contains(frontier[i]));
        lemma_reaches_before(graph, q, frontier[i] as int);
    }
}

/// Runs the circuit that ends in the handle `q` on qubits that are all 0: as many as
/// the origins of the circuit hold.
pub fn run<P: Precision, QS: QuantumState<P>>(graph: &QubitGraph<P>, q: usize) -> (ran: (
    QS,
    MeasuredResults<P>,
))
    requires
        graph.wf(),
        q < graph.nodes@.len(),
        forall|frontier: Seq<usize>|
            is_frontier(graph, q as int, frontier) ==> frontier_width(graph, frontier) < usize::BITS,
    ensures
        ran.0.wf(),
        exists|frontier: Seq<usize>, start: QS|
            is_frontier(graph, q as int, frontier) && #[trigger] is_unset::<P, QS>(
                start,
                frontier_width(graph, frontier),
            ) && ran.0.qubits() == start.qubits() && is_pipeline_result::<P, QS>(
                graph,
                q as int,
                start,
                (ran.0, ran.1.results@),
            ),
{
    let state_builder = |qs: Vec<usize>| -> (s: QS)
        requires
            is_frontier(graph, q as int, qs@),
        ensures
            is_unset::<P, QS>(s, frontier_width(graph, qs@)),
        {
            proof {
                lemma_frontier_in_graph(graph, q as int, qs@);
            }
            let n = count_qubits(graph, &qs);
            QS::new(n)
        };
    let ran = run_with_statebuilder(graph, q, state_builder);
    proof {
        let (frontier, start) = choose|frontier: Vec<usize>, start: QS|
            is_frontier(graph, q as int, frontier@) && #[trigger] state_builder.ensures(
                (frontier,),
                start,
            ) && ran.0.qubits() == start.qubits() && is_pipeline_result::<P, QS>(
                graph,
                q as int,
                start,
                (ran.0, ran.1.results@),
            );
        assert(is_unset::<P, QS>(start, frontier_width(graph, frontier@)));
    }
    ran
}

/// Runs the circuit that ends in the handle `q` on the state that `states`
/// initialise: of as many qubits as the origins of the circuit hold, or of as many
/// more as the largest index asks for.
pub fn run_with_init<P: Precision, QS: QuantumState<P>>(
    graph: &QubitGraph<P>,
    q: usize,
    states: &[QubitInitialState<P>],
) -> (ran: (QS, MeasuredResults<P>))
    requires
        graph.wf(),
        q < graph.nodes@.len(),
        forall|frontier: Seq<usize>|
            is_frontier(graph, q as int, frontier) ==> frontier_width(graph, frontier) <= u64::MAX
                && initial_states_valid(frontier_width(graph, frontier), states@),
    ensures
        ran.0.wf(),
        exists|frontier: Seq<usize>, start: QS|
            is_frontier(graph, q as int, frontier) && #[trigger] is_initialised::<P, QS>(
                start,
                frontier_width(graph, frontier),
                states@,
            ) && ran.0.qubits() == start.qubits() && is_pipeline_result::<P, QS>(
                graph,
                q as int,
                start,
                (ran.0, ran.1.results@),
            ),
{
    let state_builder = |qs: Vec<usize>| -> (s: QS)
        requires
            is_frontier(graph, q as int, qs@),
        ensures
            is_initialised::<P, QS>(s, frontier_width(graph, qs@), states@),
        {
            proof {
                lemma_frontier_in_graph(graph, q as int, qs@);
            }
            let n = count_qubits(graph, &qs);
            QS::new_from_initial_states(n, states)
        };
    let ran = run_with_statebuilder(graph, q, state_builder);
    proof {
        let (frontier, start) = choose|frontier: Vec<usize>, start: QS|
            is_frontier(graph, q as int, frontier@) && #[trigger] state_builder.ensures(
                (frontier,),
                start,
            ) && ran.0.qubits() == start.qubits() && is_pipeline_result::<P, QS>(
                graph,
                q as int,
                start,
                (ran.0, ran.1.results@),
            );
        assert(is_initialised::<P, QS>(start, frontier_width(graph, frontier@), states@));
    }
    ran
}

/// [`run`] on a state held in this machine's memory.
pub fn run_local<P: Precision>(graph: &QubitGraph<P>, q: usize) -> (ran: (
    LocalQuantumState<P>,
    MeasuredResults<P>,
))
    requires
        graph.wf(),
        q < graph.nodes@.len(),
        forall|frontier: Seq<usize>|
            is_frontier(graph, q as int, frontier) ==> frontier_width(graph, frontier) < usize::BITS,
    ensures
        ran.0.wf(),
        exists|frontier: Seq<usize>, start: LocalQuantumState<P>|
            is_frontier(graph, q as int, frontier) && #[trigger] is_unset::<P, LocalQuantumState<P>>(
                start,
                frontier_width(graph, frontier),
            ) && ran.0.qubits() == start.qubits() && is_pipeline_result::<P, LocalQuantumState<P>>(
                graph,
                q as int,
                start,
                (ran.0, ran.1.results@),
            ),
{
    run(graph, q)
}

/// [`run_with_init`] on a state held in this machine's memory.
pub fn run_local_with_init<P: Precision>(
    graph: &QubitGraph<P>,
    q: usize,
    states: &[QubitInitialState<P>],
) -> (ran: (LocalQuantumState<P>, MeasuredResults<P>))
    requires
        graph.wf(),
        q < graph.nodes@.len(),
        forall|frontier: Seq<usize>|
            is_frontier(graph, q as int, frontier) ==> frontier_width(graph, frontier) <= u64::MAX
                && initial_states_valid(frontier_width(graph, frontier), states@),
    ensures
        ran.0.wf(),
        exists|frontier: Seq<usize>, start: LocalQuantumState<P>|
            is_frontier(graph, q as int, frontier) && #[trigger] is_initialised::<
                P,
                LocalQuantumState<P>,
            >(start, frontier_width(graph, frontier), states@) && ran.0.qubits() == start.qubits()
                && is_pipeline_result::<P, LocalQuantumState<P>>(
                graph,
                q as int,
                start,
                (ran.0, ran.1.results@),
            ),
{
    run_with_init(graph, q, states)
}

/// The number of qubits that the origins of the circuit that ends in `q` hold, or
/// `None` where a machine word cannot hold the number.
pub fn circuit_width<P: Precision>(graph: &QubitGraph<P>, q: usize) -> (width: Option<u64>)
    requires
        graph.wf(),
        q < graph.nodes@.len(),
    ensures
        forall|frontier: Seq<usize>| #[trigger]
            is_frontier(graph, q as int, frontier) ==> match width {
                Some(n) => n == frontier_width(graph, frontier),
                None => frontier_width(graph, frontier) > u64::MAX,
            },
{
    let (frontier, _) = get_opfns_and_frontier(graph, q);
    proof {
        lemma_frontier_in_graph(graph, q as int, frontier@);
        assert forall|other: Seq<usize>| #[trigger] is_frontier(graph, q as int, other) implies other
            == frontier@ by {
            lemma_frontier_is_unique(graph, q as int, other, frontier@);
        }
    }
    let mut n: u64 = 0;
    let mut i: usize = 0;
    while i < frontier.len()
        invariant
            i <= frontier@.len(),
            forall|i: int| 0 <= i < frontier@.len() ==> #[trigger] frontier@[i] < graph.nodes@.len(),
            forall|other: Seq<usize>| #[trigger]
                is_frontier(graph, q as int, other) ==> other == frontier@,
            n == frontier_width(graph, frontier@.take(i as int)),
        decreases frontier@.len() - i,
    {
        proof {
            lemma_frontier_width_grows(graph, frontier@, i + 1);
            assert(frontier@.take(i + 1).drop_last() =~= frontier@.take(i as int));
        }
        let held = graph.nodes[frontier[i]].indices.len() as u64;
        assert(frontier_width(graph, frontier@.take(i + 1)) == n + held);
        if held > u64::MAX - n {
            return None;
        }
        n = n + held;
        i = i + 1;
    }
    proof {
        assert(frontier@.take(i as int) =~= frontier@);
    }
    Some(n)
}

} // verus!
