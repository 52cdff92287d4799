//! The matrix of a circuit, column by column: the circuit is run once on each basis
//! state.

use vstd::prelude::*;
use vstd::arithmetic::power2::{pow2, lemma_pow2_strictly_increases};
use crate::bits::{bit_at, flip_bits, lemma_bits_determine, lemma_reflect_bits, lemma_reflect_bound, lemma_reflect_involution, pow2_u64, reflect};
use crate::precision::{Precision, is_one, is_zero};
use crate::initial::{InitialState, QubitInitialState, is_partial_product, is_tensor_product, abs_bit, covered, covers, indices_bound, initial_states_valid, is_initial_amplitude, is_initial_vector, supported, widened_width};
use crate::qubits::QubitGraph;
use crate::reach::{is_frontier, is_schedule};
use crate::state::{LocalQuantumState, QuantumState};
use crate::pipeline::{frontier_width, is_initialised, is_pipeline_result, is_run, run_local_with_init};

verus! {

/// Whether `states` put the qubits `0` to `n - 1` in the basis state `x`, the qubit
/// `j` being bit `j` of `x`.
pub open spec fn is_basis_input<P: Precision>(states: Seq<QubitInitialState<P>>, n: nat, x: nat) -> bool {
    &&& states.len() == 1
    &&& states[0].0@ == Seq::new(n, |j: int| j as u64)
    &&& states[0].1 matches InitialState::Index(v) && v == x
}

/// The basis state that the column `i` is run on.
pub open spec fn column_input(n: nat, i: nat, natural_order: bool) -> nat {
    if natural_order {
        i
    } else {
        reflect(n, i)
    }
}

/// The amplitudes as a column of the matrix: in natural order read through the
/// reflection over `n` bits, else as they are.
pub open spec fn column_of<A>(n: nat, amplitudes: Seq<A>, natural_order: bool) -> Seq<A> {
    Seq::new(
        amplitudes.len(),
        |k: int|
            amplitudes[if natural_order {
                reflect(n, k as nat) as int
            } else {
                k
            }],
    )
}

/// Whether `column` is what a run of the circuit that ends in `q` makes of the basis
/// state of the column `i`.
pub open spec fn is_column<P: Precision>(
    graph: &QubitGraph<P>,
    q: int,
    n: nat,
    natural_order: bool,
    i: nat,
    column: Seq<P::Amplitude>,
) -> bool {
    exists|
        states: Seq<QubitInitialState<P>>,
        frontier: Seq<usize>,
        start: LocalQuantumState<P>,
        end: (LocalQuantumState<P>, Map<u64, (u64, P::Probability)>),
    |
        #![trigger is_initialised::<P, LocalQuantumState<P>>(start, frontier_width(graph, frontier), states), is_pipeline_result::<P, LocalQuantumState<P>>(graph, q, start, end)]
        is_basis_input(states, n, column_input(n, i, natural_order)) && is_frontier(
            graph,
            q,
            frontier,
        ) && is_initialised::<P, LocalQuantumState<P>>(start, frontier_width(graph, frontier), states)
            && is_pipeline_result::<P, LocalQuantumState<P>>(graph, q, start, end) && end.0.wf()
            && end.0.n == start.n && column == column_of(n, end.0.state@, natural_order)
}

/// Whether the circuit that ends in `q` applies no operation, to at most `n` qubits.
pub open spec fn is_identity_circuit<P: Precision>(graph: &QubitGraph<P>, q: int, n: nat) -> bool {
    &&& is_schedule(graph, q, Seq::<usize>::empty())
    &&& forall|frontier: Seq<usize>|
        is_frontier(graph, q, frontier) ==> frontier_width(graph, frontier) <= n
}

/// The qubits `0` to `n - 1` ask for a state of `n` qubits.
pub proof fn lemma_range_bound(n: nat, m: nat)
    requires
        m <= n <= u64::MAX,
    ensures
        indices_bound(Seq::new(n, |j: int| j as u64).take(m as int)) == m,
    decreases m,
{
    let all = Seq::new(n, |j: int| j as u64);
    if m > 0 {
        lemma_range_bound(n, (m - 1) as nat);
        assert(all.take(m as int).drop_last() =~= all.take(m - 1));
        assert(all.take(m as int).last() == (m - 1) as u64);
    }
}

/// A basis state of the qubits `0` to `n - 1` widens a state of fewer qubits to `n`.
pub proof fn lemma_basis_width<P: Precision>(states: Seq<QubitInitialState<P>>, n: nat, x: nat, m: nat)
    requires
        is_basis_input(states, n, x),
        n <= u64::MAX,
    ensures
        widened_width(m, states) == (if m > n {
            m
        } else {
            n
        }),
        m < usize::BITS && n < usize::BITS ==> initial_states_valid(m, states),
{
    lemma_range_bound(n, n);
    assert(states[0].0@.take(n as int) =~= states[0].0@);
    assert(states.drop_last().len() == 0);
    assert(widened_width(m, states.drop_last()) == m);
    assert forall|e1: int, j1: int, e2: int, j2: int, a: nat|
        #[trigger] covers(states, e1, j1, a) && #[trigger] covers(states, e2, j2, a) implies e1 == e2
        && j1 == j2 by {}
}

/// The state that a basis state `x` of the qubits `0` to `n - 1` initialises has the
/// amplitude 1 at the reflection of `x`, and 0 elsewhere.
pub proof fn lemma_basis_vector<P: Precision>(
    states: Seq<QubitInitialState<P>>,
    n: nat,
    x: nat,
    v: Seq<P::Amplitude>,
)
    requires
        is_basis_input(states, n, x),
        is_initial_vector::<P>(n, states, v),
        n <= u64::MAX,
    ensures
        v.len() == pow2(n),
        forall|k: int|
            0 <= k < v.len() ==> (if k == reflect(n, x) {
                is_one::<P>(#[trigger] v[k])
            } else {
                is_zero::<P>(v[k])
            }),
{
    let r = reflect(n, x);
    lemma_reflect_bound(n, x);
    reveal_with_fuel(is_partial_product, 2);
    assert forall|k: int| 0 <= k < v.len() implies (if k == r {
        is_one::<P>(#[trigger] v[k])
    } else {
        is_zero::<P>(v[k])
    }) by {
        assert(is_initial_amplitude::<P>(n, states, k as nat, v[k]));
        if k == r {
            assert forall|a: nat| a < n && !covered(states, a) implies !#[trigger] abs_bit(n, r, a) by {
                assert(covers(states, 0, a as int, a));
            }
            assert forall|e: int, j: int| 0 <= e < states.len() && 0 <= j < states[e].0@.len() implies (
            states[e].1 matches InitialState::Index(val) ==> abs_bit(
                n,
                r,
                #[trigger] states[e].0@[j] as nat,
            ) == bit_at(val as nat, j as nat)) by {
                lemma_reflect_bits(n, x, (n - 1 - j) as nat);
            }
            assert(supported(n, states, r));
            assert(is_tensor_product::<P>(n, states, r, v[k]));
            assert(is_partial_product::<P>(n, states, r, 1, v[k]));
        } else if supported(n, states, k as nat) {
            assert forall|p: nat| p < n implies bit_at(k as nat, p) == bit_at(r, p) by {
                let j = (n - 1 - p) as int;
                assert(abs_bit(n, k as nat, states[0].0@[j] as nat) == bit_at(x, j as nat));
                lemma_reflect_bits(n, x, p);
            }
            lemma_bits_determine(n, k as nat, r);
        }
    }
}

/// A circuit that applies no operation leaves the state as it started.
pub proof fn lemma_nothing_applied<P: Precision, QS: QuantumState<P>>(
    graph: &QubitGraph<P>,
    q: int,
    start: QS,
    end: (QS, Map<u64, (u64, P::Probability)>),
)
    requires
        is_schedule(graph, q, Seq::<usize>::empty()),
        is_pipeline_result::<P, QS>(graph, q, start, end),
    ensures
        end.0 == start,
        end.1 == Map::<u64, (u64, P::Probability)>::empty(),
{
    let ops = choose|ops: Seq<usize>| #[trigger]
        is_schedule(graph, q, ops) && is_run::<P, QS>(graph, ops, ops.len(), start, end);
    if ops.len() > 0 {
        assert(ops.contains(ops[0]));
        assert(Seq::<usize>::empty().contains(ops[0]));
    }
}

/// The column `i` of the matrix of a circuit that applies no operation is the column
/// `i` of the identity matrix.
pub proof fn lemma_identity_column<P: Precision>(
    graph: &QubitGraph<P>,
    q: int,
    n: nat,
    natural_order: bool,
    i: nat,
    column: Seq<P::Amplitude>,
)
    requires
        is_identity_circuit(graph, q, n),
        is_column(graph, q, n, natural_order, i, column),
        i < pow2(n),
        n <= u64::MAX,
    ensures
        column.len() == pow2(n),
        forall|k: int|
            0 <= k < column.len() ==> (if k == i {
                is_one::<P>(#[trigger] column[k])
            } else {
                is_zero::<P>(column[k])
            }),
{
    let (states, frontier, start, end) = choose|
        states: Seq<QubitInitialState<P>>,
        frontier: Seq<usize>,
        start: LocalQuantumState<P>,
        end: (LocalQuantumState<P>, Map<u64, (u64, P::Probability)>),
    |
        #![trigger is_initialised::<P, LocalQuantumState<P>>(start, frontier_width(graph, frontier), states), is_pipeline_result::<P, LocalQuantumState<P>>(graph, q, start, end)]
        is_basis_input(states, n, column_input(n, i, natural_order)) && is_frontier(
            graph,
            q,
            frontier,
        ) && is_initialised::<P, LocalQuantumState<P>>(start, frontier_width(graph, frontier), states)
            && is_pipeline_result::<P, LocalQuantumState<P>>(graph, q, start, end) && end.0.wf()
            && end.0.n == start.n && column == column_of(n, end.0.state@, natural_order);
    let x = column_input(n, i, natural_order);
    let v = start.state@;
    lemma_basis_width(states, n, x, frontier_width(graph, frontier));
    lemma_nothing_applied::<P, LocalQuantumState<P>>(graph, q, start, end);
    lemma_basis_vector::<P>(states, n, x, v);
    lemma_reflect_involution(n, i);
    assert forall|k: int| 0 <= k < column.len() implies (if k == i {
        is_one::<P>(#[trigger] column[k])
    } else {
        is_zero::<P>(column[k])
    }) by {
        lemma_reflect_bound(n, k as nat);
        if natural_order {
            if reflect(n, k as nat) == reflect(n, i) {
                lemma_reflect_involution(n, k as nat);
            }
        }
    }
}

/// The matrix of the circuit that ends in the handle `q`, over `n` qubits: the column
/// `i` is what a run of the circuit makes of the basis state `i`. In natural order
/// qubit 0 is the least significant bit of the addresses of rows and columns, else
/// the most significant.
///
/// The matrix of a circuit that applies no operation is the identity matrix.
pub fn make_circuit_matrix<P: Precision>(
    n: u64,
    graph: &QubitGraph<P>,
    q: usize,
    natural_order: bool,
) -> (matrix: Vec<Vec<P::Amplitude>>)
    requires
        graph.wf(),
        q < graph.nodes@.len(),
        n < usize::BITS,
        forall|frontier: Seq<usize>|
            is_frontier(graph, q as int, frontier) ==> frontier_width(graph, frontier) < usize::BITS,
    ensures
        matrix@.len() == pow2(n as nat),
        forall|i: int|
            0 <= i < matrix@.len() ==> is_column(
                graph,
                q as int,
                n as nat,
                natural_order,
                i as nat,
                #[trigger] matrix@[i]@,
            ),
        is_identity_circuit(graph, q as int, n as nat) ==> forall|i: int|
            0 <= i < matrix@.len() ==> (#[trigger] matrix@[i]@).len() == matrix@.len(),
        is_identity_circuit(graph, q as int, n as nat) ==> forall|i: int, k: int|
            0 <= i < matrix@.len() && 0 <= k < matrix@.len() ==> (if k == i {
                is_one::<P>(#[trigger] matrix@[i]@[k])
            } else {
                is_zero::<P>(matrix@[i]@[k])
            }),
{
    let mut indices: Vec<u64> = Vec::new();
    let mut j: u64 = 0;
    while j < n
        invariant
            j <= n,
            indices@ == Seq::new(j as nat, |j: int| j as u64),
        decreases n - j,
    {
        indices.push(j);
        assert(indices@ =~= Seq::new((j + 1) as nat, |j: int| j as u64));
        j = j + 1;
    }
    let size = pow2_u64(n);
    let mut matrix: Vec<Vec<P::Amplitude>> = Vec::new();
    let mut i: u64 = 0;
    while i < size
        invariant
            i <= size,
            size == pow2(n as nat),
            graph.wf(),
            q < graph.nodes@.len(),
            n < usize::BITS,
            forall|frontier: Seq<usize>|
                is_frontier(graph, q as int, frontier) ==> frontier_width(graph, frontier)
                    < usize::BITS,
            indices@ == Seq::new(n as nat, |j: int| j as u64),
            matrix@.len() == i,
            forall|c: int|
                0 <= c < i ==> is_column(
                    graph,
                    q as int,
                    n as nat,
                    natural_order,
                    c as nat,
                    #[trigger] matrix@[c]@,
                ),
        decreases size - i,
    {
        let indx = if natural_order {
            i
        } else {
            flip_bits(n as usize, i)
        };
        let mut states: Vec<QubitInitialState<P>> = Vec::new();
        states.push((indices.clone(), InitialState::Index(indx)));
        proof {
            assert(is_basis_input(states@, n as nat, column_input(n as nat, i as nat, natural_order)));
            assert forall|frontier: Seq<usize>| is_frontier(graph, q as int, frontier) implies frontier_width(
                graph,
                frontier,
            ) <= u64::MAX && initial_states_valid(frontier_width(graph, frontier), states@) by {
                lemma_basis_width(states@, n as nat, indx as nat, frontier_width(graph, frontier));
            }
        }
        let (state, outcomes) = run_local_with_init(graph, q, states.as_slice());
        proof {
            let (frontier, start) = choose|frontier: Seq<usize>, start: LocalQuantumState<P>|
                is_frontier(graph, q as int, frontier) && #[trigger] is_initialised::<
                    P,
                    LocalQuantumState<P>,
                >(start, frontier_width(graph, frontier), states@) && state.qubits() == start.qubits()
                    && is_pipeline_result::<P, LocalQuantumState<P>>(
                    graph,
                    q as int,
                    start,
                    (state, outcomes.results@),
                );
            lemma_basis_width(states@, n as nat, indx as nat, frontier_width(graph, frontier));
            if state.n > n {
                lemma_pow2_strictly_increases(n as nat, state.n as nat);
            }
        }
        let mut column: Vec<P::Amplitude> = Vec::with_capacity(state.state.len());
        let mut k: usize = 0;
        while k < state.state.len()
            invariant
                k <= state.state@.len(),
                n < usize::BITS,
                pow2(n as nat) <= state.state@.len(),
                column@.len() == k,
                forall|k2: int|
                    0 <= k2 < k ==> column@[k2] == column_of(n as nat, state.state@, natural_order)[k2],
            decreases state.state@.len() - k,
        {
            let at = if natural_order {
                proof {
                    lemma_reflect_bound(n as nat, k as nat);
                }
                flip_bits(n as usize, k as u64) as usize
            } else {
                k
            };
            column.push(state.state[at]);
            k = k + 1;
        }
        proof {
            assert(column@ =~= column_of(n as nat, state.state@, natural_order));
        }
        matrix.push(column);
        i = i + 1;
    }
    proof {
        if is_identity_circuit(graph, q as int, n as nat) {
            assert forall|c: int| 0 <= c < matrix@.len() implies (#[trigger] matrix@[c]@).len()
                == matrix@.len() by {
                lemma_identity_column(graph, q as int, n as nat, natural_order, c as nat, matrix@[c]@);
            }
            assert forall|c: int, k: int| 0 <= c < matrix@.len() && 0 <= k < matrix@.len() implies (
            if k == c {
                is_one::<P>(#[trigger] matrix@[c]@[k])
            } else {
                is_zero::<P>(matrix@[c]@[k])
            }) by {
                lemma_identity_column(graph, q as int, n as nat, natural_order, c as nat, matrix@[c]@);
            }
        }
    }
    matrix
}

} // verus!
