use num::complex::Complex;
use qip_pipeline::initial::{
    full_index_count, index_template, initial_vector, widened_qubit_count, InitialState,
    QubitInitialState,
};
use qip_pipeline::matrix::make_circuit_matrix;
use qip_pipeline::pipeline::{
    circuit_width, count_qubits, fold_modify_state, run, run_local, run_local_with_init,
    run_with_init, run_with_statebuilder, MeasuredResults, StateModifier, StateModifierType,
};
use qip_pipeline::resolve::{get_opfns_and_frontier, qubit_in_heap};
use qip_pipeline::validity::check_initial_states;
use qip_pipeline::precision::Precision;
use qip_pipeline::qubits::{Claim, Parent, QubitGraph};
use qip_pipeline::state::{reflected_at, LocalQuantumState, QuantumState, PARALLEL_THRESHOLD};

type C = Complex<f64>;

/// Operators that the tests apply.
#[derive(Clone, Debug, PartialEq)]
enum Gate {
    /// Leaves the state as it is.
    Identity,
    /// Negates the qubit with this index.
    Not(u64),
    /// Multiplies every amplitude by this one.
    Scale(C),
}

/// Double precision, with kernels that are exact on basis states.
struct Double;

impl Precision for Double {
    type Amplitude = C;
    type Probability = f64;
    type Operator = Gate;

    fn zero() -> C {
        Complex::new(0.0, 0.0)
    }

    fn one() -> C {
        Complex::new(1.0, 0.0)
    }

    fn mul(a: C, b: C) -> C {
        a * b
    }

    fn apply_op(n: u64, op: &Gate, source: &Vec<C>, mut dest: Vec<C>, _multithread: bool) -> Vec<C> {
        for (k, slot) in dest.iter_mut().enumerate() {
            *slot = match op {
                Gate::Identity => source[k],
                Gate::Not(index) => source[k ^ (1usize << (n - 1 - index))],
                Gate::Scale(by) => source[k] * by,
            };
        }
        dest
    }

    fn measure(n: u64, indices: &[u64], source: &Vec<C>, mut dest: Vec<C>) -> (Vec<C>, (u64, f64)) {
        let mut best = 0;
        for k in 0..source.len() {
            if source[k].norm_sqr() > source[best].norm_sqr() {
                best = k;
            }
        }
        let mut outcome = 0u64;
        for (j, index) in indices.iter().enumerate() {
            outcome |= (((best as u64) >> (n - 1 - index)) & 1) << j;
        }
        let mut probability = 0.0;
        for k in 0..source.len() {
            let mut agrees = true;
            for index in indices {
                let bit = n - 1 - index;
                agrees = agrees && ((k as u64 >> bit) & 1) == ((best as u64 >> bit) & 1);
            }
            dest[k] = if agrees { source[k] } else { Double::zero() };
            if agrees {
                probability += source[k].norm_sqr();
            }
        }
        (dest, (outcome, probability))
    }
}

fn c(re: f64, im: f64) -> C {
    Complex::new(re, im)
}

fn zero() -> C {
    Double::zero()
}

fn one() -> C {
    Double::one()
}

fn basis(len: usize, at: usize) -> Vec<C> {
    let mut v = vec![zero(); len];
    v[at] = one();
    v
}

fn full(indices: Vec<u64>, vals: Vec<C>) -> QubitInitialState<Double> {
    (indices, InitialState::FullState(vals))
}

fn index(indices: Vec<u64>, at: u64) -> QubitInitialState<Double> {
    (indices, InitialState::Index(at))
}

fn unitary(name: &str, gate: Gate) -> Option<StateModifier<Double>> {
    Some(StateModifier::new_unitary(name.to_string(), gate))
}

fn measurement(name: &str, id: u64, indices: Vec<u64>) -> Option<StateModifier<Double>> {
    Some(StateModifier::new_measurement(name.to_string(), id, indices))
}

// ---- the initial state ----

#[test]
fn two_undeclared_qubits_start_in_basis_state_zero() {
    let (n, v) = initial_vector::<Double>(2, &[]);
    assert_eq!(n, 2);
    assert_eq!(v, vec![one(), zero(), zero(), zero()]);
}

#[test]
fn no_qubits_make_a_vector_of_one_amplitude() {
    let (n, v) = initial_vector::<Double>(0, &[]);
    assert_eq!(n, 0);
    assert_eq!(v, vec![one()]);
}

#[test]
fn undeclared_qubits_start_in_basis_state_zero_for_every_width() {
    for n in 0..=6u64 {
        let s: LocalQuantumState<Double> = LocalQuantumState::new(n);
        assert_eq!(s.n, n);
        assert_eq!(s.get_state(false), basis(1 << n, 0));
    }
}

#[test]
fn an_index_sets_the_bits_of_its_qubits() {
    // qubit 0 is the most significant bit of an address
    let (_, v) = initial_vector::<Double>(2, &[index(vec![0], 1)]);
    assert_eq!(v, basis(4, 0b10));
    let (_, v) = initial_vector::<Double>(2, &[index(vec![1], 1)]);
    assert_eq!(v, basis(4, 0b01));
    // bit j of the index belongs to the j-th qubit listed
    let (_, v) = initial_vector::<Double>(3, &[index(vec![0, 1, 2], 0b011)]);
    assert_eq!(v, basis(8, 0b110));
    let (_, v) = initial_vector::<Double>(3, &[index(vec![2, 0], 0b01)]);
    assert_eq!(v, basis(8, 0b001));
}

#[test]
fn a_full_state_is_laid_out_on_its_qubits() {
    let a = c(0.6, 0.0);
    let b = c(0.0, 0.8);
    let (_, v) = initial_vector::<Double>(2, &[full(vec![0], vec![a, b])]);
    assert_eq!(v, vec![a, zero(), b, zero()]);
    let (_, v) = initial_vector::<Double>(2, &[full(vec![1], vec![a, b])]);
    assert_eq!(v, vec![a, b, zero(), zero()]);
}

#[test]
fn a_full_state_of_two_qubits_has_its_first_qubit_as_the_low_bit() {
    let vals = vec![c(1.0, 0.0), c(2.0, 0.0), c(3.0, 0.0), c(4.0, 0.0)];
    // sub-index 0b01 sets the first listed qubit, which is qubit 0: the top bit
    let (_, v) = initial_vector::<Double>(2, &[full(vec![0, 1], vals.clone())]);
    assert_eq!(v, vec![c(1.0, 0.0), c(3.0, 0.0), c(2.0, 0.0), c(4.0, 0.0)]);
    let (_, v) = initial_vector::<Double>(2, &[full(vec![1, 0], vals)]);
    assert_eq!(v, vec![c(1.0, 0.0), c(2.0, 0.0), c(3.0, 0.0), c(4.0, 0.0)]);
}

#[test]
fn disjoint_full_states_of_basis_vectors_make_their_tensor_product() {
    // qubit 0 in |1>, qubit 1 in |0>, qubit 2 in |1>: the basis state 0b101
    let states = [
        full(vec![0], vec![zero(), one()]),
        full(vec![1], vec![one(), zero()]),
        full(vec![2], vec![zero(), one()]),
    ];
    let (n, v) = initial_vector::<Double>(3, &states);
    assert_eq!(n, 3);
    assert_eq!(v, basis(8, 0b101));
}

#[test]
fn disjoint_full_states_multiply_their_amplitudes() {
    let (a0, a1) = (c(0.5, 0.0), c(0.0, 2.0));
    let (b0, b1) = (c(3.0, 0.0), c(0.0, -1.0));
    let states = [full(vec![0], vec![a0, a1]), full(vec![1], vec![b0, b1])];
    let (_, v) = initial_vector::<Double>(2, &states);
    // address = (qubit 0, qubit 1)
    assert_eq!(v, vec![one() * a0 * b0, one() * a0 * b1, one() * a1 * b0, one() * a1 * b1]);
    assert_eq!(v[3], c(2.0, 0.0));
}

#[test]
fn full_states_and_indices_combine() {
    let (a0, a1) = (c(0.6, 0.0), c(0.8, 0.0));
    let states = [index(vec![2], 1), full(vec![0], vec![a0, a1])];
    let (n, v) = initial_vector::<Double>(3, &states);
    assert_eq!(n, 3);
    let mut expected = vec![zero(); 8];
    expected[0b001] = a0;
    expected[0b101] = a1;
    assert_eq!(v, expected);
}

#[test]
fn an_index_beyond_the_width_widens_the_state() {
    let (n, v) = initial_vector::<Double>(1, &[index(vec![2], 1)]);
    assert_eq!(n, 3);
    assert_eq!(v, basis(8, 0b001));
    assert_eq!(widened_qubit_count::<Double>(1, &[index(vec![2], 1)]), 3);
    assert_eq!(widened_qubit_count::<Double>(5, &[index(vec![2], 1)]), 5);
    assert_eq!(widened_qubit_count::<Double>(0, &[]), 0);
    assert_eq!(widened_qubit_count::<Double>(0, &[full(vec![], vec![one()])]), 0);
}

#[test]
fn the_parts_of_the_initialiser() {
    let states = [
        index(vec![3, 0], 0b10),
        full(vec![1], vec![one(), zero()]),
        full(vec![2, 4], vec![one(), zero(), zero(), zero()]),
    ];
    assert_eq!(full_index_count::<Double>(&states), 3);
    assert_eq!(index_template::<Double>(5, &states), 0b10000);
    assert_eq!(full_index_count::<Double>(&[]), 0);
    assert_eq!(index_template::<Double>(5, &[]), 0);
}

#[test]
fn valid_initial_states_are_told_from_others() {
    let half = vec![c(0.5, 0.0), c(0.5, 0.0)];
    assert!(check_initial_states::<Double>(0, &[]));
    assert!(check_initial_states::<Double>(63, &[]));
    assert!(check_initial_states::<Double>(2, &[full(vec![0], half.clone()), index(vec![1], 1)]));
    assert!(check_initial_states::<Double>(1, &[index(vec![5, 3], 9)]));
    assert!(check_initial_states::<Double>(1, &[full(vec![], vec![one()])]));
    // the state would not fit in memory
    assert!(!check_initial_states::<Double>(64, &[]));
    assert!(!check_initial_states::<Double>(1, &[index(vec![63], 0)]));
    assert!(!check_initial_states::<Double>(1, &[index(vec![u64::MAX], 0)]));
    // a qubit is listed twice
    assert!(!check_initial_states::<Double>(2, &[index(vec![0, 0], 0)]));
    assert!(!check_initial_states::<Double>(2, &[index(vec![1], 0), full(vec![1], half.clone())]));
    // a full state has not the size of its group
    assert!(!check_initial_states::<Double>(2, &[full(vec![0, 1], half.clone())]));
    assert!(!check_initial_states::<Double>(2, &[full(vec![], half)]));
}

// ---- the state vector ----

#[test]
fn the_state_is_handed_out_in_both_orders() {
    let vals: Vec<C> = (0..8).map(|k| c(k as f64, 0.0)).collect();
    let states = [full(vec![2, 1, 0], vals.clone())];
    for threshold in [0u64, 100] {
        let s = LocalQuantumState::<Double>::with_parallel_threshold(3, &states, threshold);
        assert_eq!(s.multithread, threshold == 0);
        assert_eq!(s.get_state(false), vals);
        let s = LocalQuantumState::<Double>::with_parallel_threshold(3, &states, threshold);
        let natural = s.get_state(true);
        let expected: Vec<C> = [0, 4, 2, 6, 1, 5, 3, 7].iter().map(|k| c(*k as f64, 0.0)).collect();
        assert_eq!(natural, expected);
    }
}

#[test]
fn the_parallel_threshold_decides_the_flag() {
    assert_eq!(PARALLEL_THRESHOLD, 0);
    let s: LocalQuantumState<Double> = LocalQuantumState::new(0);
    assert!(!s.multithread);
    let s: LocalQuantumState<Double> = LocalQuantumState::new(1);
    assert!(s.multithread);
    let s = LocalQuantumState::<Double>::with_parallel_threshold(3, &[], 3);
    assert!(!s.multithread);
    let s = LocalQuantumState::<Double>::with_parallel_threshold(3, &[], 2);
    assert!(s.multithread);
}

#[test]
fn natural_order_read_in_natural_order_again_is_the_internal_order() {
    let vals: Vec<C> = (0..16).map(|k| c(k as f64, -(k as f64))).collect();
    let states = [full(vec![3, 2, 1, 0], vals.clone())];
    let s: LocalQuantumState<Double> = LocalQuantumState::new_from_initial_states(4, &states);
    let natural = s.get_state(true);
    assert_ne!(natural, vals);
    let back: Vec<C> = (0..16).map(|k| reflected_at(4, &natural, k)).collect();
    assert_eq!(back, vals);
}

#[test]
fn an_operation_fills_the_scratch_buffer_and_the_buffers_change_roles() {
    let mut s: LocalQuantumState<Double> = LocalQuantumState::new_from_initial_states(2, &[index(vec![0, 1], 0b01)]);
    let before = s.state.clone();
    assert_eq!(before, basis(4, 0b10));
    assert_eq!(s.arena, before);
    s.apply_op(&Gate::Not(1));
    assert_eq!(s.n, 2);
    assert_eq!(s.state, basis(4, 0b11));
    assert_eq!(s.arena, before);
    let middle = s.state.clone();
    s.apply_op(&Gate::Not(0));
    assert_eq!(s.state, basis(4, 0b01));
    assert_eq!(s.arena, middle);
}

#[test]
fn identity_operations_leave_the_amplitudes_in_both_buffers() {
    let vals = vec![c(0.5, 0.5), c(0.5, -0.5)];
    let mut s: LocalQuantumState<Double> = LocalQuantumState::new_from_initial_states(1, &[full(vec![0], vals.clone())]);
    for step in 1..=5 {
        let held = s.state.as_ptr();
        let scratch = s.arena.as_ptr();
        if step % 2 == 1 {
            s.apply_op(&Gate::Identity);
        } else {
            let (outcome, _) = s.measure(&[]);
            assert_eq!(outcome, 0);
        }
        assert_eq!(s.state, vals);
        assert_eq!(s.arena, vals);
        // the buffer that was filled holds the state, the other is the scratch buffer
        assert_eq!(s.state.as_ptr(), scratch);
        assert_eq!(s.arena.as_ptr(), held);
    }
}

#[test]
fn a_measurement_hands_its_outcome_on() {
    let mut s: LocalQuantumState<Double> = LocalQuantumState::new_from_initial_states(3, &[index(vec![0, 1, 2], 0b101)]);
    let before = s.state.clone();
    assert_eq!(s.measure(&[0, 1]), (0b01, 1.0));
    assert_eq!(s.arena, before);
    assert_eq!(s.measure(&[2, 1, 0]), (0b101, 1.0));
    assert_eq!(s.measure(&[]), (0, 1.0));
    assert_eq!(s.state, before);
}

// ---- the graph ----

#[test]
fn handles_are_numbered_as_they_are_made() {
    let mut g: QubitGraph<Double> = QubitGraph::new();
    assert_eq!(g.len(), 0);
    assert_eq!(g.register(vec![0]), 0);
    assert_eq!(g.register(vec![1, 2]), 1);
    assert_eq!(g.apply(vec![1, 0], None, vec![0, 1, 2]), Some(2));
    assert_eq!(g.share(2), Some(3));
    assert_eq!(g.share(2), Some(4));
    assert_eq!(g.len(), 5);
    assert_eq!(g.claims, vec![Claim::Owned(2, 1), Claim::Owned(2, 0), Claim::Shared, Claim::Free, Claim::Free]);
    assert_eq!(g.nodes[3].indices, vec![0, 1, 2]);
    assert!(g.nodes[0].parent.is_none());
    assert!(matches!(&g.nodes[2].parent, Some(Parent::Owned(parents, None)) if parents == &vec![1, 0]));
    assert!(matches!(g.nodes[4].parent, Some(Parent::Shared(2))));
}

#[test]
fn a_handle_is_consumed_once() {
    let mut g: QubitGraph<Double> = QubitGraph::new();
    let a = g.register(vec![0]);
    let b = g.register(vec![1]);
    assert!(g.check_consume(&vec![a, b]));
    assert!(!g.check_consume(&vec![a, a]));
    assert!(!g.check_consume(&vec![a, 7]));
    assert_eq!(g.apply(vec![a, a], None, vec![0]), None);
    assert_eq!(g.apply(vec![a, 7], None, vec![0]), None);
    assert_eq!(g.len(), 2);
    assert_eq!(g.claims, vec![Claim::Free, Claim::Free]);
    let x = g.apply(vec![a], None, vec![0]).unwrap();
    assert_eq!(g.apply(vec![a], None, vec![0]), None);
    assert_eq!(g.share(a), None);
    assert_eq!(g.share(9), None);
    let s = g.share(b).unwrap();
    assert_eq!(g.apply(vec![b], None, vec![1]), None);
    assert_eq!(g.apply(vec![x, s], None, vec![0, 1]), Some(4));
    assert_eq!(g.apply(vec![], None, vec![]), Some(5));
}

// ---- the resolver ----

#[test]
fn an_origin_resolves_to_itself_and_no_operation() {
    let mut g: QubitGraph<Double> = QubitGraph::new();
    g.register(vec![0]);
    let q = g.register(vec![1]);
    assert_eq!(get_opfns_and_frontier(&g, q), (vec![q], vec![]));
}

#[test]
fn a_chain_resolves_in_the_order_in_which_it_was_built() {
    let mut g: QubitGraph<Double> = QubitGraph::new();
    let q0 = g.register(vec![0]);
    let q1 = g.apply(vec![q0], unitary("a", Gate::Not(0)), vec![0]).unwrap();
    let q2 = g.apply(vec![q1], None, vec![0]).unwrap();
    let q3 = g.apply(vec![q2], unitary("b", Gate::Identity), vec![0]).unwrap();
    assert_eq!(get_opfns_and_frontier(&g, q3), (vec![q0], vec![q1, q3]));
    assert_eq!(get_opfns_and_frontier(&g, q1), (vec![q0], vec![q1]));
}

#[test]
fn the_frontier_lists_the_origins_from_the_last_made() {
    let mut g: QubitGraph<Double> = QubitGraph::new();
    let a = g.register(vec![0]);
    let b = g.register(vec![1]);
    let unused = g.register(vec![2]);
    let c = g.register(vec![3]);
    let ab = g.apply(vec![a, b], unitary("ab", Gate::Identity), vec![0, 1]).unwrap();
    let abc = g.apply(vec![ab, c], unitary("abc", Gate::Identity), vec![0, 1, 3]).unwrap();
    let (frontier, ops) = get_opfns_and_frontier(&g, abc);
    assert_eq!(frontier, vec![c, b, a]);
    assert_eq!(ops, vec![ab, abc]);
    assert!(!frontier.contains(&unused));
    assert_eq!(count_qubits(&g, &frontier), 3);
    assert_eq!(count_qubits(&g, &vec![]), 0);
    assert_eq!(circuit_width(&g, abc), Some(3));
    assert_eq!(circuit_width(&g, ab), Some(2));
    assert_eq!(circuit_width(&g, unused), Some(1));
}

#[test]
fn a_shared_handle_is_met_once_in_a_diamond() {
    let mut g: QubitGraph<Double> = QubitGraph::new();
    let origin = g.register(vec![0]);
    let top = g.apply(vec![origin], unitary("top", Gate::Not(0)), vec![0]).unwrap();
    let left_ref = g.share(top).unwrap();
    let right_ref = g.share(top).unwrap();
    let left = g.apply(vec![left_ref], unitary("left", Gate::Identity), vec![0]).unwrap();
    let right = g.apply(vec![right_ref], unitary("right", Gate::Identity), vec![0]).unwrap();
    let bottom = g.apply(vec![left, right], unitary("bottom", Gate::Not(0)), vec![0]).unwrap();
    let (frontier, ops) = get_opfns_and_frontier(&g, bottom);
    assert_eq!(frontier, vec![origin]);
    assert_eq!(ops, vec![top, left, right, bottom]);
    assert_eq!(ops.iter().filter(|op| **op == top).count(), 1);
    // the operation of the shared handle is applied once: two negations cancel
    let (state, _) = run_local::<Double>(&g, bottom);
    assert_eq!(state.get_state(false), basis(2, 0));
}

#[test]
fn operations_that_do_not_depend_on_each_other_give_the_same_state_in_either_order() {
    let mut first: QubitGraph<Double> = QubitGraph::new();
    let a = first.register(vec![0]);
    let b = first.register(vec![1]);
    let on_a = first.apply(vec![a], unitary("not a", Gate::Not(0)), vec![0]).unwrap();
    let on_b = first.apply(vec![b], unitary("scale", Gate::Scale(c(0.0, 1.0))), vec![1]).unwrap();
    let end = first.apply(vec![on_a, on_b], None, vec![0, 1]).unwrap();
    assert_eq!(get_opfns_and_frontier(&first, end).1, vec![on_a, on_b]);
    let (state_first, record_first) = run_local::<Double>(&first, end);

    let mut second: QubitGraph<Double> = QubitGraph::new();
    let a = second.register(vec![0]);
    let b = second.register(vec![1]);
    let on_b = second.apply(vec![b], unitary("scale", Gate::Scale(c(0.0, 1.0))), vec![1]).unwrap();
    let on_a = second.apply(vec![a], unitary("not a", Gate::Not(0)), vec![0]).unwrap();
    let end = second.apply(vec![on_a, on_b], None, vec![0, 1]).unwrap();
    assert_eq!(get_opfns_and_frontier(&second, end).1, vec![on_b, on_a]);
    let (state_second, record_second) = run_local::<Double>(&second, end);

    let mut expected = vec![zero(); 4];
    expected[0b10] = c(0.0, 1.0);
    assert_eq!(state_first.get_state(false), expected);
    assert_eq!(state_second.get_state(false), expected);
    assert_eq!(record_first.results, record_second.results);
}

#[test]
fn every_operation_comes_after_those_it_depends_on() {
    let mut g: QubitGraph<Double> = QubitGraph::new();
    let a = g.register(vec![0]);
    let b = g.register(vec![1]);
    let c0 = g.register(vec![2]);
    let on_c = g.apply(vec![c0], unitary("c", Gate::Identity), vec![2]).unwrap();
    let on_a = g.apply(vec![a], unitary("a", Gate::Identity), vec![0]).unwrap();
    let ab = g.apply(vec![b, on_a], unitary("ab", Gate::Identity), vec![0, 1]).unwrap();
    let shared = g.share(ab).unwrap();
    let abc = g.apply(vec![on_c, shared], unitary("abc", Gate::Identity), vec![0, 1, 2]).unwrap();
    let (frontier, ops) = get_opfns_and_frontier(&g, abc);
    assert_eq!(frontier, vec![c0, b, a]);
    assert_eq!(ops, vec![on_c, on_a, ab, abc]);
    let place = |op: usize| ops.iter().position(|x| *x == op).unwrap();
    assert!(place(on_a) < place(ab));
    assert!(place(ab) < place(abc));
    assert!(place(on_c) < place(abc));
}

#[test]
fn qubit_in_heap_finds_pending_handles() {
    assert!(qubit_in_heap(3, &vec![1, 3, 2]));
    assert!(!qubit_in_heap(4, &vec![1, 3, 2]));
    assert!(!qubit_in_heap(0, &vec![]));
}

// ---- the executor ----

#[test]
fn the_fold_applies_a_unitary_and_records_a_measurement() {
    let s: LocalQuantumState<Double> = LocalQuantumState::new(1);
    let not = StateModifier::<Double>::new_unitary("not".to_string(), Gate::Not(0));
    let (s, mr) = fold_modify_state((s, MeasuredResults::new()), &not);
    assert_eq!(s.state, basis(2, 1));
    assert!(mr.results.is_empty());
    let m = StateModifier::<Double>::new_measurement("m".to_string(), 7, vec![0]);
    let (s, mr) = fold_modify_state((s, mr), &m);
    assert_eq!(s.state, basis(2, 1));
    assert_eq!(mr.results.len(), 1);
    assert_eq!(mr.results[&7], (1, 1.0));
}

#[test]
fn modifiers_keep_what_they_are_made_of() {
    let u = StateModifier::<Double>::new_unitary("u".to_string(), Gate::Scale(c(0.0, 1.0)));
    assert_eq!(u.name, "u");
    assert!(matches!(u.modifier, StateModifierType::UnitaryOp(Gate::Scale(by)) if by == c(0.0, 1.0)));
    let m = StateModifier::<Double>::new_measurement("m".to_string(), 3, vec![2, 0]);
    assert_eq!(m.name, "m");
    assert!(matches!(m.modifier, StateModifierType::MeasureState(3, indices) if indices == vec![2, 0]));
    let empty: MeasuredResults<Double> = MeasuredResults::new();
    assert!(empty.results.is_empty());
}

#[test]
fn a_run_applies_the_operations_in_order() {
    let mut g: QubitGraph<Double> = QubitGraph::new();
    let a = g.register(vec![0]);
    let b = g.register(vec![1]);
    let a1 = g.apply(vec![a], unitary("not a", Gate::Not(0)), vec![0]).unwrap();
    let ab = g.apply(vec![a1, b], unitary("i", Gate::Scale(c(0.0, 1.0))), vec![0, 1]).unwrap();
    let done = g.apply(vec![ab], measurement("m", 1, vec![0, 1]), vec![0, 1]).unwrap();
    let (state, mr): (LocalQuantumState<Double>, _) = run(&g, done);
    assert_eq!(state.n, 2);
    let mut expected = vec![zero(); 4];
    expected[0b10] = c(0.0, 1.0);
    assert_eq!(state.get_state(false), expected);
    assert_eq!(mr.results.len(), 1);
    assert_eq!(mr.results[&1], (0b01, 1.0));
}

#[test]
fn a_later_measurement_under_the_same_id_overwrites_the_earlier() {
    let mut g: QubitGraph<Double> = QubitGraph::new();
    let a = g.register(vec![0]);
    let m1 = g.apply(vec![a], measurement("first", 5, vec![0]), vec![0]).unwrap();
    let flipped = g.apply(vec![m1], unitary("not", Gate::Not(0)), vec![0]).unwrap();
    let m2 = g.apply(vec![flipped], measurement("second", 5, vec![0]), vec![0]).unwrap();
    let other = g.apply(vec![m2], measurement("other", 6, vec![0]), vec![0]).unwrap();
    let (_, early) = run_local::<Double>(&g, m1);
    assert_eq!(early.results[&5], (0, 1.0));
    let (_, mr) = run_local::<Double>(&g, other);
    assert_eq!(mr.results.len(), 2);
    assert_eq!(mr.results[&5], (1, 1.0));
    assert_eq!(mr.results[&6], (1, 1.0));
    let mut record: MeasuredResults<Double> = MeasuredResults::new();
    record.record(5, (0, 0.25));
    record.record(5, (3, 0.75));
    assert_eq!(record.results.len(), 1);
    assert_eq!(record.results[&5], (3, 0.75));
}

#[test]
fn a_run_starts_from_the_given_initial_states() {
    let mut g: QubitGraph<Double> = QubitGraph::new();
    let a = g.register(vec![0]);
    let b = g.register(vec![1]);
    let ab = g.apply(vec![a, b], unitary("not b", Gate::Not(1)), vec![0, 1]).unwrap();
    let states = [full(vec![0], vec![c(0.6, 0.0), c(0.0, 0.8)])];
    let (state, mr) = run_local_with_init::<Double>(&g, ab, &states);
    assert_eq!(state.n, 2);
    assert_eq!(state.get_state(false), vec![zero(), c(0.6, 0.0), zero(), c(0.0, 0.8)]);
    assert!(mr.results.is_empty());
    let (state, _): (LocalQuantumState<Double>, _) = run_with_init(&g, ab, &[index(vec![3], 1)]);
    assert_eq!(state.n, 4);
    assert_eq!(state.get_state(false), basis(16, 0b0101));
}

#[test]
fn the_state_builder_gets_the_frontier() {
    let mut g: QubitGraph<Double> = QubitGraph::new();
    let a = g.register(vec![0]);
    let b = g.register(vec![1]);
    let ab = g.apply(vec![b, a], unitary("not a", Gate::Not(0)), vec![0, 1]).unwrap();
    let mut seen = vec![];
    let (state, mr) = run_with_statebuilder(&g, ab, |frontier: Vec<usize>| {
        seen = frontier;
        LocalQuantumState::<Double>::new_from_initial_states(2, &[index(vec![1], 1)])
    });
    assert_eq!(seen, vec![b, a]);
    assert_eq!(state.get_state(false), basis(4, 0b11));
    assert!(mr.results.is_empty());
}

// ---- the matrix ----

fn identity_matrix(side: usize) -> Vec<Vec<C>> {
    (0..side).map(|i| basis(side, i)).collect()
}

#[test]
fn the_matrix_of_no_operation_is_the_identity() {
    for n in 1..=3u64 {
        let mut g: QubitGraph<Double> = QubitGraph::new();
        let q = g.register((0..n).collect());
        for natural_order in [true, false] {
            let matrix = make_circuit_matrix(n, &g, q, natural_order);
            assert_eq!(matrix, identity_matrix(1 << n));
        }
    }
}

#[test]
fn the_matrix_of_no_operation_on_no_qubit_is_one_by_one() {
    let mut g: QubitGraph<Double> = QubitGraph::new();
    let q = g.register(vec![]);
    assert_eq!(make_circuit_matrix(0, &g, q, true), vec![vec![one()]]);
    assert_eq!(make_circuit_matrix(0, &g, q, false), vec![vec![one()]]);
}

#[test]
fn the_matrix_of_a_negation_exchanges_basis_states() {
    let mut g: QubitGraph<Double> = QubitGraph::new();
    let q = g.register(vec![0, 1]);
    let not = g.apply(vec![q], unitary("not 0", Gate::Not(0)), vec![0, 1]).unwrap();
    // internal order: qubit 0 is the top bit
    let internal = make_circuit_matrix(2, &g, not, false);
    assert_eq!(internal, vec![basis(4, 2), basis(4, 3), basis(4, 0), basis(4, 1)]);
    // natural order: qubit 0 is the lowest bit
    let natural = make_circuit_matrix(2, &g, not, true);
    assert_eq!(natural, vec![basis(4, 1), basis(4, 0), basis(4, 3), basis(4, 2)]);
}

#[test]
fn the_matrix_of_a_scaling_is_diagonal() {
    let mut g: QubitGraph<Double> = QubitGraph::new();
    let q = g.register(vec![0]);
    let scaled = g.apply(vec![q], unitary("i", Gate::Scale(c(0.0, 1.0))), vec![0]).unwrap();
    let matrix = make_circuit_matrix(1, &g, scaled, true);
    assert_eq!(matrix, vec![vec![c(0.0, 1.0), zero()], vec![zero(), c(0.0, 1.0)]]);
}
