//! Whether initial states can be given to the initialiser.

use vstd::prelude::*;
use vstd::arithmetic::power2::{pow2, lemma2_to64};
use crate::bits::{bit_at, get_bit, set_bit, pow2_u64, indices_below, lemma_with_bit, lemma_bit_at_above};
use crate::precision::Precision;
use crate::initial::{InitialState, QubitInitialState, covers, full_states_sized, groups_disjoint, initial_states_valid, lemma_listed_fits, lemma_widened_width, listed, widened_width, indices_bound};

verus! {

/// Whether the place `(e1, j1)` comes before the place `(e, j)`, group by group and
/// index by index.
pub open spec fn is_before(e1: int, j1: int, e: int, j: int) -> bool {
    e1 < e || (e1 == e && j1 < j)
}

/// Whether the qubit `a` is listed before the place `(e, j)`.
pub open spec fn seen_before<P: Precision>(
    states: Seq<QubitInitialState<P>>,
    e: int,
    j: int,
    a: nat,
) -> bool {
    exists|e1: int, j1: int| is_before(e1, j1, e, j) && #[trigger] covers(states, e1, j1, a)
}

/// Whether no qubit is listed twice before the place `(e, j)`.
pub open spec fn disjoint_before<P: Precision>(
    states: Seq<QubitInitialState<P>>,
    e: int,
    j: int,
) -> bool {
    forall|e1: int, j1: int, e2: int, j2: int, a: nat|
        is_before(e1, j1, e, j) && is_before(e2, j2, e, j) && #[trigger] covers(states, e1, j1, a)
            && #[trigger] covers(states, e2, j2, a) ==> e1 == e2 && j1 == j2
}

/// A width that bounds `n` and every index bounds the widened width.
proof fn lemma_widened_width_below<P: Precision>(n: nat, states: Seq<QubitInitialState<P>>, bound: nat)
    requires
        n <= bound,
        forall|e: int| 0 <= e < states.len() ==> indices_below(#[trigger] states[e].0@, bound),
    ensures
        widened_width(n, states) <= bound,
    decreases states.len(),
{
    if states.len() > 0 {
        let front = states.drop_last();
        assert forall|e: int| 0 <= e < front.len() implies indices_below(#[trigger] front[e].0@, bound) by {
            assert(front[e] == states[e]);
        }
        lemma_widened_width_below(n, front, bound);
        assert(indices_below(states[states.len() - 1].0@, bound));
        lemma_indices_bound_below(states.last().0@, bound);
    }
}

/// A bound of every index bounds the bound of the group.
proof fn lemma_indices_bound_below(indices: Seq<u64>, bound: nat)
    requires
        indices_below(indices, bound),
    ensures
        indices_bound(indices) <= bound,
    decreases indices.len(),
{
    if indices.len() > 0 {
        assert forall|j: int| 0 <= j < indices.drop_last().len() implies #[trigger] indices.drop_last()[j]
            < bound by {
            assert(indices.drop_last()[j] == indices[j]);
        }
        lemma_indices_bound_below(indices.drop_last(), bound);
        assert(indices[indices.len() - 1] < bound);
    }
}

/// A group is no longer than the list of all indices.
proof fn lemma_listed_holds<P: Precision>(states: Seq<QubitInitialState<P>>, count: nat, e: int)
    requires
        0 <= e < count,
    ensures
        states[e].0@.len() <= listed(states, count).len(),
    decreases count,
{
    if e < count - 1 {
        lemma_listed_holds(states, (count - 1) as nat, e);
    }
}

/// Whether the state of `n` qubits, or of as many more as the largest index asks for,
/// fits in memory.
fn width_fits<P: Precision>(n: u64, states: &[QubitInitialState<P>]) -> (ok: bool)
    ensures
        ok == (widened_width(n as nat, states@) < usize::BITS),
{
    let limit = usize::BITS as u64;
    proof {
        lemma_widened_width(n as nat, states@);
    }
    if n >= limit {
        return false;
    }
    let mut e: usize = 0;
    while e < states.len()
        invariant
            e <= states@.len(),
            limit == usize::BITS,
            forall|e1: int| 0 <= e1 < e ==> indices_below(#[trigger] states@[e1].0@, (limit - 1) as nat),
            forall|e: int|
                0 <= e < states@.len() ==> indices_below(
                    #[trigger] states@[e].0@,
                    widened_width(n as nat, states@),
                ),
        decreases states@.len() - e,
    {
        let indices = &states[e].0;
        let mut j: usize = 0;
        while j < indices.len()
            invariant
                j <= indices@.len(),
                limit == usize::BITS,
                indices_below(indices@, widened_width(n as nat, states@)),
                forall|j1: int| 0 <= j1 < j ==> indices@[j1] < limit - 1,
            decreases indices@.len() - j,
        {
            if indices[j] >= limit - 1 {
                assert(indices@[j as int] < widened_width(n as nat, states@));
                return false;
            }
            j = j + 1;
        }
        e = e + 1;
    }
    proof {
        lemma_widened_width_below(n as nat, states@, (limit - 1) as nat);
    }
    true
}

/// Whether no qubit is listed twice. The indices are below 64.
fn groups_are_disjoint<P: Precision>(states: &[QubitInitialState<P>]) -> (ok: bool)
    requires
        forall|e: int| 0 <= e < states@.len() ==> indices_below(#[trigger] states@[e].0@, 64),
    ensures
        ok == groups_disjoint(states@),
{
    let mut seen: u64 = 0;
    let mut e: usize = 0;
    proof {
        lemma2_to64();
        assert forall|a: nat| a < 64 implies !bit_at(0, a) by {
            lemma_bit_at_above(0, 0, a);
        }
    }
    while e < states.len()
        invariant
            e <= states@.len(),
            forall|e: int| 0 <= e < states@.len() ==> indices_below(#[trigger] states@[e].0@, 64),
            forall|a: nat| a < 64 ==> bit_at(seen as nat, a) == seen_before(states@, e as int, 0, a),
            disjoint_before(states@, e as int, 0),
        decreases states@.len() - e,
    {
        let indices = &states[e].0;
        let mut j: usize = 0;
        while j < indices.len()
            invariant
                j <= indices@.len(),
                e < states@.len(),
                indices@ == states@[e as int].0@,
                indices_below(indices@, 64),
                forall|a: nat|
                    a < 64 ==> bit_at(seen as nat, a) == seen_before(states@, e as int, j as int, a),
                disjoint_before(states@, e as int, j as int),
            decreases indices@.len() - j,
        {
            let a = indices[j];
            assert(covers(states@, e as int, j as int, a as nat));
            if get_bit(seen, a) {
                proof {
                    let (e1, j1) = choose|e1: int, j1: int|
                        is_before(e1, j1, e as int, j as int) && #[trigger] covers(
                            states@,
                            e1,
                            j1,
                            a as nat,
                        );
                    assert(covers(states@, e1, j1, a as nat));
                }
                return false;
            }
            let ghost before = seen;
            seen = set_bit(seen, a, true);
            proof {
                lemma2_to64();
                assert forall|b: nat| b < 64 implies bit_at(seen as nat, b) == seen_before(
                    states@,
                    e as int,
                    j + 1,
                    b,
                ) by {
                    lemma_with_bit(64, before as nat, a as nat, true, b);
                    if seen_before(states@, e as int, j as int, b) {
                        let (e1, j1) = choose|e1: int, j1: int|
                            is_before(e1, j1, e as int, j as int) && #[trigger] covers(
                                states@,
                                e1,
                                j1,
                                b,
                            );
                        assert(is_before(e1, j1, e as int, j + 1));
                    }
                    if b == a {
                        assert(is_before(e as int, j as int, e as int, j + 1));
                    }
                }
                assert forall|e1: int, j1: int, e2: int, j2: int, b: nat|
                    is_before(e1, j1, e as int, j + 1) && is_before(e2, j2, e as int, j + 1)
                        && #[trigger] covers(states@, e1, j1, b) && #[trigger] covers(
                        states@,
                        e2,
                        j2,
                        b,
                    ) implies e1 == e2 && j1 == j2 by {
                    let here1 = e1 == e && j1 == j;
                    let here2 = e2 == e && j2 == j;
                    if here1 && !here2 {
                        assert(seen_before(states@, e as int, j as int, b));
                    }
                    if here2 && !here1 {
                        assert(seen_before(states@, e as int, j as int, b));
                    }
                }
            }
            j = j + 1;
        }
        proof {
            assert forall|a: nat| a < 64 implies bit_at(seen as nat, a) == seen_before(
                states@,
                e + 1,
                0,
                a,
            ) by {
                if seen_before(states@, e as int, j as int, a) {
                    let (e1, j1) = choose|e1: int, j1: int|
                        is_before(e1, j1, e as int, j as int) && #[trigger] covers(states@, e1, j1, a);
                    assert(is_before(e1, j1, e + 1, 0));
                }
                if seen_before(states@, e + 1, 0, a) {
                    let (e1, j1) = choose|e1: int, j1: int|
                        is_before(e1, j1, e + 1, 0) && #[trigger] covers(states@, e1, j1, a);
                    assert(is_before(e1, j1, e as int, j as int));
                }
            }
            assert forall|e1: int, j1: int, e2: int, j2: int, b: nat|
                is_before(e1, j1, e + 1, 0) && is_before(e2, j2, e + 1, 0) && #[trigger] covers(
                    states@,
                    e1,
                    j1,
                    b,
                ) && #[trigger] covers(states@, e2, j2, b) implies e1 == e2 && j1 == j2 by {
                assert(is_before(e1, j1, e as int, j as int));
                assert(is_before(e2, j2, e as int, j as int));
            }
        }
        e = e + 1;
    }
    proof {
        assert forall|e1: int, j1: int, e2: int, j2: int, a: nat|
            #[trigger] covers(states@, e1, j1, a) && #[trigger] covers(states@, e2, j2, a) implies e1
            == e2 && j1 == j2 by {
            assert(is_before(e1, j1, e as int, 0));
            assert(is_before(e2, j2, e as int, 0));
        }
    }
    true
}

/// Whether every full state has an amplitude for each basis state of its group. The
/// groups are disjoint, with indices below 64.
fn full_states_are_sized<P: Precision>(states: &[QubitInitialState<P>]) -> (ok: bool)
    requires
        groups_disjoint(states@),
        forall|e: int| 0 <= e < states@.len() ==> indices_below(#[trigger] states@[e].0@, 63),
    ensures
        ok == full_states_sized(states@),
{
    proof {
        lemma_listed_fits(63, states@);
    }
    let mut e: usize = 0;
    while e < states.len()
        invariant
            e <= states@.len(),
            listed(states@, states@.len()).len() <= 63,
            forall|e1: int|
                0 <= e1 < e ==> (#[trigger] states@[e1].1 matches InitialState::FullState(vals)
                    ==> vals@.len() == pow2(states@[e1].0@.len())),
        decreases states@.len() - e,
    {
        match &states[e].1 {
            InitialState::FullState(vals) => {
                proof {
                    lemma_listed_holds(states@, states@.len(), e as int);
                }
                let size = pow2_u64(states[e].0.len() as u64);
                if vals.len() as u64 != size {
                    assert(states@[e as int].1 is FullState);
                    return false;
                }
            },
            InitialState::Index(_) => {},
        }
        e = e + 1;
    }
    true
}

/// Whether `states` can be given to the initialiser with `n`: see
/// [`initial_states_valid`].
pub fn check_initial_states<P: Precision>(n: u64, states: &[QubitInitialState<P>]) -> (ok: bool)
    ensures
        ok == initial_states_valid(n as nat, states@),
{
    if !width_fits(n, states) {
        return false;
    }
    proof {
        lemma_widened_width(n as nat, states@);
        assert forall|e: int| 0 <= e < states@.len() implies indices_below(#[trigger] states@[e].0@, 63) by {
            assert(indices_below(states@[e].0@, widened_width(n as nat, states@)));
        }
        assert forall|e: int| 0 <= e < states@.len() implies indices_below(#[trigger] states@[e].0@, 64) by {
            assert(indices_below(states@[e].0@, 63));
        }
    }
    if !groups_are_disjoint(states) {
        return false;
    }
    full_states_are_sized(states)
}

} // verus!
