//! Initial states: what the qubits start in, group by group, and the state vector
//! that this makes.

use vstd::prelude::*;
use vstd::arithmetic::power2::{pow2, lemma_pow2_pos};
use vstd::set_lib::{lemma_int_range, lemma_len_subset, set_int_range};
use vstd::arithmetic::div_mod::lemma_mod_bound;
use vstd::bits::{lemma_u64_shr_is_div, lemma_usize_pow2_no_overflow};
use crate::bits::{bit_at, bit_value, placed, indices_below, indices_distinct, sub_to_full, pow2_u64, lemma_bits_determine, lemma_bit_at_above};
use crate::precision::{Precision, is_zero, is_one, is_product};
use crate::scatter::{full_part, groups_fit, is_combination_product, lemma_combination_is_tensor, lemma_supported_is_target, lemma_target_supported, target, target_upto};

verus! {

/// What a group of qubits starts in.
pub enum InitialState<P: Precision> {
    /// An amplitude for each basis state of the group: `2^k` of them for `k` qubits.
    FullState(Vec<P::Amplitude>),
    /// One basis state of the group.
    Index(u64),
}

/// The absolute indices of a group of qubits, and what the group starts in. The
/// `j`-th index listed is bit `j` of the group's basis states.
pub type QubitInitialState<P> = (Vec<u64>, InitialState<P>);

/// One more than the largest index, or 0 where there is none.
pub open spec fn indices_bound(indices: Seq<u64>) -> nat
    decreases indices.len(),
{
    if indices.len() == 0 {
        0
    } else {
        let before = indices_bound(indices.drop_last());
        if indices.last() + 1 > before {
            (indices.last() + 1) as nat
        } else {
            before
        }
    }
}

/// The number of qubits of the state that `states` initialise: `n`, or as many more
/// as the largest index asks for.
pub open spec fn widened_width<P: Precision>(n: nat, states: Seq<QubitInitialState<P>>) -> nat
    decreases states.len(),
{
    if states.len() == 0 {
        n
    } else {
        let before = widened_width(n, states.drop_last());
        let bound = indices_bound(states.last().0@);
        if bound > before {
            bound
        } else {
            before
        }
    }
}

/// Whether the `j`-th index of the `e`-th group is the qubit `a`.
pub open spec fn covers<P: Precision>(
    states: Seq<QubitInitialState<P>>,
    e: int,
    j: int,
    a: nat,
) -> bool {
    0 <= e < states.len() && 0 <= j < states[e].0@.len() && states[e].0@[j] == a
}

/// Whether some group holds the qubit `a`.
pub open spec fn covered<P: Precision>(states: Seq<QubitInitialState<P>>, a: nat) -> bool {
    exists|e: int, j: int| covers(states, e, j, a)
}

/// Whether no qubit is listed twice, in one group or in two.
pub open spec fn groups_disjoint<P: Precision>(states: Seq<QubitInitialState<P>>) -> bool {
    forall|e1: int, j1: int, e2: int, j2: int, a: nat|
        #[trigger] covers(states, e1, j1, a) && #[trigger] covers(states, e2, j2, a) ==> e1 == e2
            && j1 == j2
}

/// Whether every full state has an amplitude for each basis state of its group.
pub open spec fn full_states_sized<P: Precision>(states: Seq<QubitInitialState<P>>) -> bool {
    forall|e: int|
        0 <= e < states.len() ==> (#[trigger] states[e].1 matches InitialState::FullState(vals)
            ==> vals@.len() == pow2(states[e].0@.len()))
}

/// What the initialiser asks of its input: the groups are disjoint, every full state
/// has the size of its group, and the state vector fits in memory.
pub open spec fn initial_states_valid<P: Precision>(
    n: nat,
    states: Seq<QubitInitialState<P>>,
) -> bool {
    &&& widened_width(n, states) < usize::BITS
    &&& groups_disjoint(states)
    &&& full_states_sized(states)
}

/// Whether the qubit `a` is set in the basis state `k` of a `w`-qubit state. Qubit 0
/// is the most significant bit of the address.
pub open spec fn abs_bit(w: nat, k: nat, a: nat) -> bool {
    a < w && bit_at(k, (w - 1 - a) as nat)
}

/// The basis state of a group that the basis state `k` of the whole restricts to.
pub open spec fn sub_index(w: nat, indices: Seq<u64>, k: nat) -> nat
    decreases indices.len(),
{
    if indices.len() == 0 {
        0
    } else {
        sub_index(w, indices.drop_last(), k) + bit_value(abs_bit(w, k, indices.last() as nat))
            * pow2((indices.len() - 1) as nat)
    }
}

/// Whether the basis state `k` can have an amplitude other than 0: every qubit that
/// no group holds is 0 in it, and it restricts to the basis state of every group that
/// starts in one.
pub open spec fn supported<P: Precision>(
    w: nat,
    states: Seq<QubitInitialState<P>>,
    k: nat,
) -> bool {
    &&& forall|a: nat| a < w && !covered(states, a) ==> !#[trigger] abs_bit(w, k, a)
    &&& forall|e: int, j: int|
        0 <= e < states.len() && 0 <= j < states[e].0@.len() ==> (
        states[e].1 matches InitialState::Index(v) ==> abs_bit(
            w,
            k,
            #[trigger] states[e].0@[j] as nat,
        ) == bit_at(v as nat, j as nat))
}

/// Whether `a` is the product, taken from 1 in the order of the groups, of the
/// amplitudes that the full states among the first `e` groups give to what `k`
/// restricts to.
pub open spec fn is_partial_product<P: Precision>(
    w: nat,
    states: Seq<QubitInitialState<P>>,
    k: nat,
    e: nat,
    a: P::Amplitude,
) -> bool
    decreases e,
{
    if e == 0 {
        is_one::<P>(a)
    } else {
        match states[e - 1].1 {
            InitialState::FullState(vals) => exists|before: P::Amplitude|
                is_partial_product::<P>(w, states, k, (e - 1) as nat, before)
                    && #[trigger] is_product::<P>(before, vals@[sub_index(w, states[e - 1].0@, k) as int], a),
            InitialState::Index(_) => is_partial_product::<P>(w, states, k, (e - 1) as nat, a),
        }
    }
}

/// Whether `a` is the product of the amplitudes that the full states give to what `k`
/// restricts to: the amplitude of `k` in the tensor product of the full states.
pub open spec fn is_tensor_product<P: Precision>(
    w: nat,
    states: Seq<QubitInitialState<P>>,
    k: nat,
    a: P::Amplitude,
) -> bool {
    is_partial_product::<P>(w, states, k, states.len(), a)
}

/// Whether `a` is the amplitude that the basis state `k` starts with.
pub open spec fn is_initial_amplitude<P: Precision>(
    w: nat,
    states: Seq<QubitInitialState<P>>,
    k: nat,
    a: P::Amplitude,
) -> bool {
    if supported(w, states, k) {
        is_tensor_product::<P>(w, states, k, a)
    } else {
        is_zero::<P>(a)
    }
}

/// Whether `v` is the state vector of `w` qubits that `states` initialise: the tensor
/// product of the groups' states, with every other qubit in state 0.
pub open spec fn is_initial_vector<P: Precision>(
    w: nat,
    states: Seq<QubitInitialState<P>>,
    v: Seq<P::Amplitude>,
) -> bool {
    &&& v.len() == pow2(w)
    &&& forall|k: int| 0 <= k < v.len() ==> is_initial_amplitude::<P>(w, states, k as nat, #[trigger] v[k])
}

/// Every index lies below the bound of its group.
pub proof fn lemma_indices_bound(indices: Seq<u64>, j: int)
    requires
        0 <= j < indices.len(),
    ensures
        indices[j] < indices_bound(indices),
    decreases indices.len(),
{
    if j < indices.len() - 1 {
        lemma_indices_bound(indices.drop_last(), j);
    }
}

/// The bound of a group grows with the group.
proof fn lemma_indices_bound_grows(indices: Seq<u64>, j: int)
    requires
        0 <= j <= indices.len(),
    ensures
        indices_bound(indices.take(j)) <= indices_bound(indices),
    decreases indices.len(),
{
    if j < indices.len() {
        lemma_indices_bound_grows(indices.drop_last(), j);
        assert(indices.drop_last().take(j) =~= indices.take(j));
    } else {
        assert(indices.take(j) =~= indices);
    }
}

/// The widened width is at least `n` and exceeds every index of every group.
pub proof fn lemma_widened_width<P: Precision>(n: nat, states: Seq<QubitInitialState<P>>)
    ensures
        n <= widened_width(n, states),
        forall|e: int| 0 <= e < states.len() ==> indices_below(#[trigger] states[e].0@, widened_width(n, states)),
    decreases states.len(),
{
    if states.len() > 0 {
        let front = states.drop_last();
        lemma_widened_width(n, front);
        assert forall|e: int| 0 <= e < states.len() implies indices_below(
            #[trigger] states[e].0@,
            widened_width(n, states),
        ) by {
            if e < states.len() - 1 {
                assert(front[e] == states[e]);
                assert(indices_below(front[e].0@, widened_width(n, front)));
            } else {
                assert forall|j: int| 0 <= j < states[e].0@.len() implies #[trigger] states[e].0@[j]
                    < widened_width(n, states) by {
                    lemma_indices_bound(states[e].0@, j);
                }
            }
        }
    }
}

/// The width grows with the list of groups.
proof fn lemma_widened_width_grows<P: Precision>(n: nat, states: Seq<QubitInitialState<P>>, e: int)
    requires
        0 <= e <= states.len(),
    ensures
        widened_width(n, states.take(e)) <= widened_width(n, states),
    decreases states.len(),
{
    if e < states.len() {
        lemma_widened_width_grows(n, states.drop_last(), e);
        assert(states.drop_last().take(e) =~= states.take(e));
    } else {
        assert(states.take(e) =~= states);
    }
}

/// One more than the largest index of a group.
fn group_bound(indices: &Vec<u64>) -> (bound: u64)
    requires
        indices_bound(indices@) <= u64::MAX,
    ensures
        bound == indices_bound(indices@),
{
    let mut bound: u64 = 0;
    let mut j: usize = 0;
    while j < indices.len()
        invariant
            j <= indices@.len(),
            indices_bound(indices@) <= u64::MAX,
            bound == indices_bound(indices@.take(j as int)),
        decreases indices@.len() - j,
    {
        proof {
            lemma_indices_bound_grows(indices@, j + 1);
            assert(indices@.take(j + 1).drop_last() =~= indices@.take(j as int));
        }
        if indices[j] + 1 > bound {
            bound = indices[j] + 1;
        }
        j = j + 1;
    }
    proof {
        assert(indices@.take(j as int) =~= indices@);
    }
    bound
}

/// The number of qubits of the state that `states` initialise.
pub fn widened_qubit_count<P: Precision>(n: u64, states: &[QubitInitialState<P>]) -> (w: u64)
    requires
        widened_width(n as nat, states@) <= u64::MAX,
    ensures
        w == widened_width(n as nat, states@),
{
    let mut w: u64 = n;
    let mut e: usize = 0;
    while e < states.len()
        invariant
            e <= states@.len(),
            widened_width(n as nat, states@) <= u64::MAX,
            w == widened_width(n as nat, states@.take(e as int)),
        decreases states@.len() - e,
    {
        proof {
            lemma_widened_width_grows(n as nat, states@, e + 1);
            assert(states@.take(e + 1).drop_last() =~= states@.take(e as int));
        }
        let bound = group_bound(&states[e].0);
        if bound > w {
            w = bound;
        }
        e = e + 1;
    }
    proof {
        assert(states@.take(e as int) =~= states@);
    }
    w
}

/// The indices of the first `e` groups, one after the other.
pub open spec fn listed<P: Precision>(states: Seq<QubitInitialState<P>>, e: nat) -> Seq<int>
    decreases e,
{
    if e == 0 {
        Seq::empty()
    } else {
        listed(states, (e - 1) as nat) + states[e - 1].0@.map_values(|a: u64| a as int)
    }
}

/// Every listed index is the index of some group, at the place where that group
/// starts in the list.
proof fn lemma_listed_from<P: Precision>(states: Seq<QubitInitialState<P>>, e: nat, pos: int) -> (at: (int, int))
    requires
        e <= states.len(),
        0 <= pos < listed(states, e).len(),
    ensures
        0 <= at.0 < e,
        0 <= at.1 < states[at.0].0@.len(),
        states[at.0].0@[at.1] == listed(states, e)[pos],
        pos == listed(states, at.0 as nat).len() + at.1,
    decreases e,
{
    let before = listed(states, (e - 1) as nat);
    if pos < before.len() {
        lemma_listed_from(states, (e - 1) as nat, pos)
    } else {
        (e - 1, pos - before.len())
    }
}

/// Disjoint groups of qubits below `w` hold at most `w` qubits.
pub proof fn lemma_listed_fits<P: Precision>(w: nat, states: Seq<QubitInitialState<P>>)
    requires
        groups_disjoint(states),
        forall|e: int| 0 <= e < states.len() ==> indices_below(#[trigger] states[e].0@, w),
    ensures
        listed(states, states.len()).len() <= w,
{
    let all = listed(states, states.len());
    assert forall|p1: int, p2: int| 0 <= p1 < all.len() && 0 <= p2 < all.len() && p1 != p2 implies all[p1]
        != all[p2] by {
        let at1 = lemma_listed_from(states, states.len(), p1);
        let at2 = lemma_listed_from(states, states.len(), p2);
        if all[p1] == all[p2] {
            let a = states[at1.0].0@[at1.1] as nat;
            assert(covers(states, at1.0, at1.1, a));
            assert(covers(states, at2.0, at2.1, a));
        }
    }
    all.unique_seq_to_set();
    lemma_int_range(0, w as int);
    assert forall|a: int| all.to_set().contains(a) implies set_int_range(0, w as int).contains(a) by {
        assert(all.contains(a));
        let pos = choose|pos: int| 0 <= pos < all.len() && all[pos] == a;
        let at = lemma_listed_from(states, states.len(), pos);
        assert(indices_below(states[at.0].0@, w));
        assert(states[at.0].0@[at.1] < w);
        assert(states[at.0].0@[at.1] == a);
    }
    lemma_len_subset(all.to_set(), set_int_range(0, w as int));
}

/// The number of qubits in the full states among the first `e` groups.
pub open spec fn full_offset<P: Precision>(states: Seq<QubitInitialState<P>>, e: nat) -> nat
    decreases e,
{
    if e == 0 {
        0
    } else {
        full_offset(states, (e - 1) as nat) + match states[e - 1].1 {
            InitialState::FullState(_) => states[e - 1].0@.len(),
            InitialState::Index(_) => 0,
        }
    }
}

/// The full states hold no more qubits than all groups together, and the count grows
/// with the list.
pub proof fn lemma_full_offset<P: Precision>(states: Seq<QubitInitialState<P>>, e1: nat, e2: nat)
    requires
        e1 <= e2,
    ensures
        full_offset(states, e1) <= full_offset(states, e2),
        full_offset(states, e2) <= listed(states, e2).len(),
    decreases e2,
{
    if e2 > 0 {
        if e1 < e2 {
            lemma_full_offset(states, e1, (e2 - 1) as nat);
        } else {
            lemma_full_offset(states, (e2 - 1) as nat, (e2 - 1) as nat);
        }
    }
}

/// Valid groups lie below the width, each without a repeated qubit, and their full
/// states hold at most as many qubits as the state has.
pub proof fn lemma_valid_groups<P: Precision>(n: nat, states: Seq<QubitInitialState<P>>)
    requires
        initial_states_valid(n, states),
    ensures
        forall|e: int| 0 <= e < states.len() ==> indices_below(#[trigger] states[e].0@, widened_width(n, states)),
        forall|e: int| 0 <= e < states.len() ==> indices_distinct(#[trigger] states[e].0@),
        forall|e: nat| e <= states.len() ==> #[trigger] full_offset(states, e) <= full_offset(states, states.len()),
        full_offset(states, states.len()) <= widened_width(n, states),
{
    lemma_widened_width(n, states);
    lemma_listed_fits(widened_width(n, states), states);
    lemma_full_offset(states, states.len(), states.len());
    assert forall|e: nat| e <= states.len() implies #[trigger] full_offset(states, e) <= full_offset(
        states,
        states.len(),
    ) by {
        lemma_full_offset(states, e, states.len());
    }
    assert forall|e: int| 0 <= e < states.len() implies indices_distinct(#[trigger] states[e].0@) by {
        assert forall|j1: int, j2: int|
            0 <= j1 < states[e].0@.len() && 0 <= j2 < states[e].0@.len() && j1 != j2 implies #[trigger] states[e].0@[j1]
            != #[trigger] states[e].0@[j2] by {
            if states[e].0@[j1] == states[e].0@[j2] {
                assert(covers(states, e, j1, states[e].0@[j1] as nat));
                assert(covers(states, e, j2, states[e].0@[j1] as nat));
            }
        }
    }
}

/// The number of qubits in the full states.
pub fn full_index_count<P: Precision>(states: &[QubitInitialState<P>]) -> (count: u64)
    requires
        full_offset(states@, states@.len()) <= u64::MAX,
    ensures
        count == full_offset(states@, states@.len()),
{
    let mut count: u64 = 0;
    let mut e: usize = 0;
    while e < states.len()
        invariant
            e <= states@.len(),
            full_offset(states@, states@.len()) <= u64::MAX,
            count == full_offset(states@, e as nat),
        decreases states@.len() - e,
    {
        proof {
            lemma_full_offset(states@, (e + 1) as nat, states@.len());
        }
        match &states[e].1 {
            InitialState::FullState(_) => {
                count = count + states[e].0.len() as u64;
            },
            InitialState::Index(_) => {},
        }
        e = e + 1;
    }
    count
}

/// The address that the first `e` groups fix: each group that starts in a basis state
/// writes that state's bits to its qubits, and every other bit is 0.
pub open spec fn template_upto<P: Precision>(w: nat, states: Seq<QubitInitialState<P>>, e: nat) -> nat
    decreases e,
{
    if e == 0 {
        0
    } else {
        let before = template_upto(w, states, (e - 1) as nat);
        match states[e - 1].1 {
            InitialState::Index(v) => placed(w, states[e - 1].0@, v as nat, before),
            InitialState::FullState(_) => before,
        }
    }
}

/// The address that the groups which start in a basis state fix.
pub fn index_template<P: Precision>(w: u64, states: &[QubitInitialState<P>]) -> (template: u64)
    requires
        w <= 64,
        forall|e: int| 0 <= e < states@.len() ==> indices_below(#[trigger] states@[e].0@, w as nat),
    ensures
        template == template_upto(w as nat, states@, states@.len()),
{
    let mut template: u64 = 0;
    let mut e: usize = 0;
    while e < states.len()
        invariant
            e <= states@.len(),
            w <= 64,
            forall|e: int| 0 <= e < states@.len() ==> indices_below(#[trigger] states@[e].0@, w as nat),
            template == template_upto(w as nat, states@, e as nat),
        decreases states@.len() - e,
    {
        match &states[e].1 {
            InitialState::Index(v) => {
                template = sub_to_full(w, states[e].0.as_slice(), *v, template);
            },
            InitialState::FullState(_) => {},
        }
        e = e + 1;
    }
    template
}

/// The address that the combination `i` of basis states of the full states is written
/// to, and the product of the amplitudes that it picks.
fn combination<P: Precision>(
    w: u64,
    states: &[QubitInitialState<P>],
    template: u64,
    i: u64,
) -> (at: (u64, P::Amplitude))
    requires
        w < 64,
        groups_fit(w as nat, states@),
        full_states_sized(states@),
        full_offset(states@, states@.len()) <= w,
        template == template_upto(w as nat, states@, states@.len()),
    ensures
        at.0 == target(w as nat, states@, i as nat),
        is_combination_product::<P>(states@, i as nat, states@.len(), at.1),
{
    let mut address: u64 = template;
    let mut offset: u64 = 0;
    let mut val = P::one();
    let mut e: usize = 0;
    while e < states.len()
        invariant
            e <= states@.len(),
            w < 64,
            groups_fit(w as nat, states@),
            full_states_sized(states@),
            full_offset(states@, states@.len()) <= w,
            offset == full_offset(states@, e as nat),
            address == target_upto(w as nat, states@, i as nat, e as nat),
            is_combination_product::<P>(states@, i as nat, e as nat, val),
        decreases states@.len() - e,
    {
        proof {
            lemma_full_offset(states@, (e + 1) as nat, states@.len());
        }
        match &states[e].1 {
            InitialState::FullState(vals) => {
                let indices = &states[e].0;
                let width = indices.len() as u64;
                let modulus = pow2_u64(width);
                proof {
                    lemma_pow2_pos(width as nat);
                }
                let sub = (i >> offset) % modulus;
                proof {
                    lemma_u64_shr_is_div(i, offset);
                    lemma_mod_bound((i as nat / pow2(offset as nat)) as int, pow2(width as nat) as int);
                    assert(sub == full_part(states@, i as nat, e as int));
                    assert(indices_below(states@[e as int].0@, w as nat));
                    assert(states@[e as int].1 is FullState);
                    assert(sub < vals.len());
                }
                let ghost before = val;
                val = P::mul(val, vals[sub as usize]);
                address = sub_to_full(w, indices.as_slice(), sub, address);
                offset = offset + width;
                proof {
                    assert(is_product::<P>(before, vals@[full_part(states@, i as nat, e as int) as int], val));
                }
            },
            InitialState::Index(_) => {},
        }
        e = e + 1;
    }
    (address, val)
}

/// Whether some combination below `count` is written to the address `k`.
pub open spec fn reached<P: Precision>(
    w: nat,
    states: Seq<QubitInitialState<P>>,
    count: nat,
    k: nat,
) -> bool {
    exists|i: nat| i < count && #[trigger] target(w, states, i) == k
}

/// Whether `a` is what the address `k` holds once the combinations below `count` are
/// written.
pub open spec fn written<P: Precision>(
    w: nat,
    states: Seq<QubitInitialState<P>>,
    count: nat,
    k: nat,
    a: P::Amplitude,
) -> bool {
    if reached(w, states, count, k) {
        is_tensor_product::<P>(w, states, k, a)
    } else {
        is_zero::<P>(a)
    }
}

/// A vector of `len` copies of `value`.
fn filled<A: Copy>(value: A, len: usize) -> (v: Vec<A>)
    ensures
        v@.len() == len,
        forall|k: int| 0 <= k < len ==> #[trigger] v@[k] == value,
{
    let mut v: Vec<A> = Vec::with_capacity(len);
    let mut k: usize = 0;
    while k < len
        invariant
            k <= len,
            v@.len() == k,
            forall|k2: int| 0 <= k2 < k ==> #[trigger] v@[k2] == value,
        decreases len - k,
    {
        v.push(value);
        k = k + 1;
    }
    v
}

/// The state vector that `states` initialise, with its number of qubits: `n`, or as
/// many more as the largest index asks for.
///
/// The vector is the tensor product of the groups' states, every qubit that no group
/// holds being in state 0: the address `k` holds the product of the amplitudes that
/// the full states give to what `k` restricts to, if `k` is 0 at every qubit that no
/// group holds and restricts to the basis state of every group that starts in one,
/// and 0 otherwise.
pub fn initial_vector<P: Precision>(n: u64, states: &[QubitInitialState<P>]) -> (made: (
    u64,
    Vec<P::Amplitude>,
))
    requires
        initial_states_valid(n as nat, states@),
    ensures
        made.0 == widened_width(n as nat, states@),
        is_initial_vector::<P>(made.0 as nat, states@, made.1@),
{
    proof {
        lemma_valid_groups(n as nat, states@);
    }
    let w = widened_qubit_count(n, states);
    proof {
        lemma_usize_pow2_no_overflow(w as nat);
    }
    let size = pow2_u64(w) as usize;
    let mut cvec = filled(P::zero(), size);
    let full_bits = full_index_count(states);
    let template = index_template(w, states);
    let combinations = pow2_u64(full_bits);
    let mut i: u64 = 0;
    while i < combinations
        invariant
            i <= combinations,
            w < 64,
            combinations == pow2(full_offset(states@, states@.len())),
            groups_fit(w as nat, states@),
            full_states_sized(states@),
            full_offset(states@, states@.len()) <= w,
            template == template_upto(w as nat, states@, states@.len()),
            cvec@.len() == pow2(w as nat),
            forall|k: int|
                0 <= k < cvec@.len() ==> written::<P>(
                    w as nat,
                    states@,
                    i as nat,
                    k as nat,
                    #[trigger] cvec@[k],
                ),
        decreases combinations - i,
    {
        let (address, val) = combination(w, states, template, i);
        proof {
            lemma_target_supported(w as nat, states@, i as nat);
            lemma_combination_is_tensor::<P>(w as nat, states@, i as nat, states@.len(), val);
        }
        let ghost before = cvec@;
        assert(address < cvec.len());
        cvec[address as usize] = val;
        proof {
            assert forall|k: int| 0 <= k < cvec@.len() implies written::<P>(
                w as nat,
                states@,
                (i + 1) as nat,
                k as nat,
                #[trigger] cvec@[k],
            ) by {
                if k == address {
                    assert(target(w as nat, states@, i as nat) == k);
                } else {
                    assert(written::<P>(w as nat, states@, i as nat, k as nat, before[k]));
                    assert(reached(w as nat, states@, (i + 1) as nat, k as nat) == reached(
                        w as nat,
                        states@,
                        i as nat,
                        k as nat,
                    ));
                }
            }
        }
        i = i + 1;
    }
    proof {
        assert forall|k: int| 0 <= k < cvec@.len() implies is_initial_amplitude::<P>(
            w as nat,
            states@,
            k as nat,
            #[trigger] cvec@[k],
        ) by {
            assert(written::<P>(w as nat, states@, i as nat, k as nat, cvec@[k]));
            if supported(w as nat, states@, k as nat) {
                lemma_supported_is_target(w as nat, states@, k as nat);
                let from = crate::scatter::combination_of(w as nat, states@, k as nat, states@.len());
                assert(target(w as nat, states@, from) == k);
            } else if reached(w as nat, states@, i as nat, k as nat) {
                let from = choose|from: nat| from < i && #[trigger] target(w as nat, states@, from) == k;
                lemma_target_supported(w as nat, states@, from);
            }
        }
    }
    (w, cvec)
}

/// Where no group is declared, the state is the basis state 0: the amplitude 1 at the
/// address 0, and 0 at every other.
pub proof fn lemma_unset_vector<P: Precision>(w: nat, v: Seq<P::Amplitude>)
    requires
        is_initial_vector::<P>(w, Seq::<QubitInitialState<P>>::empty(), v),
    ensures
        v.len() == pow2(w),
        is_one::<P>(v[0]),
        forall|k: int| 0 < k < v.len() ==> is_zero::<P>(#[trigger] v[k]),
{
    let none = Seq::<QubitInitialState<P>>::empty();
    lemma_pow2_pos(w);
    lemma_pow2_pos(0);
    assert forall|a: nat| a < w implies !#[trigger] abs_bit(w, 0, a) by {
        lemma_bit_at_above(0, 0, (w - 1 - a) as nat);
    }
    assert(supported(w, none, 0));
    assert(is_initial_amplitude::<P>(w, none, 0, v[0]));
    assert forall|k: int| 0 < k < v.len() implies is_zero::<P>(#[trigger] v[k]) by {
        assert(is_initial_amplitude::<P>(w, none, k as nat, v[k]));
        if supported(w, none, k as nat) {
            assert forall|p: nat| p < w implies bit_at(k as nat, p) == bit_at(0, p) by {
                let a = (w - 1 - p) as nat;
                assert(!covered(none, a));
                assert(!abs_bit(w, k as nat, a));
                lemma_bit_at_above(0, 0, p);
            }
            lemma_bits_determine(w, k as nat, 0);
        }
    }
}

} // verus!
