//! Why writing one amplitude for each combination of the full states' basis states
//! makes the tensor product.
//!
//! The initialiser walks the combinations `i` of basis states of the full states,
//! and writes the product of their amplitudes to the address [`target`]. The lemmas
//! here say which address that is, bit by bit, and that every supported address is
//! the target of a combination.

use vstd::prelude::*;
use vstd::arithmetic::power2::{pow2, lemma_pow2_pos, lemma_pow2_unfold, lemma_pow2_adds, lemma2_to64};
use vstd::arithmetic::div_mod::{lemma_basic_div, lemma_mod_bound, lemma_fundamental_div_mod, lemma_fundamental_div_mod_converse, lemma_small_mod, lemma_mod_multiples_vanish};
use crate::bits::{bit_at, placed, indices_below, indices_distinct, lemma_bit_at_above, lemma_raise_bit, lemma_bits_determine, lemma_placed_bound, lemma_placed_at, lemma_placed_elsewhere};
use crate::precision::{Precision, is_one, is_product};
use crate::initial::{InitialState, QubitInitialState, covers, covered, groups_disjoint, abs_bit, sub_index, supported, is_partial_product, full_offset, template_upto, lemma_full_offset};

verus! {

/// The `len` bits of `i` from position `off` upwards.
pub open spec fn slice_of(i: nat, off: nat, len: nat) -> nat {
    (i / pow2(off)) % pow2(len)
}

/// The basis state that the combination `i` gives to the full state of group `e`.
pub open spec fn full_part<P: Precision>(states: Seq<QubitInitialState<P>>, i: nat, e: int) -> nat {
    slice_of(i, full_offset(states, e as nat), states[e].0@.len())
}

/// The address that the combination `i` is written to, after the first `e` groups:
/// the template with the basis state of each full state at its qubits.
pub open spec fn target_upto<P: Precision>(
    w: nat,
    states: Seq<QubitInitialState<P>>,
    i: nat,
    e: nat,
) -> nat
    decreases e,
{
    if e == 0 {
        template_upto(w, states, states.len())
    } else {
        let before = target_upto(w, states, i, (e - 1) as nat);
        match states[e - 1].1 {
            InitialState::FullState(_) => placed(w, states[e - 1].0@, full_part(states, i, e - 1), before),
            InitialState::Index(_) => before,
        }
    }
}

/// The address that the combination `i` is written to.
pub open spec fn target<P: Precision>(w: nat, states: Seq<QubitInitialState<P>>, i: nat) -> nat {
    target_upto(w, states, i, states.len())
}

/// Whether `a` is the product, taken from 1 in the order of the groups, of the
/// amplitudes that the combination `i` picks from the full states among the first `e`
/// groups.
pub open spec fn is_combination_product<P: Precision>(
    states: Seq<QubitInitialState<P>>,
    i: nat,
    e: nat,
    a: P::Amplitude,
) -> bool
    decreases e,
{
    if e == 0 {
        is_one::<P>(a)
    } else {
        match states[e - 1].1 {
            InitialState::FullState(vals) => exists|before: P::Amplitude|
                is_combination_product::<P>(states, i, (e - 1) as nat, before)
                    && #[trigger] is_product::<P>(before, vals@[full_part(states, i, e - 1) as int], a),
            InitialState::Index(_) => is_combination_product::<P>(states, i, (e - 1) as nat, a),
        }
    }
}

/// What the lemmas ask of the groups: they lie below the width and are disjoint.
pub open spec fn groups_fit<P: Precision>(w: nat, states: Seq<QubitInitialState<P>>) -> bool {
    &&& groups_disjoint(states)
    &&& forall|e: int| 0 <= e < states.len() ==> indices_below(#[trigger] states[e].0@, w)
    &&& forall|e: int| 0 <= e < states.len() ==> indices_distinct(#[trigger] states[e].0@)
}

/// The restriction of `k` to a group is a basis state of the group, and its bit `j`
/// is the group's `j`-th qubit in `k`.
pub proof fn lemma_sub_index(w: nat, indices: Seq<u64>, k: nat, j: int)
    ensures
        sub_index(w, indices, k) < pow2(indices.len()),
        0 <= j < indices.len() ==> bit_at(sub_index(w, indices, k), j as nat) == abs_bit(
            w,
            k,
            indices[j] as nat,
        ),
    decreases indices.len(),
{
    lemma2_to64();
    if indices.len() > 0 {
        let m = (indices.len() - 1) as nat;
        let front = indices.drop_last();
        let low = sub_index(w, front, k);
        let q: nat = if 0 <= j < indices.len() { j as nat } else { 0 };
        lemma_sub_index(w, front, k, j);
        lemma_pow2_unfold(m + 1);
        lemma_bit_at_above(m, low, m);
        if q > m {
        } else if abs_bit(w, k, indices.last() as nat) {
            assert(sub_index(w, indices, k) == low + pow2(m)) by (nonlinear_arith)
                requires
                    sub_index(w, indices, k) == low + 1 * pow2(m),
            ;
            lemma_raise_bit(m + 1, low, m, q);
        } else {
            assert(sub_index(w, indices, k) == low) by (nonlinear_arith)
                requires
                    sub_index(w, indices, k) == low + 0 * pow2(m),
            ;
        }
    }
}

/// The template is an address of the state.
pub proof fn lemma_template_bound<P: Precision>(w: nat, states: Seq<QubitInitialState<P>>, e: nat)
    requires
        groups_fit(w, states),
        e <= states.len(),
    ensures
        template_upto(w, states, e) < pow2(w),
    decreases e,
{
    lemma_pow2_pos(w);
    if e > 0 {
        lemma_template_bound(w, states, (e - 1) as nat);
        match states[e - 1].1 {
            InitialState::Index(v) => {
                lemma_placed_bound(w, states[e - 1].0@, v as nat, template_upto(w, states, (e - 1) as nat));
            },
            InitialState::FullState(_) => {},
        }
    }
}

/// In the template, a qubit of a group that starts in a basis state has its bit of
/// that state.
pub proof fn lemma_template_set<P: Precision>(
    w: nat,
    states: Seq<QubitInitialState<P>>,
    count: nat,
    e: int,
    j: int,
)
    requires
        groups_fit(w, states),
        count <= states.len(),
        0 <= e < count,
        0 <= j < states[e].0@.len(),
        states[e].1 is Index,
    ensures
        bit_at(template_upto(w, states, count), (w - 1 - states[e].0@[j]) as nat) == bit_at(
            states[e].1->Index_0 as nat,
            j as nat,
        ),
    decreases count,
{
    let last = count - 1;
    let before = template_upto(w, states, last as nat);
    let q = (w - 1 - states[e].0@[j]) as nat;
    lemma_template_bound(w, states, last as nat);
    if e == last {
        lemma_placed_at(w, states[e].0@, states[e].1->Index_0 as nat, before, j);
    } else {
        lemma_template_set(w, states, last as nat, e, j);
        match states[last].1 {
            InitialState::Index(v) => {
                assert forall|j2: int| 0 <= j2 < states[last].0@.len() implies w - 1
                    - #[trigger] states[last].0@[j2] != q by {
                    if states[last].0@[j2] == states[e].0@[j] {
                        assert(covers(states, last, j2, states[e].0@[j] as nat));
                        assert(covers(states, e, j, states[e].0@[j] as nat));
                    }
                }
                lemma_placed_elsewhere(w, states[last].0@, v as nat, before, q);
            },
            InitialState::FullState(_) => {},
        }
    }
}

/// In the template, a position that is no qubit of a group that starts in a basis
/// state is 0.
pub proof fn lemma_template_clear<P: Precision>(
    w: nat,
    states: Seq<QubitInitialState<P>>,
    count: nat,
    q: nat,
)
    requires
        groups_fit(w, states),
        count <= states.len(),
        forall|e: int, j: int|
            0 <= e < count && 0 <= j < states[e].0@.len() && states[e].1 is Index ==> w - 1
                - #[trigger] states[e].0@[j] != q,
    ensures
        !bit_at(template_upto(w, states, count), q),
    decreases count,
{
    if count == 0 {
        lemma_pow2_pos(q);
        lemma_basic_div(0, pow2(q) as int);
    } else {
        let last = count - 1;
        let before = template_upto(w, states, last as nat);
        lemma_template_bound(w, states, last as nat);
        lemma_template_clear(w, states, last as nat, q);
        match states[last].1 {
            InitialState::Index(v) => {
                lemma_placed_elsewhere(w, states[last].0@, v as nat, before, q);
            },
            InitialState::FullState(_) => {},
        }
    }
}

/// The target of a combination is an address of the state.
pub proof fn lemma_target_bound<P: Precision>(
    w: nat,
    states: Seq<QubitInitialState<P>>,
    i: nat,
    e: nat,
)
    requires
        groups_fit(w, states),
        e <= states.len(),
    ensures
        target_upto(w, states, i, e) < pow2(w),
    decreases e,
{
    if e == 0 {
        lemma_template_bound(w, states, states.len());
    } else {
        lemma_target_bound(w, states, i, (e - 1) as nat);
        match states[e - 1].1 {
            InitialState::FullState(_) => {
                lemma_placed_bound(
                    w,
                    states[e - 1].0@,
                    full_part(states, i, e - 1),
                    target_upto(w, states, i, (e - 1) as nat),
                );
            },
            InitialState::Index(_) => {},
        }
    }
}

/// In the target, a qubit of a full state has its bit of the basis state that the
/// combination gives to that full state.
pub proof fn lemma_target_set<P: Precision>(
    w: nat,
    states: Seq<QubitInitialState<P>>,
    i: nat,
    count: nat,
    e: int,
    j: int,
)
    requires
        groups_fit(w, states),
        count <= states.len(),
        0 <= e < count,
        0 <= j < states[e].0@.len(),
        states[e].1 is FullState,
    ensures
        bit_at(target_upto(w, states, i, count), (w - 1 - states[e].0@[j]) as nat) == bit_at(
            full_part(states, i, e),
            j as nat,
        ),
    decreases count,
{
    let last = count - 1;
    let before = target_upto(w, states, i, last as nat);
    let q = (w - 1 - states[e].0@[j]) as nat;
    lemma_target_bound(w, states, i, last as nat);
    if e == last {
        lemma_placed_at(w, states[e].0@, full_part(states, i, e), before, j);
    } else {
        lemma_target_set(w, states, i, last as nat, e, j);
        match states[last].1 {
            InitialState::FullState(_) => {
                assert forall|j2: int| 0 <= j2 < states[last].0@.len() implies w - 1
                    - #[trigger] states[last].0@[j2] != q by {
                    if states[last].0@[j2] == states[e].0@[j] {
                        assert(covers(states, last, j2, states[e].0@[j] as nat));
                        assert(covers(states, e, j, states[e].0@[j] as nat));
                    }
                }
                lemma_placed_elsewhere(w, states[last].0@, full_part(states, i, last), before, q);
            },
            InitialState::Index(_) => {},
        }
    }
}

/// In the target, a position that is no qubit of a full state is as in the template.
pub proof fn lemma_target_keeps<P: Precision>(
    w: nat,
    states: Seq<QubitInitialState<P>>,
    i: nat,
    count: nat,
    q: nat,
)
    requires
        groups_fit(w, states),
        count <= states.len(),
        forall|e: int, j: int|
            0 <= e < count && 0 <= j < states[e].0@.len() && states[e].1 is FullState ==> w - 1
                - #[trigger] states[e].0@[j] != q,
    ensures
        bit_at(target_upto(w, states, i, count), q) == bit_at(
            template_upto(w, states, states.len()),
            q,
        ),
    decreases count,
{
    if count > 0 {
        let last = count - 1;
        let before = target_upto(w, states, i, last as nat);
        lemma_target_bound(w, states, i, last as nat);
        lemma_target_keeps(w, states, i, last as nat, q);
        match states[last].1 {
            InitialState::FullState(_) => {
                lemma_placed_elsewhere(w, states[last].0@, full_part(states, i, last), before, q);
            },
            InitialState::Index(_) => {},
        }
    }
}

/// In the target, a qubit of a group that starts in a basis state has its bit of that
/// state.
pub proof fn lemma_target_index_bit<P: Precision>(
    w: nat,
    states: Seq<QubitInitialState<P>>,
    i: nat,
    e: int,
    j: int,
)
    requires
        groups_fit(w, states),
        0 <= e < states.len(),
        0 <= j < states[e].0@.len(),
        states[e].1 is Index,
    ensures
        abs_bit(w, target(w, states, i), states[e].0@[j] as nat) == bit_at(
            states[e].1->Index_0 as nat,
            j as nat,
        ),
{
    let a = states[e].0@[j] as nat;
    let q = (w - 1 - a) as nat;
    assert(indices_below(states[e].0@, w));
    assert forall|e2: int, j2: int|
        0 <= e2 < states.len() && 0 <= j2 < states[e2].0@.len() && states[e2].1 is FullState implies w
        - 1 - #[trigger] states[e2].0@[j2] != q by {
        if states[e2].0@[j2] == a {
            assert(covers(states, e2, j2, a));
            assert(covers(states, e, j, a));
        }
    }
    lemma_target_keeps(w, states, i, states.len(), q);
    lemma_template_set(w, states, states.len(), e, j);
}

/// In the target, a qubit that no group holds is 0.
pub proof fn lemma_target_free_bit<P: Precision>(
    w: nat,
    states: Seq<QubitInitialState<P>>,
    i: nat,
    a: nat,
)
    requires
        groups_fit(w, states),
        a < w,
        !covered(states, a),
    ensures
        !abs_bit(w, target(w, states, i), a),
{
    let q = (w - 1 - a) as nat;
    assert forall|e: int, j: int| 0 <= e < states.len() && 0 <= j < states[e].0@.len() implies w - 1
        - #[trigger] states[e].0@[j] != q by {
        if states[e].0@[j] == a {
            assert(covers(states, e, j, a));
        }
    }
    lemma_target_keeps(w, states, i, states.len(), q);
    lemma_template_clear(w, states, states.len(), q);
}

/// The target of a combination is a supported address.
pub proof fn lemma_target_supported<P: Precision>(w: nat, states: Seq<QubitInitialState<P>>, i: nat)
    requires
        groups_fit(w, states),
    ensures
        target(w, states, i) < pow2(w),
        supported(w, states, target(w, states, i)),
{
    let k = target(w, states, i);
    lemma_target_bound(w, states, i, states.len());
    assert forall|a: nat| a < w && !covered(states, a) implies !#[trigger] abs_bit(w, k, a) by {
        lemma_target_free_bit(w, states, i, a);
    }
    assert forall|e: int, j: int| 0 <= e < states.len() && 0 <= j < states[e].0@.len() implies (
    states[e].1 matches InitialState::Index(v) ==> abs_bit(w, k, #[trigger] states[e].0@[j] as nat)
        == bit_at(v as nat, j as nat)) by {
        if states[e].1 is Index {
            lemma_target_index_bit(w, states, i, e, j);
        }
    }
}

/// The target of a combination restricts, on each full state, to the basis state
/// that the combination gives to it.
pub proof fn lemma_target_restricts<P: Precision>(
    w: nat,
    states: Seq<QubitInitialState<P>>,
    i: nat,
    e: int,
)
    requires
        groups_fit(w, states),
        0 <= e < states.len(),
        states[e].1 is FullState,
    ensures
        sub_index(w, states[e].0@, target(w, states, i)) == full_part(states, i, e),
        full_part(states, i, e) < pow2(states[e].0@.len()),
{
    let k = target(w, states, i);
    let indices = states[e].0@;
    let sub = sub_index(w, indices, k);
    let part = full_part(states, i, e);
    lemma_pow2_pos(indices.len());
    lemma_mod_bound((i / pow2(full_offset(states, e as nat))) as int, pow2(indices.len()) as int);
    lemma_sub_index(w, indices, k, 0);
    assert(indices_below(indices, w));
    assert forall|p: nat| p < indices.len() implies bit_at(sub, p) == bit_at(part, p) by {
        lemma_sub_index(w, indices, k, p as int);
        lemma_target_set(w, states, i, states.len(), e, p as int);
        assert(indices[p as int] < w);
    }
    lemma_bits_determine(indices.len(), sub, part);
}

/// The product that a combination picks is the tensor product at its target.
pub proof fn lemma_combination_is_tensor<P: Precision>(
    w: nat,
    states: Seq<QubitInitialState<P>>,
    i: nat,
    e: nat,
    a: P::Amplitude,
)
    requires
        groups_fit(w, states),
        e <= states.len(),
        is_combination_product::<P>(states, i, e, a),
    ensures
        is_partial_product::<P>(w, states, target(w, states, i), e, a),
    decreases e,
{
    if e > 0 {
        match states[e - 1].1 {
            InitialState::FullState(vals) => {
                let before = choose|before: P::Amplitude|
                    is_combination_product::<P>(states, i, (e - 1) as nat, before)
                        && #[trigger] is_product::<P>(before, vals@[full_part(states, i, e - 1) as int], a);
                lemma_combination_is_tensor::<P>(w, states, i, (e - 1) as nat, before);
                lemma_target_restricts(w, states, i, e - 1);
                assert(is_partial_product::<P>(w, states, target(w, states, i), (e - 1) as nat, before));
            },
            InitialState::Index(_) => {
                lemma_combination_is_tensor::<P>(w, states, i, (e - 1) as nat, a);
            },
        }
    }
}

/// Above a number below `2^off`, the bits of `s` start at position `off`.
pub proof fn lemma_slice_of_top(c: nat, s: nat, off: nat, len: nat)
    requires
        c < pow2(off),
        s < pow2(len),
    ensures
        slice_of(c + s * pow2(off), off, len) == s,
        c + s * pow2(off) < pow2(off + len),
{
    let d = pow2(off);
    lemma_pow2_pos(off);
    lemma_pow2_pos(len);
    lemma_pow2_adds(off, len);
    lemma_fundamental_div_mod_converse((c + s * d) as int, d as int, s as int, c as int);
    lemma_small_mod(s, pow2(len));
    assert(c + s * d < d * pow2(len)) by (nonlinear_arith)
        requires
            c < d,
            s < pow2(len),
    ;
}

/// What is added at or above position `off` leaves the slices below `off` alone.
pub proof fn lemma_slice_of_below(c: nat, s: nat, off: nat, off2: nat, len2: nat)
    requires
        off2 + len2 <= off,
    ensures
        slice_of(c + s * pow2(off), off2, len2) == slice_of(c, off2, len2),
{
    let d = pow2(off2);
    let m = pow2(len2);
    let rest = pow2((off - off2 - len2) as nat);
    let high = s * rest;
    lemma_pow2_pos(off2);
    lemma_pow2_pos(len2);
    lemma_pow2_adds(off2, len2);
    lemma_pow2_adds(off2 + len2, (off - off2 - len2) as nat);
    lemma_fundamental_div_mod(c as int, d as int);
    lemma_mod_bound(c as int, d as int);
    let x = c + s * pow2(off);
    assert(x == (c / d + m * high) * d + c % d) by (nonlinear_arith)
        requires
            x == c + s * pow2(off),
            pow2(off) == d * m * rest,
            high == s * rest,
            c == d * (c / d) + c % d,
    ;
    lemma_fundamental_div_mod_converse(x as int, d as int, (c / d + m * high) as int, (c % d) as int);
    lemma_mod_multiples_vanish(high as int, (c / d) as int, m as int);
}

/// The combination whose target is `k`, as far as the first `e` groups give it: each
/// full state contributes the basis state that `k` restricts to.
pub open spec fn combination_of<P: Precision>(
    w: nat,
    states: Seq<QubitInitialState<P>>,
    k: nat,
    e: nat,
) -> nat
    decreases e,
{
    if e == 0 {
        0
    } else {
        combination_of(w, states, k, (e - 1) as nat) + match states[e - 1].1 {
            InitialState::FullState(_) => sub_index(w, states[e - 1].0@, k) * pow2(
                full_offset(states, (e - 1) as nat),
            ),
            InitialState::Index(_) => 0,
        }
    }
}

/// The combination of `k` is a combination of the full states among the first
/// `count` groups, and gives to each of them what `k` restricts to.
pub proof fn lemma_combination_of<P: Precision>(
    w: nat,
    states: Seq<QubitInitialState<P>>,
    k: nat,
    count: nat,
    e: int,
)
    requires
        count <= states.len(),
    ensures
        combination_of(w, states, k, count) < pow2(full_offset(states, count)),
        0 <= e < count && states[e].1 is FullState ==> full_part(
            states,
            combination_of(w, states, k, count),
            e,
        ) == sub_index(w, states[e].0@, k),
    decreases count,
{
    lemma2_to64();
    if count > 0 {
        let last = count - 1;
        let before = combination_of(w, states, k, last as nat);
        let off = full_offset(states, last as nat);
        lemma_combination_of(w, states, k, last as nat, e);
        match states[last].1 {
            InitialState::FullState(_) => {
                let sub = sub_index(w, states[last].0@, k);
                lemma_sub_index(w, states[last].0@, k, 0);
                lemma_slice_of_top(before, sub, off, states[last].0@.len());
                if 0 <= e < last && states[e].1 is FullState {
                    lemma_full_offset(states, (e + 1) as nat, last as nat);
                    lemma_slice_of_below(
                        before,
                        sub,
                        off,
                        full_offset(states, e as nat),
                        states[e].0@.len(),
                    );
                }
            },
            InitialState::Index(_) => {},
        }
    }
}

/// Every supported address is the target of a combination.
pub proof fn lemma_supported_is_target<P: Precision>(
    w: nat,
    states: Seq<QubitInitialState<P>>,
    k: nat,
)
    requires
        groups_fit(w, states),
        k < pow2(w),
        supported(w, states, k),
    ensures
        combination_of(w, states, k, states.len()) < pow2(full_offset(states, states.len())),
        target(w, states, combination_of(w, states, k, states.len())) == k,
{
    let i = combination_of(w, states, k, states.len());
    let t = target(w, states, i);
    lemma_combination_of(w, states, k, states.len(), 0);
    lemma_target_bound(w, states, i, states.len());
    assert forall|q: nat| q < w implies bit_at(t, q) == bit_at(k, q) by {
        let a = (w - 1 - q) as nat;
        if covered(states, a) {
            let (e, j) = choose|e: int, j: int| covers(states, e, j, a);
            match states[e].1 {
                InitialState::FullState(_) => {
                    lemma_target_set(w, states, i, states.len(), e, j);
                    lemma_combination_of(w, states, k, states.len(), e);
                    lemma_sub_index(w, states[e].0@, k, j);
                },
                InitialState::Index(_) => {
                    lemma_target_index_bit(w, states, i, e, j);
                },
            }
        } else {
            lemma_target_free_bit(w, states, i, a);
            assert(!abs_bit(w, k, a));
        }
    }
    lemma_bits_determine(w, t, k);
}

} // verus!
