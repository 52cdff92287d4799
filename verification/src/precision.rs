//! The numeric side of the simulator.
//!
//! Amplitudes are multiplied, and whole state vectors transformed, by an
//! implementation of [`Precision`]. Nothing is known of its arithmetic: contracts
//! speak of what its functions returned, through [`is_zero`], [`is_one`] and
//! [`is_product`].

use vstd::prelude::*;
use vstd::arithmetic::power2::pow2;

verus! {

/// The arithmetic that a simulation runs in: the amplitudes with their product, and
/// the two kernels that transform a whole state vector.
pub trait Precision: Sized {
    /// A complex amplitude.
    type Amplitude: Copy + Send + Sync;

    /// The probability of a measured outcome.
    type Probability;

    /// A unitary operator on some of the qubits.
    type Operator;

    /// The amplitude 0.
    fn zero() -> Self::Amplitude;

    /// The amplitude 1.
    fn one() -> Self::Amplitude;

    /// The product of two amplitudes.
    fn mul(a: Self::Amplitude, b: Self::Amplitude) -> Self::Amplitude;

    /// Fills the scratch buffer `dest` with the state that `op` turns the `n`-qubit
    /// state `source` into, and hands it back. A buffer of another size than `dest`
    /// is not taken for a state.
    fn apply_op(
        n: u64,
        op: &Self::Operator,
        source: &Vec<Self::Amplitude>,
        dest: Vec<Self::Amplitude>,
        multithread: bool,
    ) -> (written: Vec<Self::Amplitude>)
        requires
            source@.len() == pow2(n as nat),
            dest@.len() == pow2(n as nat),
    ;

    /// Measures the qubits at `indices` of the `n`-qubit state `source`, fills the
    /// scratch buffer `dest` with the collapsed state, and hands it back with the
    /// outcome and its probability. A buffer of another size than `dest` is not taken
    /// for a state.
    fn measure(
        n: u64,
        indices: &[u64],
        source: &Vec<Self::Amplitude>,
        dest: Vec<Self::Amplitude>,
    ) -> (measured: (Vec<Self::Amplitude>, (u64, Self::Probability)))
        requires
            source@.len() == pow2(n as nat),
            dest@.len() == pow2(n as nat),
    ;
}

/// Whether `a` is an amplitude that `P::zero` returned.
pub open spec fn is_zero<P: Precision>(a: P::Amplitude) -> bool {
    call_ensures(P::zero, (), a)
}

/// Whether `a` is an amplitude that `P::one` returned.
pub open spec fn is_one<P: Precision>(a: P::Amplitude) -> bool {
    call_ensures(P::one, (), a)
}

/// Whether `r` is what `P::mul` returned for `a` and `b`.
pub open spec fn is_product<P: Precision>(a: P::Amplitude, b: P::Amplitude, r: P::Amplitude) -> bool {
    call_ensures(P::mul, (a, b), r)
}

/// Whether `written` is what `P::apply_op` handed back for these arguments.
pub open spec fn is_transformed<P: Precision>(
    n: u64,
    op: P::Operator,
    source: Vec<P::Amplitude>,
    dest: Vec<P::Amplitude>,
    multithread: bool,
    written: Vec<P::Amplitude>,
) -> bool {
    call_ensures(P::apply_op, (n, &op, &source, dest, multithread), written)
}

/// Whether `collapsed` and `outcome` are what `P::measure` handed back for these
/// arguments.
pub open spec fn is_collapsed<P: Precision>(
    n: u64,
    indices: &[u64],
    source: Vec<P::Amplitude>,
    dest: Vec<P::Amplitude>,
    collapsed: Vec<P::Amplitude>,
    outcome: (u64, P::Probability),
) -> bool {
    call_ensures(P::measure, (n, indices, &source, dest), (collapsed, outcome))
}

} // verus!
