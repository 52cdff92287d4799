//! The state vector: `2^n` amplitudes and a scratch buffer of the same size. Every
//! operation reads the one, fills the other, and the two change roles.

use vstd::prelude::*;
use vstd::arithmetic::power2::pow2;
use crate::bits::{reflect, flip_bits, lemma_reflect_bound, lemma_reflect_involution};
use crate::precision::{Precision, is_zero, is_one, is_transformed, is_collapsed};
use crate::initial::{QubitInitialState, initial_states_valid, widened_width, is_initial_vector, initial_vector, lemma_unset_vector};
use rayon::iter::{IndexedParallelIterator, IntoParallelRefMutIterator, ParallelIterator};

verus! {

/// States of more qubits than this are transformed in parallel.
pub const PARALLEL_THRESHOLD: u64 = 0;

/// `source` read through the reflection of its addresses: the amplitudes in natural
/// order, where qubit 0 is the least significant bit of an address.
pub open spec fn reflected<A>(n: nat, source: Seq<A>) -> Seq<A> {
    Seq::new(source.len(), |i: int| source[reflect(n, i as nat) as int])
}

/// The amplitude that the address `i` has in natural order.
pub fn reflected_at<A: Copy>(n: u64, source: &Vec<A>, i: usize) -> (a: A)
    requires
        n < usize::BITS,
        source@.len() == pow2(n as nat),
        i < source@.len(),
    ensures
        a == reflected(n as nat, source@)[i as int],
{
    let flipped = flip_bits(n as usize, i as u64);
    proof {
        lemma_reflect_bound(n as nat, i as nat);
        assert(flipped < source.len());
        assert(reflected(n as nat, source@)[i as int] == source@[flipped as int]);
    }
    source[flipped as usize]
}

/// Fills `dest` with `source` in natural order, the addresses shared out among
/// rayon's worker threads.
///
/// Not proved: the body is rayon's `par_iter_mut` on `dest`, followed by `enumerate`
/// and `for_each`. The contract says of them what rayon documents: the closure is
/// called once for every slot of `dest`, with the position of the slot counted from
/// 0, and `dest` keeps its length. The closure assigns to the slot at `i` what
/// [`reflected_at`] returns for `i`.
#[verifier::external_body]
fn par_reflect_into<A: Copy + Send + Sync>(n: u64, source: &Vec<A>, dest: &mut Vec<A>)
    requires
        n < usize::BITS,
        source@.len() == pow2(n as nat),
        old(dest)@.len() == source@.len(),
    ensures
        final(dest)@ == reflected(n as nat, source@),
{
    dest.par_iter_mut().enumerate().for_each(|(i, slot)| *slot = reflected_at(n, source, i));
}

/// Fills `dest` with `source` in natural order, one address after the other.
fn reflect_into<A: Copy>(n: u64, source: &Vec<A>, dest: &mut Vec<A>)
    requires
        n < usize::BITS,
        source@.len() == pow2(n as nat),
        old(dest)@.len() == source@.len(),
    ensures
        final(dest)@ == reflected(n as nat, source@),
{
    let mut i: usize = 0;
    while i < dest.len()
        invariant
            n < usize::BITS,
            source@.len() == pow2(n as nat),
            dest@.len() == source@.len(),
            i <= dest@.len(),
            forall|k: int| 0 <= k < i ==> dest@[k] == reflected(n as nat, source@)[k],
        decreases dest@.len() - i,
    {
        dest[i] = reflected_at(n, source, i);
        i = i + 1;
    }
    assert(dest@ =~= reflected(n as nat, source@));
}

/// The state of the qubits.
pub trait QuantumState<P: Precision>: Sized {
    /// Whether the state holds an amplitude for each of its basis states.
    spec fn wf(&self) -> bool;

    /// The number of qubits.
    spec fn qubits(&self) -> nat;

    /// The amplitudes, in the order in which qubit 0 is the most significant bit of
    /// an address.
    spec fn amplitudes(&self) -> Seq<P::Amplitude>;

    /// Whether `post` is what `op` turned `pre` into.
    spec fn applied(pre: Self, op: P::Operator, post: Self) -> bool;

    /// Whether `post` and `outcome` are what a measurement of the qubits at `indices`
    /// turned `pre` into.
    spec fn measured(
        pre: Self,
        indices: &[u64],
        post: Self,
        outcome: (u64, P::Probability),
    ) -> bool;

    /// The state of `n` qubits that are all 0: the amplitude 1 at the address 0, and
    /// 0 elsewhere.
    fn new(n: u64) -> (s: Self)
        requires
            n < usize::BITS,
        ensures
            s.wf(),
            s.qubits() == n,
            s.amplitudes().len() == pow2(n as nat),
            is_one::<P>(s.amplitudes()[0]),
            forall|k: int| 0 < k < s.amplitudes().len() ==> is_zero::<P>(#[trigger] s.amplitudes()[k]),
    ;

    /// The state that `states` initialise: of `n` qubits, or of as many more as the
    /// largest index asks for.
    fn new_from_initial_states(n: u64, states: &[QubitInitialState<P>]) -> (s: Self)
        requires
            initial_states_valid(n as nat, states@),
        ensures
            s.wf(),
            s.qubits() == widened_width(n as nat, states@),
            is_initial_vector::<P>(s.qubits(), states@, s.amplitudes()),
    ;

    /// Turns the state into the state with `op` applied.
    fn apply_op(&mut self, op: &P::Operator)
        requires
            old(self).wf(),
        ensures
            final(self).wf(),
            final(self).qubits() == old(self).qubits(),
            Self::applied(*old(self), *op, *final(self)),
    ;

    /// Measures the qubits at `indices`, and returns the outcome with its probability.
    fn measure(&mut self, indices: &[u64]) -> (outcome: (u64, P::Probability))
        requires
            old(self).wf(),
        ensures
            final(self).wf(),
            final(self).qubits() == old(self).qubits(),
            Self::measured(*old(self), indices, *final(self), outcome),
    ;

    /// The amplitudes. In natural order qubit 0 is the least significant bit of an
    /// address, else the most significant.
    fn get_state(self, natural_order: bool) -> (v: Vec<P::Amplitude>)
        requires
            self.wf(),
        ensures
            v@ == (if natural_order {
                reflected(self.qubits(), self.amplitudes())
            } else {
                self.amplitudes()
            }),
    ;
}

/// A state held in this machine's memory.
pub struct LocalQuantumState<P: Precision> {
    /// The number of qubits.
    pub n: u64,
    /// The amplitudes.
    pub state: Vec<P::Amplitude>,
    /// The buffer that the next operation fills.
    pub arena: Vec<P::Amplitude>,
    /// Whether the state is transformed in parallel.
    pub multithread: bool,
}

impl<P: Precision> LocalQuantumState<P> {
    /// The state that `states` initialise, transformed in parallel if it has more than
    /// `threshold` qubits.
    pub fn with_parallel_threshold(n: u64, states: &[QubitInitialState<P>], threshold: u64) -> (s:
        Self)
        requires
            initial_states_valid(n as nat, states@),
        ensures
            s.wf(),
            s.n == widened_width(n as nat, states@),
            is_initial_vector::<P>(s.n as nat, states@, s.state@),
            s.arena@ == s.state@,
            s.multithread == (s.n > threshold),
    {
        let (n, cvec) = initial_vector::<P>(n, states);
        let arena = copy_of(&cvec);
        LocalQuantumState { n, state: cvec, arena, multithread: n > threshold }
    }

    /// Takes the buffer that a kernel filled for the state, and the buffer that held
    /// the state for the scratch buffer.
    fn take_filled(&mut self, filled: Vec<P::Amplitude>)
        requires
            old(self).state@.len() == pow2(old(self).n as nat),
        ensures
            final(self).n == old(self).n,
            final(self).multithread == old(self).multithread,
            final(self).state@.len() == old(self).state@.len(),
            final(self).arena@.len() == old(self).state@.len(),
            final(self).n < usize::BITS ==> final(self).wf(),
            buffers_after(*old(self), filled, *final(self)),
    {
        let mut filled = filled;
        if filled.len() == self.state.len() {
            std::mem::swap(&mut self.state, &mut filled);
            self.arena = filled;
        } else {
            self.arena = copy_of(&self.state);
        }
    }
}

/// Whether the buffers of `post` are those of `pre` after a kernel handed back
/// `filled`: the buffer that was filled holds the state, and the buffer that held the
/// state is the scratch buffer. A buffer of another size is no state: the state is
/// then as it was.
pub open spec fn buffers_after<P: Precision>(
    pre: LocalQuantumState<P>,
    filled: Vec<P::Amplitude>,
    post: LocalQuantumState<P>,
) -> bool {
    if filled@.len() == pre.state@.len() {
        post.state == filled && post.arena == pre.state
    } else {
        post.state == pre.state && post.arena@ == pre.state@
    }
}

/// A copy of `source`.
fn copy_of<A: Copy>(source: &Vec<A>) -> (copy: Vec<A>)
    ensures
        copy@ == source@,
{
    let mut copy: Vec<A> = Vec::with_capacity(source.len());
    let mut k: usize = 0;
    while k < source.len()
        invariant
            k <= source@.len(),
            copy@ == source@.take(k as int),
        decreases source@.len() - k,
    {
        copy.push(source[k]);
        assert(copy@ =~= source@.take(k + 1));
        k = k + 1;
    }
    assert(source@.take(k as int) =~= source@);
    copy
}

impl<P: Precision> QuantumState<P> for LocalQuantumState<P> {
    open spec fn wf(&self) -> bool {
        &&& self.n < usize::BITS
        &&& self.state@.len() == pow2(self.n as nat)
        &&& self.arena@.len() == pow2(self.n as nat)
    }

    open spec fn qubits(&self) -> nat {
        self.n as nat
    }

    open spec fn amplitudes(&self) -> Seq<P::Amplitude> {
        self.state@
    }

    /// The kernel filled the scratch buffer with the new state, and the two buffers
    /// changed roles.
    open spec fn applied(pre: Self, op: P::Operator, post: Self) -> bool {
        &&& post.n == pre.n
        &&& post.multithread == pre.multithread
        &&& exists|written: Vec<P::Amplitude>| #[trigger]
            is_transformed::<P>(pre.n, op, pre.state, pre.arena, pre.multithread, written)
                && buffers_after(pre, written, post)
    }

    /// The kernel filled the scratch buffer with the collapsed state, and the two
    /// buffers changed roles.
    open spec fn measured(
        pre: Self,
        indices: &[u64],
        post: Self,
        outcome: (u64, P::Probability),
    ) -> bool {
        &&& post.n == pre.n
        &&& post.multithread == pre.multithread
        &&& exists|collapsed: Vec<P::Amplitude>| #[trigger]
            is_collapsed::<P>(pre.n, indices, pre.state, pre.arena, collapsed, outcome)
                && buffers_after(pre, collapsed, post)
    }

    fn new(n: u64) -> (s: Self)
        ensures
            s.n == n,
            s.arena@ == s.state@,
            s.multithread == (n > PARALLEL_THRESHOLD),
    {
        let states: Vec<QubitInitialState<P>> = Vec::new();
        let s = Self::new_from_initial_states(n, states.as_slice());
        proof {
            lemma_unset_vector::<P>(n as nat, s.amplitudes());
        }
        s
    }

    fn new_from_initial_states(n: u64, states: &[QubitInitialState<P>]) -> (s: Self)
        ensures
            s.arena@ == s.state@,
            s.multithread == (s.n > PARALLEL_THRESHOLD),
    {
        Self::with_parallel_threshold(n, states, PARALLEL_THRESHOLD)
    }

    fn apply_op(&mut self, op: &P::Operator) {
        let mut dest: Vec<P::Amplitude> = Vec::new();
        std::mem::swap(&mut self.arena, &mut dest);
        let written = P::apply_op(self.n, op, &self.state, dest, self.multithread);
        self.take_filled(written);
        proof {
            assert(is_transformed::<P>(
                old(self).n,
                *op,
                old(self).state,
                old(self).arena,
                old(self).multithread,
                written,
            ));
            assert(buffers_after(*old(self), written, *self));
        }
    }

    fn measure(&mut self, indices: &[u64]) -> (outcome: (u64, P::Probability)) {
        let mut dest: Vec<P::Amplitude> = Vec::new();
        std::mem::swap(&mut self.arena, &mut dest);
        let (collapsed, outcome) = P::measure(self.n, indices, &self.state, dest);
        self.take_filled(collapsed);
        proof {
            assert(is_collapsed::<P>(
                old(self).n,
                indices,
                old(self).state,
                old(self).arena,
                collapsed,
                outcome,
            ));
            assert(buffers_after(*old(self), collapsed, *self));
        }
        outcome
    }

    fn get_state(self, natural_order: bool) -> (v: Vec<P::Amplitude>) {
        let LocalQuantumState { n, state, mut arena, multithread } = self;
        if natural_order {
            if multithread {
                par_reflect_into(n, &state, &mut arena);
            } else {
                reflect_into(n, &state, &mut arena);
            }
            arena
        } else {
            state
        }
    }
}

/// Reading a state in natural order, and what was read in natural order again, gives
/// the state back.
pub proof fn lemma_reflected_twice<A>(n: nat, source: Seq<A>)
    requires
        source.len() == pow2(n),
    ensures
        reflected(n, reflected(n, source)) == source,
{
    let once = reflected(n, source);
    let twice = reflected(n, once);
    assert forall|i: int| 0 <= i < source.len() implies twice[i] == source[i] by {
        lemma_reflect_bound(n, i as nat);
        lemma_reflect_involution(n, i as nat);
    }
    assert(twice =~= source);
}

/// Whether `post` came from `pre` by one operation or one measurement.
pub open spec fn is_successor<P: Precision>(
    pre: LocalQuantumState<P>,
    post: LocalQuantumState<P>,
) -> bool {
    ||| exists|op: P::Operator| #[trigger] LocalQuantumState::<P>::applied(pre, op, post)
    ||| exists|indices: &[u64], outcome: (u64, P::Probability)| #[trigger]
        LocalQuantumState::<P>::measured(pre, indices, post, outcome)
}

/// The two buffers change roles with every operation and measurement: the buffer
/// that held the state before is the scratch buffer after. Where the operations leave
/// the amplitudes as they are, every state of the run has the amplitudes of the
/// first, and from the first step on the scratch buffer has them too.
pub proof fn lemma_buffers_change_roles<P: Precision>(run: Seq<LocalQuantumState<P>>, k: int)
    requires
        forall|i: int| 0 < i < run.len() ==> is_successor(run[i - 1], #[trigger] run[i]),
        forall|i: int| 0 < i < run.len() ==> (#[trigger] run[i]).state@ == run[i - 1].state@,
        0 <= k < run.len(),
    ensures
        run[k].n == run[0].n,
        run[k].multithread == run[0].multithread,
        run[k].state@ == run[0].state@,
        k > 0 ==> run[k].arena@ == run[k - 1].state@,
        k > 0 ==> run[k].arena@ == run[0].state@,
    decreases k,
{
    if k > 0 {
        lemma_buffers_change_roles(run, k - 1);
        assert(is_successor(run[k - 1], run[k]));
        assert(run[k].state@ == run[k - 1].state@);
    }
}

} // verus!
