//! The graph of qubit handles that a circuit is built as.
//!
//! A handle stands for some qubits at one point of the circuit. It is made from
//! nothing (an origin), from handles that it consumes, with the operation that it
//! applies to them, or as one more reference to a handle that several others use.
//! Handles are numbered in the order in which they are made, so that the parents of
//! a handle have smaller numbers than the handle.

use vstd::prelude::*;
use crate::precision::Precision;
use crate::pipeline::StateModifier;

verus! {

/// How a handle came from others.
pub enum Parent<P: Precision> {
    /// The handle consumed these handles, and applied the operation to them, if there
    /// is one.
    Owned(Vec<usize>, Option<StateModifier<P>>),
    /// The handle is one more reference to this handle.
    Shared(usize),
}

/// A handle to some qubits.
pub struct Qubit<P: Precision> {
    /// The indices of the qubits in the state.
    pub indices: Vec<u64>,
    /// Where the handle came from; an origin has no parent.
    pub parent: Option<Parent<P>>,
}

/// Who uses a handle.
#[derive(Clone, Copy, Debug, PartialEq, Eq, Structural)]
pub enum Claim {
    /// No other handle yet.
    Free,
    /// The handle with this number consumed it, as the parent with this position.
    Owned(usize, usize),
    /// Handles that are references to it.
    Shared,
}

/// The handles of a circuit, each at the position that is its number.
pub struct QubitGraph<P: Precision> {
    /// The handles.
    pub nodes: Vec<Qubit<P>>,
    /// For each handle, who uses it.
    pub claims: Vec<Claim>,
}

impl<P: Precision> QubitGraph<P> {
    /// Whether `p` is a parent of `c`.
    pub open spec fn is_parent(&self, c: int, p: int) -> bool {
        0 <= c < self.nodes@.len() && match self.nodes@[c].parent {
            None => false,
            Some(Parent::Owned(parents, _)) => exists|j: int|
                0 <= j < parents@.len() && #[trigger] parents@[j] == p,
            Some(Parent::Shared(parent)) => parent == p,
        }
    }

    /// Whether the handle `c` came from handles made before it, which record it as
    /// their user.
    pub open spec fn node_wf(&self, c: int) -> bool {
        match self.nodes@[c].parent {
            None => true,
            Some(Parent::Owned(parents, _)) => forall|j: int|
                0 <= j < parents@.len() ==> #[trigger] parents@[j] < c && self.claims@[parents@[j] as int]
                    == Claim::Owned(c as usize, j as usize),
            Some(Parent::Shared(parent)) => parent < c && self.claims@[parent as int]
                == Claim::Shared,
        }
    }

    /// Whether every handle came from handles made before it, and a handle that was
    /// consumed has no other user.
    pub open spec fn wf(&self) -> bool {
        &&& self.claims@.len() == self.nodes@.len()
        &&& forall|c: int| 0 <= c < self.nodes@.len() ==> #[trigger] self.node_wf(c)
    }

    /// Whether a new handle can consume `parents`: they are handles that nobody uses
    /// yet, and none is listed twice.
    pub open spec fn can_consume(&self, parents: Seq<usize>) -> bool {
        &&& parents.no_duplicates()
        &&& forall|j: int|
            0 <= j < parents.len() ==> #[trigger] parents[j] < self.nodes@.len()
                && self.claims@[parents[j] as int] == Claim::Free
    }

    /// Whether a new handle can be a reference to `parent`: it is a handle that nobody
    /// consumed.
    pub open spec fn can_share(&self, parent: usize) -> bool {
        parent < self.nodes@.len() && !(self.claims@[parent as int] is Owned)
    }

    /// A graph without handles.
    pub fn new() -> (graph: Self)
        ensures
            graph.wf(),
            graph.nodes@.len() == 0,
    {
        QubitGraph { nodes: Vec::new(), claims: Vec::new() }
    }

    /// The number of handles.
    pub fn len(&self) -> (count: usize)
        ensures
            count == self.nodes@.len(),
    {
        self.nodes.len()
    }

    /// Makes an origin: a handle to the fresh qubits at `indices`.
    pub fn register(&mut self, indices: Vec<u64>) -> (id: usize)
        requires
            old(self).wf(),
        ensures
            final(self).wf(),
            id == old(self).nodes@.len(),
            final(self).nodes@ == old(self).nodes@.push(Qubit { indices, parent: None }),
            final(self).claims@ == old(self).claims@.push(Claim::Free),
    {
        let id = self.nodes.len();
        self.nodes.push(Qubit { indices, parent: None });
        self.claims.push(Claim::Free);
        proof {
            assert forall|c: int| 0 <= c < self.nodes@.len() implies #[trigger] self.node_wf(c) by {
                if c < id {
                    assert(old(self).node_wf(c));
                }
            }
        }
        id
    }

    /// Whether a new handle can consume `parents`.
    pub fn check_consume(&self, parents: &Vec<usize>) -> (ok: bool)
        requires
            self.wf(),
        ensures
            ok == self.can_consume(parents@),
    {
        let mut j: usize = 0;
        while j < parents.len()
            invariant
                j <= parents@.len(),
                self.wf(),
                self.can_consume(parents@.take(j as int)),
            decreases parents@.len() - j,
        {
            let p = parents[j];
            if p >= self.nodes.len() {
                return false;
            }
            match self.claims[p] {
                Claim::Free => {},
                _ => {
                    return false;
                },
            }
            let mut i: usize = 0;
            while i < j
                invariant
                    i <= j < parents@.len(),
                    p == parents@[j as int],
                    forall|i2: int| 0 <= i2 < i ==> parents@[i2] != p,
                decreases j - i,
            {
                if parents[i] == p {
                    return false;
                }
                i = i + 1;
            }
            proof {
                let next = parents@.take(j + 1);
                assert forall|i1: int, i2: int|
                    0 <= i1 < next.len() && 0 <= i2 < next.len() && i1 != i2 implies next[i1]
                    != next[i2] by {
                    assert(parents@.take(j as int).no_duplicates());
                    if i1 < j && i2 < j {
                        assert(parents@.take(j as int)[i1] != parents@.take(j as int)[i2]);
                    }
                }
                assert forall|i1: int| 0 <= i1 < next.len() implies #[trigger] next[i1]
                    < self.nodes@.len() && self.claims@[next[i1] as int] == Claim::Free by {
                    if i1 < j {
                        assert(parents@.take(j as int)[i1] == next[i1]);
                    }
                }
            }
            j = j + 1;
        }
        proof {
            assert(parents@.take(j as int) =~= parents@);
        }
        true
    }

    /// Makes a handle that consumes `parents`, to the qubits at `indices`, with the
    /// operation that it applies to them, if there is one. Returns `None`, and leaves
    /// the graph as it is, where `parents` cannot be consumed.
    pub fn apply(
        &mut self,
        parents: Vec<usize>,
        modifier: Option<StateModifier<P>>,
        indices: Vec<u64>,
    ) -> (made: Option<usize>)
        requires
            old(self).wf(),
        ensures
            final(self).wf(),
            made.is_some() == old(self).can_consume(parents@),
            made is None ==> *final(self) == *old(self),
            made matches Some(id) ==> {
                &&& id == old(self).nodes@.len()
                &&& final(self).nodes@ == old(self).nodes@.push(
                    Qubit { indices, parent: Some(Parent::Owned(parents, modifier)) },
                )
                &&& final(self).claims@.len() == id + 1
                &&& final(self).claims@[id as int] == Claim::Free
                &&& forall|j: int|
                    0 <= j < parents@.len() ==> final(self).claims@[#[trigger] parents@[j] as int]
                        == Claim::Owned(id, j as usize)
                &&& forall|c: int|
                    0 <= c < id && !parents@.contains(c as usize) ==> #[trigger] final(self).claims@[c]
                        == old(self).claims@[c]
            },
    {
        if !self.check_consume(&parents) {
            return None;
        }
        let id = self.nodes.len();
        let mut j: usize = 0;
        while j < parents.len()
            invariant
                j <= parents@.len(),
                id == self.nodes@.len(),
                self.nodes == old(self).nodes,
                self.claims@.len() == id,
                old(self).wf(),
                old(self).can_consume(parents@),
                forall|i: int|
                    0 <= i < j ==> self.claims@[#[trigger] parents@[i] as int] == Claim::Owned(
                        id,
                        i as usize,
                    ),
                forall|c: int|
                    0 <= c < id && !parents@.take(j as int).contains(c as usize)
                        ==> #[trigger] self.claims@[c] == old(self).claims@[c],
            decreases parents@.len() - j,
        {
            let p = parents[j];
            self.claims[p] = Claim::Owned(id, j);
            proof {
                assert forall|c: int|
                    0 <= c < id && !parents@.take(j + 1).contains(c as usize)
                    implies #[trigger] self.claims@[c] == old(self).claims@[c] by {
                    assert(parents@.take(j + 1)[j as int] == p);
                    if parents@.take(j as int).contains(c as usize) {
                        let i = choose|i: int|
                            0 <= i < j && parents@.take(j as int)[i] == c as usize;
                        assert(parents@.take(j + 1)[i] == c as usize);
                    }
                }
            }
            j = j + 1;
        }
        proof {
            assert(parents@.take(j as int) =~= parents@);
        }
        self.nodes.push(Qubit { indices, parent: Some(Parent::Owned(parents, modifier)) });
        self.claims.push(Claim::Free);
        proof {
            assert forall|c: int| 0 <= c < self.nodes@.len() implies #[trigger] self.node_wf(c) by {
                if c < id {
                    assert(old(self).node_wf(c));
                    assert(self.nodes@[c] == old(self).nodes@[c]);
                    match old(self).nodes@[c].parent {
                        None => {},
                        Some(Parent::Owned(ps, _)) => {
                            assert forall|i: int| 0 <= i < ps@.len() implies #[trigger] ps@[i] < c
                                && self.claims@[ps@[i] as int] == Claim::Owned(
                                c as usize,
                                i as usize,
                            ) by {
                                if parents@.contains(ps@[i]) {
                                }
                            }
                        },
                        Some(Parent::Shared(p)) => {
                            if parents@.contains(p) {
                            }
                        },
                    }
                }
            }
        }
        Some(id)
    }

    /// Makes a handle that is one more reference to `parent`, to the same qubits.
    /// Returns `None`, and leaves the graph as it is, where `parent` cannot be shared.
    pub fn share(&mut self, parent: usize) -> (made: Option<usize>)
        requires
            old(self).wf(),
        ensures
            final(self).wf(),
            made.is_some() == old(self).can_share(parent),
            made is None ==> *final(self) == *old(self),
            made matches Some(id) ==> {
                &&& id == old(self).nodes@.len()
                &&& final(self).nodes@.len() == id + 1
                &&& forall|c: int| 0 <= c < id ==> #[trigger] final(self).nodes@[c] == old(self).nodes@[c]
                &&& final(self).nodes@[id as int].parent == Some(Parent::<P>::Shared(parent))
                &&& final(self).nodes@[id as int].indices@ == old(self).nodes@[parent as int].indices@
                &&& final(self).claims@ == old(self).claims@.update(
                    parent as int,
                    Claim::Shared,
                ).push(Claim::Free)
            },
    {
        if parent >= self.nodes.len() {
            return None;
        }
        match self.claims[parent] {
            Claim::Owned(_, _) => {
                return None;
            },
            _ => {},
        }
        let id = self.nodes.len();
        let indices = self.nodes[parent].indices.clone();
        self.claims[parent] = Claim::Shared;
        self.nodes.push(Qubit { indices, parent: Some(Parent::Shared(parent)) });
        self.claims.push(Claim::Free);
        proof {
            assert forall|c: int| 0 <= c < self.nodes@.len() implies #[trigger] self.node_wf(c) by {
                if c < id {
                    assert(old(self).node_wf(c));
                }
            }
        }
        Some(id)
    }
}

} // verus!
