//! Computations: what a node of a call graph can stand for, and the registry
//! that hands out their ids.

use crate::language::Callable;
use crate::language::ResolvedType;
use vstd::prelude::*;

verus! {

/// The branch of a result that a [`MatchResult`] names.
#[derive(Clone, Copy, Debug, PartialEq, Eq, Hash, Structural)]
pub enum MatchResultVariant {
    /// The value inside `Ok`.
    OkVariant,
    /// The error inside `Err`.
    ErrVariant,
}

/// Names one branch of the result of a fallible computation: the value inside
/// `Ok`, or the error inside `Err`.
#[derive(Clone, Debug, PartialEq, Eq, Hash)]
pub struct MatchResult {
    /// The branch that is named.
    pub variant: MatchResultVariant,
    /// The type of the value inside that branch.
    pub output: ResolvedType,
}

/// Something that produces a value.
#[derive(Clone, Debug, PartialEq, Eq, Hash)]
pub enum Computation {
    /// A function to call.
    Callable(Callable),
    /// One branch of a result.
    MatchResult(MatchResult),
}

impl Computation {
    /// The type of the value that the computation produces.
    pub open spec fn spec_output_type(self) -> ResolvedType {
        match self {
            Computation::Callable(callable) => callable.output,
            Computation::MatchResult(projection) => projection.output,
        }
    }

    /// The type of the value that the computation produces.
    pub fn output_type(&self) -> (output: &ResolvedType)
        ensures
            *output == self.spec_output_type(),
    {
        match self {
            Computation::Callable(callable) => &callable.output,
            Computation::MatchResult(projection) => &projection.output,
        }
    }
}

/// The id of a computation in a [`ComputationDb`].
#[derive(Clone, Copy, Debug, PartialEq, Eq, Hash, Structural)]
pub struct ComputationId(pub usize);

/// The registry of computations. Ids are handed out in the order of
/// registration and stay valid: nothing is ever removed or replaced.
pub struct ComputationDb {
    computations: Vec<Computation>,
}

impl View for ComputationDb {
    type V = Seq<Computation>;

    /// The computations in the order of their registration: the id of each is
    /// its position.
    closed spec fn view(&self) -> Seq<Computation> {
        self.computations@
    }
}

impl ComputationDb {
    /// A registry without computations.
    pub fn new() -> (db: ComputationDb)
        ensures
            db@ == Seq::<Computation>::empty(),
    {
        ComputationDb { computations: Vec::new() }
    }

    /// The number of computations that were registered.
    pub fn len(&self) -> (len: usize)
        ensures
            len == self@.len(),
    {
        self.computations.len()
    }

    /// Registers `computation` and returns its id.
    pub fn register(&mut self, computation: Computation) -> (id: ComputationId)
        ensures
            id.0 == old(self)@.len(),
            final(self)@ == old(self)@.push(computation),
    {
        self.computations.push(computation);
        ComputationId(self.computations.len() - 1)
    }

    /// The computation that was registered under `id`.
    pub fn get(&self, id: ComputationId) -> (computation: &Computation)
        requires
            id.0 < self@.len(),
        ensures
            *computation == self@[id.0 as int],
    {
        &self.computations[id.0]
    }
}

} // verus!
