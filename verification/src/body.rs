//! The control-flow graph: locals, places, statements, terminators, blocks and
//! program points.

use vstd::prelude::*;

verus! {

/// One local storage location of a procedure body, by its dense number.
#[derive(Clone, Copy, Debug, PartialEq, Eq, Structural)]
pub struct Local(pub usize);

/// A local, possibly reached through projections (a field, a dereference, an
/// index). Only whether there is a projection is kept.
#[derive(Clone, Copy, Debug, PartialEq, Eq, Structural)]
pub struct Place {
    pub local: Local,
    pub projected: bool,
}

/// A program point: a block and an offset into it. An offset below the number
/// of statements is that statement; any other offset is the terminator.
#[derive(Clone, Copy, Debug, PartialEq, Eq, Structural)]
pub struct Location {
    pub block: usize,
    pub statement_index: usize,
}

/// Why a place occurs at a program point.
#[derive(Clone, Copy, Debug, PartialEq, Eq, Structural)]
pub enum PlaceContext {
    /// The place is looked at without being copied or moved.
    Inspect,
    /// The value is copied out.
    CopyValue,
    /// The value is moved out.
    MoveValue,
    /// A shared borrow is taken.
    SharedBorrow,
    /// A mutable borrow is taken.
    MutableBorrow,
    /// The place is written by an assignment.
    Store,
    /// The place receives the result of a call.
    CallResult,
    /// The place is an output of an inline-effect terminator.
    AsmOutput,
    /// The place is dropped.
    Drop,
    /// A storage marker or a note for diagnostics: no use at all.
    Marker,
}

/// The three buckets into which every [`PlaceContext`] falls.
#[derive(Clone, Copy, Debug, PartialEq, Eq, Structural)]
pub enum UsageClass {
    NonUse,
    Use,
    ConsumeOrMutate,
}

impl PlaceContext {
    /// The bucket of each context: the one table that decides what counts as
    /// a use and what as a consuming or mutating use.
    pub open spec fn class(self) -> UsageClass {
        match self {
            PlaceContext::Drop => UsageClass::NonUse,
            PlaceContext::Marker => UsageClass::NonUse,
            PlaceContext::MoveValue => UsageClass::ConsumeOrMutate,
            PlaceContext::MutableBorrow => UsageClass::ConsumeOrMutate,
            PlaceContext::Inspect => UsageClass::Use,
            PlaceContext::CopyValue => UsageClass::Use,
            PlaceContext::SharedBorrow => UsageClass::Use,
            PlaceContext::Store => UsageClass::Use,
            PlaceContext::CallResult => UsageClass::Use,
            PlaceContext::AsmOutput => UsageClass::Use,
        }
    }

    /// Whether an occurrence in this context is recorded as a use. Consuming
    /// and mutating occurrences are uses too.
    pub open spec fn is_use(self) -> bool {
        self.class() != UsageClass::NonUse
    }

    /// Whether an occurrence in this context consumes or mutates the place.
    pub open spec fn is_consume_or_mutate(self) -> bool {
        self.class() == UsageClass::ConsumeOrMutate
    }

    /// Classifies a context.
    pub fn classify(self) -> (class: UsageClass)
        ensures
            class == self.class(),
    {
        match self {
            PlaceContext::Drop => UsageClass::NonUse,
            PlaceContext::Marker => UsageClass::NonUse,
            PlaceContext::MoveValue => UsageClass::ConsumeOrMutate,
            PlaceContext::MutableBorrow => UsageClass::ConsumeOrMutate,
            PlaceContext::Inspect => UsageClass::Use,
            PlaceContext::CopyValue => UsageClass::Use,
            PlaceContext::SharedBorrow => UsageClass::Use,
            PlaceContext::Store => UsageClass::Use,
            PlaceContext::CallResult => UsageClass::Use,
            PlaceContext::AsmOutput => UsageClass::Use,
        }
    }
}

impl Place {
    /// Whether the place is exactly `local`, with no projection.
    pub open spec fn is_exactly(self, local: Local) -> bool {
        !self.projected && self.local == local
    }

    /// Tests whether the place is exactly `local`, with no projection.
    pub fn is_local(&self, local: Local) -> (exact: bool)
        ensures
            exact == self.is_exactly(local),
    {
        !self.projected && self.local == local
    }
}

/// One occurrence of a place, with the reason for it.
#[derive(Clone, Copy, Debug, PartialEq, Eq, Structural)]
pub struct Occurrence {
    pub place: Place,
    pub context: PlaceContext,
}

/// What a statement does, as far as the analysis cares.
#[derive(Clone, Copy, Debug, PartialEq, Eq, Structural)]
pub enum StatementKind {
    /// An assignment to the given destination. The destination occurs in the
    /// statement as a [`PlaceContext::Store`].
    Assign(Place),
    /// Any other statement.
    Other,
}

/// A statement: its kind and the places that occur in it besides an
/// assignment's destination.
#[derive(Clone, Debug)]
pub struct Statement {
    pub kind: StatementKind,
    pub operands: Vec<Occurrence>,
}

/// How a block ends, as far as the analysis cares.
#[derive(Clone, Debug)]
pub enum TerminatorKind {
    /// A call. Its destination, if any, occurs as a
    /// [`PlaceContext::CallResult`].
    Call { destination: Option<Place> },
    /// An inline effect. Each output occurs as a [`PlaceContext::AsmOutput`].
    InlineAsm { outputs: Vec<Place> },
    /// Any other terminator.
    Other,
}

/// A terminator: its kind, the places that occur in it besides its
/// destinations, and the blocks that control may pass to.
#[derive(Clone, Debug)]
pub struct Terminator {
    pub kind: TerminatorKind,
    pub operands: Vec<Occurrence>,
    pub successors: Vec<usize>,
}

/// A basic block: statements in order, then one terminator.
#[derive(Clone, Debug)]
pub struct BasicBlockData {
    pub statements: Vec<Statement>,
    pub terminator: Terminator,
}

/// The control-flow graph of one procedure. Block 0 is the entry.
#[derive(Clone, Debug)]
pub struct Body {
    pub basic_blocks: Vec<BasicBlockData>,
}

impl Body {
    /// The number of blocks.
    pub open spec fn block_count(&self) -> int {
        self.basic_blocks@.len() as int
    }

    /// The successor blocks of `block`, in the terminator's order.
    pub open spec fn successors(&self, block: int) -> Seq<usize> {
        self.basic_blocks@[block].terminator.successors@
    }

    /// The number of statements of `block`; also the terminator's offset.
    pub open spec fn statement_count(&self, block: int) -> int {
        self.basic_blocks@[block].statements@.len() as int
    }

    /// Every successor edge leads to a block of this body.
    pub open spec fn well_formed(&self) -> bool {
        forall|b: int, i: int|
            0 <= b < self.block_count() && 0 <= i < self.successors(b).len() ==> (
            #[trigger] self.successors(b)[i]) < self.block_count()
    }

    /// `location` names a statement or the terminator of a block of this body.
    pub open spec fn has_location(&self, location: Location) -> bool {
        location.block < self.block_count() && location.statement_index
            <= self.statement_count(location.block as int)
    }

    /// There is a successor edge from `from` to `to`.
    pub open spec fn has_edge(&self, from: int, to: int) -> bool {
        0 <= from < self.block_count() && exists|i: int|
            0 <= i < self.successors(from).len() && #[trigger] self.successors(from)[i] == to
    }

    /// Checks that every successor edge leads to a block of this body.
    pub fn is_well_formed(&self) -> (ok: bool)
        ensures
            ok == self.well_formed(),
    {
        let n: usize = self.basic_blocks.len();
        let mut b: usize = 0;
        while b < n
            invariant
                n == self.basic_blocks@.len(),
                b <= n,
                forall|c: int, i: int|
                    0 <= c < b && 0 <= i < self.successors(c).len() ==> (
                    #[trigger] self.successors(c)[i]) < n,
            decreases n - b,
        {
            let successors = &self.basic_blocks[b].terminator.successors;
            let mut i: usize = 0;
            while i < successors.len()
                invariant
                    n == self.basic_blocks@.len(),
                    b < n,
                    i <= successors@.len(),
                    successors@ == self.successors(b as int),
                    forall|j: int| 0 <= j < i ==> (#[trigger] successors@[j]) < n,
                decreases successors@.len() - i,
            {
                if successors[i] >= n {
                    return false;
                }
                i = i + 1;
            }
            b = b + 1;
        }
        true
    }
}

} // verus!
