use vstd::prelude::*;

verus! {

/// The blocking strategy a configuration asks for.
#[derive(Clone, Copy, Debug, PartialEq, Eq, Structural, Hash)]
pub enum BlockingStrategyType {
    Anywhere,
    Ancestor,
    ComplexCore,
    SimpleCore,
    Optimal,
}

/// How two tree nodes are compared for direct blocking. `Single` compares the
/// atomic-concept labels of the two nodes; `Pairwise` also compares the labels
/// of their parents and of the edges to and from the parents.
#[derive(Clone, Copy, Debug, PartialEq, Eq, Structural, Hash)]
pub enum DirectBlockingKind {
    Single,
    Pairwise,
}

/// The blocking strategy in use. `Anywhere` lets any earlier unblocked node
/// block; `Ancestor` only an ancestor; `ValidatedCore` pre-blocks on the core
/// label and validates blocks before termination (`simple` selects the simple
/// core, in which no variable is core).
#[derive(Clone, Copy, Debug, PartialEq, Eq, Structural, Hash)]
pub enum BlockingStrategyKind {
    Anywhere,
    Ancestor,
    ValidatedCore { simple: bool },
}

} // verus!
