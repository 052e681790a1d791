use vstd::prelude::*;
use crate::tuple_index::EdgeKey;

verus! {

/// A handle to a node in the tableau's arena.
pub type NodeId = usize;

/// An interned concept, known to the tableau by its intern id.
#[derive(Clone, Copy, Debug, PartialEq, Eq, Structural, Hash)]
pub struct Concept {
    pub id: usize,
}

/// Whether a DL predicate is an at-least concept, and over what filler.
#[derive(Clone, Copy, Debug, PartialEq, Eq, Structural, Hash)]
pub enum AtLeastKind {
    /// Not an at-least concept.
    NotAtLeast,
    /// An at-least concept whose filler is a negated atomic concept.
    OverNegatedAtomic,
    /// Any other at-least concept.
    Other,
}

/// An interned DL predicate (a concept, role, equality or similar head
/// predicate), with the facts about it that the tableau reads.
#[derive(Clone, Copy, Debug, PartialEq, Eq, Structural, Hash)]
pub struct DLPredicate {
    pub id: usize,
    pub arity: usize,
    pub at_least: AtLeastKind,
}

/// An interned negated atomic role.
#[derive(Clone, Copy, Debug, PartialEq, Eq, Structural, Hash)]
pub struct NegatedAtomicRole {
    pub id: usize,
}

/// An interned description graph, with the number of its vertices.
#[derive(Clone, Copy, Debug, PartialEq, Eq, Structural, Hash)]
pub struct DescriptionGraph {
    pub id: usize,
    pub number_of_vertices: usize,
}

/// The existential that asks a node to play vertex `vertex` of a description
/// graph.
#[derive(Clone, Copy, Debug, PartialEq, Eq, Structural, Hash)]
pub struct ExistsDescriptionGraph {
    pub description_graph: DescriptionGraph,
    pub vertex: i32,
}

/// An interned atomic concept.
#[derive(Clone, Copy, Debug, PartialEq, Eq, Structural, Hash)]
pub struct AtomicConcept {
    pub id: usize,
}

/// An interned atomic role.
#[derive(Clone, Copy, Debug, PartialEq, Eq, Structural, Hash)]
pub struct AtomicRole {
    pub id: usize,
}

/// An interned existential concept (an at-least concept or a description
/// graph existential) that a node still has to expand.
#[derive(Clone, Copy, Debug, PartialEq, Eq, Structural, Hash)]
pub struct ExistentialConcept {
    pub id: usize,
}

/// An interned role (atomic or inverse).
#[derive(Clone, Copy, Debug, PartialEq, Eq, Structural, Hash)]
pub struct Role {
    pub id: usize,
}

/// An interned term (a variable, individual or constant).
#[derive(Clone, Copy, Debug, PartialEq, Eq, Structural, Hash)]
pub struct Term {
    pub id: usize,
}

/// An interned at-least concept.
#[derive(Clone, Copy, Debug, PartialEq, Eq, Structural, Hash)]
pub struct AtLeastConcept {
    pub id: usize,
}

/// An interned annotated equality (an at-most restriction in a clause head).
#[derive(Clone, Copy, Debug, PartialEq, Eq, Structural, Hash)]
pub struct AnnotatedEquality {
    pub id: usize,
}

/// An interned data constant.
#[derive(Clone, Copy, Debug, PartialEq, Eq, Structural, Hash)]
pub struct Constant {
    pub id: usize,
}

/// An element of an extension-table tuple: a label (position 0) or a node.
#[derive(Clone, Copy, Debug, PartialEq, Eq, Structural, Hash)]
pub enum TableauObject {
    Concept(Concept),
    DLPredicate(DLPredicate),
    NegatedAtomicRole(NegatedAtomicRole),
    DescriptionGraph(DescriptionGraph),
    Node(NodeId),
}

impl From<NegatedAtomicRole> for TableauObject {
    fn from(v: NegatedAtomicRole) -> (r: Self) {
        TableauObject::NegatedAtomicRole(v)
    }
}

impl vstd::std_specs::convert::FromSpecImpl<NegatedAtomicRole> for TableauObject {
    open spec fn obeys_from_spec() -> bool {
        true
    }

    open spec fn from_spec(v: NegatedAtomicRole) -> TableauObject {
        TableauObject::NegatedAtomicRole(v)
    }
}

impl From<Concept> for TableauObject {
    fn from(v: Concept) -> (r: Self) {
        TableauObject::Concept(v)
    }
}

impl vstd::std_specs::convert::FromSpecImpl<Concept> for TableauObject {
    open spec fn obeys_from_spec() -> bool {
        true
    }

    open spec fn from_spec(v: Concept) -> TableauObject {
        TableauObject::Concept(v)
    }
}

impl From<DLPredicate> for TableauObject {
    fn from(v: DLPredicate) -> (r: Self) {
        TableauObject::DLPredicate(v)
    }
}

impl vstd::std_specs::convert::FromSpecImpl<DLPredicate> for TableauObject {
    open spec fn obeys_from_spec() -> bool {
        true
    }

    open spec fn from_spec(v: DLPredicate) -> TableauObject {
        TableauObject::DLPredicate(v)
    }
}

impl From<DescriptionGraph> for TableauObject {
    fn from(v: DescriptionGraph) -> (r: Self) {
        TableauObject::DescriptionGraph(v)
    }
}

impl vstd::std_specs::convert::FromSpecImpl<DescriptionGraph> for TableauObject {
    open spec fn obeys_from_spec() -> bool {
        true
    }

    open spec fn from_spec(v: DescriptionGraph) -> TableauObject {
        TableauObject::DescriptionGraph(v)
    }
}

/// The low bits that hold an object's own id in its unique key.
pub const INNER_MASK: u64 = 0x1fff_ffff_ffff_ffff;

impl TableauObject {
    /// The variant's tag, kept in the top three bits of the unique key.
    pub open spec fn tag(self) -> u64 {
        match self {
            TableauObject::Concept(_) => 0,
            TableauObject::DLPredicate(_) => 1,
            TableauObject::NegatedAtomicRole(_) => 2,
            TableauObject::DescriptionGraph(_) => 3,
            TableauObject::Node(_) => 4,
        }
    }

    /// The object's own id within its variant.
    pub open spec fn inner(self) -> usize {
        match self {
            TableauObject::Concept(c) => c.id,
            TableauObject::DLPredicate(p) => p.id,
            TableauObject::NegatedAtomicRole(r) => r.id,
            TableauObject::DescriptionGraph(g) => g.id,
            TableauObject::Node(id) => id,
        }
    }

    pub open spec fn unique_key_spec(self) -> u64 {
        (self.tag() << 61u64) | ((self.inner() as u64) & INNER_MASK)
    }

    /// Unique keys tell objects apart: two objects whose ids fit in 61 bits
    /// have one key exactly when they are of one variant with one id.
    pub proof fn lemma_unique_key_injective(self, other: TableauObject)
        requires
            self.inner() < 0x2000_0000_0000_0000,
            other.inner() < 0x2000_0000_0000_0000,
        ensures
            (self.unique_key_spec() == other.unique_key_spec()) <==> (self.tag() == other.tag()
                && self.inner() == other.inner()),
    {
        let t1 = self.tag();
        let t2 = other.tag();
        let i1 = self.inner() as u64;
        let i2 = other.inner() as u64;
        assert(((t1 << 61u64) | (i1 & 0x1fff_ffff_ffff_ffffu64)) == ((t2 << 61u64) | (i2
            & 0x1fff_ffff_ffff_ffffu64)) <==> (t1 == t2 && i1 == i2)) by (bit_vector)
            requires
                t1 < 8,
                t2 < 8,
                i1 < 0x2000_0000_0000_0000u64,
                i2 < 0x2000_0000_0000_0000u64,
        ;
    }

    /// Unique keys are injective across variants: two objects whose ids fit
    /// in 61 bits have one key exactly when they are of one variant with one
    /// id. A DL predicate and a negated atomic role with one id, say, have
    /// different keys.
    pub proof fn lemma_unique_key_separates_variants(self, other: TableauObject)
        requires
            self.inner() < 0x2000_0000_0000_0000,
            other.inner() < 0x2000_0000_0000_0000,
        ensures
            (self.unique_key_spec() == other.unique_key_spec()) <==> ({
                &&& (self is Concept && other is Concept) || (self is DLPredicate && other is DLPredicate)
                    || (self is NegatedAtomicRole && other is NegatedAtomicRole) || (self is DescriptionGraph
                    && other is DescriptionGraph) || (self is Node && other is Node)
                &&& self.inner() == other.inner()
            }),
    {
        self.lemma_unique_key_injective(other);
    }

    pub open spec fn raw_key_spec(self) -> usize {
        match self {
            TableauObject::Concept(c) => c.id.wrapping_mul(5),
            TableauObject::DLPredicate(p) => p.id.wrapping_mul(7),
            TableauObject::NegatedAtomicRole(r) => r.id.wrapping_mul(11),
            TableauObject::DescriptionGraph(g) => g.id.wrapping_mul(13),
            TableauObject::Node(id) => id.wrapping_mul(17),
        }
    }

    /// A cheap integer key: equal objects have equal keys.
    pub fn raw_key(&self) -> (r: usize)
        ensures
            r == self.raw_key_spec(),
    {
        match self {
            TableauObject::Concept(c) => c.id.wrapping_mul(5),
            TableauObject::DLPredicate(p) => p.id.wrapping_mul(7),
            TableauObject::NegatedAtomicRole(r) => r.id.wrapping_mul(11),
            TableauObject::DescriptionGraph(g) => g.id.wrapping_mul(13),
            TableauObject::Node(id) => id.wrapping_mul(17),
        }
    }

    /// The variant tag in the top three bits and the id in the low 61 bits:
    /// distinct objects whose ids fit in 61 bits get distinct keys.
    pub fn unique_key(&self) -> (r: u64)
        ensures
            r == self.unique_key_spec(),
    {
        let (tag, inner): (u64, u64) = match self {
            TableauObject::Concept(c) => (0, c.id as u64),
            TableauObject::DLPredicate(p) => (1, p.id as u64),
            TableauObject::NegatedAtomicRole(r) => (2, r.id as u64),
            TableauObject::DescriptionGraph(g) => (3, g.id as u64),
            TableauObject::Node(id) => (4, *id as u64),
        };
        (tag << 61u64) | (inner & INNER_MASK)
    }

    pub fn as_node(&self) -> (r: Option<NodeId>)
        ensures
            r == (match *self {
                TableauObject::Node(id) => Some(id),
                _ => None,
            }),
    {
        match self {
            TableauObject::Node(id) => Some(*id),
            _ => None,
        }
    }

    pub fn is_node(&self) -> (r: bool)
        ensures
            r <==> *self is Node,
    {
        matches!(self, TableauObject::Node(_))
    }

    pub fn as_concept(&self) -> (r: Option<&Concept>)
        ensures
            r == (match *self {
                TableauObject::Concept(c) => Some(&c),
                _ => None,
            }),
    {
        match self {
            TableauObject::Concept(c) => Some(c),
            _ => None,
        }
    }

    pub fn as_dl_predicate(&self) -> (r: Option<&DLPredicate>)
        ensures
            r == (match *self {
                TableauObject::DLPredicate(p) => Some(&p),
                _ => None,
            }),
    {
        match self {
            TableauObject::DLPredicate(p) => Some(p),
            _ => None,
        }
    }

    pub fn as_description_graph(&self) -> (r: Option<&DescriptionGraph>)
        ensures
            r == (match *self {
                TableauObject::DescriptionGraph(g) => Some(&g),
                _ => None,
            }),
    {
        match self {
            TableauObject::DescriptionGraph(g) => Some(g),
            _ => None,
        }
    }

    pub fn as_negated_atomic_role(&self) -> (r: Option<&NegatedAtomicRole>)
        ensures
            r == (match *self {
                TableauObject::NegatedAtomicRole(n) => Some(&n),
                _ => None,
            }),
    {
        match self {
            TableauObject::NegatedAtomicRole(n) => Some(n),
            _ => None,
        }
    }
}

impl EdgeKey for TableauObject {
    open spec fn key_spec(&self) -> u64 {
        self.unique_key_spec()
    }

    fn unique_key(&self) -> (k: u64) {
        TableauObject::unique_key(self)
    }
}

} // verus!
