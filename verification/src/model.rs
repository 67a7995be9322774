//! The selection mask: the per-triple decision of which of the three
//! positions (subject, predicate, object) must be pseudonymized.

use crate::rdf_types::{BlankNode, Literal, NamedNode, Subject, Term};
use vstd::prelude::*;

verus! {

/// Any component of a triple, regardless of its position.
#[derive(Eq, PartialEq, Debug, Hash)]
pub enum Entity {
    Literal(Literal),
    NamedNode(NamedNode),
    BlankNode(BlankNode),
}

impl Clone for Entity {
    /// A clone is equal to the original.
    fn clone(&self) -> (r: Self)
        ensures
            r == *self,
    {
        match self {
            Entity::Literal(l) => Entity::Literal(l.clone()),
            Entity::NamedNode(n) => Entity::NamedNode(n.clone()),
            Entity::BlankNode(b) => Entity::BlankNode(b.clone()),
        }
    }
}

impl Entity {
    /// The entity carried by a subject position.
    pub fn from_subject(subject: Subject) -> (r: Entity)
        ensures
            r == match subject {
                Subject::NamedNode(n) => Entity::NamedNode(n),
                Subject::BlankNode(b) => Entity::BlankNode(b),
            },
    {
        match subject {
            Subject::NamedNode(n) => Entity::NamedNode(n),
            Subject::BlankNode(b) => Entity::BlankNode(b),
        }
    }

    /// The entity carried by an object position.
    pub fn from_term(term: Term) -> (r: Entity)
        ensures
            r == match term {
                Term::NamedNode(n) => Entity::NamedNode(n),
                Term::BlankNode(b) => Entity::BlankNode(b),
                Term::Literal(l) => Entity::Literal(l),
            },
    {
        match term {
            Term::NamedNode(n) => Entity::NamedNode(n),
            Term::BlankNode(b) => Entity::BlankNode(b),
            Term::Literal(l) => Entity::Literal(l),
        }
    }

    /// Puts the entity back into a subject position. Literals cannot stand
    /// there, so they are excluded up front.
    pub fn into_subject(self) -> (r: Subject)
        requires
            !(self is Literal),
        ensures
            r == match self {
                Entity::NamedNode(n) => Subject::NamedNode(n),
                Entity::BlankNode(b) => Subject::BlankNode(b),
                Entity::Literal(_) => r,
            },
    {
        match self {
            Entity::NamedNode(n) => Subject::NamedNode(n),
            Entity::BlankNode(b) => Subject::BlankNode(b),
            Entity::Literal(_) => unreached(),
        }
    }

    /// Puts the entity back into an object position.
    pub fn into_term(self) -> (r: Term)
        ensures
            r == match self {
                Entity::NamedNode(n) => Term::NamedNode(n),
                Entity::BlankNode(b) => Term::BlankNode(b),
                Entity::Literal(l) => Term::Literal(l),
            },
    {
        match self {
            Entity::NamedNode(n) => Term::NamedNode(n),
            Entity::BlankNode(b) => Term::BlankNode(b),
            Entity::Literal(l) => Term::Literal(l),
        }
    }
}

/// Bit selecting the subject position of a triple.
pub const SUBJECT: u8 = 0b100;

/// Bit selecting the predicate position of a triple.
pub const PREDICATE: u8 = 0b010;

/// Bit selecting the object position of a triple.
pub const OBJECT: u8 = 0b001;

/// All three position bits together.
pub const ALL_POSITIONS: u8 = 0b111;

/// A set of triple positions, held as three bits.
///
/// A mask is a value recomputed per triple; it supports union, complement
/// within the three-bit domain, and a subset test.
#[derive(Clone, Copy, Debug, PartialEq, Eq, Structural)]
pub struct TripleMask {
    pub bits: u8,
}

impl TripleMask {
    /// Only the three position bits may be set.
    pub open spec fn wf(self) -> bool {
        self.bits < 8
    }

    /// Does this mask select the subject position?
    pub open spec fn spec_subject(self) -> bool {
        self.bits & SUBJECT != 0
    }

    /// Does this mask select the predicate position?
    pub open spec fn spec_predicate(self) -> bool {
        self.bits & PREDICATE != 0
    }

    /// Does this mask select the object position?
    pub open spec fn spec_object(self) -> bool {
        self.bits & OBJECT != 0
    }

    /// The mask with no position selected.
    pub fn empty() -> (r: TripleMask)
        ensures
            r.bits == 0,
            r.wf(),
            !r.spec_subject(),
            !r.spec_predicate(),
            !r.spec_object(),
    {
        proof {
            assert(0u8 & 0b100u8 == 0 && 0u8 & 0b010u8 == 0 && 0u8 & 0b001u8 == 0) by (bit_vector);
        }
        TripleMask { bits: 0 }
    }

    /// The mask selecting only the subject position.
    pub fn subject() -> (r: TripleMask)
        ensures
            r.bits == SUBJECT,
            r.wf(),
            r.spec_subject(),
            !r.spec_predicate(),
            !r.spec_object(),
    {
        proof {
            assert(0b100u8 & 0b100u8 != 0 && 0b100u8 & 0b010u8 == 0 && 0b100u8 & 0b001u8 == 0)
                by (bit_vector);
        }
        TripleMask { bits: SUBJECT }
    }

    /// The mask selecting only the predicate position.
    pub fn predicate() -> (r: TripleMask)
        ensures
            r.bits == PREDICATE,
            r.wf(),
            !r.spec_subject(),
            r.spec_predicate(),
            !r.spec_object(),
    {
        proof {
            assert(0b010u8 & 0b100u8 == 0 && 0b010u8 & 0b010u8 != 0 && 0b010u8 & 0b001u8 == 0)
                by (bit_vector);
        }
        TripleMask { bits: PREDICATE }
    }

    /// The mask selecting only the object position.
    pub fn object() -> (r: TripleMask)
        ensures
            r.bits == OBJECT,
            r.wf(),
            !r.spec_subject(),
            !r.spec_predicate(),
            r.spec_object(),
    {
        proof {
            assert(0b001u8 & 0b100u8 == 0 && 0b001u8 & 0b010u8 == 0 && 0b001u8 & 0b001u8 != 0)
                by (bit_vector);
        }
        TripleMask { bits: OBJECT }
    }

    /// The raw bits of the mask.
    pub fn bits(&self) -> (r: u8)
        ensures
            r == self.bits,
    {
        self.bits
    }

    /// Is no position selected?
    pub fn is_empty(&self) -> (r: bool)
        ensures
            r == (self.bits == 0),
    {
        self.bits == 0
    }

    /// Checks that every bit set in `other` is also set in this mask.
    pub fn is_set(&self, other: &TripleMask) -> (r: bool)
        requires
            self.wf(),
            other.wf(),
        ensures
            r == (other.bits & !self.bits == 0),
            r == ((other.spec_subject() ==> self.spec_subject())
                && (other.spec_predicate() ==> self.spec_predicate())
                && (other.spec_object() ==> self.spec_object())),
    {
        proof {
            let a = self.bits;
            let b = other.bits;
            assert(a < 8 && b < 8 ==> (b & !a == 0) == ((b & 0b100u8 != 0 ==> a & 0b100u8 != 0) && (
            b & 0b010u8 != 0 ==> a & 0b010u8 != 0) && (b & 0b001u8 != 0 ==> a & 0b001u8 != 0)))
                by (bit_vector);
        }
        other.bits & !self.bits == 0
    }

    /// The complement of the mask within the three-bit domain.
    pub fn invert(&self) -> (r: TripleMask)
        requires
            self.wf(),
        ensures
            r.bits == self.bits ^ ALL_POSITIONS,
            r.wf(),
            r.spec_subject() == !self.spec_subject(),
            r.spec_predicate() == !self.spec_predicate(),
            r.spec_object() == !self.spec_object(),
    {
        proof {
            let b = self.bits;
            assert(b < 8 ==> ((b ^ 0b111u8) < 8 && (((b ^ 0b111u8) & 0b100u8 != 0) == !(b
                & 0b100u8 != 0)) && (((b ^ 0b111u8) & 0b010u8 != 0) == !(b & 0b010u8 != 0)) && (((b
                ^ 0b111u8) & 0b001u8 != 0) == !(b & 0b001u8 != 0)))) by (bit_vector);
        }
        TripleMask { bits: self.bits ^ ALL_POSITIONS }
    }

    /// The union of two masks.
    pub fn union(&self, other: &TripleMask) -> (r: TripleMask)
        ensures
            r.bits == self.bits | other.bits,
            self.wf() && other.wf() ==> r.wf(),
            r.spec_subject() == (self.spec_subject() || other.spec_subject()),
            r.spec_predicate() == (self.spec_predicate() || other.spec_predicate()),
            r.spec_object() == (self.spec_object() || other.spec_object()),
    {
        proof {
            let a = self.bits;
            let b = other.bits;
            assert((a < 8 && b < 8 ==> (a | b) < 8) && ((a | b) & 0b100u8 != 0) == (a & 0b100u8
                != 0 || b & 0b100u8 != 0) && ((a | b) & 0b010u8 != 0) == (a & 0b010u8 != 0 || b
                & 0b010u8 != 0) && ((a | b) & 0b001u8 != 0) == (a & 0b001u8 != 0 || b & 0b001u8
                != 0)) by (bit_vector);
        }
        TripleMask { bits: self.bits | other.bits }
    }
}

impl Default for TripleMask {
    /// The default mask selects no position.
    fn default() -> (r: TripleMask)
        ensures
            r.bits == 0,
            r.wf(),
    {
        TripleMask { bits: 0 }
    }
}

} // verus!
