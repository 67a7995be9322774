//! Selective pseudonymization of RDF triples.
//!
//! A stream of subject-predicate-object statements is transformed in two
//! passes: the first builds a type index mapping each subject to the set of
//! semantic types asserted for it; the second asks a rule matcher which
//! positions of each triple must be pseudonymized and replaces those
//! positions with keyed cryptographic digests, preserving the surrounding
//! graph structure.

pub mod crypto;
pub mod index;
pub mod model;
pub mod pass_first;
pub mod pseudo;
pub mod rdf_types;
pub mod rules;
pub mod uris;
