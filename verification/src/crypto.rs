//! Deterministic, keyed, one-way pseudonymization of triple components.
//!
//! A pseudonymizer turns raw bytes into a printable digest; the higher-level
//! operations apply that transform to named nodes (keeping their namespace
//! prefix), to literals (dropping language tag and datatype) and to whole
//! triples under a selection mask. Blank nodes pass through unchanged.

use crate::model::{Entity, TripleMask};
use crate::rdf_types::{BlankNode, Literal, NamedNode, Subject, Term, Triple};
use rand::RngExt;
use vstd::prelude::*;
use vstd::string::*;
use vstd::utf8::encode_utf8;

verus! {

/// The fewest bytes an operator-supplied secret may have.
pub const MIN_SECRET_LEN: usize = 32;

/// Errors in the supplied key material.
#[derive(Eq, PartialEq, Debug, Clone, Copy, Structural)]
pub enum SecretError {
    /// The supplied secret has fewer bytes than `MIN_SECRET_LEN`.
    SecretTooShort,
}

/// The hexadecimal digest that a BLAKE3 keyed hash produces for the given
/// key and input bytes. The digest is a function of the two arguments alone.
pub uninterp spec fn blake3_keyed_hex(key: Seq<u8>, data: Seq<u8>) -> Seq<char>;

/// The 32 digest bytes that the unkeyed BLAKE3 hash produces for the given
/// input bytes; used to derive a fixed-length key from an arbitrary secret.
pub uninterp spec fn blake3_hash_of(data: Seq<u8>) -> Seq<u8>;

/// Is this character one of the path or fragment separators at which an IRI
/// is split when its local part is pseudonymized?
pub open spec fn is_sep(c: char) -> bool {
    c == '/' || c == '#'
}

/// Index of the last separator in `s`, or -1 when there is none.
pub open spec fn last_sep(s: Seq<char>) -> int
    decreases s.len(),
{
    if s.len() == 0 {
        -1
    } else if is_sep(s[s.len() - 1]) {
        s.len() - 1
    } else {
        last_sep(s.drop_last())
    }
}

/// The pseudonymized form of an IRI: everything up to and including the last
/// separator is kept, the remainder is replaced by the digest.
pub open spec fn pseudo_iri_text(iri: Seq<char>, digest: Seq<char>) -> Seq<char> {
    iri.subrange(0, last_sep(iri) + 1) + digest
}

/// `last_sep` indeed points at the last separator: it is a separator
/// position, and no later position holds one.
pub proof fn lemma_last_sep(s: Seq<char>)
    ensures
        -1 <= last_sep(s) < s.len(),
        last_sep(s) >= 0 ==> is_sep(s[last_sep(s)]),
        forall|j: int| last_sep(s) < j < s.len() ==> !is_sep(#[trigger] s[j]),
    decreases s.len(),
{
    if s.len() == 0 {
    } else if is_sep(s[s.len() - 1]) {
    } else {
        lemma_last_sep(s.drop_last());
        assert(forall|j: int| 0 <= j < s.len() - 1 ==> s.drop_last()[j] == #[trigger] s[j]);
    }
}

/// Generates a cryptographic key of the requested length.
///
/// Relies on `rand`'s thread-local generator: the bytes are drawn from a
/// cryptographically secure source, so nothing is stated beyond the length.
#[verifier::external_body]
pub fn generate_key(size: usize) -> (r: Vec<u8>)
    ensures
        r@.len() == size,
{
    let mut rng = rand::rng();
    return (0..size).map(|_| rng.random::<u8>()).collect();
}

/// Derives a 32-byte key from an arbitrary-length secret.
///
/// Relies on `blake3::hash`: the digest depends on the input bytes alone,
/// and `as_bytes` exposes its 32 bytes.
#[verifier::external_body]
fn derive_key(secret: &Vec<u8>) -> (r: [u8; 32])
    ensures
        r@ == blake3_hash_of(secret@),
{
    *blake3::hash(secret).as_bytes()
}

/// Computes the keyed BLAKE3 digest of `data` as a hexadecimal string.
///
/// Relies on `blake3::keyed_hash`: the digest is a function of key and
/// input alone, and the `Display` form of `Hash` renders its 32 bytes as
/// 64 hexadecimal characters.
#[verifier::external_body]
fn keyed_hex(key: &[u8; 32], data: &[u8]) -> (r: String)
    ensures
        r@ == blake3_keyed_hex(key@, data@),
        r@.len() == 64,
{
    return blake3::keyed_hash(key, data).to_string();
}

/// Provides a generic interface for pseudonymization of RDF data.
/// Implementers only define raw bytes pseudonymization, while
/// higher-level methods are provided.
pub trait Pseudonymize {
    /// The digest this pseudonymizer produces for the given bytes.
    spec fn spec_pseudo(&self, input: Seq<u8>) -> Seq<char>;

    /// Pseudonymize a byte array.
    fn pseudo(&self, input: &[u8]) -> (r: String)
        ensures
            r@ == self.spec_pseudo(input@),
    ;

    /// Pseudonymize a named node, preserving its namespace prefix: the text
    /// up to and including the last separator is kept, the rest is replaced
    /// by the digest of the whole IRI.
    fn pseudo_named_node(&self, t: &NamedNode) -> (r: NamedNode)
        requires
            last_sep(t.iri@) >= 0,
        ensures
            r.iri@ == pseudo_iri_text(t.iri@, self.spec_pseudo(encode_utf8(t.iri@))),
    {
        let iri = t.iri.as_str();
        let n = iri.unicode_len();
        let mut end: usize = n;
        proof {
            lemma_last_sep(t.iri@);
        }
        while end > 0 && iri.get_char(end - 1) != '/' && iri.get_char(end - 1) != '#'
            invariant
                0 <= end <= n,
                n == t.iri@.len(),
                iri@ == t.iri@,
                last_sep(t.iri@) < end,
            decreases end,
        {
            proof {
                lemma_last_sep(t.iri@);
            }
            end = end - 1;
        }
        proof {
            assert(end > 0);
            assert(is_sep(t.iri@[end - 1]));
            assert(last_sep(t.iri@) == end - 1);
        }
        let prefix = iri.substring_char(0, end);
        let digest = self.pseudo(iri.as_bytes());
        let mut out = String::from_str(prefix);
        out.append(digest.as_str());
        proof {
            assert(iri.spec_bytes() == encode_utf8(t.iri@));
            assert(out@ =~= pseudo_iri_text(t.iri@, self.spec_pseudo(encode_utf8(t.iri@))));
        }
        NamedNode { iri: out }
    }

    /// Pseudonymize a literal: whatever its kind, the result is a simple
    /// literal holding the digest of the original lexical value. Language
    /// tags and datatypes are dropped.
    fn pseudo_literal(&self, l: &Literal) -> (r: Literal)
        ensures
            r matches Literal::Simple { value } && value@ == self.spec_pseudo(
                encode_utf8(l.spec_value()),
            ),
    {
        let value = match l {
            Literal::Typed { value, datatype: _ } => value,
            Literal::LanguageTaggedString { value, language: _ } => value,
            Literal::Simple { value } => value,
        };
        let crypted = self.pseudo(value.as_str().as_bytes());
        Literal::Simple { value: crypted }
    }

    /// Leave blank nodes unchanged: their identifiers are already scoped to
    /// the document and carry no identifying value outside it.
    fn pseudo_blank_node(&self, u: &BlankNode) -> (r: BlankNode)
        ensures
            r == *u,
    {
        u.clone()
    }

    /// Pseudonymize an entity based on its kind.
    fn pseudo_entity(&self, e: &Entity) -> (r: Entity)
        requires
            e matches Entity::NamedNode(n) ==> last_sep(n.iri@) >= 0,
        ensures
            match *e {
                Entity::NamedNode(n) => r matches Entity::NamedNode(m) && m.iri@ == pseudo_iri_text(
                    n.iri@,
                    self.spec_pseudo(encode_utf8(n.iri@)),
                ),
                Entity::Literal(l) => r matches Entity::Literal(l2) && (l2 matches Literal::Simple {
                    value,
                } && value@ == self.spec_pseudo(encode_utf8(l.spec_value()))),
                Entity::BlankNode(_) => r == *e,
            },
    {
        match e {
            Entity::Literal(l) => Entity::Literal(self.pseudo_literal(l)),
            Entity::NamedNode(n) => Entity::NamedNode(self.pseudo_named_node(n)),
            Entity::BlankNode(b) => Entity::BlankNode(self.pseudo_blank_node(b)),
        }
    }

    /// Pseudonymize the positions of a triple that the mask selects; every
    /// position whose bit is unset passes through unchanged. The
    /// predicate, itself a named node, is pseudonymized like any other
    /// when its bit is set — a bit no direct rule sets, only inversion.
    fn pseudo_triple(&self, triple: &Triple, mask: TripleMask) -> (r: Triple)
        requires
            mask.wf(),
            mask.spec_subject() ==> (triple.subject matches Subject::NamedNode(n) ==> last_sep(
                n.iri@,
            ) >= 0),
            mask.spec_predicate() ==> last_sep(triple.predicate.iri@) >= 0,
            mask.spec_object() ==> (triple.object matches Term::NamedNode(n) ==> last_sep(n.iri@)
                >= 0),
        ensures
            !mask.spec_predicate() ==> r.predicate == triple.predicate,
            mask.spec_predicate() ==> r.predicate.iri@ == pseudo_iri_text(
                triple.predicate.iri@,
                self.spec_pseudo(encode_utf8(triple.predicate.iri@)),
            ),
            !mask.spec_subject() ==> r.subject == triple.subject,
            !mask.spec_object() ==> r.object == triple.object,
            mask.spec_subject() ==> match triple.subject {
                Subject::NamedNode(n) => r.subject matches Subject::NamedNode(m) && m.iri@
                    == pseudo_iri_text(n.iri@, self.spec_pseudo(encode_utf8(n.iri@))),
                Subject::BlankNode(_) => r.subject == triple.subject,
            },
            mask.spec_object() ==> match triple.object {
                Term::NamedNode(n) => r.object matches Term::NamedNode(m) && m.iri@
                    == pseudo_iri_text(n.iri@, self.spec_pseudo(encode_utf8(n.iri@))),
                Term::BlankNode(_) => r.object == triple.object,
                Term::Literal(l) => r.object matches Term::Literal(l2) && (l2
                    matches Literal::Simple { value } && value@ == self.spec_pseudo(
                    encode_utf8(l.spec_value()),
                )),
            },
    {
        let subject_mask = TripleMask::subject();
        let object_mask = TripleMask::object();

        let pseudo_subject = if mask.is_set(&subject_mask) {
            self.pseudo_entity(&Entity::from_subject(triple.subject.clone()))
        } else {
            Entity::from_subject(triple.subject.clone())
        };

        let pseudo_predicate = if mask.is_set(&TripleMask::predicate()) {
            self.pseudo_named_node(&triple.predicate)
        } else {
            triple.predicate.clone()
        };

        let pseudo_object = if mask.is_set(&object_mask) {
            self.pseudo_entity(&Entity::from_term(triple.object.clone()))
        } else {
            Entity::from_term(triple.object.clone())
        };

        Triple {
            subject: pseudo_subject.into_subject(),
            predicate: pseudo_predicate,
            object: pseudo_object.into_term(),
        }
    }
}

/// Available pseudonymization algorithms.
#[derive(Eq, PartialEq, Debug, Clone, Copy, Structural)]
pub enum Algorithm {
    Blake3,
}

impl Default for Algorithm {
    fn default() -> (r: Algorithm)
        ensures
            r == Algorithm::Blake3,
    {
        Algorithm::Blake3
    }
}

/// BLAKE3-based pseudonymizer holding its 32-byte key.
pub struct Blake3Hasher {
    pub key: [u8; 32],
}

impl Blake3Hasher {
    /// Builds a hasher from an optional secret. A supplied secret must have
    /// at least `MIN_SECRET_LEN` bytes and is hashed down to the key length;
    /// without one, the key is drawn from a secure random source.
    pub fn new(secret: Option<Vec<u8>>) -> (r: Result<Blake3Hasher, SecretError>)
        ensures
            r is Ok <==> (secret matches Some(s) ==> s@.len() >= MIN_SECRET_LEN),
            match secret {
                Some(s) => if s@.len() >= MIN_SECRET_LEN {
                    r matches Ok(h) && h.key@ == blake3_hash_of(s@)
                } else {
                    r == Err::<Blake3Hasher, SecretError>(SecretError::SecretTooShort)
                },
                None => r is Ok,
            },
    {
        match secret {
            Some(s) => {
                if s.len() < MIN_SECRET_LEN {
                    Err(SecretError::SecretTooShort)
                } else {
                    Ok(Blake3Hasher { key: derive_key(&s) })
                }
            },
            None => {
                let key_vec = generate_key(32);
                let mut key = [0u8; 32];
                let mut i: usize = 0;
                while i < 32
                    invariant
                        i <= 32,
                        key_vec@.len() == 32,
                        key@.len() == 32,
                    decreases 32 - i,
                {
                    key[i] = key_vec[i];
                    i += 1;
                }
                Ok(Blake3Hasher { key })
            },
        }
    }
}

impl Pseudonymize for Blake3Hasher {
    open spec fn spec_pseudo(&self, input: Seq<u8>) -> Seq<char> {
        blake3_keyed_hex(self.key@, input)
    }

    fn pseudo(&self, data: &[u8]) -> (r: String)
        ensures
            r@.len() == 64,
    {
        keyed_hex(&self.key, data)
    }
}

/// Factory for a pseudonymizer based on the selected algorithm and secret.
pub fn new_pseudonymizer(algo: Option<Algorithm>, secret: Option<Vec<u8>>) -> (r: Result<
    Blake3Hasher,
    SecretError,
>)
    ensures
        r is Ok <==> (secret matches Some(s) ==> s@.len() >= MIN_SECRET_LEN),
        match secret {
            Some(s) => if s@.len() >= MIN_SECRET_LEN {
                r matches Ok(h) && h.key@ == blake3_hash_of(s@)
            } else {
                r == Err::<Blake3Hasher, SecretError>(SecretError::SecretTooShort)
            },
            None => r is Ok,
        },
{
    let chosen = match algo {
        Some(a) => a,
        None => Algorithm::default(),
    };
    match chosen {
        Algorithm::Blake3 => Blake3Hasher::new(secret),
    }
}

/// Law: pseudonymization is deterministic. Two hashers sharing a key — in
/// particular one hasher used twice, or two runs rebuilt from the same
/// secret — produce the identical digest for the same input bytes.
pub proof fn lemma_pseudo_deterministic(h1: Blake3Hasher, h2: Blake3Hasher, data: Seq<u8>)
    requires
        h1.key@ == h2.key@,
    ensures
        h1.spec_pseudo(data) == h2.spec_pseudo(data),
{
}

} // verus!
