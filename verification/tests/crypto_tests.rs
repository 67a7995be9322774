use tripsu::crypto::{generate_key, new_pseudonymizer, Blake3Hasher, Pseudonymize, SecretError};
use tripsu::model::TripleMask;
use tripsu::rdf_types::{Literal, NamedNode, Subject, Term, Triple};

fn is_valid_hex(input: &str) -> bool {
    input.chars().all(|c| c.is_digit(16))
}

// Test the generation of a cryptographic key
#[test]
fn test_generate_key() {
    let key = generate_key(42);
    assert_eq!(key.len(), 42);
}

#[test]
fn test_pseudo_named_node() {
    let hasher = Blake3Hasher::new(None).unwrap();
    let named_node = NamedNode {
        iri: "http://example.com/abc".to_string(),
    };
    let pseudo = hasher.pseudo_named_node(&named_node).iri;
    // test that output is prefix + hash
    assert_eq!(pseudo.starts_with("http://example.com/"), true);
    assert!(is_valid_hex(
        pseudo.strip_prefix("http://example.com/").unwrap()
    ));
}

#[test]
fn test_pseudo_literal() {
    let hasher = Blake3Hasher::new(None).unwrap();
    let literal = Literal::Simple {
        value: "example".to_string(),
    };
    let pseudo_literal = hasher.pseudo_literal(&literal);
    // test that output is quoted hash
    assert!(is_valid_hex(&pseudo_literal.to_text().trim_matches('"')));
}

// Pseudonymization is deterministic: one key, same bytes, same digest —
// within a run and across hashers rebuilt from the same secret.
#[test]
fn pseudo_deterministic_for_fixed_key() {
    let secret = vec![7u8; 32];
    let h1 = Blake3Hasher::new(Some(secret.clone())).unwrap();
    let h2 = Blake3Hasher::new(Some(secret)).unwrap();
    let a = h1.pseudo(b"hello world");
    let b = h1.pseudo(b"hello world");
    let c = h2.pseudo(b"hello world");
    assert_eq!(a, b);
    assert_eq!(a, c);
    assert_eq!(a.len(), 64);
    assert!(is_valid_hex(&a));
    // the digest is not the input handed back
    assert_ne!(a.as_bytes(), b"hello world");
}

// Different keys give (with overwhelming probability) different digests.
#[test]
fn pseudo_differs_across_keys() {
    let h1 = Blake3Hasher::new(Some(vec![1u8; 32])).unwrap();
    let h2 = Blake3Hasher::new(Some(vec![2u8; 32])).unwrap();
    assert_ne!(h1.pseudo(b"same input"), h2.pseudo(b"same input"));
}

#[test]
fn secret_too_short_is_rejected() {
    let r = Blake3Hasher::new(Some(vec![0u8; 31]));
    assert!(matches!(r, Err(SecretError::SecretTooShort)));
    let r2 = new_pseudonymizer(None, Some(vec![0u8; 8]));
    assert!(matches!(r2, Err(SecretError::SecretTooShort)));
    assert!(new_pseudonymizer(None, Some(vec![0u8; 32])).is_ok());
}

// Positions whose mask bit is unset pass through byte-for-byte.
#[test]
fn mask_unset_positions_untouched() {
    let hasher = Blake3Hasher::new(None).unwrap();
    let triple = Triple {
        subject: Subject::NamedNode(NamedNode {
            iri: "http://ex.org/Person/42".to_string(),
        }),
        predicate: NamedNode {
            iri: "http://ex.org/hasName".to_string(),
        },
        object: Term::Literal(Literal::Simple {
            value: "Foobar".to_string(),
        }),
    };
    // only the object is selected: subject and predicate stay unchanged
    let out = hasher.pseudo_triple(&triple, TripleMask::object());
    assert_eq!(out.subject, triple.subject);
    assert_eq!(out.predicate, triple.predicate);
    assert_ne!(out.object, triple.object);

    // nothing selected: the whole triple passes through
    let out2 = hasher.pseudo_triple(&triple, TripleMask::empty());
    assert_eq!(out2, triple);
}

// Blank nodes pass through even when selected.
#[test]
fn blank_nodes_unchanged() {
    let hasher = Blake3Hasher::new(None).unwrap();
    let triple = Triple {
        subject: Subject::BlankNode(tripsu::rdf_types::BlankNode {
            id: "b0".to_string(),
        }),
        predicate: NamedNode {
            iri: "http://ex.org/p".to_string(),
        },
        object: Term::BlankNode(tripsu::rdf_types::BlankNode {
            id: "b1".to_string(),
        }),
    };
    let out = hasher.pseudo_triple(
        &triple,
        TripleMask::subject().union(&TripleMask::object()),
    );
    assert_eq!(out, triple);
}

// Structure preservation: everything up to and including the last
// separator is kept verbatim, for both '/' and '#'.
#[test]
fn prefix_preserved_up_to_last_separator() {
    let hasher = Blake3Hasher::new(Some(vec![9u8; 32])).unwrap();
    let n = hasher.pseudo_named_node(&NamedNode {
        iri: "http://ex.org/Person/42".to_string(),
    });
    assert!(n.iri.starts_with("http://ex.org/Person/"));
    let f = hasher.pseudo_named_node(&NamedNode {
        iri: "http://ex.org/ont#Alice".to_string(),
    });
    assert!(f.iri.starts_with("http://ex.org/ont#"));
    // the digest is of the whole IRI, so equal local parts under different
    // namespaces still differ
    let a = hasher.pseudo_named_node(&NamedNode {
        iri: "http://one.org/x".to_string(),
    });
    let b = hasher.pseudo_named_node(&NamedNode {
        iri: "http://two.org/x".to_string(),
    });
    assert_ne!(a.iri.strip_prefix("http://one.org/"), b.iri.strip_prefix("http://two.org/"));
}

// Language tags and datatypes are dropped from pseudonymized literals.
#[test]
fn literal_metadata_dropped() {
    let hasher = Blake3Hasher::new(None).unwrap();
    let tagged = Literal::LanguageTaggedString {
        value: "hello".to_string(),
        language: "en".to_string(),
    };
    let out = hasher.pseudo_literal(&tagged);
    assert!(matches!(out, Literal::Simple { .. }));
    let typed = Literal::Typed {
        value: "42".to_string(),
        datatype: NamedNode {
            iri: "http://www.w3.org/2001/XMLSchema#integer".to_string(),
        },
    };
    let out2 = hasher.pseudo_literal(&typed);
    assert!(matches!(out2, Literal::Simple { .. }));
}

// Deriving a key hashes the secret down: a hasher built from a 32-byte
// secret keys differently than one using those bytes as the key directly.
#[test]
fn secret_is_hashed_not_used_directly() {
    let secret = vec![7u8; 32];
    let derived = Blake3Hasher::new(Some(secret)).unwrap();
    let raw = Blake3Hasher { key: [7u8; 32] };
    assert_ne!(derived.pseudo(b"x"), raw.pseudo(b"x"));
}

// A selected predicate is pseudonymized like any other named node: its
// namespace prefix is kept and the rest becomes the digest.
#[test]
fn predicate_transformed_when_selected() {
    let hasher = Blake3Hasher::new(Some(vec![3u8; 32])).unwrap();
    let triple = Triple {
        subject: Subject::NamedNode(NamedNode {
            iri: "http://ex.org/Person/42".to_string(),
        }),
        predicate: NamedNode {
            iri: "http://ex.org/vocab/hasAge".to_string(),
        },
        object: Term::Literal(Literal::Simple {
            value: "200".to_string(),
        }),
    };
    let out = hasher.pseudo_triple(&triple, TripleMask::predicate());
    assert_ne!(out.predicate, triple.predicate);
    assert!(out.predicate.iri.starts_with("http://ex.org/vocab/"));
    assert_eq!(out.subject, triple.subject);
    assert_eq!(out.object, triple.object);

    // the full inverted mask pseudonymizes all three positions
    let all = TripleMask::empty().invert();
    let out2 = hasher.pseudo_triple(&triple, all);
    assert_ne!(out2.subject, triple.subject);
    assert_ne!(out2.predicate, triple.predicate);
    assert_ne!(out2.object, triple.object);
}
