use tripsu::crypto::Blake3Hasher;
use tripsu::index::build_type_index;
use tripsu::pass_first::create_type_map;
use tripsu::pseudo::{process_triple, pseudonymize_triples};
use tripsu::rdf_types::{Literal, NamedNode, Subject, Term, Triple};
use tripsu::rules::{NodeRules, ObjectRules, Rules};

fn named(iri: &str) -> NamedNode {
    NamedNode { iri: iri.to_string() }
}

fn type_triple(s: &str, t: &str) -> Triple {
    Triple {
        subject: Subject::NamedNode(named(s)),
        predicate: named("http://www.w3.org/1999/02/22-rdf-syntax-ns#type"),
        object: Term::NamedNode(named(t)),
    }
}

#[test]
fn type_map_keeps_only_type_assertions() {
    let triples = vec![
        type_triple("urn:Alice", "urn:Person"),
        Triple {
            subject: Subject::NamedNode(named("urn:Alice")),
            predicate: named("urn:hasName"),
            object: Term::Literal(Literal::Simple { value: "Alice".to_string() }),
        },
    ];
    let lines = create_type_map(&triples);
    assert_eq!(
        lines,
        vec![
            "<urn:Alice> <http://www.w3.org/1999/02/22-rdf-syntax-ns#type> <urn:Person> .\n"
                .to_string()
        ]
    );
}

#[test]
fn triple_rendering() {
    let t = Triple {
        subject: Subject::BlankNode(tripsu::rdf_types::BlankNode { id: "b0".to_string() }),
        predicate: named("urn:says"),
        object: Term::Literal(Literal::LanguageTaggedString {
            value: "hi \"there\"\n".to_string(),
            language: "en".to_string(),
        }),
    };
    assert_eq!(t.to_text(), "_:b0 <urn:says> \"hi \\\"there\\\"\\n\"@en");
    let t2 = Triple {
        subject: Subject::NamedNode(named("urn:x")),
        predicate: named("urn:is"),
        object: Term::Literal(Literal::Typed {
            value: "5".to_string(),
            datatype: named("urn:int"),
        }),
    };
    assert_eq!(t2.to_text(), "<urn:x> <urn:is> \"5\"^^<urn:int>");
}

#[test]
fn quoted_rendering() {
    assert_eq!(tripsu::rdf_types::fmt_quoted_str("a\\b\r"), "\"a\\\\b\\r\"");
}

// An unmatched triple is emitted byte-for-byte, closed by the
// line-based triple terminator.
#[test]
fn second_pass_passes_unmatched_through() {
    let rules = Rules {
        invert: false,
        prefixes: None,
        nodes: NodeRules { of_type: vec![] },
        objects: ObjectRules { on_predicate: vec![], on_type_predicate: vec![] },
    };
    let index = build_type_index(&vec![]);
    let hasher = Blake3Hasher::new(None).unwrap();
    let t = Triple {
        subject: Subject::NamedNode(named("http://ex.org/Person/42")),
        predicate: named("http://ex.org/hasFriend"),
        object: Term::NamedNode(named("http://ex.org/Person/43")),
    };
    let line = process_triple(&t, &rules, &index, &hasher);
    assert_eq!(
        line,
        "<http://ex.org/Person/42> <http://ex.org/hasFriend> <http://ex.org/Person/43> .\n"
    );
}

// Output order equals input order: one line per triple, matched or not.
#[test]
fn second_pass_preserves_order() {
    let rules = Rules {
        invert: false,
        prefixes: None,
        nodes: NodeRules { of_type: vec!["<urn:Person>".to_string()] },
        objects: ObjectRules { on_predicate: vec![], on_type_predicate: vec![] },
    };
    let index = build_type_index(&vec![type_triple("urn:Alice", "urn:Person")]);
    let hasher = Blake3Hasher::new(Some(vec![5u8; 32])).unwrap();
    let triples = vec![
        Triple {
            subject: Subject::NamedNode(named("urn:ACME/hq")),
            predicate: named("urn:locatedIn"),
            object: Term::Literal(Literal::Simple { value: "x".to_string() }),
        },
        Triple {
            subject: Subject::NamedNode(named("urn:ACME/branch")),
            predicate: named("urn:locatedIn"),
            object: Term::Literal(Literal::Simple { value: "y".to_string() }),
        },
    ];
    let lines = pseudonymize_triples(&triples, &rules, &index, &hasher);
    assert_eq!(lines.len(), 2);
    assert!(lines[0].contains("<urn:ACME/hq>"));
    assert!(lines[1].contains("<urn:ACME/branch>"));
}

// Repeated identifiers map to the same pseudonym within a run.
#[test]
fn repeated_identifiers_share_pseudonyms() {
    let rules = Rules {
        invert: false,
        prefixes: None,
        nodes: NodeRules { of_type: vec!["<urn:Person>".to_string()] },
        objects: ObjectRules { on_predicate: vec![], on_type_predicate: vec![] },
    };
    let index = build_type_index(&vec![
        type_triple("urn:People/Alice", "urn:Person"),
        type_triple("urn:People/Bob", "urn:Person"),
    ]);
    let hasher = Blake3Hasher::new(Some(vec![5u8; 32])).unwrap();
    let t1 = Triple {
        subject: Subject::NamedNode(named("urn:People/Alice")),
        predicate: named("urn:knows"),
        object: Term::NamedNode(named("urn:People/Bob")),
    };
    let t2 = Triple {
        subject: Subject::NamedNode(named("urn:People/Bob")),
        predicate: named("urn:knows"),
        object: Term::NamedNode(named("urn:People/Alice")),
    };
    let l1 = process_triple(&t1, &rules, &index, &hasher);
    let l2 = process_triple(&t2, &rules, &index, &hasher);
    // Bob's pseudonym in object position of l1 equals his pseudonym in
    // subject position of l2
    let bob_in_l1 = l1.split(' ').nth(2).unwrap();
    let bob_in_l2 = l2.split(' ').next().unwrap();
    assert_eq!(bob_in_l1, bob_in_l2);
}

// The whole flow on in-memory values: the index built in the first pass
// drives the second, and the index survives its persisted form.
#[test]
fn two_pass_flow() {
    let data = vec![
        type_triple("urn:People/Alice", "urn:Person"),
        Triple {
            subject: Subject::NamedNode(named("urn:People/Alice")),
            predicate: named("urn:hasLastName"),
            object: Term::Literal(Literal::Simple { value: "Foobar".to_string() }),
        },
    ];
    // first pass: index the type assertions, then persist and reload
    let index = build_type_index(&data);
    let reloaded = tripsu::index::TypeIndex::from_text(index.to_text().as_str()).unwrap();

    // second pass: the typed subject is pseudonymized, the other line of
    // the untyped predicate is not
    let rules = Rules {
        invert: false,
        prefixes: None,
        nodes: NodeRules { of_type: vec!["<urn:Person>".to_string()] },
        objects: ObjectRules { on_predicate: vec![], on_type_predicate: vec![] },
    };
    let hasher = Blake3Hasher::new(Some(vec![1u8; 32])).unwrap();
    let lines = pseudonymize_triples(&data, &rules, &reloaded, &hasher);
    assert_eq!(lines.len(), 2);
    assert!(!lines[0].contains("Alice"));
    assert!(lines[0].starts_with("<urn:People/"));
    assert!(lines[1].contains("\"Foobar\""));
}
