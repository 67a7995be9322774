use tripsu::crypto::Pseudonymize;
use tripsu::index::TypeIndex;
use tripsu::rdf_types::{Literal, NamedNode, Subject, Term, Triple};
use tripsu::rules::{match_rules, NodeRules, ObjectRules, Rules};

fn scenario_rules(invert: bool) -> Rules {
    Rules {
        invert,
        prefixes: None,
        nodes: NodeRules {
            of_type: vec!["<urn:Person>".to_string()],
        },
        objects: ObjectRules {
            on_predicate: vec!["<urn:hasLastName>".to_string()],
            on_type_predicate: vec![(
                "<urn:Person>".to_string(),
                vec!["<urn:hasAge>".to_string()],
            )],
        },
    }
}

fn scenario_index() -> TypeIndex {
    TypeIndex::from_iter(&vec![
        ("<urn:Alice>".to_string(), "<urn:Person>".to_string()),
        ("<urn:Bob>".to_string(), "<urn:Person>".to_string()),
        ("<urn:ACME>".to_string(), "<urn:Organization>".to_string()),
    ])
}

fn named(iri: &str) -> NamedNode {
    NamedNode { iri: iri.to_string() }
}

fn node_triple(s: &str, p: &str, o: &str) -> Triple {
    Triple {
        subject: Subject::NamedNode(named(s)),
        predicate: named(p),
        object: Term::NamedNode(named(o)),
    }
}

fn literal_triple(s: &str, p: &str, o: &str) -> Triple {
    Triple {
        subject: Subject::NamedNode(named(s)),
        predicate: named(p),
        object: Term::Literal(Literal::Simple { value: o.to_string() }),
    }
}

// sensitive subject, sensitive named node object
#[test]
fn scenario_friend_both_sensitive() {
    let t = node_triple("urn:Alice", "urn:hasFriend", "urn:Bob");
    let mask = match_rules(&t, &scenario_rules(false), &scenario_index());
    assert_eq!(mask.bits(), 0b101);
}

// non-sensitive subject, sensitive named node object
#[test]
fn scenario_employee_object_only() {
    let t = node_triple("urn:ACME", "urn:hasEmployee", "urn:Bob");
    let mask = match_rules(&t, &scenario_rules(false), &scenario_index());
    assert_eq!(mask.bits(), 0b001);
}

// sensitive subject, sensitive literal object through the predicate rule
#[test]
fn scenario_last_name() {
    let t = literal_triple("urn:Alice", "urn:hasLastName", "Foobar");
    let mask = match_rules(&t, &scenario_rules(false), &scenario_index());
    assert_eq!(mask.bits(), 0b101);
    // the literal object becomes the digest of its value; only the object
    // bit is handed to the transform here, since the scenario's subject
    // holds no separator to split at
    let hasher = tripsu::crypto::Blake3Hasher::new(None).unwrap();
    let out = hasher.pseudo_triple(&t, tripsu::model::TripleMask::object());
    match out.object {
        Term::Literal(Literal::Simple { value }) => {
            assert_ne!(value, "Foobar");
            assert_eq!(value.len(), 64);
        },
        other => panic!("unexpected object: {:?}", other),
    }
}

// sensitive subject, on-type sensitive object
#[test]
fn scenario_age_of_person() {
    let t = literal_triple("urn:Alice", "urn:hasAge", "42");
    let mask = match_rules(&t, &scenario_rules(false), &scenario_index());
    assert_eq!(mask.bits(), 0b101);
}

// non-sensitive subject, non-sensitive object
#[test]
fn scenario_no_match() {
    let t = literal_triple("urn:ACME", "urn:hasAge", "200");
    let mask = match_rules(&t, &scenario_rules(false), &scenario_index());
    assert_eq!(mask.bits(), 0b000);
}

// inverted rules flip the empty mask to all three bits
#[test]
fn scenario_no_match_inverted() {
    let t = literal_triple("urn:ACME", "urn:hasAge", "200");
    let mask = match_rules(&t, &scenario_rules(true), &scenario_index());
    assert_eq!(mask.bits(), 0b111);
}

// The invert flag partitions the three bits: a rule set and its flipped
// form together span every position and share none.
#[test]
fn invert_partitions_mask_space() {
    let idx = scenario_index();
    let rules = scenario_rules(false);
    let flipped = rules.with_invert_flipped();
    let triples = vec![
        node_triple("urn:Alice", "urn:hasFriend", "urn:Bob"),
        node_triple("urn:ACME", "urn:hasEmployee", "urn:Bob"),
        literal_triple("urn:Alice", "urn:hasLastName", "Foobar"),
        literal_triple("urn:ACME", "urn:hasAge", "200"),
    ];
    for t in &triples {
        let m1 = match_rules(t, &rules, &idx);
        let m2 = match_rules(t, &flipped, &idx);
        assert_eq!(m1.bits() | m2.bits(), 0b111);
        assert_eq!(m1.bits() & m2.bits(), 0b000);
    }
}

// Blank node subjects never satisfy the node rule but still reach the
// type-predicate rule through their own identifier.
#[test]
fn blank_subject_no_node_match() {
    let t = Triple {
        subject: Subject::BlankNode(tripsu::rdf_types::BlankNode { id: "b0".to_string() }),
        predicate: named("urn:hasFriend"),
        object: Term::NamedNode(named("urn:Bob")),
    };
    let mask = match_rules(&t, &scenario_rules(false), &scenario_index());
    assert_eq!(mask.bits(), 0b001);
}

#[test]
fn rules_check_and_expand() {
    let rules = Rules {
        invert: false,
        prefixes: Some(vec![(
            Some("ex".to_string()),
            "<http://example.org/>".to_string(),
        )]),
        nodes: NodeRules {
            of_type: vec!["ex:Person".to_string()],
        },
        objects: ObjectRules {
            on_predicate: vec![],
            on_type_predicate: vec![("ex:Person".to_string(), vec!["ex:hasName".to_string()])],
        },
    };
    assert!(rules.check_uris().is_ok());
    let expanded = rules.expand_rules_curie().unwrap();
    assert_eq!(expanded.nodes.of_type, vec!["<http://example.org/Person>".to_string()]);
    assert_eq!(
        expanded.objects.on_type_predicate[0].0,
        "<http://example.org/Person>".to_string()
    );
    assert_eq!(
        expanded.objects.on_type_predicate[0].1,
        vec!["<http://example.org/hasName>".to_string()]
    );
}

#[test]
fn rules_check_rejects_unknown_prefix() {
    let rules = Rules {
        invert: false,
        prefixes: Some(vec![(
            Some("ex".to_string()),
            "<http://example.org/>".to_string(),
        )]),
        nodes: NodeRules {
            of_type: vec!["foaf:Person".to_string()],
        },
        objects: ObjectRules {
            on_predicate: vec![],
            on_type_predicate: vec![],
        },
    };
    assert!(rules.check_uris().is_err());
}

#[test]
fn rules_check_rejects_bad_prefix_table() {
    let rules = Rules {
        invert: false,
        prefixes: Some(vec![(
            Some("ex".to_string()),
            "http://example.org/".to_string(),
        )]),
        nodes: NodeRules {
            of_type: vec!["ex:Person".to_string()],
        },
        objects: ObjectRules {
            on_predicate: vec![],
            on_type_predicate: vec![],
        },
    };
    assert!(rules.check_uris().is_err());
}

#[test]
fn rules_without_prefixes_pass_through() {
    let rules = scenario_rules(false);
    assert!(rules.check_uris().is_ok());
    let expanded = rules.expand_rules_curie().unwrap();
    assert_eq!(expanded.nodes.of_type, rules.nodes.of_type);
    assert_eq!(expanded.objects.on_predicate, rules.objects.on_predicate);
}

#[test]
fn rules_check_rejects_malformed_identifier() {
    let rules = Rules {
        invert: false,
        prefixes: None,
        nodes: NodeRules {
            of_type: vec!["Person".to_string()],
        },
        objects: ObjectRules {
            on_predicate: vec![],
            on_type_predicate: vec![],
        },
    };
    assert!(rules.check_uris().is_err());
}
