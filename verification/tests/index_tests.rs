use tripsu::index::{build_type_index, TypeIndex};
use tripsu::rdf_types::{NamedNode, Subject, Term, Triple};

#[test]
// Test the parsing of a triple.
fn index_from_iter() {
    let vals = vec![
        ("<urn:Alice>".to_string(), "<urn:Person>".to_string()),
        ("<urn:Alice>".to_string(), "<urn:Employee>".to_string()),
        ("<urn:ACME>".to_string(), "<urn:Organization>".to_string()),
    ];

    let idx = TypeIndex::from_iter(&vals);

    assert_eq!(
        idx.get("<urn:Alice>").unwrap(),
        vec!["<urn:Person>".to_string(), "<urn:Employee>".to_string()]
    );
}

#[test]
fn insert_deduplicates_types() {
    let mut idx = TypeIndex::new();
    idx.insert("<urn:Alice>", "<urn:Person>");
    idx.insert("<urn:Alice>", "<urn:Person>");
    assert_eq!(idx.get("<urn:Alice>").unwrap(), vec!["<urn:Person>".to_string()]);
    assert!(idx.get("<urn:Nobody>").is_none());
}

// The persisted form round-trips: every inserted pair is found again
// after the index is rendered to text and read back.
#[test]
fn index_round_trip() {
    let mut idx = TypeIndex::new();
    idx.insert("<urn:Alice>", "<urn:Person>");
    idx.insert("<urn:Alice>", "<urn:Employee>");
    idx.insert("<urn:ACME>", "<urn:Organization>");

    let text = idx.to_text();
    let idx2 = TypeIndex::from_text(text.as_str()).unwrap();

    assert_eq!(
        idx2.get("<urn:Alice>").unwrap(),
        vec!["<urn:Person>".to_string(), "<urn:Employee>".to_string()]
    );
    assert_eq!(
        idx2.get("<urn:ACME>").unwrap(),
        vec!["<urn:Organization>".to_string()]
    );
    assert!(idx2.get("<urn:Bob>").is_none());
    // a second round trip gives the same text
    assert_eq!(idx2.to_text(), text);
}

// The persisted form of an empty index, spelled out.
#[test]
fn empty_index_text() {
    let idx = TypeIndex::new();
    assert_eq!(idx.to_text(), "0;0;");
    let back = TypeIndex::from_text("0;0;").unwrap();
    assert!(back.get("<urn:Alice>").is_none());
}

// Strings with awkward characters survive the round trip: lengths are
// counted, not delimiters.
#[test]
fn round_trip_with_separator_characters() {
    let mut idx = TypeIndex::new();
    idx.insert("<urn:s;1>", "<urn:T;\n2>");
    let text = idx.to_text();
    let idx2 = TypeIndex::from_text(text.as_str()).unwrap();
    assert_eq!(idx2.get("<urn:s;1>").unwrap(), vec!["<urn:T;\n2>".to_string()]);
}

#[test]
fn malformed_index_text_is_rejected() {
    assert!(TypeIndex::from_text("").is_none());
    assert!(TypeIndex::from_text("garbage").is_none());
    assert!(TypeIndex::from_text("0;").is_none());
    assert!(TypeIndex::from_text("0;0;trailing").is_none());
    assert!(TypeIndex::from_text("1;3;<a>").is_none());
    // duplicate catalogue strings are refused
    assert!(TypeIndex::from_text("2;3;<a>3;<a>0;").is_none());
    // a complete encoding with no entries is accepted
    assert!(TypeIndex::from_text("1;3;<a>0;").is_some());
}

#[test]
fn build_index_keeps_only_type_assertions() {
    let type_iri = "http://www.w3.org/1999/02/22-rdf-syntax-ns#type";
    let triples = vec![
        Triple {
            subject: Subject::NamedNode(NamedNode { iri: "urn:Alice".to_string() }),
            predicate: NamedNode { iri: type_iri.to_string() },
            object: Term::NamedNode(NamedNode { iri: "urn:Person".to_string() }),
        },
        Triple {
            subject: Subject::NamedNode(NamedNode { iri: "urn:Alice".to_string() }),
            predicate: NamedNode { iri: "urn:hasName".to_string() },
            object: Term::NamedNode(NamedNode { iri: "urn:Bob".to_string() }),
        },
    ];
    let idx = build_type_index(&triples);
    // keys are the rendered subject and object texts
    assert_eq!(idx.get("<urn:Alice>").unwrap(), vec!["<urn:Person>".to_string()]);
}
