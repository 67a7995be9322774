use tripsu::uris::{PrefixError, PrefixMap, Uri, UriError, UriSet};

#[test]
fn classify_full_uri() {
    let u = Uri::try_from("<http://example.org/Person>".to_string()).unwrap();
    assert!(u.is_full());
    assert!(!u.is_compact());
}

#[test]
fn classify_curie() {
    let u = Uri::try_from("ex:Person".to_string()).unwrap();
    assert!(u.is_compact());
    let d = Uri::try_from(":Person".to_string()).unwrap();
    assert!(d.is_compact());
}

#[test]
fn classify_rejects_bad_iri() {
    let r = Uri::try_from("<not a valid iri>".to_string());
    assert!(matches!(r, Err(UriError::InvalidIri(_))));
}

#[test]
fn classify_rejects_malformed() {
    // no colon at all, so neither a delimited IRI nor a CURIE
    let r = Uri::try_from("Person".to_string());
    assert!(matches!(r, Err(UriError::MalformedIdentifier(_))));
    // the local part may not start with a path separator
    let r2 = Uri::try_from("http://example.org/".to_string());
    assert!(matches!(r2, Err(UriError::MalformedIdentifier(_))));
}

fn table(pairs: Vec<(Option<&str>, &str)>) -> Vec<(Option<String>, String)> {
    pairs
        .into_iter()
        .map(|(l, v)| (l.map(|s| s.to_string()), v.to_string()))
        .collect()
}

#[test]
fn build_prefix_map() {
    let pm = PrefixMap::from_hashmap(&table(vec![(Some("ex"), "<http://example.org/>")])).unwrap();
    let expanded = pm
        .expand_curie(&Uri::try_from("ex:Person".to_string()).unwrap())
        .unwrap();
    assert!(expanded.is_full());
    assert_eq!(expanded.render(), "<http://example.org/Person>");
}

#[test]
fn empty_label_serves_bare_colon() {
    let pm = PrefixMap::from_hashmap(&table(vec![(Some(""), "<http://example.org/>")])).unwrap();
    let expanded = pm
        .expand_curie(&Uri::try_from(":Person".to_string()).unwrap())
        .unwrap();
    assert_eq!(expanded.render(), "<http://example.org/Person>");
}

#[test]
fn build_rejects_reserved_label() {
    let r = PrefixMap::from_hashmap(&table(vec![(Some("_"), "<http://example.org/>")]));
    assert!(matches!(r, Err(PrefixError::PrefixNotAllowed(_))));
}

#[test]
fn build_rejects_bad_namespace() {
    // a namespace must be a valid delimited IRI
    let r = PrefixMap::from_hashmap(&table(vec![(Some("ex"), "http://example.org/")]));
    assert!(matches!(r, Err(PrefixError::InvalidPrefixURI(_))));
}

#[test]
fn expand_unknown_prefix_fails() {
    let pm = PrefixMap::from_hashmap(&table(vec![(Some("ex"), "<http://example.org/>")])).unwrap();
    let r = pm.expand_curie(&Uri::try_from("foaf:Person".to_string()).unwrap());
    assert!(matches!(r, Err(PrefixError::InvalidPrefix(_))));
}

#[test]
fn expand_without_default_fails() {
    let pm = PrefixMap::new();
    // a colon-free text reaches for the default entry, which is not set
    let r = pm.expand_curie(&Uri::CompactUri("Person".to_string()));
    assert!(matches!(r, Err(PrefixError::MissingDefault(_))));
}

// CURIE expansion is idempotent: a full URI passes through unchanged, and
// expanding twice gives what one expansion gives.
#[test]
fn expansion_idempotent() {
    let pm = PrefixMap::from_hashmap(&table(vec![(Some("ex"), "<http://example.org/>")])).unwrap();
    let full = Uri::try_from("<http://example.org/Person>".to_string()).unwrap();
    let once = pm.expand_curie(&full).unwrap();
    assert_eq!(once, full);

    let curie = Uri::try_from("ex:Person".to_string()).unwrap();
    let first = pm.expand_curie(&curie).unwrap();
    let second = pm.expand_curie(&first).unwrap();
    assert_eq!(second, first);
}

#[test]
fn uriset_deduplicates_and_filters() {
    let mut set = UriSet::new();
    set.insert(Uri::try_from("<http://example.org/a>".to_string()).unwrap());
    set.insert(Uri::try_from("<http://example.org/a>".to_string()).unwrap());
    set.insert(Uri::try_from("ex:b".to_string()).unwrap());
    assert_eq!(set.full_uris().uris.len(), 1);
    assert_eq!(set.compact_uris().uris.len(), 1);

    let mut other = UriSet::new();
    other.insert(Uri::try_from("ex:b".to_string()).unwrap());
    other.insert(Uri::try_from("ex:c".to_string()).unwrap());
    set.extend(&other);
    assert_eq!(set.compact_uris().uris.len(), 2);
}

#[test]
fn uriset_expand() {
    let pm = PrefixMap::from_hashmap(&table(vec![(Some("ex"), "<http://example.org/>")])).unwrap();
    let set = UriSet::try_from(&vec![
        "ex:Person".to_string(),
        "<http://example.org/Person>".to_string(),
    ])
    .unwrap();
    let expanded = set.expand(&pm).unwrap();
    // both members expand to the same full IRI and are merged
    assert_eq!(expanded.uris.len(), 1);
    assert!(expanded.uris[0].is_full());
}
