//! Classification and expansion of identifiers: an identifier is either a
//! full IRI enclosed in angle brackets or a CURIE (`prefix:local`, or
//! `:local` for an entry registered under the empty label). CURIEs expand
//! to full IRIs against a prefix table built once from configuration.

use curie::PrefixMapping;
use vstd::prelude::*;
use vstd::string::*;

verus! {

/// Is `c` an ASCII letter or underscore, the characters a prefix label may
/// start with?
pub open spec fn is_prefix_start(c: char) -> bool {
    (('A' as u32) <= c as u32 && c as u32 <= ('Z' as u32)) || (('a' as u32) <= c as u32 && c as u32
        <= ('z' as u32)) || c == '_'
}

/// Is `c` a character a prefix label may contain: letters, digits, `_`,
/// `.` or `-`?
pub open spec fn is_prefix_char(c: char) -> bool {
    is_prefix_start(c) || (('0' as u32) <= c as u32 && c as u32 <= ('9' as u32)) || c == '.' || c
        == '-'
}

/// Is `c` a whitespace character for the purposes of the CURIE grammar?
pub open spec fn is_space(c: char) -> bool {
    c == ' ' || c == '\t' || c == '\n' || c == '\r' || c == '\u{b}' || c == '\u{c}'
}

/// Index of the first colon in `s`, or -1 when there is none.
pub open spec fn first_colon(s: Seq<char>) -> int
    decreases s.len(),
{
    if s.len() == 0 {
        -1
    } else if s[0] == ':' {
        0
    } else if first_colon(s.drop_first()) == -1 {
        -1
    } else {
        first_colon(s.drop_first()) + 1
    }
}

/// `first_colon` indeed points at the first colon: it is a colon position
/// preceded by none, and -1 only when the string holds no colon at all.
pub proof fn lemma_first_colon(s: Seq<char>)
    ensures
        -1 <= first_colon(s) < s.len(),
        first_colon(s) >= 0 ==> s[first_colon(s)] == ':',
        forall|j: int| 0 <= j < s.len() && (first_colon(s) == -1 || j < first_colon(s)) ==> (
        #[trigger] s[j]) != ':',
    decreases s.len(),
{
    if s.len() == 0 {
    } else if s[0] == ':' {
    } else {
        lemma_first_colon(s.drop_first());
        assert forall|j: int|
            0 <= j < s.len() && (first_colon(s) == -1 || j < first_colon(s)) implies (#[trigger] s[
            j]) != ':' by {
            if j > 0 {
                assert(s.drop_first()[j - 1] == s[j]);
            }
        }
    }
}

/// A colon position preceded by no colon is the first one.
pub proof fn lemma_first_colon_at(s: Seq<char>, i: int)
    requires
        0 <= i < s.len(),
        s[i] == ':',
        forall|j: int| 0 <= j < i ==> (#[trigger] s[j]) != ':',
    ensures
        first_colon(s) == i,
    decreases s.len(),
{
    if i == 0 {
    } else {
        assert(s[0] != ':');
        assert(forall|j: int| 0 <= j < s.len() - 1 ==> s.drop_first()[j] == #[trigger] s[j + 1]);
        lemma_first_colon_at(s.drop_first(), i - 1);
    }
}

/// The prefix part of a CURIE: empty, or a prefix-start character followed
/// by prefix characters.
pub open spec fn valid_prefix(p: Seq<char>) -> bool {
    p.len() == 0 || (is_prefix_start(p[0]) && forall|i: int|
        0 <= i < p.len() ==> is_prefix_char(#[trigger] p[i]))
}

/// The local part of a CURIE: non-empty, free of whitespace, and not
/// starting with a path or scheme separator.
pub open spec fn valid_local(l: Seq<char>) -> bool {
    l.len() > 0 && !is_space(l[0]) && l[0] != ':' && l[0] != '/' && forall|i: int|
        0 <= i < l.len() ==> !is_space(#[trigger] l[i])
}

/// The CURIE grammar: `[prefix] ":" local`, split at the first colon.
pub open spec fn is_curie(s: Seq<char>) -> bool {
    let c = first_colon(s);
    c >= 0 && valid_prefix(s.subrange(0, c)) && valid_local(s.subrange(c + 1, s.len() as int))
}

/// Is `s` a delimited identifier: at least the two angle brackets around
/// an interior?
pub open spec fn is_bracketed(s: Seq<char>) -> bool {
    s.len() >= 2 && s[0] == '<' && s[s.len() - 1] == '>'
}

/// The interior of a delimited identifier, brackets stripped.
pub open spec fn bracket_interior(s: Seq<char>) -> Seq<char> {
    s.subrange(1, s.len() - 1)
}

/// Does this character sequence form a conformant IRI? Named after the
/// outcome of the external syntax check; the answer depends on the
/// characters alone.
pub uninterp spec fn iri_valid(s: Seq<char>) -> bool;

/// Checks whether the text is an absolute IRI with an optional fragment.
///
/// Relies on `sophia_iri::is_absolute_iri_ref`: a pure syntax predicate
/// over the input text.
#[verifier::external_body]
fn check_iri(s: &str) -> (r: bool)
    ensures
        r == iri_valid(s@),
{
    sophia_iri::is_absolute_iri_ref(s)
}

/// Errors classifying a single identifier.
#[derive(Debug)]
pub enum UriError {
    /// Neither a delimited IRI nor a CURIE; carries the offending text.
    MalformedIdentifier(String),
    /// Delimited, but the interior is not a conformant IRI; carries the
    /// offending text.
    InvalidIri(String),
}

/// An identifier, classified: either a full IRI (stored without its angle
/// brackets) or a CURIE (stored as written).
#[derive(Debug, Hash)]
pub enum Uri {
    FullUri(String),
    CompactUri(String),
}

impl Clone for Uri {
    /// A clone is equal to the original.
    fn clone(&self) -> (r: Self)
        ensures
            r == *self,
    {
        match self {
            Uri::FullUri(t) => Uri::FullUri(t.clone()),
            Uri::CompactUri(t) => Uri::CompactUri(t.clone()),
        }
    }
}

impl PartialEq for Uri {
    /// Two identifiers are equal when they have the same classification
    /// and the same text.
    fn eq(&self, other: &Uri) -> (r: bool) {
        match (self, other) {
            (Uri::FullUri(a), Uri::FullUri(b)) => *a == *b,
            (Uri::CompactUri(a), Uri::CompactUri(b)) => *a == *b,
            _ => false,
        }
    }
}

impl vstd::std_specs::cmp::PartialEqSpecImpl for Uri {
    open spec fn obeys_eq_spec() -> bool {
        true
    }

    open spec fn eq_spec(&self, other: &Uri) -> bool {
        self.key() == other.key()
    }
}

impl Uri {
    /// The stored text, whatever the classification.
    pub open spec fn text(&self) -> Seq<char> {
        match *self {
            Uri::FullUri(t) => t@,
            Uri::CompactUri(t) => t@,
        }
    }

    /// Classification and text together: what identifies a `Uri` value.
    pub open spec fn key(&self) -> (bool, Seq<char>) {
        (self is FullUri, self.text())
    }

    /// Is this a full IRI?
    pub fn is_full(&self) -> (r: bool)
        ensures
            r == (self is FullUri),
    {
        match self {
            Uri::FullUri(_) => true,
            Uri::CompactUri(_) => false,
        }
    }

    /// Is this a CURIE?
    pub fn is_compact(&self) -> (r: bool)
        ensures
            r == (self is CompactUri),
    {
        !self.is_full()
    }

    /// Classifies a raw identifier. Text enclosed in angle brackets must
    /// hold a conformant IRI inside; anything else must match the CURIE
    /// grammar.
    pub fn try_from(uri: String) -> (r: Result<Uri, UriError>)
        ensures
            r is Ok <==> ((is_bracketed(uri@) && iri_valid(bracket_interior(uri@))) || (
            !is_bracketed(uri@) && is_curie(uri@))),
            match r {
                Ok(u) => match u {
                    Uri::FullUri(t) => is_bracketed(uri@) && t@ == bracket_interior(uri@)
                        && iri_valid(t@),
                    Uri::CompactUri(t) => !is_bracketed(uri@) && is_curie(uri@) && t == uri,
                },
                Err(e) => match e {
                    UriError::InvalidIri(v) => is_bracketed(uri@) && !iri_valid(
                        bracket_interior(uri@),
                    ) && v == uri,
                    UriError::MalformedIdentifier(v) => !is_bracketed(uri@) && !is_curie(uri@) && v
                        == uri,
                },
            },
    {
        let s = uri.as_str();
        let n = s.unicode_len();
        if n >= 2 && s.get_char(0) == '<' && s.get_char(n - 1) == '>' {
            let trimmed = s.substring_char(1, n - 1);
            proof {
                assert(trimmed@ =~= bracket_interior(uri@));
            }
            if check_iri(trimmed) {
                Ok(Uri::FullUri(String::from_str(trimmed)))
            } else {
                Err(UriError::InvalidIri(uri))
            }
        } else {
            if check_curie(s) {
                Ok(Uri::CompactUri(uri))
            } else {
                Err(UriError::MalformedIdentifier(uri))
            }
        }
    }
}

/// Finds the first colon of the text, if any.
fn find_colon(s: &str) -> (r: Option<usize>)
    ensures
        match r {
            Some(i) => first_colon(s@) == i,
            None => first_colon(s@) == -1,
        },
{
    let n = s.unicode_len();
    let mut i: usize = 0;
    while i < n
        invariant
            0 <= i <= n,
            n == s@.len(),
            forall|j: int| 0 <= j < i ==> (#[trigger] s@[j]) != ':',
        decreases n - i,
    {
        if s.get_char(i) == ':' {
            proof {
                lemma_first_colon_at(s@, i as int);
            }
            return Some(i);
        }
        i += 1;
    }
    proof {
        lemma_first_colon(s@);
    }
    None
}

/// Is `c` a character a prefix label may start with?
fn prefix_start_char(c: char) -> (r: bool)
    ensures
        r == is_prefix_start(c),
{
    let u = c as u32;
    (u >= 'A' as u32 && u <= 'Z' as u32) || (u >= 'a' as u32 && u <= 'z' as u32) || c == '_'
}

/// Is `c` a character a prefix label may contain?
fn prefix_char(c: char) -> (r: bool)
    ensures
        r == is_prefix_char(c),
{
    let u = c as u32;
    prefix_start_char(c) || (u >= '0' as u32 && u <= '9' as u32) || c == '.' || c == '-'
}

/// Is `c` whitespace for the purposes of the CURIE grammar?
fn space_char(c: char) -> (r: bool)
    ensures
        r == is_space(c),
{
    c == ' ' || c == '\t' || c == '\n' || c == '\r' || c == '\u{b}' || c == '\u{c}'
}

/// Does the text, taken whole, match the CURIE grammar?
fn check_curie(s: &str) -> (r: bool)
    ensures
        r == is_curie(s@),
{
    let n = s.unicode_len();
    let c = match find_colon(s) {
        Some(c) => c,
        None => {
            return false;
        },
    };
    proof {
        lemma_first_colon(s@);
    }
    // The prefix part: empty, or prefix-start followed by prefix characters.
    if c > 0 {
        let c0 = s.get_char(0);
        if !prefix_start_char(c0) {
            proof {
                assert(s@.subrange(0, c as int)[0] == s@[0]);
            }
            return false;
        }
        let mut i: usize = 0;
        while i < c
            invariant
                0 <= i <= c < n,
                n == s@.len(),
                first_colon(s@) == c,
                forall|j: int| 0 <= j < i ==> is_prefix_char(#[trigger] s@[j]),
            decreases c - i,
        {
            let ci = s.get_char(i);
            if !prefix_char(ci) {
                proof {
                    assert(s@.subrange(0, c as int)[i as int] == s@[i as int]);
                    assert(!valid_prefix(s@.subrange(0, c as int)));
                }
                return false;
            }
            i += 1;
        }
        proof {
            assert(forall|j: int|
                0 <= j < c ==> #[trigger] s@.subrange(0, c as int)[j] == s@[j]);
            assert(s@.subrange(0, c as int)[0] == s@[0]);
            assert(valid_prefix(s@.subrange(0, c as int)));
        }
    } else {
        proof {
            assert(s@.subrange(0, 0).len() == 0);
            assert(valid_prefix(s@.subrange(0, c as int)));
        }
    }
    // The local part: non-empty, no whitespace, not starting with ':' or '/'.
    if c + 1 >= n {
        proof {
            assert(s@.subrange(c + 1, n as int).len() == 0);
        }
        return false;
    }
    let l0 = s.get_char(c + 1);
    if space_char(l0) || l0 == ':' || l0 == '/' {
        proof {
            assert(s@.subrange(c + 1, n as int)[0] == s@[c + 1]);
        }
        return false;
    }
    let mut i: usize = c + 1;
    while i < n
        invariant
            c + 1 <= i <= n,
            c < n,
            n == s@.len(),
            first_colon(s@) == c,
            forall|j: int| c + 1 <= j < i ==> !is_space(#[trigger] s@[j]),
        decreases n - i,
    {
        let ci = s.get_char(i);
        if space_char(ci) {
            proof {
                assert(s@.subrange(c + 1, n as int)[i - c - 1] == s@[i as int]);
                assert(!valid_local(s@.subrange(c + 1, n as int)));
            }
            return false;
        }
        i += 1;
    }
    proof {
        assert(forall|j: int|
            0 <= j < n - c - 1 ==> #[trigger] s@.subrange(c + 1, n as int)[j] == s@[j + c + 1]);
        assert(s@.subrange(c + 1, n as int)[0] == s@[c + 1]);
        assert(valid_local(s@.subrange(c + 1, n as int)));
    }
    true
}


/// May this text be handed to the prefix table for expansion? The table
/// splits at the first colon by character position but slices bytes, so
/// every character before the colon must be ASCII — which the CURIE
/// grammar guarantees.
pub open spec fn ascii_before_colon(s: Seq<char>) -> bool {
    forall|j: int| 0 <= j < first_colon(s) ==> ((#[trigger] s[j]) as u32) < 128
}

/// An empty table of labelled entries.
pub open spec fn empty_entries() -> Map<Seq<char>, Seq<char>> {
    Map::empty()
}

/// A mapping of prefix labels to namespace IRIs. The table itself lives in
/// the outside prefix-expansion crate and is opaque here: specifications
/// see its contents only through `curie_entries` and `curie_default`.
#[verifier::external_body]
#[derive(Debug)]
pub struct PrefixMap {
    inner: PrefixMapping,
}

/// The labelled prefix entries the table holds, as a map from label text
/// to namespace text.
pub uninterp spec fn curie_entries(m: &PrefixMap) -> Map<Seq<char>, Seq<char>>;

/// The default namespace the table holds, if one was set.
pub uninterp spec fn curie_default(m: &PrefixMap) -> Option<Seq<char>>;

/// Why a CURIE failed to expand: its label is not in the table, or it
/// carries no colon and no default entry is set.
enum ExpandFailure {
    UnknownPrefix,
    NoDefault,
}

/// Creates an empty prefix table.
///
/// Relies on `PrefixMapping::default`: no labels, no default.
#[verifier::external_body]
fn new_prefix_mapping() -> (r: PrefixMap)
    ensures
        curie_entries(&r) == empty_entries(),
        curie_default(&r) == None::<Seq<char>>,
{
    PrefixMap { inner: PrefixMapping::default() }
}

/// Registers a namespace under a prefix label.
///
/// Relies on `PrefixMapping::add_prefix`: the label `_` is reserved
/// and refused; any other label is mapped to the namespace, replacing an
/// earlier entry for the same label. The default entry is untouched.
#[verifier::external_body]
fn add_prefix_entry(m: &mut PrefixMap, prefix: &str, value: &str) -> (r: Result<
    (),
    (),
>)
    ensures
        r is Ok <==> prefix@ != seq!['_'],
        r is Ok ==> curie_entries(final(m)) == curie_entries(old(m)).insert(prefix@, value@)
            && curie_default(final(m)) == curie_default(old(m)),
        r is Err ==> curie_entries(final(m)) == curie_entries(old(m)) && curie_default(
            final(m),
        ) == curie_default(old(m)),
{
    match m.inner.add_prefix(prefix, value) {
        Ok(()) => Ok(()),
        Err(_) => Err(()),
    }
}

/// Sets the default namespace, used for texts without a colon.
///
/// Relies on `PrefixMapping::set_default`: the labelled entries are
/// untouched.
#[verifier::external_body]
fn set_default_entry(m: &mut PrefixMap, value: &str)
    ensures
        curie_default(final(m)) == Some(value@),
        curie_entries(final(m)) == curie_entries(old(m)),
{
    m.inner.set_default(value);
}

/// Expands a CURIE text against the table: the text before the first colon
/// is looked up among the labels and the namespace found replaces it; a
/// text without a colon is prefixed with the default namespace.
///
/// Relies on `PrefixMapping::expand_curie_string`, which performs
/// exactly that split and lookup.
#[verifier::external_body]
fn expand_curie_text(m: &PrefixMap, s: &str) -> (r: Result<String, ExpandFailure>)
    requires
        ascii_before_colon(s@),
    ensures
        ({
            let fc = first_colon(s@);
            if fc >= 0 {
                let p = s@.subrange(0, fc);
                let rest = s@.subrange(fc + 1, s@.len() as int);
                if curie_entries(m).contains_key(p) {
                    r matches Ok(o) && o@ == curie_entries(m)[p] + rest
                } else {
                    r matches Err(f) && f is UnknownPrefix
                }
            } else {
                match curie_default(m) {
                    Some(d) => r matches Ok(o) && o@ == d + s@,
                    None => r matches Err(f) && f is NoDefault,
                }
            }
        }),
{
    match m.inner.expand_curie_string(s) {
        Ok(o) => Ok(o),
        Err(curie::ExpansionError::Invalid) => Err(ExpandFailure::UnknownPrefix),
        Err(curie::ExpansionError::MissingDefault) => Err(ExpandFailure::NoDefault),
    }
}

/// Errors related to CURIE prefixes; each carries the offending text.
#[derive(Debug, PartialEq)]
pub enum PrefixError {
    /// The CURIE's prefix label has no entry in the table.
    InvalidPrefix(String),
    /// The CURIE has no colon and the table has no default entry.
    MissingDefault(String),
    /// The reserved label `_` may not be registered.
    PrefixNotAllowed(String),
    /// A table value is not a valid delimited IRI.
    InvalidPrefixURI(String),
}

/// The key of the identifier a successful expansion returns, or `None`
/// when expansion fails: full IRIs pass through unchanged, CURIEs are
/// resolved against the labelled entries or the default namespace.
pub open spec fn spec_expand_key(
    entries: Map<Seq<char>, Seq<char>>,
    dflt: Option<Seq<char>>,
    full: bool,
    t: Seq<char>,
) -> Option<(bool, Seq<char>)> {
    if full {
        Some((true, t))
    } else {
        let fc = first_colon(t);
        if fc >= 0 {
            if entries.contains_key(t.subrange(0, fc)) {
                Some((true, entries[t.subrange(0, fc)] + t.subrange(fc + 1, t.len() as int)))
            } else {
                None
            }
        } else {
            match dflt {
                Some(d) => Some((true, d + t)),
                None => None,
            }
        }
    }
}

/// Law: CURIE expansion is idempotent. Expanding an already-full IRI
/// returns it unchanged, and whatever a successful expansion returns is a
/// full IRI, so a second expansion of the result changes nothing: two
/// expansions with the same table give what one gives.
pub proof fn lemma_expand_idempotent(
    entries: Map<Seq<char>, Seq<char>>,
    dflt: Option<Seq<char>>,
    full: bool,
    t: Seq<char>,
    k: (bool, Seq<char>),
)
    requires
        spec_expand_key(entries, dflt, full, t) == Some(k),
    ensures
        k.0,
        spec_expand_key(entries, dflt, k.0, k.1) == Some(k),
{
}

/// Is this configuration pair acceptable: a valid delimited IRI as value,
/// and a label other than the reserved `_`?
pub open spec fn pair_ok(p: (Option<String>, String)) -> bool {
    is_bracketed(p.1@) && iri_valid(bracket_interior(p.1@)) && (p.0 matches Some(l) ==> l@
        != seq!['_'])
}

/// The labelled entries that building a table from `pairs` produces: each
/// labelled pair maps its label to the value's interior, later pairs
/// overriding earlier ones.
pub open spec fn spec_build_entries(pairs: Seq<(Option<String>, String)>) -> Map<
    Seq<char>,
    Seq<char>,
>
    decreases pairs.len(),
{
    if pairs.len() == 0 {
        Map::empty()
    } else {
        let m = spec_build_entries(pairs.drop_last());
        match pairs.last().0 {
            Some(l) => m.insert(l@, bracket_interior(pairs.last().1@)),
            None => m,
        }
    }
}

/// The default entry that building a table from `pairs` produces: the
/// interior of the last value that came without a label, if any.
pub open spec fn spec_build_default(pairs: Seq<(Option<String>, String)>) -> Option<Seq<char>>
    decreases pairs.len(),
{
    if pairs.len() == 0 {
        None
    } else {
        match pairs.last().0 {
            Some(_) => spec_build_default(pairs.drop_last()),
            None => Some(bracket_interior(pairs.last().1@)),
        }
    }
}

/// Building over one more pair extends what the shorter build produced.
proof fn lemma_build_snoc(pairs: Seq<(Option<String>, String)>, i: int)
    requires
        0 <= i < pairs.len(),
    ensures
        spec_build_entries(pairs.subrange(0, i + 1)) == (match pairs[i].0 {
            Some(l) => spec_build_entries(pairs.subrange(0, i)).insert(
                l@,
                bracket_interior(pairs[i].1@),
            ),
            None => spec_build_entries(pairs.subrange(0, i)),
        }),
        spec_build_default(pairs.subrange(0, i + 1)) == (match pairs[i].0 {
            Some(_) => spec_build_default(pairs.subrange(0, i)),
            None => Some(bracket_interior(pairs[i].1@)),
        }),
{
    assert(pairs.subrange(0, i + 1).drop_last() =~= pairs.subrange(0, i));
    assert(pairs.subrange(0, i + 1).last() == pairs[i]);
}

impl Default for PrefixMap {
    /// The default table is empty.
    fn default() -> (r: PrefixMap)
        ensures
            r.entries() == Map::<Seq<char>, Seq<char>>::empty(),
            r.default_ns() is None,
    {
        PrefixMap::new()
    }
}

impl PrefixMap {
    /// The labelled entries of the table.
    pub open spec fn entries(&self) -> Map<Seq<char>, Seq<char>> {
        curie_entries(self)
    }

    /// The default entry of the table, if any.
    pub open spec fn default_ns(&self) -> Option<Seq<char>> {
        curie_default(self)
    }

    /// An empty table.
    pub fn new() -> (r: PrefixMap)
        ensures
            r.entries() == Map::<Seq<char>, Seq<char>>::empty(),
            r.default_ns() is None,
    {
        new_prefix_mapping()
    }

    /// Builds a table from configuration pairs. Every value must be a valid
    /// delimited IRI and is stored without its brackets; a pair without a
    /// label sets the default entry; the label `_` is refused.
    pub fn from_hashmap(pairs: &Vec<(Option<String>, String)>) -> (r: Result<
        PrefixMap,
        PrefixError,
    >)
        ensures
            r is Ok <==> (forall|i: int| 0 <= i < pairs@.len() ==> pair_ok(#[trigger] pairs@[i])),
            r matches Ok(m) ==> m.entries() == spec_build_entries(pairs@) && m.default_ns()
                == spec_build_default(pairs@),
            r matches Err(e) ==> match e {
                PrefixError::InvalidPrefixURI(v) => exists|i: int|
                    0 <= i < pairs@.len() && v == (#[trigger] pairs@[i]).1 && !(is_bracketed(v@)
                        && iri_valid(bracket_interior(v@))),
                PrefixError::PrefixNotAllowed(v) => exists|i: int|
                    0 <= i < pairs@.len() && (#[trigger] pairs@[i]).0 == Some(v) && v@
                        == seq!['_'],
                _ => false,
            },
    {
        let mut table = new_prefix_mapping();
        let n = pairs.len();
        let mut i: usize = 0;
        while i < n
            invariant
                0 <= i <= n,
                n == pairs@.len(),
                curie_entries(&table) == spec_build_entries(pairs@.subrange(0, i as int)),
                curie_default(&table) == spec_build_default(pairs@.subrange(0, i as int)),
                forall|j: int| 0 <= j < i ==> pair_ok(#[trigger] pairs@[j]),
            decreases n - i,
        {
            let (label, value) = &pairs[i];
            let interior = match Uri::try_from(value.clone()) {
                Ok(Uri::FullUri(t)) => t,
                Ok(Uri::CompactUri(_)) => {
                    return Err(PrefixError::InvalidPrefixURI(value.clone()));
                },
                Err(_) => {
                    return Err(PrefixError::InvalidPrefixURI(value.clone()));
                },
            };
            match label {
                Some(l) => {
                    match add_prefix_entry(&mut table, l.as_str(), interior.as_str()) {
                        Ok(()) => {},
                        Err(()) => {
                            return Err(PrefixError::PrefixNotAllowed(l.clone()));
                        },
                    }
                },
                None => {
                    set_default_entry(&mut table, interior.as_str());
                },
            }
            proof {
                lemma_build_snoc(pairs@, i as int);
            }
            i += 1;
        }
        proof {
            assert(pairs@.subrange(0, n as int) =~= pairs@);
        }
        Ok(table)
    }

    /// Expands a CURIE into a full IRI against this table; a full IRI is
    /// returned unchanged. Fails with `InvalidPrefix` when the label before
    /// the colon has no entry, and with `MissingDefault` when the text has
    /// no colon and no default entry is set.
    pub fn expand_curie(&self, uri: &Uri) -> (r: Result<Uri, PrefixError>)
        requires
            uri matches Uri::CompactUri(c) ==> ascii_before_colon(c@),
        ensures
            r is Ok <==> spec_expand_key(
                self.entries(),
                self.default_ns(),
                uri is FullUri,
                uri.text(),
            ) is Some,
            r matches Ok(u) ==> Some(u.key()) == spec_expand_key(
                self.entries(),
                self.default_ns(),
                uri is FullUri,
                uri.text(),
            ),
            uri is FullUri ==> (r matches Ok(u) && u == *uri),
            r matches Err(e) ==> match e {
                PrefixError::InvalidPrefix(v) => v@ == uri.text() && uri is CompactUri
                    && first_colon(uri.text()) >= 0 && !self.entries().contains_key(
                    uri.text().subrange(0, first_colon(uri.text())),
                ),
                PrefixError::MissingDefault(v) => v@ == uri.text() && uri is CompactUri
                    && first_colon(uri.text()) < 0 && self.default_ns() is None,
                _ => false,
            },
    {
        match uri {
            Uri::FullUri(_) => Ok(uri.clone()),
            Uri::CompactUri(cu) => match expand_curie_text(self, cu.as_str()) {
                Ok(o) => Ok(Uri::FullUri(o)),
                Err(ExpandFailure::UnknownPrefix) => Err(PrefixError::InvalidPrefix(cu.clone())),
                Err(ExpandFailure::NoDefault) => Err(PrefixError::MissingDefault(cu.clone())),
            },
        }
    }
}


impl Uri {
    /// May this identifier be handed to a prefix table for expansion?
    pub open spec fn wf_expand(&self) -> bool {
        self matches Uri::CompactUri(c) ==> ascii_before_colon(c@)
    }

    /// Expands this identifier against the given prefix table.
    pub fn expand(&self, prefix_map: &PrefixMap) -> (r: Result<Uri, PrefixError>)
        requires
            self.wf_expand(),
        ensures
            r is Ok <==> spec_expand_key(
                prefix_map.entries(),
                prefix_map.default_ns(),
                self is FullUri,
                self.text(),
            ) is Some,
            r matches Ok(u) ==> Some(u.key()) == spec_expand_key(
                prefix_map.entries(),
                prefix_map.default_ns(),
                self is FullUri,
                self.text(),
            ),
            self is FullUri ==> (r matches Ok(u) && u == *self),
    {
        prefix_map.expand_curie(self)
    }
}

/// A collection of distinct URIs, held in insertion order.
#[derive(Debug)]
pub struct UriSet {
    pub uris: Vec<Uri>,
}

impl Clone for UriSet {
    /// A clone holds the same identifiers.
    fn clone(&self) -> (r: Self)
        ensures
            r.items() == self.items(),
    {
        let mut out: Vec<Uri> = Vec::new();
        let n = self.uris.len();
        let mut i: usize = 0;
        while i < n
            invariant
                0 <= i <= n,
                n == self.uris@.len(),
                out@ == self.uris@.subrange(0, i as int),
            decreases n - i,
        {
            out.push(self.uris[i].clone());
            proof {
                assert(out@ =~= self.uris@.subrange(0, i + 1));
            }
            i += 1;
        }
        proof {
            assert(self.uris@.subrange(0, n as int) =~= self.uris@);
        }
        UriSet { uris: out }
    }
}

impl Default for UriSet {
    /// The default collection is empty.
    fn default() -> (r: UriSet)
        ensures
            r.items().len() == 0,
    {
        UriSet::new()
    }
}

impl UriSet {
    /// The identifiers held, in insertion order.
    pub open spec fn items(&self) -> Seq<Uri> {
        self.uris@
    }

    /// Does the collection hold an identifier with this key?
    pub open spec fn spec_contains(&self, k: (bool, Seq<char>)) -> bool {
        exists|i: int| 0 <= i < self.items().len() && (#[trigger] self.items()[i]).key() == k
    }

    /// May every member be handed to a prefix table for expansion?
    pub open spec fn wf_expand(&self) -> bool {
        forall|i: int| 0 <= i < self.items().len() ==> (#[trigger] self.items()[i]).wf_expand()
    }

    /// No two members share a key: the collection holds distinct URIs.
    pub open spec fn distinct(&self) -> bool {
        forall|i: int, j: int|
            0 <= i < j < self.items().len() ==> (#[trigger] self.items()[i]).key() != (
            #[trigger] self.items()[j]).key()
    }

    /// An empty collection.
    pub fn new() -> (r: UriSet)
        ensures
            r.items().len() == 0,
            r.distinct(),
    {
        UriSet { uris: Vec::new() }
    }

    /// Does the collection hold an identifier equal to `u`?
    fn contains_uri(&self, u: &Uri) -> (r: bool)
        ensures
            r == self.spec_contains(u.key()),
    {
        let n = self.uris.len();
        let mut i: usize = 0;
        while i < n
            invariant
                0 <= i <= n,
                n == self.items().len(),
                forall|j: int| 0 <= j < i ==> (#[trigger] self.items()[j]).key() != u.key(),
            decreases n - i,
        {
            if &self.uris[i] == u {
                return true;
            }
            i += 1;
        }
        false
    }

    /// Adds an identifier unless an equal one is already held.
    pub fn insert(&mut self, uri: Uri)
        ensures
            final(self).spec_contains(uri.key()),
            old(self).spec_contains(uri.key()) ==> final(self).items() == old(self).items(),
            !old(self).spec_contains(uri.key()) ==> final(self).items() == old(self).items().push(
                uri,
            ),
            forall|k: (bool, Seq<char>)|
                #[trigger] final(self).spec_contains(k) == (old(self).spec_contains(k) || k
                    == uri.key()),
            final(self).items().len() <= old(self).items().len() + 1,
            old(self).distinct() ==> final(self).distinct(),
    {
        if !self.contains_uri(&uri) {
            let ghost before = self.uris@;
            self.uris.push(uri);
            proof {
                assert(self.items() =~= before.push(uri));
                assert forall|k: (bool, Seq<char>)| #[trigger]
                    self.spec_contains(k) implies (old(self).spec_contains(k) || k
                    == uri.key()) by {
                    let i = choose|i: int|
                        0 <= i < self.items().len() && (#[trigger] self.items()[i]).key() == k;
                    if i < before.len() {
                        assert(old(self).items()[i].key() == k);
                    }
                }
                assert forall|k: (bool, Seq<char>)|
                    old(self).spec_contains(k) || k == uri.key() implies #[trigger]
                    self.spec_contains(k) by {
                    if old(self).spec_contains(k) {
                        let i = choose|i: int|
                            0 <= i < old(self).items().len() && (#[trigger] old(self).items()[
                            i]).key() == k;
                        assert(self.items()[i].key() == k);
                    } else {
                        assert(self.items()[before.len() as int].key() == k);
                    }
                }
                if old(self).distinct() {
                    assert forall|i: int, j: int|
                        0 <= i < j < self.items().len() implies (#[trigger] self.items()[
                    i]).key() != (#[trigger] self.items()[j]).key() by {
                        if j == before.len() {
                            assert(!old(self).spec_contains(uri.key()));
                            assert(old(self).items()[i].key() != uri.key());
                        } else {
                            assert(old(self).items()[i].key() != old(self).items()[j].key());
                        }
                    }
                }
            }
        }
    }

    /// Adds every identifier of `other` that is not already held.
    pub fn extend(&mut self, other: &UriSet)
        ensures
            forall|k: (bool, Seq<char>)|
                #[trigger] final(self).spec_contains(k) == (old(self).spec_contains(k)
                    || other.spec_contains(k)),
            old(self).distinct() ==> final(self).distinct(),
    {
        let n = other.uris.len();
        let mut i: usize = 0;
        while i < n
            invariant
                0 <= i <= n,
                n == other.items().len(),
                forall|k: (bool, Seq<char>)|
                    #[trigger] self.spec_contains(k) == (old(self).spec_contains(k) || exists|
                        j: int,
                    | 0 <= j < i && (#[trigger] other.items()[j]).key() == k),
                old(self).distinct() ==> self.distinct(),
            decreases n - i,
        {
            self.insert(other.uris[i].clone());
            i += 1;
        }
    }

    /// Classifies every raw string and collects the identifiers; the first
    /// string that classifies as neither a delimited IRI nor a CURIE makes
    /// the whole collection fail.
    pub fn try_from(strs: &Vec<String>) -> (r: Result<UriSet, UriError>)
        ensures
            r is Ok <==> (forall|i: int|
                0 <= i < strs@.len() ==> spec_classify((#[trigger] strs@[i])@) is Some),
            r matches Ok(set) ==> (forall|i: int|
                0 <= i < strs@.len() ==> (spec_classify((#[trigger] strs@[i])@) matches Some(k)
                    && set.spec_contains(k))),
            r matches Ok(set) ==> (forall|j: int|
                0 <= j < set.items().len() ==> classify_covers(
                    strs@,
                    strs@.len() as int,
                    (#[trigger] set.items()[j]).key(),
                )),
            r matches Ok(set) ==> set.distinct(),
            r matches Err(e) ==> (match e {
                UriError::MalformedIdentifier(v) => !is_bracketed(v@) && !is_curie(v@),
                UriError::InvalidIri(v) => is_bracketed(v@) && !iri_valid(bracket_interior(v@)),
            } && exists|i: int| 0 <= i < strs@.len() && spec_classify((#[trigger] strs@[i])@) is None),
    {
        let mut set = UriSet::new();
        let n = strs.len();
        let mut i: usize = 0;
        while i < n
            invariant
                0 <= i <= n,
                n == strs@.len(),
                forall|j: int|
                    0 <= j < i ==> spec_classify((#[trigger] strs@[j])@) is Some,
                forall|j: int|
                    0 <= j < i ==> (spec_classify((#[trigger] strs@[j])@) matches Some(k)
                        && set.spec_contains(k)),
                forall|j: int|
                    0 <= j < set.items().len() ==> classify_covers(
                        strs@,
                        i as int,
                        (#[trigger] set.items()[j]).key(),
                    ),
                set.distinct(),
            decreases n - i,
        {
            match Uri::try_from(strs[i].clone()) {
                Ok(u) => {
                    proof {
                        assert(spec_classify(strs@[i as int]@) == Some(u.key()));
                    }
                    set.insert(u);
                },
                Err(e) => {
                    return Err(e);
                },
            }
            i += 1;
        }
        Ok(set)
    }

    /// Expands every member against the prefix table, collecting the
    /// results; the first member that fails to expand makes the whole
    /// collection fail.
    pub fn expand(&self, prefix_map: &PrefixMap) -> (r: Result<UriSet, PrefixError>)
        requires
            self.wf_expand(),
        ensures
            r is Ok <==> (forall|i: int|
                0 <= i < self.items().len() ==> spec_expand_key(
                    prefix_map.entries(),
                    prefix_map.default_ns(),
                    (#[trigger] self.items()[i]) is FullUri,
                    self.items()[i].text(),
                ) is Some),
            r matches Ok(out) ==> (forall|i: int|
                0 <= i < self.items().len() ==> (spec_expand_key(
                    prefix_map.entries(),
                    prefix_map.default_ns(),
                    (#[trigger] self.items()[i]) is FullUri,
                    self.items()[i].text(),
                ) matches Some(k) && out.spec_contains(k))),
            r matches Ok(out) ==> (forall|j: int|
                0 <= j < out.items().len() ==> expansion_covers(
                    prefix_map.entries(),
                    prefix_map.default_ns(),
                    self.items(),
                    self.items().len() as int,
                    (#[trigger] out.items()[j]).key(),
                )),
            r is Err ==> (exists|i: int|
                0 <= i < self.items().len() && spec_expand_key(
                    prefix_map.entries(),
                    prefix_map.default_ns(),
                    (#[trigger] self.items()[i]) is FullUri,
                    self.items()[i].text(),
                ) is None),
            r matches Ok(out) ==> out.distinct() && out.items().len() <= self.items().len(),
    {
        let mut out = UriSet::new();
        let n = self.uris.len();
        let mut i: usize = 0;
        while i < n
            invariant
                0 <= i <= n,
                n == self.items().len(),
                self.wf_expand(),
                forall|j: int|
                    0 <= j < i ==> spec_expand_key(
                        prefix_map.entries(),
                        prefix_map.default_ns(),
                        (#[trigger] self.items()[j]) is FullUri,
                        self.items()[j].text(),
                    ) is Some,
                forall|j: int|
                    0 <= j < i ==> (spec_expand_key(
                        prefix_map.entries(),
                        prefix_map.default_ns(),
                        (#[trigger] self.items()[j]) is FullUri,
                        self.items()[j].text(),
                    ) matches Some(k) && out.spec_contains(k)),
                forall|j: int|
                    0 <= j < out.items().len() ==> expansion_covers(
                        prefix_map.entries(),
                        prefix_map.default_ns(),
                        self.items(),
                        i as int,
                        (#[trigger] out.items()[j]).key(),
                    ),
                out.distinct(),
                out.items().len() <= i,
            decreases n - i,
        {
            match self.uris[i].expand(prefix_map) {
                Ok(u) => {
                    out.insert(u);
                },
                Err(e) => {
                    return Err(e);
                },
            }
            i += 1;
        }
        Ok(out)
    }

    /// The members that are full IRIs.
    pub fn full_uris(&self) -> (r: UriSet)
        ensures
            forall|k: (bool, Seq<char>)|
                #[trigger] r.spec_contains(k) == (self.spec_contains(k) && k.0),
            r.distinct(),
            r.items().len() <= self.items().len(),
    {
        let mut out = UriSet::new();
        let n = self.uris.len();
        let mut i: usize = 0;
        while i < n
            invariant
                0 <= i <= n,
                n == self.items().len(),
                forall|k: (bool, Seq<char>)|
                    #[trigger] out.spec_contains(k) == (k.0 && exists|j: int|
                        0 <= j < i && (#[trigger] self.items()[j]).key() == k),
                out.distinct(),
                out.items().len() <= i,
            decreases n - i,
        {
            if self.uris[i].is_full() {
                out.insert(self.uris[i].clone());
            }
            i += 1;
        }
        out
    }

    /// The members that are CURIEs.
    pub fn compact_uris(&self) -> (r: UriSet)
        ensures
            forall|k: (bool, Seq<char>)|
                #[trigger] r.spec_contains(k) == (self.spec_contains(k) && !k.0),
            r.distinct(),
            r.items().len() <= self.items().len(),
    {
        let mut out = UriSet::new();
        let n = self.uris.len();
        let mut i: usize = 0;
        while i < n
            invariant
                0 <= i <= n,
                n == self.items().len(),
                forall|k: (bool, Seq<char>)|
                    #[trigger] out.spec_contains(k) == (!k.0 && exists|j: int|
                        0 <= j < i && (#[trigger] self.items()[j]).key() == k),
                out.distinct(),
                out.items().len() <= i,
            decreases n - i,
        {
            if self.uris[i].is_compact() {
                out.insert(self.uris[i].clone());
            }
            i += 1;
        }
        out
    }
}

/// Does one of the first `n` strings classify to the key `k`?
pub open spec fn classify_covers(strs: Seq<String>, n: int, k: (bool, Seq<char>)) -> bool {
    exists|i: int| 0 <= i < n && spec_classify((#[trigger] strs[i])@) == Some(k)
}

/// Does one of the first `n` identifiers expand to the key `k`?
pub open spec fn expansion_covers(
    entries: Map<Seq<char>, Seq<char>>,
    dflt: Option<Seq<char>>,
    items: Seq<Uri>,
    n: int,
    k: (bool, Seq<char>),
) -> bool {
    exists|i: int|
        0 <= i < n && spec_expand_key(
            entries,
            dflt,
            (#[trigger] items[i]) is FullUri,
            items[i].text(),
        ) == Some(k)
}

/// The key of the identifier that classifying this raw text yields, or
/// `None` when it is neither a delimited IRI nor a CURIE.
pub open spec fn spec_classify(s: Seq<char>) -> Option<(bool, Seq<char>)> {
    if is_bracketed(s) && iri_valid(bracket_interior(s)) {
        Some((true, bracket_interior(s)))
    } else if !is_bracketed(s) && is_curie(s) {
        Some((false, s))
    } else {
        None
    }
}


impl PrefixMap {
    /// Expands every member of the collection against this table; the
    /// first member that fails makes the whole collection fail.
    pub fn expand_curies(&self, curies: &UriSet) -> (r: Result<UriSet, PrefixError>)
        requires
            curies.wf_expand(),
        ensures
            r is Ok <==> (forall|i: int|
                0 <= i < curies.items().len() ==> spec_expand_key(
                    self.entries(),
                    self.default_ns(),
                    (#[trigger] curies.items()[i]) is FullUri,
                    curies.items()[i].text(),
                ) is Some),
            r matches Ok(out) ==> (forall|i: int|
                0 <= i < curies.items().len() ==> (spec_expand_key(
                    self.entries(),
                    self.default_ns(),
                    (#[trigger] curies.items()[i]) is FullUri,
                    curies.items()[i].text(),
                ) matches Some(k) && out.spec_contains(k))),
            r matches Ok(out) ==> (forall|j: int|
                0 <= j < out.items().len() ==> expansion_covers(
                    self.entries(),
                    self.default_ns(),
                    curies.items(),
                    curies.items().len() as int,
                    (#[trigger] out.items()[j]).key(),
                )),
            r matches Ok(out) ==> out.distinct() && out.items().len() <= curies.items().len(),
    {
        curies.expand(self)
    }

    /// Checks that every member of the collection can be expanded against
    /// this table, without keeping the expansions.
    pub fn check_curies(&self, curies: &UriSet) -> (r: Result<(), PrefixError>)
        requires
            curies.wf_expand(),
        ensures
            r is Ok <==> (forall|i: int|
                0 <= i < curies.items().len() ==> spec_expand_key(
                    self.entries(),
                    self.default_ns(),
                    (#[trigger] curies.items()[i]) is FullUri,
                    curies.items()[i].text(),
                ) is Some),
    {
        match curies.expand(self) {
            Ok(_) => Ok(()),
            Err(e) => Err(e),
        }
    }
}


/// A CURIE's prefix characters are ASCII, so a classified CURIE may
/// always be handed to the prefix table.
pub proof fn lemma_curie_ascii(s: Seq<char>)
    requires
        is_curie(s),
    ensures
        ascii_before_colon(s),
{
    let c = first_colon(s);
    lemma_first_colon(s);
    let p = s.subrange(0, c);
    assert forall|j: int| 0 <= j < first_colon(s) implies ((#[trigger] s[j]) as u32) < 128 by {
        assert(p[j] == s[j]);
        assert(p.len() > 0);
        assert(is_prefix_char(p[j]));
    }
}

/// The textual rendering of an identifier key: a full IRI regains its
/// angle brackets, a CURIE stands as written.
pub open spec fn rendered(k: (bool, Seq<char>)) -> Seq<char> {
    if k.0 {
        seq!['<'] + k.1 + seq!['>']
    } else {
        k.1
    }
}

/// The result of classifying and then expanding a raw identifier text.
pub open spec fn classify_expand(
    s: Seq<char>,
    entries: Map<Seq<char>, Seq<char>>,
    dflt: Option<Seq<char>>,
) -> Option<(bool, Seq<char>)> {
    match spec_classify(s) {
        Some(k) => spec_expand_key(entries, dflt, k.0, k.1),
        None => None,
    }
}

impl UriSet {
    /// The members rendered as raw strings: full IRIs regain their angle
    /// brackets, CURIEs stand as written.
    pub fn into_strings(&self) -> (r: Vec<String>)
        ensures
            r@.len() == self.items().len(),
            forall|j: int|
                0 <= j < r@.len() ==> ((#[trigger] r@[j])@) == rendered(self.items()[j].key()),
    {
        proof {
            reveal_strlit("<");
            reveal_strlit(">");
        }
        let mut out: Vec<String> = Vec::new();
        let n = self.uris.len();
        let mut i: usize = 0;
        while i < n
            invariant
                0 <= i <= n,
                n == self.items().len(),
                out@.len() == i,
                forall|j: int|
                    0 <= j < i ==> ((#[trigger] out@[j])@) == rendered(self.items()[j].key()),
            decreases n - i,
        {
            match &self.uris[i] {
                Uri::FullUri(t) => {
                    let mut rendered_str = String::new();
                    rendered_str.append("<");
                    rendered_str.append(t.as_str());
                    rendered_str.append(">");
                    proof {
                        reveal_strlit("<");
                        reveal_strlit(">");
                        assert(rendered_str@ =~= rendered(self.items()[i as int].key()));
                    }
                    out.push(rendered_str);
                },
                Uri::CompactUri(t) => {
                    out.push(t.clone());
                },
            }
            i += 1;
        }
        out
    }
}


impl Uri {
    /// Renders this identifier as a raw string: a full IRI regains its
    /// angle brackets, a CURIE stands as written.
    pub fn render(&self) -> (r: String)
        ensures
            r@ == rendered(self.key()),
    {
        match self {
            Uri::FullUri(t) => {
                proof {
                    reveal_strlit("<");
                    reveal_strlit(">");
                }
                let mut out = String::new();
                out.append("<");
                out.append(t.as_str());
                out.append(">");
                proof {
                    assert(out@ =~= rendered(self.key()));
                }
                out
            },
            Uri::CompactUri(t) => t.clone(),
        }
    }
}

} // verus!
