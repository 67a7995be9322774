//! Rule configuration and the rule matcher: which positions of a triple
//! must be pseudonymized, decided from type-based and predicate-based
//! criteria against the type index, with an optional inversion of the
//! final decision.

use crate::index::{subject_hash, TypeIndex};
use crate::model::{TripleMask, ALL_POSITIONS};
use crate::rdf_types::{named_node_text, subject_text, Subject, Term, Triple};
use crate::uris::{
    classify_covers, classify_expand, expansion_covers, is_curie, lemma_curie_ascii, pair_ok,
    rendered, spec_build_default, spec_build_entries, spec_classify, spec_expand_key, PrefixError,
    PrefixMap, Uri, UriError, UriSet,
};
use vstd::prelude::*;
use vstd::string::*;

verus! {

/// An error raised while validating or normalizing rule configuration:
/// either an identifier fails to classify, or the prefix table rejects it.
#[derive(Debug)]
pub enum RuleError {
    Uri(UriError),
    Prefix(PrefixError),
}

/// Rules for pseudonymizing nodes.
pub struct NodeRules {
    /// Replace values of nodes with one of these types.
    pub of_type: Vec<String>,
}

/// Rules for pseudonymizing objects.
pub struct ObjectRules {
    /// Replace values in matched predicates.
    pub on_predicate: Vec<String>,
    /// Replace values of predicates for specific types.
    pub on_type_predicate: Vec<(String, Vec<String>)>,
}

/// Rules for pseudonymizing triples.
pub struct Rules {
    /// Invert the final combined decision of a triple.
    pub invert: bool,
    /// Optional prefix table source: label-namespace pairs.
    pub prefixes: Option<Vec<(Option<String>, String)>>,
    pub nodes: NodeRules,
    pub objects: ObjectRules,
}

/// Does the list hold a string with this text?
pub open spec fn strs_contain(v: Seq<String>, t: Seq<char>) -> bool {
    exists|i: int| 0 <= i < v.len() && (#[trigger] v[i])@ == t
}

/// Does the type-predicate table pair this type with this predicate?
pub open spec fn tp_contains(otp: Seq<(String, Vec<String>)>, typ: Seq<char>, pred: Seq<char>) -> bool {
    exists|i: int|
        0 <= i < otp.len() && ((#[trigger] otp[i]).0)@ == typ && strs_contain(otp[i].1@, pred)
}

/// Is the type of the subject filed under this text among the node rules?
pub open spec fn spec_match_type(subject_t: Seq<char>, rules: Rules, idx: TypeIndex) -> bool {
    match idx.spec_get(subject_hash(subject_t)) {
        Some(ts) => exists|i: int|
            0 <= i < ts.len() && strs_contain(rules.nodes.of_type@, #[trigger] ts[i]),
        None => false,
    }
}

/// Is this predicate text among the object rules' predicates?
pub open spec fn spec_match_predicate(pred_t: Seq<char>, rules: Rules) -> bool {
    strs_contain(rules.objects.on_predicate@, pred_t)
}

/// Does the subject filed under this text carry a type that the object
/// rules pair with this predicate?
pub open spec fn spec_match_type_predicate(
    subject_t: Seq<char>,
    pred_t: Seq<char>,
    idx: TypeIndex,
    rules: Rules,
) -> bool {
    match idx.spec_get(subject_hash(subject_t)) {
        Some(ts) => exists|i: int|
            0 <= i < ts.len() && tp_contains(
                rules.objects.on_type_predicate@,
                #[trigger] ts[i],
                pred_t,
            ),
        None => false,
    }
}

/// The node rule's decision for the subject position: the subject is a
/// named node with a matching type.
pub open spec fn spec_node_subject(t: Triple, rules: Rules, idx: TypeIndex) -> bool {
    t.subject matches Subject::NamedNode(n) && spec_match_type(
        named_node_text(n.iri@),
        rules,
        idx,
    )
}

/// The node rule's decision for the object position: the object is a
/// named node with a matching type.
pub open spec fn spec_node_object(t: Triple, rules: Rules, idx: TypeIndex) -> bool {
    t.object matches Term::NamedNode(n) && spec_match_type(named_node_text(n.iri@), rules, idx)
}

/// The object rule's decision: the predicate is matched outright, or the
/// subject carries a type paired with the predicate.
pub open spec fn spec_object_rule(t: Triple, rules: Rules, idx: TypeIndex) -> bool {
    spec_match_predicate(named_node_text(t.predicate.iri@), rules) || spec_match_type_predicate(
        subject_text(t.subject),
        named_node_text(t.predicate.iri@),
        idx,
        rules,
    )
}

/// Does the list hold a string equal to `t`?
fn vec_contains(v: &Vec<String>, t: &String) -> (r: bool)
    ensures
        r == strs_contain(v@, t@),
{
    let n = v.len();
    let mut i: usize = 0;
    while i < n
        invariant
            0 <= i <= n,
            n == v@.len(),
            forall|j: int| 0 <= j < i ==> (#[trigger] v@[j])@ != t@,
        decreases n - i,
    {
        if v[i].eq(t) {
            return true;
        }
        i += 1;
    }
    false
}

/// Check if the type of the instance behind this text is in the rules.
#[verifier::loop_isolation(false)]
fn match_type(subject: &String, rules: &Rules, type_map: &TypeIndex) -> (r: bool)
    requires
        type_map.wf(),
    ensures
        r == spec_match_type(subject@, *rules, *type_map),
{
    match type_map.get(subject.as_str()) {
        Some(v) => {
            let ghost ts = type_map.spec_get(subject_hash(subject@))->0;
            let n = v.len();
            let mut i: usize = 0;
            while i < n
                invariant
                    0 <= i <= n,
                    n == v@.len(),
                    forall|j: int| 0 <= j < i ==> !strs_contain(rules.nodes.of_type@, ts[j]),
                decreases n - i,
            {
                if vec_contains(&rules.nodes.of_type, &v[i]) {
                    proof {
                        assert(ts[i as int] == (v@[i as int])@);
                    }
                    return true;
                }
                proof {
                    assert(ts[i as int] == (v@[i as int])@);
                }
                i += 1;
            }
            false
        },
        None => false,
    }
}

/// Check if the predicate text is in the rules.
fn match_predicate(predicate: &String, rules: &Rules) -> (r: bool)
    ensures
        r == spec_match_predicate(predicate@, *rules),
{
    vec_contains(&rules.objects.on_predicate, predicate)
}

/// Check if the pairing of a subject type with this predicate is in the
/// rules.
#[verifier::loop_isolation(false)]
fn match_type_predicate(
    subject: &String,
    predicate: &String,
    type_map: &TypeIndex,
    rules: &Rules,
) -> (r: bool)
    requires
        type_map.wf(),
    ensures
        r == spec_match_type_predicate(subject@, predicate@, *type_map, *rules),
{
    let instance_types = match type_map.get(subject.as_str()) {
        Some(v) => v,
        None => {
            return false;
        },
    };
    let ghost ts = type_map.spec_get(subject_hash(subject@))->0;
    let tn = instance_types.len();
    let mut i: usize = 0;
    while i < tn
        invariant
            0 <= i <= tn,
            tn == instance_types@.len(),
            forall|j: int|
                0 <= j < i ==> !tp_contains(rules.objects.on_type_predicate@, ts[j], predicate@),
        decreases tn - i,
    {
        let typ = &instance_types[i];
        let otp_n = rules.objects.on_type_predicate.len();
        let mut k: usize = 0;
        while k < otp_n
            invariant
                0 <= k <= otp_n,
                i < tn,
                otp_n == rules.objects.on_type_predicate@.len(),
                forall|j: int|
                    0 <= j < k ==> !(((#[trigger] rules.objects.on_type_predicate@[j]).0)@
                        == (instance_types@[i as int])@ && strs_contain(
                        rules.objects.on_type_predicate@[j].1@,
                        predicate@,
                    )),
            decreases otp_n - k,
        {
            let pair = &rules.objects.on_type_predicate[k];
            if pair.0.eq(typ) {
                if vec_contains(&pair.1, predicate) {
                    proof {
                        assert(ts[i as int] == (instance_types@[i as int])@);
                        assert(tp_contains(rules.objects.on_type_predicate@, ts[i as int], predicate@));
                    }
                    return true;
                }
            }
            k += 1;
        }
        proof {
            assert(ts[i as int] == (instance_types@[i as int])@);
            assert(!tp_contains(rules.objects.on_type_predicate@, ts[i as int], predicate@));
        }
        i += 1;
    }
    false
}

/// Check a triple against the node-pseudonymization rules: the subject and
/// object positions are selected when they are named nodes of a matching
/// type; blank nodes and literals never match.
pub fn match_node_rules(triple: &Triple, rules: &Rules, type_map: &TypeIndex) -> (r: TripleMask)
    requires
        type_map.wf(),
    ensures
        r.wf(),
        r.spec_subject() == spec_node_subject(*triple, *rules, *type_map),
        !r.spec_predicate(),
        r.spec_object() == spec_node_object(*triple, *rules, *type_map),
{
    let pseudo_subject = match &triple.subject {
        Subject::NamedNode(n) => match_type(&n.to_text(), rules, type_map),
        Subject::BlankNode(_) => false,
    };
    let pseudo_object = match &triple.object {
        Term::NamedNode(n) => match_type(&n.to_text(), rules, type_map),
        Term::BlankNode(_) => false,
        Term::Literal(_) => false,
    };
    let mut mask = TripleMask::empty();
    if pseudo_subject {
        mask = mask.union(&TripleMask::subject());
    }
    if pseudo_object {
        mask = mask.union(&TripleMask::object());
    }
    mask
}

/// Check a triple against the object-pseudonymization rules: the object
/// position is selected when the predicate is matched outright, or when
/// the subject carries a type paired with the predicate.
pub fn match_object_rules(triple: &Triple, rules: &Rules, type_map: &TypeIndex) -> (r: TripleMask)
    requires
        type_map.wf(),
    ensures
        r.wf(),
        !r.spec_subject(),
        !r.spec_predicate(),
        r.spec_object() == spec_object_rule(*triple, *rules, *type_map),
{
    if match_predicate(&triple.predicate.to_text(), rules) {
        return TripleMask::object();
    }
    let subject_key = match &triple.subject {
        Subject::NamedNode(n) => n.to_text(),
        Subject::BlankNode(b) => b.to_text(),
    };
    let pseudo_object = match_type_predicate(
        &subject_key,
        &triple.predicate.to_text(),
        type_map,
        rules,
    );
    if pseudo_object {
        return TripleMask::object();
    }
    TripleMask::empty()
}

/// Check all parts of the triple against the rules: the node and object
/// decisions are combined, then inverted within the three-bit domain when
/// the rules ask for it.
pub fn match_rules(triple: &Triple, rules: &Rules, type_map: &TypeIndex) -> (r: TripleMask)
    requires
        type_map.wf(),
    ensures
        r.wf(),
        r.spec_subject() == (rules.invert != spec_node_subject(*triple, *rules, *type_map)),
        r.spec_predicate() == rules.invert,
        r.spec_object() == (rules.invert != (spec_node_object(*triple, *rules, *type_map)
            || spec_object_rule(*triple, *rules, *type_map))),
{
    let node_mask = match_node_rules(triple, rules, type_map);
    let object_mask = match_object_rules(triple, rules, type_map);
    let mut mask = node_mask.union(&object_mask);
    if rules.invert {
        mask = mask.invert();
    }
    mask
}

/// Law: flipping the invert flag complements the decision. The masks that
/// the matcher computes for a rule set and for the same rule set with the
/// flag flipped select each position exactly once between them: together
/// they span all three bits and they share none.
pub proof fn lemma_match_invert_partition(
    triple: Triple,
    rules: Rules,
    flipped: Rules,
    type_map: TypeIndex,
    m1: TripleMask,
    m2: TripleMask,
)
    requires
        flipped.invert == !rules.invert,
        flipped.nodes.of_type@ == rules.nodes.of_type@,
        flipped.objects.on_predicate@ == rules.objects.on_predicate@,
        otp_same(flipped.objects.on_type_predicate@, rules.objects.on_type_predicate@),
        m1.wf(),
        m2.wf(),
        m1.spec_subject() == (rules.invert != spec_node_subject(triple, rules, type_map)),
        m1.spec_predicate() == rules.invert,
        m1.spec_object() == (rules.invert != (spec_node_object(triple, rules, type_map)
            || spec_object_rule(triple, rules, type_map))),
        m2.spec_subject() == (flipped.invert != spec_node_subject(triple, flipped, type_map)),
        m2.spec_predicate() == flipped.invert,
        m2.spec_object() == (flipped.invert != (spec_node_object(triple, flipped, type_map)
            || spec_object_rule(triple, flipped, type_map))),
    ensures
        m1.bits | m2.bits == ALL_POSITIONS,
        m1.bits & m2.bits == 0,
{
    assert(spec_node_subject(triple, flipped, type_map) == spec_node_subject(
        triple,
        rules,
        type_map,
    ));
    assert(spec_node_object(triple, flipped, type_map) == spec_node_object(
        triple,
        rules,
        type_map,
    ));
    lemma_object_rule_same(triple, rules, flipped, type_map);
    let a = m1.bits;
    let b = m2.bits;
    assert(a < 8 && b < 8 && ((a & 0b100u8 != 0) == !(b & 0b100u8 != 0)) && ((a & 0b010u8 != 0)
        == !(b & 0b010u8 != 0)) && ((a & 0b001u8 != 0) == !(b & 0b001u8 != 0)) ==> (a | b
        == 0b111u8 && a & b == 0)) by (bit_vector);
}


/// Does every string of the list classify as an identifier?
pub open spec fn group_classifies(v: Seq<String>) -> bool {
    forall|i: int| 0 <= i < v.len() ==> spec_classify((#[trigger] v[i])@) is Some
}

/// Does every string of the list classify and expand against the table?
pub open spec fn group_expands(
    v: Seq<String>,
    entries: Map<Seq<char>, Seq<char>>,
    dflt: Option<Seq<char>>,
) -> bool {
    forall|i: int| 0 <= i < v.len() ==> classify_expand((#[trigger] v[i])@, entries, dflt) is Some
}

/// Does every type key and every predicate of the table classify?
pub open spec fn otp_classifies(otp: Seq<(String, Vec<String>)>) -> bool {
    forall|i: int|
        0 <= i < otp.len() ==> spec_classify(((#[trigger] otp[i]).0)@) is Some && group_classifies(
            otp[i].1@,
        )
}

/// Does every type key and every predicate of the table classify and
/// expand against the table?
pub open spec fn otp_expands(
    otp: Seq<(String, Vec<String>)>,
    entries: Map<Seq<char>, Seq<char>>,
    dflt: Option<Seq<char>>,
) -> bool {
    forall|i: int|
        0 <= i < otp.len() ==> classify_expand(((#[trigger] otp[i]).0)@, entries, dflt) is Some
            && group_expands(otp[i].1@, entries, dflt)
}

/// Is `t` the rendered expansion of the classified raw text `s_text`?
pub open spec fn expansion_of(
    s_text: Seq<char>,
    entries: Map<Seq<char>, Seq<char>>,
    dflt: Option<Seq<char>>,
    t: Seq<char>,
) -> bool {
    match classify_expand(s_text, entries, dflt) {
        Some(k2) => t == rendered(k2),
        None => false,
    }
}

/// Does the list of result strings hold the rendered expansion of this
/// classified raw text?
pub open spec fn renders_into(
    s_text: Seq<char>,
    entries: Map<Seq<char>, Seq<char>>,
    dflt: Option<Seq<char>>,
    out: Seq<String>,
) -> bool {
    match classify_expand(s_text, entries, dflt) {
        Some(k2) => strs_contain(out, rendered(k2)),
        None => false,
    }
}

/// Is `t` the rendered expansion of one of the source strings?
pub open spec fn some_source_renders(
    src: Seq<String>,
    entries: Map<Seq<char>, Seq<char>>,
    dflt: Option<Seq<char>>,
    t: Seq<char>,
) -> bool {
    exists|i: int| 0 <= i < src.len() && expansion_of((#[trigger] src[i])@, entries, dflt, t)
}

/// The result strings are exactly the rendered expansions of the source
/// strings: every source string's expansion is present, and nothing else
/// is.
pub open spec fn expanded_strs(
    src: Seq<String>,
    entries: Map<Seq<char>, Seq<char>>,
    dflt: Option<Seq<char>>,
    out: Seq<String>,
) -> bool {
    &&& forall|i: int|
        0 <= i < src.len() ==> renders_into((#[trigger] src[i])@, entries, dflt, out)
    &&& forall|j: int|
        0 <= j < out.len() ==> some_source_renders(src, entries, dflt, (#[trigger] out[j])@)
}

/// A collection classified from raw strings may be handed to the prefix
/// table: its CURIEs come from the grammar, whose prefixes are ASCII.
proof fn lemma_classified_wf_expand(set: UriSet, strs: Seq<String>)
    requires
        forall|j: int|
            0 <= j < set.items().len() ==> classify_covers(
                strs,
                strs.len() as int,
                (#[trigger] set.items()[j]).key(),
            ),
    ensures
        set.wf_expand(),
{
    assert forall|j: int| 0 <= j < set.items().len() implies (#[trigger] set.items()[j]).wf_expand() by {
        let u = set.items()[j];
        if u is CompactUri {
            let i = choose|i: int|
                0 <= i < strs.len() && spec_classify((#[trigger] strs[i])@) == Some(u.key());
            assert(is_curie(u.text()));
            lemma_curie_ascii(u.text());
        }
    }
}

/// Converts the raw strings into a classified collection, or the first
/// classification error.
fn classify_group(v: &Vec<String>) -> (r: Result<UriSet, RuleError>)
    ensures
        r is Ok <==> group_classifies(v@),
        r matches Ok(set) ==> set.wf_expand() && (forall|i: int|
            0 <= i < v@.len() ==> (spec_classify((#[trigger] v@[i])@) matches Some(k)
                && set.spec_contains(k))) && (forall|j: int|
            0 <= j < set.items().len() ==> classify_covers(
                v@,
                v@.len() as int,
                (#[trigger] set.items()[j]).key(),
            )),
        r matches Err(e) ==> e is Uri && !group_classifies(v@),
{
    match UriSet::try_from(v) {
        Ok(set) => {
            proof {
                lemma_classified_wf_expand(set, v@);
            }
            Ok(set)
        },
        Err(e) => Err(RuleError::Uri(e)),
    }
}

/// Classifies and expands a group of raw strings and renders the results,
/// or reports the first error.
fn expand_group(v: &Vec<String>, prefixes: &PrefixMap) -> (r: Result<Vec<String>, RuleError>)
    ensures
        r is Ok <==> group_expands(v@, prefixes.entries(), prefixes.default_ns()),
        r matches Ok(out) ==> expanded_strs(
            v@,
            prefixes.entries(),
            prefixes.default_ns(),
            out@,
        ),
{
    let ghost en = prefixes.entries();
    let ghost df = prefixes.default_ns();
    let set = match classify_group(v) {
        Ok(set) => set,
        Err(e) => {
            proof {
                let i = choose|i: int|
                    0 <= i < v@.len() && spec_classify((#[trigger] v@[i])@) is None;
                assert(classify_expand(v@[i]@, en, df) is None);
            }
            return Err(e);
        },
    };
    let expanded = match set.expand(prefixes) {
        Ok(x) => x,
        Err(e) => {
            proof {
                let j = choose|j: int|
                    0 <= j < set.items().len() && spec_expand_key(
                        en,
                        df,
                        (#[trigger] set.items()[j]) is FullUri,
                        set.items()[j].text(),
                    ) is None;
                let k = set.items()[j].key();
                let i = choose|i: int|
                    0 <= i < v@.len() && spec_classify((#[trigger] v@[i])@) == Some(k);
                assert(classify_expand(v@[i]@, en, df) is None);
            }
            return Err(RuleError::Prefix(e));
        },
    };
    let out = expanded.into_strings();
    proof {
        assert forall|i: int|
            0 <= i < v@.len() implies classify_expand((#[trigger] v@[i])@, en, df) is Some
            && renders_into((#[trigger] v@[i])@, en, df, out@) by {
            let k = choose|k: (bool, Seq<char>)| spec_classify(v@[i]@) == Some(k);
            assert(set.spec_contains(k));
            let j = choose|j: int|
                0 <= j < set.items().len() && (#[trigger] set.items()[j]).key() == k;
            assert(spec_expand_key(en, df, set.items()[j] is FullUri, set.items()[j].text())
                is Some);
            assert(set.items()[j] is FullUri == k.0 && set.items()[j].text() == k.1);
            let k2 = choose|k2: (bool, Seq<char>)| spec_expand_key(en, df, k.0, k.1) == Some(k2);
            assert(expanded.spec_contains(k2));
            let jj = choose|jj: int|
                0 <= jj < expanded.items().len() && (#[trigger] expanded.items()[jj]).key() == k2;
            assert((out@[jj])@ == rendered(k2));
            assert(strs_contain(out@, rendered(k2)));
        }
        assert forall|j: int|
            0 <= j < out@.len() implies some_source_renders(v@, en, df, (#[trigger] out@[j])@) by {
            let kk = expanded.items()[j].key();
            assert((out@[j])@ == rendered(kk));
            assert(expansion_covers(en, df, set.items(), set.items().len() as int, kk));
            let i2 = choose|i2: int|
                0 <= i2 < set.items().len() && spec_expand_key(
                    en,
                    df,
                    (#[trigger] set.items()[i2]) is FullUri,
                    set.items()[i2].text(),
                ) == Some(kk);
            assert(classify_covers(v@, v@.len() as int, set.items()[i2].key()));
            let i = choose|i: int|
                0 <= i < v@.len() && spec_classify((#[trigger] v@[i])@) == Some(
                    set.items()[i2].key(),
                );
            assert(classify_expand(v@[i]@, en, df) == Some(kk));
            assert(expansion_of(v@[i]@, en, df, (out@[j])@));
        }
        assert(expanded_strs(v@, en, df, out@));
    }
    Ok(out)
}

impl NodeRules {
    /// Validates every configured type identifier: each must classify and
    /// expand against the provided prefix table.
    pub fn check_uris(&self, prefixes: &PrefixMap) -> (r: Result<(), RuleError>)
        ensures
            r is Ok <==> group_expands(self.of_type@, prefixes.entries(), prefixes.default_ns()),
    {
        match expand_group(&self.of_type, prefixes) {
            Ok(_) => Ok(()),
            Err(e) => Err(e),
        }
    }

    /// Returns the node rules with every identifier expanded to a rendered
    /// full IRI.
    pub fn expand_curies(&self, prefixes: &PrefixMap) -> (r: Result<NodeRules, RuleError>)
        ensures
            r is Ok <==> group_expands(self.of_type@, prefixes.entries(), prefixes.default_ns()),
            r matches Ok(out) ==> expanded_strs(
                self.of_type@,
                prefixes.entries(),
                prefixes.default_ns(),
                out.of_type@,
            ),
    {
        match expand_group(&self.of_type, prefixes) {
            Ok(of_type) => Ok(NodeRules { of_type }),
            Err(e) => Err(e),
        }
    }
}

/// The normalized form of a type-predicate table: the same pairs in the
/// same order, every type key replaced by its rendered expansion and every
/// predicate group expanded as a set.
pub open spec fn expanded_otp(
    src: Seq<(String, Vec<String>)>,
    entries: Map<Seq<char>, Seq<char>>,
    dflt: Option<Seq<char>>,
    out: Seq<(String, Vec<String>)>,
) -> bool {
    &&& out.len() == src.len()
    &&& forall|i: int|
        0 <= i < src.len() ==> expansion_of(
            ((#[trigger] src[i]).0)@,
            entries,
            dflt,
            ((#[trigger] out[i]).0)@,
        ) && expanded_strs(src[i].1@, entries, dflt, out[i].1@)
}

impl ObjectRules {
    /// Validates every configured identifier: the matched predicates, the
    /// type keys and their predicates must all classify and expand against
    /// the provided prefix table.
    pub fn check_uris(&self, prefixes: &PrefixMap) -> (r: Result<(), RuleError>)
        ensures
            r is Ok <==> (group_expands(
                self.on_predicate@,
                prefixes.entries(),
                prefixes.default_ns(),
            ) && otp_expands(
                self.on_type_predicate@,
                prefixes.entries(),
                prefixes.default_ns(),
            )),
    {
        match self.expand_curies(prefixes) {
            Ok(_) => Ok(()),
            Err(e) => Err(e),
        }
    }

    /// Returns the object rules with every identifier expanded to a
    /// rendered full IRI.
    #[verifier::loop_isolation(false)]
    pub fn expand_curies(&self, prefixes: &PrefixMap) -> (r: Result<ObjectRules, RuleError>)
        ensures
            r is Ok <==> (group_expands(
                self.on_predicate@,
                prefixes.entries(),
                prefixes.default_ns(),
            ) && otp_expands(
                self.on_type_predicate@,
                prefixes.entries(),
                prefixes.default_ns(),
            )),
            r matches Ok(out) ==> expanded_strs(
                self.on_predicate@,
                prefixes.entries(),
                prefixes.default_ns(),
                out.on_predicate@,
            ) && expanded_otp(
                self.on_type_predicate@,
                prefixes.entries(),
                prefixes.default_ns(),
                out.on_type_predicate@,
            ),
    {
        let ghost en = prefixes.entries();
        let ghost df = prefixes.default_ns();
        let on_predicate = match expand_group(&self.on_predicate, prefixes) {
            Ok(v) => v,
            Err(e) => {
                return Err(e);
            },
        };
        let src = &self.on_type_predicate;
        let n = src.len();
        let mut out_otp: Vec<(String, Vec<String>)> = Vec::new();
        let mut i: usize = 0;
        while i < n
            invariant
                0 <= i <= n,
                out_otp@.len() == i,
                forall|j: int|
                    0 <= j < i ==> expansion_of(
                        ((#[trigger] src@[j]).0)@,
                        en,
                        df,
                        ((#[trigger] out_otp@[j]).0)@,
                    ) && expanded_strs(src@[j].1@, en, df, out_otp@[j].1@),
            decreases n - i,
        {
            let type_key = match Uri::try_from(src[i].0.clone()) {
                Ok(u) => u,
                Err(e) => {
                    proof {
                        assert(spec_classify(src@[i as int].0@) is None);
                        assert(classify_expand(src@[i as int].0@, en, df) is None);
                    }
                    return Err(RuleError::Uri(e));
                },
            };
            proof {
                assert(spec_classify(src@[i as int].0@) == Some(type_key.key()));
                if type_key is CompactUri {
                    lemma_curie_ascii(type_key.text());
                }
            }
            let expanded_key = match type_key.expand(prefixes) {
                Ok(u) => u,
                Err(e) => {
                    proof {
                        assert(spec_expand_key(en, df, type_key.key().0, type_key.key().1)
                            is None);
                        assert(classify_expand(src@[i as int].0@, en, df) is None);
                    }
                    return Err(RuleError::Prefix(e));
                },
            };
            proof {
                assert(classify_expand(src@[i as int].0@, en, df) == Some(expanded_key.key()));
            }
            let rendered_key = expanded_key.render();
            let preds = match expand_group(&src[i].1, prefixes) {
                Ok(v) => v,
                Err(e) => {
                    return Err(e);
                },
            };
            let ghost before = out_otp@;
            out_otp.push((rendered_key, preds));
            proof {
                assert(out_otp@[i as int].0 == rendered_key && out_otp@[i as int].1 == preds);
                assert(expansion_of(src@[i as int].0@, en, df, ((out_otp@[i as int]).0)@));
                assert(expanded_strs(src@[i as int].1@, en, df, out_otp@[i as int].1@));
            }
            i += 1;
        }
        proof {
            assert forall|j: int|
                0 <= j < n implies classify_expand(
                ((#[trigger] src@[j]).0)@,
                en,
                df,
            ) is Some && group_expands(src@[j].1@, en, df) by {
                assert(expansion_of(src@[j].0@, en, df, ((out_otp@[j]).0)@));
                assert(expanded_strs(src@[j].1@, en, df, out_otp@[j].1@));
                assert forall|x: int|
                    0 <= x < src@[j].1@.len() implies classify_expand(
                    ((#[trigger] src@[j].1@[x])@),
                    en,
                    df,
                ) is Some by {
                    let y = choose|y: int|
                        0 <= y < out_otp@[j].1@.len() && expansion_of(
                            (src@[j].1@[x])@,
                            en,
                            df,
                            ((#[trigger] out_otp@[j].1@[y])@),
                        );
                    assert(expansion_of((src@[j].1@[x])@, en, df, (out_otp@[j].1@[y])@));
                }
            }
        }
        Ok(ObjectRules { on_predicate, on_type_predicate: out_otp })
    }
}


/// Do two type-predicate tables pair the same texts, position by
/// position?
pub open spec fn otp_same(a: Seq<(String, Vec<String>)>, b: Seq<(String, Vec<String>)>) -> bool {
    a.len() == b.len() && forall|i: int|
        0 <= i < a.len() ==> ((#[trigger] a[i]).0)@ == ((#[trigger] b[i]).0)@ && a[i].1@
            == b[i].1@
}

/// Tables that pair the same texts make the same pairing decisions.
proof fn lemma_tp_contains_same(
    a: Seq<(String, Vec<String>)>,
    b: Seq<(String, Vec<String>)>,
    typ: Seq<char>,
    pred: Seq<char>,
)
    requires
        otp_same(a, b),
    ensures
        tp_contains(a, typ, pred) == tp_contains(b, typ, pred),
{
    if tp_contains(a, typ, pred) {
        let i = choose|i: int|
            0 <= i < a.len() && ((#[trigger] a[i]).0)@ == typ && strs_contain(a[i].1@, pred);
        assert(((b[i]).0)@ == typ && strs_contain(b[i].1@, pred));
    }
    if tp_contains(b, typ, pred) {
        let i = choose|i: int|
            0 <= i < b.len() && ((#[trigger] b[i]).0)@ == typ && strs_contain(b[i].1@, pred);
        assert(((a[i]).0)@ == typ && strs_contain(a[i].1@, pred));
    }
}

/// Rule sets that differ only in the invert flag make the same object
/// rule decision.
proof fn lemma_object_rule_same(triple: Triple, rules: Rules, flipped: Rules, idx: TypeIndex)
    requires
        flipped.objects.on_predicate@ == rules.objects.on_predicate@,
        otp_same(flipped.objects.on_type_predicate@, rules.objects.on_type_predicate@),
    ensures
        spec_object_rule(triple, flipped, idx) == spec_object_rule(triple, rules, idx),
{
    let st = subject_text(triple.subject);
    let pt = named_node_text(triple.predicate.iri@);
    assert(spec_match_type_predicate(st, pt, idx, flipped) == spec_match_type_predicate(
        st,
        pt,
        idx,
        rules,
    )) by {
        match idx.spec_get(subject_hash(st)) {
            Some(ts) => {
                assert forall|i: int| 0 <= i < ts.len() implies tp_contains(
                    flipped.objects.on_type_predicate@,
                    #[trigger] ts[i],
                    pt,
                ) == tp_contains(rules.objects.on_type_predicate@, ts[i], pt) by {
                    lemma_tp_contains_same(
                        flipped.objects.on_type_predicate@,
                        rules.objects.on_type_predicate@,
                        ts[i],
                        pt,
                    );
                }
            },
            None => {},
        }
    }
}

/// Copies a list of strings.
fn clone_strs(v: &Vec<String>) -> (r: Vec<String>)
    ensures
        r@ == v@,
{
    let mut out: Vec<String> = Vec::new();
    let n = v.len();
    let mut i: usize = 0;
    while i < n
        invariant
            0 <= i <= n,
            n == v@.len(),
            out@ =~= v@.subrange(0, i as int),
        decreases n - i,
    {
        out.push(v[i].clone());
        proof {
            assert(out@ =~= v@.subrange(0, i + 1));
        }
        i += 1;
    }
    proof {
        assert(v@.subrange(0, n as int) =~= v@);
    }
    out
}

/// Copies a type-predicate table; the copy pairs the same texts.
fn clone_otp(v: &Vec<(String, Vec<String>)>) -> (r: Vec<(String, Vec<String>)>)
    ensures
        r@.len() == v@.len(),
        otp_same(r@, v@),
{
    let mut out: Vec<(String, Vec<String>)> = Vec::new();
    let n = v.len();
    let mut i: usize = 0;
    while i < n
        invariant
            0 <= i <= n,
            n == v@.len(),
            out@.len() == i,
            forall|j: int|
                0 <= j < i ==> ((#[trigger] out@[j]).0)@ == ((#[trigger] v@[j]).0)@ && out@[j].1@
                    == v@[j].1@,
        decreases n - i,
    {
        let key = v[i].0.clone();
        let vals = clone_strs(&v[i].1);
        out.push((key, vals));
        i += 1;
    }
    out
}

/// Copies an optional prefix table source.
fn clone_prefixes(p: &Option<Vec<(Option<String>, String)>>) -> (r: Option<
    Vec<(Option<String>, String)>,
>)
    ensures
        r is Some == p is Some,
        p matches Some(pv) ==> (r matches Some(rv) && rv@ == pv@),
{
    match p {
        None => None,
        Some(pv) => {
            let mut out: Vec<(Option<String>, String)> = Vec::new();
            let n = pv.len();
            let mut i: usize = 0;
            while i < n
                invariant
                    0 <= i <= n,
                    n == pv@.len(),
                    out@ =~= pv@.subrange(0, i as int),
                decreases n - i,
            {
                let label = match &pv[i].0 {
                    Some(l) => Some(l.clone()),
                    None => None,
                };
                let value = pv[i].1.clone();
                out.push((label, value));
                proof {
                    assert(out@ =~= pv@.subrange(0, i + 1));
                }
                i += 1;
            }
            proof {
                assert(pv@.subrange(0, n as int) =~= pv@);
            }
            Some(out)
        },
    }
}

/// Is this rule configuration acceptable: with a prefix table, every pair
/// builds and every identifier classifies and expands against it; without
/// one, every identifier at least classifies.
pub open spec fn spec_rules_ok(rules: Rules) -> bool {
    match rules.prefixes {
        Some(pairs) => {
            &&& forall|i: int| 0 <= i < pairs@.len() ==> pair_ok(#[trigger] pairs@[i])
            &&& group_expands(
                rules.nodes.of_type@,
                spec_build_entries(pairs@),
                spec_build_default(pairs@),
            )
            &&& group_expands(
                rules.objects.on_predicate@,
                spec_build_entries(pairs@),
                spec_build_default(pairs@),
            )
            &&& otp_expands(
                rules.objects.on_type_predicate@,
                spec_build_entries(pairs@),
                spec_build_default(pairs@),
            )
        },
        None => group_classifies(rules.nodes.of_type@) && group_classifies(
            rules.objects.on_predicate@,
        ) && otp_classifies(rules.objects.on_type_predicate@),
    }
}

impl Rules {
    /// Returns the same criteria with the invert flag flipped.
    pub fn with_invert_flipped(&self) -> (r: Rules)
        ensures
            r.invert == !self.invert,
            r.nodes.of_type@ == self.nodes.of_type@,
            r.objects.on_predicate@ == self.objects.on_predicate@,
            otp_same(r.objects.on_type_predicate@, self.objects.on_type_predicate@),
    {
        Rules {
            invert: !self.invert,
            prefixes: clone_prefixes(&self.prefixes),
            nodes: NodeRules { of_type: clone_strs(&self.nodes.of_type) },
            objects: ObjectRules {
                on_predicate: clone_strs(&self.objects.on_predicate),
                on_type_predicate: clone_otp(&self.objects.on_type_predicate),
            },
        }
    }

    /// Validates the whole configuration: when a prefix table is given,
    /// it is built and every identifier must classify and expand against
    /// it; otherwise every identifier must classify on its own.
    #[verifier::loop_isolation(false)]
    pub fn check_uris(&self) -> (r: Result<(), RuleError>)
        ensures
            r is Ok <==> spec_rules_ok(*self),
    {
        match &self.prefixes {
            Some(pairs) => {
                let pm = match PrefixMap::from_hashmap(pairs) {
                    Ok(pm) => pm,
                    Err(e) => {
                        return Err(RuleError::Prefix(e));
                    },
                };
                match self.nodes.check_uris(&pm) {
                    Ok(()) => {},
                    Err(e) => {
                        return Err(e);
                    },
                }
                match self.objects.check_uris(&pm) {
                    Ok(()) => {},
                    Err(e) => {
                        return Err(e);
                    },
                }
                Ok(())
            },
            None => {
                match classify_group(&self.nodes.of_type) {
                    Ok(_) => {},
                    Err(e) => {
                        return Err(e);
                    },
                }
                match classify_group(&self.objects.on_predicate) {
                    Ok(_) => {},
                    Err(e) => {
                        return Err(e);
                    },
                }
                let src = &self.objects.on_type_predicate;
                let n = src.len();
                let mut i: usize = 0;
                while i < n
                    invariant
                        0 <= i <= n,
                        forall|j: int|
                            0 <= j < i ==> spec_classify(((#[trigger] src@[j]).0)@) is Some
                                && group_classifies(src@[j].1@),
                    decreases n - i,
                {
                    match Uri::try_from(src[i].0.clone()) {
                        Ok(_) => {},
                        Err(e) => {
                            return Err(RuleError::Uri(e));
                        },
                    }
                    match classify_group(&src[i].1) {
                        Ok(_) => {},
                        Err(e) => {
                            return Err(e);
                        },
                    }
                    i += 1;
                }
                Ok(())
            },
        }
    }

    /// Returns the configuration in its normalized form: validated, and
    /// with every identifier expanded to a rendered full IRI when a prefix
    /// table is given; without one the criteria are returned as they are.
    pub fn expand_rules_curie(&self) -> (r: Result<Rules, RuleError>)
        ensures
            r is Ok <==> spec_rules_ok(*self),
            r matches Ok(out) ==> (out.prefixes is Some == self.prefixes is Some) && (
            self.prefixes matches Some(pv) ==> (out.prefixes matches Some(ov) && ov@ == pv@)),
            r matches Ok(out) ==> out.invert == self.invert && (match self.prefixes {
                None => out.nodes.of_type@ == self.nodes.of_type@ && out.objects.on_predicate@
                    == self.objects.on_predicate@ && otp_same(
                    out.objects.on_type_predicate@,
                    self.objects.on_type_predicate@,
                ),
                Some(pairs) => expanded_strs(
                    self.nodes.of_type@,
                    spec_build_entries(pairs@),
                    spec_build_default(pairs@),
                    out.nodes.of_type@,
                ) && expanded_strs(
                    self.objects.on_predicate@,
                    spec_build_entries(pairs@),
                    spec_build_default(pairs@),
                    out.objects.on_predicate@,
                ) && expanded_otp(
                    self.objects.on_type_predicate@,
                    spec_build_entries(pairs@),
                    spec_build_default(pairs@),
                    out.objects.on_type_predicate@,
                ),
            }),
    {
        match self.check_uris() {
            Ok(()) => {},
            Err(e) => {
                return Err(e);
            },
        }
        match &self.prefixes {
            None => Ok(
                Rules {
                    invert: self.invert,
                    prefixes: clone_prefixes(&self.prefixes),
                    nodes: NodeRules { of_type: clone_strs(&self.nodes.of_type) },
                    objects: ObjectRules {
                        on_predicate: clone_strs(&self.objects.on_predicate),
                        on_type_predicate: clone_otp(&self.objects.on_type_predicate),
                    },
                },
            ),
            Some(pairs) => {
                let pm = match PrefixMap::from_hashmap(pairs) {
                    Ok(pm) => pm,
                    Err(_) => {
                        proof {
                            assert(false);
                        }
                        unreached()
                    },
                };
                let nodes = match self.nodes.expand_curies(&pm) {
                    Ok(n) => n,
                    Err(_) => {
                        proof {
                            assert(false);
                        }
                        unreached()
                    },
                };
                let objects = match self.objects.expand_curies(&pm) {
                    Ok(o) => o,
                    Err(_) => {
                        proof {
                            assert(false);
                        }
                        unreached()
                    },
                };
                Ok(
                    Rules {
                        invert: self.invert,
                        prefixes: clone_prefixes(&self.prefixes),
                        nodes,
                        objects,
                    },
                )
            },
        }
    }
}

} // verus!
