//! The second pass over the statements: each triple is matched against
//! the rules, its selected positions are pseudonymized, and one rendered
//! output line is produced per input triple, in input order.

use crate::crypto::{last_sep, pseudo_iri_text, Pseudonymize};
use crate::index::TypeIndex;
use crate::pass_first::spec_line;
use crate::rdf_types::{Literal, Subject, Term, Triple};
use crate::rules::{
    match_rules, spec_node_object, spec_node_subject, spec_object_rule, Rules,
};
use vstd::prelude::*;
use vstd::string::*;
use vstd::utf8::encode_utf8;

verus! {

/// Is the subject position selected for this triple under these rules?
pub open spec fn subject_selected(t: Triple, rules: Rules, idx: TypeIndex) -> bool {
    rules.invert != spec_node_subject(t, rules, idx)
}

/// Is the object position selected for this triple under these rules?
pub open spec fn object_selected(t: Triple, rules: Rules, idx: TypeIndex) -> bool {
    rules.invert != (spec_node_object(t, rules, idx) || spec_object_rule(t, rules, idx))
}

/// Is the predicate position selected under these rules? No direct rule
/// sets its bit, so it is selected exactly when the decision is inverted.
pub open spec fn predicate_selected(rules: Rules) -> bool {
    rules.invert
}

/// May this triple be processed without meeting an IRI that cannot be
/// split: every named node that the rules select must hold a separator.
pub open spec fn triple_processable(t: Triple, rules: Rules, idx: TypeIndex) -> bool {
    &&& (t.subject matches Subject::NamedNode(n) ==> (subject_selected(t, rules, idx)
        ==> last_sep(n.iri@) >= 0))
    &&& (predicate_selected(rules) ==> last_sep(t.predicate.iri@) >= 0)
    &&& (t.object matches Term::NamedNode(n) ==> (object_selected(t, rules, idx) ==> last_sep(
        n.iri@,
    ) >= 0))
}

/// How an output triple relates to its input under the three selection
/// decisions: selected named nodes — the predicate among them — keep
/// their namespace prefix and carry the digest of the whole IRI, selected
/// literals become simple literals holding the digest of their value, and
/// blank nodes and unselected positions pass through unchanged.
pub open spec fn pseudo_triple_rel<P: Pseudonymize>(
    p: &P,
    t: Triple,
    subject_sel: bool,
    predicate_sel: bool,
    object_sel: bool,
    r: Triple,
) -> bool {
    &&& if predicate_sel {
        r.predicate.iri@ == pseudo_iri_text(
            t.predicate.iri@,
            p.spec_pseudo(encode_utf8(t.predicate.iri@)),
        )
    } else {
        r.predicate == t.predicate
    }
    &&& if subject_sel {
        match t.subject {
            Subject::NamedNode(n) => r.subject matches Subject::NamedNode(m) && m.iri@
                == pseudo_iri_text(n.iri@, p.spec_pseudo(encode_utf8(n.iri@))),
            Subject::BlankNode(_) => r.subject == t.subject,
        }
    } else {
        r.subject == t.subject
    }
    &&& if object_sel {
        match t.object {
            Term::NamedNode(n) => r.object matches Term::NamedNode(m) && m.iri@
                == pseudo_iri_text(n.iri@, p.spec_pseudo(encode_utf8(n.iri@))),
            Term::BlankNode(_) => r.object == t.object,
            Term::Literal(l) => r.object matches Term::Literal(l2) && (l2
                matches Literal::Simple { value } && value@ == p.spec_pseudo(
                encode_utf8(l.spec_value()),
            )),
        }
    } else {
        r.object == t.object
    }
}

/// Is this text an acceptable output line for the triple: the rendering
/// of some triple that relates to it as its pseudonymized form?
pub open spec fn line_for<P: Pseudonymize>(
    p: &P,
    t: Triple,
    rules: Rules,
    idx: TypeIndex,
    line: Seq<char>,
) -> bool {
    exists|t2: Triple|
        #[trigger] pseudo_triple_rel(
            p,
            t,
            subject_selected(t, rules, idx),
            predicate_selected(rules),
            object_selected(t, rules, idx),
            t2,
        ) && line == spec_line(t2)
}

/// Matches one triple against the rules, pseudonymizes the selected
/// positions, and renders the output line.
pub fn process_triple<P: Pseudonymize>(
    triple: &Triple,
    rules_config: &Rules,
    node_to_type: &TypeIndex,
    hasher: &P,
) -> (r: String)
    requires
        node_to_type.wf(),
        triple_processable(*triple, *rules_config, *node_to_type),
    ensures
        line_for(hasher, *triple, *rules_config, *node_to_type, r@),
{
    proof {
        reveal_strlit(" .\n");
    }
    let mask = match_rules(triple, rules_config, node_to_type);
    let pseudo = hasher.pseudo_triple(triple, mask);
    let mut out = pseudo.to_text();
    out.append(" .\n");
    proof {
        assert(out@ =~= spec_line(pseudo));
        assert(pseudo_triple_rel(
            hasher,
            *triple,
            subject_selected(*triple, *rules_config, *node_to_type),
            predicate_selected(*rules_config),
            object_selected(*triple, *rules_config, *node_to_type),
            pseudo,
        ));
    }
    out
}

/// Runs the second pass over an available sequence of statements: one
/// output line per input triple, in input order, so the output positions
/// correspond to the input positions.
#[verifier::loop_isolation(false)]
pub fn pseudonymize_triples<P: Pseudonymize>(
    triples: &Vec<Triple>,
    rules_config: &Rules,
    node_to_type: &TypeIndex,
    hasher: &P,
) -> (r: Vec<String>)
    requires
        node_to_type.wf(),
        forall|i: int|
            0 <= i < triples@.len() ==> triple_processable(
                #[trigger] triples@[i],
                *rules_config,
                *node_to_type,
            ),
    ensures
        r@.len() == triples@.len(),
        forall|i: int|
            0 <= i < triples@.len() ==> line_for(
                hasher,
                #[trigger] triples@[i],
                *rules_config,
                *node_to_type,
                (r@[i])@,
            ),
{
    let mut out: Vec<String> = Vec::new();
    let n = triples.len();
    let mut i: usize = 0;
    while i < n
        invariant
            0 <= i <= n,
            out@.len() == i,
            forall|j: int|
                0 <= j < i ==> line_for(
                    hasher,
                    #[trigger] triples@[j],
                    *rules_config,
                    *node_to_type,
                    (out@[j])@,
                ),
        decreases n - i,
    {
        let line = process_triple(&triples[i], rules_config, node_to_type, hasher);
        out.push(line);
        proof {
            assert(line_for(
                hasher,
                triples@[i as int],
                *rules_config,
                *node_to_type,
                (out@[i as int])@,
            ));
        }
        i += 1;
    }
    out
}

} // verus!
