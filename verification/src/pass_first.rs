//! The first pass over the statements: the type assertions are kept, one
//! rendered line each, and everything else is passed over. The lines form
//! the intermediate type-map document from which the index is built.

use crate::index::is_type_triple;
use crate::rdf_types::{triple_text, Triple};
use vstd::prelude::*;
use vstd::string::*;

verus! {

/// One output line for a statement: its text followed by the closing
/// ` .` and a line break.
pub open spec fn spec_line(t: Triple) -> Seq<char> {
    triple_text(t) + seq![' ', '.', '\n']
}

/// The lines the first pass produces: one per type assertion, in input
/// order.
pub open spec fn type_map_lines(ts: Seq<Triple>) -> Seq<Seq<char>>
    decreases ts.len(),
{
    if ts.len() == 0 {
        Seq::empty()
    } else {
        type_map_lines(ts.drop_last()) + (if is_type_triple(ts.last()) {
            seq![spec_line(ts.last())]
        } else {
            Seq::empty()
        })
    }
}

/// Renders a statement as one output line.
pub fn render_line(t: &Triple) -> (r: String)
    ensures
        r@ == spec_line(*t),
{
    proof {
        reveal_strlit(" .\n");
    }
    let mut out = t.to_text();
    out.append(" .\n");
    proof {
        assert(out@ =~= spec_line(*t));
    }
    out
}

/// Extracts the type assertions from the statements, rendered one line
/// each, in input order.
#[verifier::loop_isolation(false)]
pub fn create_type_map(triples: &Vec<Triple>) -> (r: Vec<String>)
    ensures
        r@.map_values(|l: String| l@) == type_map_lines(triples@),
{
    let type_iri = String::from_str("http://www.w3.org/1999/02/22-rdf-syntax-ns#type");
    let mut out: Vec<String> = Vec::new();
    let n = triples.len();
    let mut i: usize = 0;
    while i < n
        invariant
            0 <= i <= n,
            out@.map_values(|l: String| l@) == type_map_lines(triples@.subrange(0, i as int)),
        decreases n - i,
    {
        if triples[i].predicate.iri.eq(&type_iri) {
            out.push(render_line(&triples[i]));
        }
        proof {
            let pre = triples@.subrange(0, i as int);
            assert(triples@.subrange(0, i + 1).drop_last() =~= pre);
            assert(triples@.subrange(0, i + 1).last() == triples@[i as int]);
            assert(out@.map_values(|l: String| l@) =~= type_map_lines(
                triples@.subrange(0, i + 1),
            ));
        }
        i += 1;
    }
    proof {
        assert(triples@.subrange(0, n as int) =~= triples@);
    }
    out
}

} // verus!
