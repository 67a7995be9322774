//! In-memory representation of RDF triples and their components, together
//! with the line-based textual rendering used throughout the pipeline:
//! named nodes print as `<iri>`, blank nodes as `_:id`, literals as quoted
//! strings with an optional language tag or datatype.

use vstd::prelude::*;
use vstd::string::*;

verus! {

/// A graph entity identified by an IRI.
#[derive(Eq, PartialEq, Debug, Hash)]
pub struct NamedNode {
    /// The IRI itself, without the angle brackets of its textual form.
    pub iri: String,
}

/// A graph entity with only a document-scoped identifier.
#[derive(Eq, PartialEq, Debug, Hash)]
pub struct BlankNode {
    /// The blank node identifier, without the `_:` of its textual form.
    pub id: String,
}

/// A graph value: a string, optionally language-tagged or datatyped.
#[derive(Eq, PartialEq, Debug, Hash)]
pub enum Literal {
    /// A plain literal without datatype or language tag.
    Simple { value: String },
    /// A language-tagged string.
    LanguageTaggedString { value: String, language: String },
    /// A literal with an explicit datatype.
    Typed { value: String, datatype: NamedNode },
}

/// The subject position of a triple.
#[derive(Eq, PartialEq, Debug, Hash)]
pub enum Subject {
    NamedNode(NamedNode),
    BlankNode(BlankNode),
}

/// The object position of a triple.
#[derive(Eq, PartialEq, Debug, Hash)]
pub enum Term {
    NamedNode(NamedNode),
    BlankNode(BlankNode),
    Literal(Literal),
}

/// One subject-predicate-object statement.
#[derive(Eq, PartialEq, Debug, Hash)]
pub struct Triple {
    pub subject: Subject,
    pub predicate: NamedNode,
    pub object: Term,
}


impl Clone for NamedNode {
    /// A clone is equal to the original.
    fn clone(&self) -> (r: Self)
        ensures
            r == *self,
    {
        NamedNode { iri: self.iri.clone() }
    }
}

impl Clone for BlankNode {
    /// A clone is equal to the original.
    fn clone(&self) -> (r: Self)
        ensures
            r == *self,
    {
        BlankNode { id: self.id.clone() }
    }
}

impl Clone for Literal {
    /// A clone is equal to the original.
    fn clone(&self) -> (r: Self)
        ensures
            r == *self,
    {
        match self {
            Literal::Simple { value } => Literal::Simple { value: value.clone() },
            Literal::LanguageTaggedString { value, language } => Literal::LanguageTaggedString {
                value: value.clone(),
                language: language.clone(),
            },
            Literal::Typed { value, datatype } => Literal::Typed {
                value: value.clone(),
                datatype: datatype.clone(),
            },
        }
    }
}

impl Clone for Subject {
    /// A clone is equal to the original.
    fn clone(&self) -> (r: Self)
        ensures
            r == *self,
    {
        match self {
            Subject::NamedNode(n) => Subject::NamedNode(n.clone()),
            Subject::BlankNode(b) => Subject::BlankNode(b.clone()),
        }
    }
}

impl Clone for Term {
    /// A clone is equal to the original.
    fn clone(&self) -> (r: Self)
        ensures
            r == *self,
    {
        match self {
            Term::NamedNode(n) => Term::NamedNode(n.clone()),
            Term::BlankNode(b) => Term::BlankNode(b.clone()),
            Term::Literal(l) => Term::Literal(l.clone()),
        }
    }
}

impl Clone for Triple {
    /// A clone is equal to the original.
    fn clone(&self) -> (r: Self)
        ensures
            r == *self,
    {
        Triple {
            subject: self.subject.clone(),
            predicate: self.predicate.clone(),
            object: self.object.clone(),
        }
    }
}

/// Text of a named node: the IRI enclosed in angle brackets.
pub open spec fn named_node_text(iri: Seq<char>) -> Seq<char> {
    seq!['<'] + iri + seq!['>']
}

/// Text of a blank node: its identifier after `_:`.
pub open spec fn blank_node_text(id: Seq<char>) -> Seq<char> {
    seq!['_', ':'] + id
}

/// How one character prints inside a quoted literal: line breaks, quotes
/// and backslashes are escaped, everything else stands as itself.
pub open spec fn escape_char(c: char) -> Seq<char> {
    if c == '\n' {
        seq!['\\', 'n']
    } else if c == '\r' {
        seq!['\\', 'r']
    } else if c == '"' {
        seq!['\\', '"']
    } else if c == '\\' {
        seq!['\\', '\\']
    } else {
        seq![c]
    }
}

/// The escaped body of a quoted literal.
pub open spec fn escape_text(s: Seq<char>) -> Seq<char>
    decreases s.len(),
{
    if s.len() == 0 {
        Seq::empty()
    } else {
        escape_char(s[0]) + escape_text(s.drop_first())
    }
}

/// A literal value surrounded by double quotes, with its body escaped.
pub open spec fn quoted_text(s: Seq<char>) -> Seq<char> {
    seq!['"'] + escape_text(s) + seq!['"']
}

/// Text of a literal: the quoted value, then its language tag after `@`
/// or its datatype after `^^`, if any.
pub open spec fn literal_text(l: Literal) -> Seq<char> {
    match l {
        Literal::Simple { value } => quoted_text(value@),
        Literal::LanguageTaggedString { value, language } => quoted_text(value@) + seq!['@']
            + language@,
        Literal::Typed { value, datatype } => quoted_text(value@) + seq!['^', '^']
            + named_node_text(datatype.iri@),
    }
}

/// Text of a subject position.
pub open spec fn subject_text(s: Subject) -> Seq<char> {
    match s {
        Subject::NamedNode(n) => named_node_text(n.iri@),
        Subject::BlankNode(b) => blank_node_text(b.id@),
    }
}

/// Text of an object position.
pub open spec fn term_text(t: Term) -> Seq<char> {
    match t {
        Term::NamedNode(n) => named_node_text(n.iri@),
        Term::BlankNode(b) => blank_node_text(b.id@),
        Term::Literal(l) => literal_text(l),
    }
}

/// Text of a whole triple: its three positions separated by single spaces.
pub open spec fn triple_text(t: Triple) -> Seq<char> {
    subject_text(t.subject) + seq![' '] + named_node_text(t.predicate.iri@) + seq![' ']
        + term_text(t.object)
}

/// Escaping distributes over concatenation.
proof fn lemma_escape_text_append(a: Seq<char>, b: Seq<char>)
    ensures
        escape_text(a + b) == escape_text(a) + escape_text(b),
    decreases a.len(),
{
    if a.len() == 0 {
        assert(a + b =~= b);
        assert(escape_text(a) + escape_text(b) =~= escape_text(b));
    } else {
        lemma_escape_text_append(a.drop_first(), b);
        assert((a + b).drop_first() =~= a.drop_first() + b);
        assert(escape_text(a + b) =~= escape_char((a + b)[0]) + escape_text((a + b).drop_first()));
        assert(escape_char(a[0]) + (escape_text(a.drop_first()) + escape_text(b)) =~= escape_char(
            a[0],
        ) + escape_text(a.drop_first()) + escape_text(b));
    }
}

/// Escaping one more character appends that character's escape.
proof fn lemma_escape_text_snoc(s: Seq<char>, i: int)
    requires
        0 <= i < s.len(),
    ensures
        escape_text(s.subrange(0, i + 1)) == escape_text(s.subrange(0, i)) + escape_char(s[i]),
{
    let a = s.subrange(0, i);
    let one = s.subrange(i, i + 1);
    assert(s.subrange(0, i + 1) =~= a + one);
    lemma_escape_text_append(a, one);
    assert(one.drop_first() =~= Seq::<char>::empty());
    assert(one[0] == s[i]);
    assert(escape_text(Seq::<char>::empty()) =~= Seq::<char>::empty());
    assert(escape_text(one) =~= escape_char(one[0]) + escape_text(one.drop_first()));
    assert(escape_char(s[i]) + Seq::<char>::empty() =~= escape_char(s[i]));
    assert(escape_text(one) =~= escape_char(s[i]));
}

/// Renders a string as a quoted, escaped literal body with its delimiters.
pub fn fmt_quoted_str(s: &str) -> (r: String)
    ensures
        r@ == quoted_text(s@),
{
    proof {
        reveal_strlit("\"");
        reveal_strlit("\\n");
        reveal_strlit("\\r");
        reveal_strlit("\\\"");
        reveal_strlit("\\\\");
    }
    let mut out = String::new();
    out.append("\"");
    let n = s.unicode_len();
    let mut i: usize = 0;
    while i < n
        invariant
            i <= n,
            n == s@.len(),
            out@ == seq!['"'] + escape_text(s@.subrange(0, i as int)),
        decreases n - i,
    {
        let c = s.get_char(i);
        if c == '\n' {
            out.append("\\n");
        } else if c == '\r' {
            out.append("\\r");
        } else if c == '"' {
            out.append("\\\"");
        } else if c == '\\' {
            out.append("\\\\");
        } else {
            let piece = s.substring_char(i, i + 1);
            proof {
                assert(piece@ =~= seq![s@[i as int]]);
            }
            out.append(piece);
        }
        proof {
            lemma_escape_text_snoc(s@, i as int);
            reveal_strlit("\"");
            reveal_strlit("\\n");
            reveal_strlit("\\r");
            reveal_strlit("\\\"");
            reveal_strlit("\\\\");
        }
        i += 1;
    }
    proof {
        assert(s@.subrange(0, n as int) =~= s@);
    }
    out.append("\"");
    out
}

impl NamedNode {
    /// Renders this node as `<iri>`.
    pub fn to_text(&self) -> (r: String)
        ensures
            r@ == named_node_text(self.iri@),
    {
        proof {
            reveal_strlit("<");
            reveal_strlit(">");
        }
        let mut out = String::new();
        out.append("<");
        out.append(self.iri.as_str());
        out.append(">");
        proof {
            assert(out@ =~= named_node_text(self.iri@));
        }
        out
    }
}

impl BlankNode {
    /// Renders this node as `_:id`.
    pub fn to_text(&self) -> (r: String)
        ensures
            r@ == blank_node_text(self.id@),
    {
        proof {
            reveal_strlit("_:");
        }
        let mut out = String::new();
        out.append("_:");
        out.append(self.id.as_str());
        proof {
            assert(out@ =~= blank_node_text(self.id@));
        }
        out
    }
}

impl Literal {
    /// The lexical form of this literal, whatever its kind.
    pub open spec fn spec_value(self) -> Seq<char> {
        match self {
            Literal::Simple { value } => value@,
            Literal::LanguageTaggedString { value, .. } => value@,
            Literal::Typed { value, .. } => value@,
        }
    }

    /// Renders this literal in its quoted textual form.
    pub fn to_text(&self) -> (r: String)
        ensures
            r@ == literal_text(*self),
    {
        match self {
            Literal::Simple { value } => fmt_quoted_str(value.as_str()),
            Literal::LanguageTaggedString { value, language } => {
                proof {
                    reveal_strlit("@");
                }
                let mut out = fmt_quoted_str(value.as_str());
                out.append("@");
                out.append(language.as_str());
                proof {
                    assert(out@ =~= literal_text(*self));
                }
                out
            },
            Literal::Typed { value, datatype } => {
                proof {
                    reveal_strlit("^^");
                }
                let mut out = fmt_quoted_str(value.as_str());
                out.append("^^");
                let dt = datatype.to_text();
                out.append(dt.as_str());
                proof {
                    assert(out@ =~= literal_text(*self));
                }
                out
            },
        }
    }
}

impl Subject {
    /// Renders this subject in its textual form.
    pub fn to_text(&self) -> (r: String)
        ensures
            r@ == subject_text(*self),
    {
        match self {
            Subject::NamedNode(n) => n.to_text(),
            Subject::BlankNode(b) => b.to_text(),
        }
    }
}

impl Term {
    /// Renders this object in its textual form.
    pub fn to_text(&self) -> (r: String)
        ensures
            r@ == term_text(*self),
    {
        match self {
            Term::NamedNode(n) => n.to_text(),
            Term::BlankNode(b) => b.to_text(),
            Term::Literal(l) => l.to_text(),
        }
    }
}

impl Triple {
    /// Renders this triple as its three positions separated by spaces.
    pub fn to_text(&self) -> (r: String)
        ensures
            r@ == triple_text(*self),
    {
        proof {
            reveal_strlit(" ");
        }
        let mut out = self.subject.to_text();
        out.append(" ");
        let p = self.predicate.to_text();
        out.append(p.as_str());
        out.append(" ");
        let o = self.object.to_text();
        out.append(o.as_str());
        proof {
            assert(out@ =~= triple_text(*self));
        }
        out
    }
}

} // verus!
