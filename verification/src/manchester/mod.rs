//! OWL Manchester Syntax front end: the tool's ingestion layer, lowered to tiered KFS.
//!
//! Parse posture: per-section containment, never silent. A section whose body the grammar
//! cannot parse becomes a loud [`ParseIssue`] (line and reason) and the rest of the document
//! proceeds.
use vstd::prelude::*;
use crate::text::{chars_of, eq_str};

pub mod lexer;
pub mod expr;
pub mod frames;
pub mod lower;

pub use frames::parse_document;
pub use lower::lower;

verus! {

/// A parsed OWL class (or datatype) expression.
#[derive(Debug, PartialEq, Eq)]
pub enum Expr {
    /// A named entity: prefixed (`bfo:0000015`) or full IRI (angles stripped).
    Named(String),
    /// `A and B and …`
    And(Vec<Expr>),
    /// `A or B or …`
    Or(Vec<Expr>),
    /// `not C`
    Not(Box<Expr>),
    /// `{ i1 i2 … }`
    OneOf(Vec<String>),
    /// `p some C` (the existential restriction)
    Exists { property: String, filler: Box<Expr> },
    /// `p only C`
    Only { property: String, filler: Box<Expr> },
    /// `p min n [C]`
    Min { property: String, n: u32, filler: Option<Box<Expr>> },
    /// `p max n [C]`
    Max { property: String, n: u32, filler: Option<Box<Expr>> },
    /// `p exactly n [C]`
    Exactly { property: String, n: u32, filler: Option<Box<Expr>> },
    /// `p value i`
    HasValue { property: String, individual: String },
}

/// An expression, viewed.
pub enum ExprV {
    Named(Seq<char>),
    And(Seq<ExprV>),
    Or(Seq<ExprV>),
    Not(Box<ExprV>),
    OneOf(Seq<Seq<char>>),
    Exists(Seq<char>, Box<ExprV>),
    Only(Seq<char>, Box<ExprV>),
    Min(Seq<char>, u32, Option<Box<ExprV>>),
    Max(Seq<char>, u32, Option<Box<ExprV>>),
    Exactly(Seq<char>, u32, Option<Box<ExprV>>),
    HasValue(Seq<char>, Seq<char>),
}

/// The view of an expression.
pub open spec fn ev(e: Expr) -> ExprV
    decreases e,
{
    match e {
        Expr::Named(n) => ExprV::Named(n@),
        Expr::And(parts) => ExprV::And(ev_all(parts)),
        Expr::Or(parts) => ExprV::Or(ev_all(parts)),
        Expr::Not(inner) => ExprV::Not(Box::new(ev(*inner))),
        Expr::OneOf(names) => ExprV::OneOf(crate::fragment::names_view(names@)),
        Expr::Exists { property, filler } => ExprV::Exists(property@, Box::new(ev(*filler))),
        Expr::Only { property, filler } => ExprV::Only(property@, Box::new(ev(*filler))),
        Expr::Min { property, n, filler } => ExprV::Min(property@, n, match filler { Some(f) => Some(Box::new(ev(*f))), None => None }),
        Expr::Max { property, n, filler } => ExprV::Max(property@, n, match filler { Some(f) => Some(Box::new(ev(*f))), None => None }),
        Expr::Exactly { property, n, filler } => ExprV::Exactly(property@, n, match filler { Some(f) => Some(Box::new(ev(*f))), None => None }),
        Expr::HasValue { property, individual } => ExprV::HasValue(property@, individual@),
    }
}

/// The views of a list of expressions.
pub open spec fn ev_all(v: Vec<Expr>) -> Seq<ExprV>
    decreases v,
{
    Seq::new(v@.len(), |i: int| if 0 <= i < v@.len() { ev(v@[i]) } else { ExprV::Named(Seq::empty()) })
}

impl Expr {
    /// Top-level conjuncts: an `And` flattens one level; anything else is itself.
    pub fn conjuncts(&self) -> (r: Vec<&Expr>)
        ensures
            match self {
                Expr::And(parts) => r@.len() == parts@.len() && forall|i: int| 0 <= i < r@.len() ==> *r@[i] == parts@[i],
                _ => r@.len() == 1 && *r@[0] == *self,
            },
    {
        match self {
            Expr::And(parts) => {
                let mut r: Vec<&Expr> = Vec::new();
                let mut i: usize = 0;
                while i < parts.len()
                    invariant
                        i <= parts@.len(),
                        r@.len() == i,
                        forall|j: int| 0 <= j < i ==> *r@[j] == parts@[j],
                    decreases parts@.len() - i,
                {
                    r.push(&parts[i]);
                    i += 1;
                }
                r
            },
            _ => {
                let mut r: Vec<&Expr> = Vec::new();
                r.push(self);
                r
            },
        }
    }
}

/// Frame kinds the document layer recognizes.
#[derive(Debug, Clone, Copy, PartialEq, Eq)]
pub enum FrameKind {
    Class,
    ObjectProperty,
    DataProperty,
    AnnotationProperty,
    Datatype,
    Individual,
}

/// The keyword that opens a frame of the kind.
pub open spec fn keyword_of(k: FrameKind) -> Seq<char> {
    match k {
        FrameKind::Class => "Class"@,
        FrameKind::ObjectProperty => "ObjectProperty"@,
        FrameKind::DataProperty => "DataProperty"@,
        FrameKind::AnnotationProperty => "AnnotationProperty"@,
        FrameKind::Datatype => "Datatype"@,
        FrameKind::Individual => "Individual"@,
    }
}

impl FrameKind {
    /// The keyword that opens a frame of this kind.
    pub fn keyword(self) -> (r: &'static str)
        ensures
            r@ == keyword_of(self),
    {
        match self {
            FrameKind::Class => "Class",
            FrameKind::ObjectProperty => "ObjectProperty",
            FrameKind::DataProperty => "DataProperty",
            FrameKind::AnnotationProperty => "AnnotationProperty",
            FrameKind::Datatype => "Datatype",
            FrameKind::Individual => "Individual",
        }
    }
}

/// One frame section (`SubClassOf: A, p some B`) with its comma items parsed; `line` is
/// the citation anchor.
#[derive(Debug)]
pub struct Section {
    pub keyword: String,
    pub line: usize,
    pub items: Vec<Expr>,
}

/// One frame (`Class: sdg:X …`) with merged sections and string-valued annotations.
#[derive(Debug)]
pub struct Frame {
    pub kind: FrameKind,
    pub subject: String,
    pub line: usize,
    pub sections: Vec<Section>,
    /// `(property, literal)` pairs from `Annotations:` sections (string literals only;
    /// language tags and datatype suffixes are consumed and dropped).
    pub annotations: Vec<(String, String)>,
}

/// A top-level `DisjointClasses: a, b, …` axiom block.
#[derive(Debug, Clone)]
pub struct DisjointBlock {
    pub line: usize,
    pub atoms: Vec<String>,
}

/// A parsed Manchester document.
#[derive(Debug, Default)]
pub struct Document {
    /// `prefix:` → namespace URI, from the document's own declarations.
    pub prefixes: Vec<(String, String)>,
    pub frames: Vec<Frame>,
    pub disjoint_blocks: Vec<DisjointBlock>,
}

/// The declared prefixes, viewed.
pub open spec fn prefixes_view(ps: Seq<(String, String)>) -> Seq<(Seq<char>, Seq<char>)> {
    ps.map_values(|p: (String, String)| (p.0@, p.1@))
}

/// `tok` expanded by the first declared prefix (from index `k` on) that starts it.
pub open spec fn expand_from(ps: Seq<(Seq<char>, Seq<char>)>, tok: Seq<char>, k: int) -> Seq<char>
    decreases ps.len() - k,
{
    if k < 0 || k >= ps.len() {
        tok
    } else if ps[k].0.len() <= tok.len() && tok.take(ps[k].0.len() as int) == ps[k].0 {
        ps[k].1 + tok.skip(ps[k].0.len() as int)
    } else {
        expand_from(ps, tok, k + 1)
    }
}

/// Whether `p` starts `t`; `t` given by its characters.
fn starts_with(t: &Vec<char>, p: &str) -> (r: bool)
    ensures
        r == (p@.len() <= t@.len() && t@.take(p@.len() as int) == p@),
{
    let pc = chars_of(p);
    if pc.len() > t.len() {
        return false;
    }
    let mut i: usize = 0;
    while i < pc.len()
        invariant
            pc@ == p@,
            pc@.len() <= t@.len(),
            i <= pc@.len(),
            forall|j: int| 0 <= j < i ==> t@[j] == pc@[j],
        decreases pc@.len() - i,
    {
        if t[i] != pc[i] {
            assert(t@.take(pc@.len() as int)[i as int] != p@[i as int]);
            return false;
        }
        i += 1;
    }
    assert(t@.take(pc@.len() as int) =~= p@);
    true
}

impl Document {
    /// Expand a token to its full IRI via the document's declared prefixes: the first
    /// prefix that starts the token is replaced by its namespace.
    pub fn expand(&self, tok: &str) -> (r: String)
        ensures
            r@ == expand_from(prefixes_view(self.prefixes@), tok@, 0),
    {
        let t = chars_of(tok);
        let ghost ps = prefixes_view(self.prefixes@);
        let mut k: usize = 0;
        while k < self.prefixes.len()
            invariant
                t@ == tok@,
                ps == prefixes_view(self.prefixes@),
                k <= ps.len(),
                expand_from(ps, tok@, 0) == expand_from(ps, tok@, k as int),
            decreases ps.len() - k,
        {
            let p = &self.prefixes[k];
            if starts_with(&t, p.0.as_str()) {
                let mut out = p.1.clone();
                let rest = crate::text::string_of(&t, p.0.as_str().unicode_len(), t.len());
                out.append(rest.as_str());
                return out;
            }
            k += 1;
        }
        String::from_str(tok)
    }
}

/// A loud, per-section parse containment record (line and reason), never silent.
#[derive(Debug, Clone)]
pub struct ParseIssue {
    pub line: usize,
    pub context: String,
    pub message: String,
}

/// How a parse issue reads: `line N: context — message`.
pub open spec fn issue_text(line: nat, context: Seq<char>, message: Seq<char>) -> Seq<char> {
    "line "@ + crate::text::decimal(line) + ": "@ + context + " — "@ + message
}

impl ParseIssue {
    /// The issue as text: `line N: context — message`.
    pub fn to_text(&self) -> (r: String)
        ensures
            r@ == issue_text(self.line as nat, self.context@, self.message@),
    {
        let s = crate::text::cat(String::from_str("line "), crate::text::fmt_u64(self.line as u64).as_str());
        let s = crate::text::cat(s, ": ");
        let s = crate::text::cat(s, self.context.as_str());
        let s = crate::text::cat(s, " — ");
        crate::text::cat(s, self.message.as_str())
    }
}

/// Lexer and expression errors (a lexer position is a byte offset within the section body;
/// a parser position is a token index).
#[derive(Debug, Clone, PartialEq, Eq)]
pub enum ManchesterError {
    Lex { pos: usize, msg: String },
    Parse { pos: usize, msg: String },
}

/// How an error reads.
pub open spec fn error_text(e: ManchesterError) -> Seq<char> {
    match e {
        ManchesterError::Lex { pos, msg } => "lex error at byte "@ + crate::text::decimal(pos as nat) + ": "@ + msg@,
        ManchesterError::Parse { pos, msg } => "parse error at token "@ + crate::text::decimal(pos as nat) + ": "@ + msg@,
    }
}

impl ManchesterError {
    /// The error as text (`lex error at byte N: …`, `parse error at token N: …`).
    pub fn to_text(&self) -> (r: String)
        ensures
            r@ == error_text(*self),
    {
        match self {
            ManchesterError::Lex { pos, msg } => {
                let s = crate::text::cat(String::from_str("lex error at byte "), crate::text::fmt_u64(*pos as u64).as_str());
                crate::text::cat(crate::text::cat(s, ": "), msg.as_str())
            },
            ManchesterError::Parse { pos, msg } => {
                let s = crate::text::cat(String::from_str("parse error at token "), crate::text::fmt_u64(*pos as u64).as_str());
                crate::text::cat(crate::text::cat(s, ": "), msg.as_str())
            },
        }
    }
}

} // verus!
