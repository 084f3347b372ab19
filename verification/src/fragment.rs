//! The pinned fragment: its AST and the fragment gate.
//!
//! Refuse, don't approximate: admission is the engine's first act on any input; constructs
//! outside the pinned fragment are rejected loudly with the offending construct named.
use vstd::prelude::*;
use crate::verdict::Name;
use crate::text::{
    chars_of, is_whitespace, is_ws, trim, tokens, word_end, lemma_word_end, strip_angles_spec, string_of,
    trim_range, split_tokens, strip_angles, decimal, fmt_u64, parse_u32, parse_u32_spec, char_debug, str_debug,
    debug_char, debug_str, eq_str, cat,
};

verus! {

/// The pinned-fragment axiom forms; anything else is refused.
#[derive(Debug, Clone, PartialEq, Eq)]
pub enum Axiom {
    /// `c ⊑ d`
    SubClassOf { sub: Name, sup: Name },
    /// `c ≡ a₁ ⊓ a₂ ⊓ …` (the told direction `c ⊑ aᵢ` is active)
    EquivalentToIntersection { class: Name, parts: Vec<Name> },
    /// `c ⊑ ∃r.d`
    SubClassOfExistential { sub: Name, role: Name, filler: Name },
    /// `Disjoint(a, b)` (pairwise)
    DisjointClasses { a: Name, b: Name },
    /// `i : c`
    ClassAssertion { class: Name, individual: Name },
    /// `range(r) ⊑ c`
    PropertyRange { role: Name, range: Name },
    /// `domain(r) ⊑ c`
    PropertyDomain { role: Name, domain: Name },
}

/// An axiom with its names seen as character sequences.
pub enum AxiomV {
    SubClassOf(Seq<char>, Seq<char>),
    EquivalentToIntersection(Seq<char>, Seq<Seq<char>>),
    SubClassOfExistential(Seq<char>, Seq<char>, Seq<char>),
    DisjointClasses(Seq<char>, Seq<char>),
    ClassAssertion(Seq<char>, Seq<char>),
    PropertyRange(Seq<char>, Seq<char>),
    PropertyDomain(Seq<char>, Seq<char>),
}

/// The views of a sequence of names.
pub open spec fn names_view(v: Seq<String>) -> Seq<Seq<char>> {
    v.map_values(|s: String| s@)
}

impl View for Axiom {
    type V = AxiomV;

    /// `ClassAssertion` is viewed as (class, individual).
    open spec fn view(&self) -> AxiomV {
        match self {
            Axiom::SubClassOf { sub, sup } => AxiomV::SubClassOf(sub@, sup@),
            Axiom::EquivalentToIntersection { class, parts } => AxiomV::EquivalentToIntersection(
                class@,
                names_view(parts@),
            ),
            Axiom::SubClassOfExistential { sub, role, filler } => AxiomV::SubClassOfExistential(
                sub@,
                role@,
                filler@,
            ),
            Axiom::DisjointClasses { a, b } => AxiomV::DisjointClasses(a@, b@),
            Axiom::ClassAssertion { class, individual } => AxiomV::ClassAssertion(
                class@,
                individual@,
            ),
            Axiom::PropertyRange { role, range } => AxiomV::PropertyRange(role@, range@),
            Axiom::PropertyDomain { role, domain } => AxiomV::PropertyDomain(role@, domain@),
        }
    }
}

/// The views of a sequence of axioms.
pub open spec fn axioms_view(v: Seq<Axiom>) -> Seq<AxiomV> {
    v.map_values(|a: Axiom| a@)
}

/// The annotation tier: structure the DDL needs but the calculus refuses. These forms are
/// unrepresentable in proofs: the engine and the kernel take axioms only.
#[derive(Debug, Clone, PartialEq, Eq)]
pub enum Annotation {
    /// `@Attribute <class> <prop> <xsd>`
    Attribute { class: Name, prop: Name, xsd: Name },
    /// `@Cardinality <class> <prop> <min> <max|*>` (true bounds)
    Cardinality { class: Name, prop: Name, min: u32, max: Option<u32> },
    /// `@Enum <prop> "v" …`
    Enum { prop: Name, values: Vec<String> },
    /// `@Unique <prop>`
    Unique { prop: Name },
    /// `@Key <class> <prop> [<prop>…]`
    Key { class: Name, props: Vec<Name> },
    /// `@Label <entity> "text"`
    Label { entity: Name, text: String },
    /// `@Relation <class> <prop> <target>` (not existentially forced)
    Relation { class: Name, prop: Name, target: Name },
}

/// One parsed KFS line, tier-tagged.
#[derive(Debug, Clone, PartialEq, Eq)]
pub enum Line {
    Axiom(Axiom),
    Annotation(Annotation),
}

/// A loud, named rejection.
#[derive(Debug, Clone, PartialEq, Eq)]
pub struct OutOfFragment {
    pub line: usize,
    pub construct: String,
    pub detail: String,
}

/// An annotation with its names seen as character sequences.
pub enum AnnotationV {
    Attribute(Seq<char>, Seq<char>, Seq<char>),
    Cardinality(Seq<char>, Seq<char>, u32, Option<u32>),
    Enum(Seq<char>, Seq<Seq<char>>),
    Unique(Seq<char>),
    Key(Seq<char>, Seq<Seq<char>>),
    Label(Seq<char>, Seq<char>),
    Relation(Seq<char>, Seq<char>, Seq<char>),
}

impl View for Annotation {
    type V = AnnotationV;

    open spec fn view(&self) -> AnnotationV {
        match self {
            Annotation::Attribute { class, prop, xsd } => AnnotationV::Attribute(class@, prop@, xsd@),
            Annotation::Cardinality { class, prop, min, max } => AnnotationV::Cardinality(class@, prop@, *min, *max),
            Annotation::Enum { prop, values } => AnnotationV::Enum(prop@, names_view(values@)),
            Annotation::Unique { prop } => AnnotationV::Unique(prop@),
            Annotation::Key { class, props } => AnnotationV::Key(class@, names_view(props@)),
            Annotation::Label { entity, text } => AnnotationV::Label(entity@, text@),
            Annotation::Relation { class, prop, target } => AnnotationV::Relation(class@, prop@, target@),
        }
    }
}

/// A parsed line, viewed.
pub enum LineV {
    Axiom(AxiomV),
    Annotation(AnnotationV),
}

impl View for Line {
    type V = LineV;

    open spec fn view(&self) -> LineV {
        match self {
            Line::Axiom(a) => LineV::Axiom(a@),
            Line::Annotation(a) => LineV::Annotation(a@),
        }
    }
}

/// A rejection, viewed.
pub struct RejectV {
    pub line: nat,
    pub construct: Seq<char>,
    pub detail: Seq<char>,
}

impl View for OutOfFragment {
    type V = RejectV;

    open spec fn view(&self) -> RejectV {
        RejectV { line: self.line as nat, construct: self.construct@, detail: self.detail@ }
    }
}

/// The views of a sequence of annotations.
pub open spec fn annotations_view(v: Seq<Annotation>) -> Seq<AnnotationV> {
    v.map_values(|a: Annotation| a@)
}

/// A `#` starts a comment at the line start or after whitespace, never inside a token.
pub open spec fn comment_start(s: Seq<char>, i: int) -> bool {
    0 <= i < s.len() && s[i] == '#' && (i == 0 || is_ws(s[i - 1]))
}

/// The first comment start at or after `i`, else the end of the line.
pub open spec fn comment_from(s: Seq<char>, i: int) -> int
    decreases s.len() - i,
{
    if i < 0 || i >= s.len() {
        s.len() as int
    } else if comment_start(s, i) {
        i
    } else {
        comment_from(s, i + 1)
    }
}

/// The line without its comment, trimmed.
pub open spec fn content(s: Seq<char>) -> Seq<char> {
    trim(s.take(comment_from(s, 0)))
}

/// `s` split at its first whitespace character (`split_once(char::is_whitespace)`), or all
/// of `s` and nothing when it has none.
pub open spec fn split_ws(s: Seq<char>) -> (Seq<char>, Seq<char>) {
    let w = word_end(s, 0);
    if w < s.len() {
        (s.take(w), s.skip(w + 1))
    } else {
        (s, Seq::empty())
    }
}

/// Whether `s` has a whitespace character.
pub open spec fn has_ws(s: Seq<char>) -> bool {
    word_end(s, 0) < s.len()
}

/// The tokens of `s` with their angle brackets stripped.
pub open spec fn args_of(s: Seq<char>) -> Seq<Seq<char>> {
    tokens(s).map_values(|t: Seq<char>| strip_angles_spec(t))
}

/// A rejection of line `n`.
pub open spec fn reject(n: nat, construct: Seq<char>, detail: Seq<char>) -> RejectV {
    RejectV { line: n, construct, detail }
}

/// `"{form} expects {want} argument(s), got {got}"`.
pub open spec fn arity_detail(form: Seq<char>, want: nat, got: nat) -> Seq<char> {
    form + " expects "@ + decimal(want) + " argument(s), got "@ + decimal(got)
}

/// Why a recognized construct is refused, by name.
pub open spec fn refused_reason(head: Seq<char>) -> Option<Seq<char>> {
    if head == "InverseObjectProperties"@ {
        Some("inverse roles force pairwise blocking"@)
    } else if head == "TransitiveObjectProperty"@ {
        Some("transitivity expands concept closure"@)
    } else if head == "ObjectHasValue"@ {
        Some("nominal (hasValue)"@)
    } else if head == "ObjectOneOf"@ {
        Some("nominal (oneOf)"@)
    } else if head == "ObjectUnionOf"@ {
        Some("covering disjunctions fan out the label space"@)
    } else if head == "ObjectComplementOf"@ {
        Some("general negation is outside the Horn fragment"@)
    } else if head == "ObjectMinCardinality"@ {
        Some("cardinality clausification is O(n²)"@)
    } else if head == "ObjectMaxCardinality"@ {
        Some("cardinality clausification is O(n²)"@)
    } else if head == "ObjectExactCardinality"@ {
        Some("cardinality clausification is O(n²)"@)
    } else if head == "ObjectPropertyAssertion"@ {
        Some("role assertions void the Types-only ABox decomposition"@)
    } else if head == "SameIndividual"@ {
        Some("individual equality voids the disjoint-union amalgamation"@)
    } else if head == "DifferentIndividuals"@ {
        Some("individual inequality is out of the v0 ABox shape"@)
    } else {
        None
    }
}

/// A fixed-arity axiom form: exactly `want` arguments, else the arity rejection.
pub open spec fn fixed(n: nat, head: Seq<char>, form: Seq<char>, args: Seq<Seq<char>>, want: nat, ax: AxiomV) -> Result<Option<LineV>, RejectV> {
    if args.len() == want {
        Ok(Some(LineV::Axiom(ax)))
    } else {
        Err(reject(n, head, arity_detail(form, want, args.len())))
    }
}

/// The admission answer on an axiom line with head token `head` and arguments `args`.
pub open spec fn axiom_spec(n: nat, head: Seq<char>, args: Seq<Seq<char>>) -> Result<Option<LineV>, RejectV> {
    if head == "SubClassOf"@ {
        fixed(n, head, "SubClassOf <sub> <sup>"@, args, 2, AxiomV::SubClassOf(args[0], args[1]))
    } else if head == "EquivalentToIntersection"@ {
        if args.len() < 2 {
            Err(reject(n, head, "expects <class> then ≥1 conjunct"@))
        } else {
            Ok(Some(LineV::Axiom(AxiomV::EquivalentToIntersection(args[0], args.drop_first()))))
        }
    } else if head == "SubClassOfExistential"@ {
        fixed(n, head, "SubClassOfExistential <sub> <role> <filler>"@, args, 3, AxiomV::SubClassOfExistential(args[0], args[1], args[2]))
    } else if head == "DisjointClasses"@ {
        fixed(n, head, "DisjointClasses <a> <b>"@, args, 2, AxiomV::DisjointClasses(args[0], args[1]))
    } else if head == "ClassAssertion"@ {
        fixed(n, head, "ClassAssertion <class> <individual>"@, args, 2, AxiomV::ClassAssertion(args[0], args[1]))
    } else if head == "PropertyRange"@ {
        fixed(n, head, "PropertyRange <role> <class>"@, args, 2, AxiomV::PropertyRange(args[0], args[1]))
    } else if head == "PropertyDomain"@ {
        fixed(n, head, "PropertyDomain <role> <class>"@, args, 2, AxiomV::PropertyDomain(args[0], args[1]))
    } else {
        Err(reject(n, head, match refused_reason(head) { Some(why) => why, None => "unknown construct"@ }))
    }
}

/// Admission of axiom lines: an accepted head with the right number of arguments yields the
/// axiom with those arguments in order (an intersection takes its class, then every
/// conjunct); a wrong count is refused; every other construct is refused under its own name.
pub proof fn lemma_gate_forms(n: nat, head: Seq<char>, a: Seq<char>, b: Seq<char>, c: Seq<char>, more: Seq<Seq<char>>)
    ensures
        axiom_spec(n, "SubClassOf"@, seq![a, b]) == Ok::<Option<LineV>, RejectV>(Some(LineV::Axiom(AxiomV::SubClassOf(a, b)))),
        axiom_spec(n, "SubClassOfExistential"@, seq![a, b, c])
            == Ok::<Option<LineV>, RejectV>(Some(LineV::Axiom(AxiomV::SubClassOfExistential(a, b, c)))),
        axiom_spec(n, "DisjointClasses"@, seq![a, b]) == Ok::<Option<LineV>, RejectV>(Some(LineV::Axiom(AxiomV::DisjointClasses(a, b)))),
        axiom_spec(n, "ClassAssertion"@, seq![a, b]) == Ok::<Option<LineV>, RejectV>(Some(LineV::Axiom(AxiomV::ClassAssertion(a, b)))),
        axiom_spec(n, "PropertyRange"@, seq![a, b]) == Ok::<Option<LineV>, RejectV>(Some(LineV::Axiom(AxiomV::PropertyRange(a, b)))),
        axiom_spec(n, "PropertyDomain"@, seq![a, b]) == Ok::<Option<LineV>, RejectV>(Some(LineV::Axiom(AxiomV::PropertyDomain(a, b)))),
        axiom_spec(n, "EquivalentToIntersection"@, seq![a, b] + more)
            == Ok::<Option<LineV>, RejectV>(Some(LineV::Axiom(AxiomV::EquivalentToIntersection(a, seq![b] + more)))),
        axiom_spec(n, "SubClassOf"@, seq![a]) is Err,
        axiom_spec(n, "SubClassOf"@, seq![a, b, c]) is Err,
        axiom_spec(n, "SubClassOfExistential"@, seq![a, b]) is Err,
        axiom_spec(n, "EquivalentToIntersection"@, seq![a]) is Err,
        !(head == "SubClassOf"@ || head == "EquivalentToIntersection"@ || head == "SubClassOfExistential"@
            || head == "DisjointClasses"@ || head == "ClassAssertion"@ || head == "PropertyRange"@ || head == "PropertyDomain"@)
            ==> (axiom_spec(n, head, seq![a, b] + more) matches Err(e) && e.construct == head && e.line == n),
        refused_reason(head) is Some ==> (axiom_spec(n, head, seq![a, b] + more) matches Err(e)
            && e.detail == refused_reason(head).unwrap()),
{
    reveal_strlit("SubClassOf");
    reveal_strlit("EquivalentToIntersection");
    reveal_strlit("SubClassOfExistential");
    reveal_strlit("DisjointClasses");
    reveal_strlit("ClassAssertion");
    reveal_strlit("PropertyRange");
    reveal_strlit("PropertyDomain");
    reveal_strlit("InverseObjectProperties");
    reveal_strlit("TransitiveObjectProperty");
    reveal_strlit("ObjectHasValue");
    reveal_strlit("ObjectOneOf");
    reveal_strlit("ObjectUnionOf");
    reveal_strlit("ObjectComplementOf");
    reveal_strlit("ObjectMinCardinality");
    reveal_strlit("ObjectMaxCardinality");
    reveal_strlit("ObjectExactCardinality");
    reveal_strlit("ObjectPropertyAssertion");
    reveal_strlit("SameIndividual");
    reveal_strlit("DifferentIndividuals");
    assert("SubClassOf"@ != "EquivalentToIntersection"@) by { assert("SubClassOf"@.len() != "EquivalentToIntersection"@.len()); }
    assert("SubClassOf"@ != "SubClassOfExistential"@) by { assert("SubClassOf"@.len() != "SubClassOfExistential"@.len()); }
    assert("SubClassOf"@ != "DisjointClasses"@) by { assert("SubClassOf"@.len() != "DisjointClasses"@.len()); }
    assert("SubClassOf"@ != "ClassAssertion"@) by { assert("SubClassOf"@.len() != "ClassAssertion"@.len()); }
    assert("SubClassOf"@ != "PropertyRange"@) by { assert("SubClassOf"@.len() != "PropertyRange"@.len()); }
    assert("SubClassOf"@ != "PropertyDomain"@) by { assert("SubClassOf"@.len() != "PropertyDomain"@.len()); }
    assert("EquivalentToIntersection"@ != "SubClassOfExistential"@) by { assert("EquivalentToIntersection"@.len() != "SubClassOfExistential"@.len()); }
    assert("EquivalentToIntersection"@ != "DisjointClasses"@) by { assert("EquivalentToIntersection"@.len() != "DisjointClasses"@.len()); }
    assert("EquivalentToIntersection"@ != "ClassAssertion"@) by { assert("EquivalentToIntersection"@.len() != "ClassAssertion"@.len()); }
    assert("EquivalentToIntersection"@ != "PropertyRange"@) by { assert("EquivalentToIntersection"@.len() != "PropertyRange"@.len()); }
    assert("EquivalentToIntersection"@ != "PropertyDomain"@) by { assert("EquivalentToIntersection"@.len() != "PropertyDomain"@.len()); }
    assert("SubClassOfExistential"@ != "DisjointClasses"@) by { assert("SubClassOfExistential"@.len() != "DisjointClasses"@.len()); }
    assert("SubClassOfExistential"@ != "ClassAssertion"@) by { assert("SubClassOfExistential"@.len() != "ClassAssertion"@.len()); }
    assert("SubClassOfExistential"@ != "PropertyRange"@) by { assert("SubClassOfExistential"@.len() != "PropertyRange"@.len()); }
    assert("SubClassOfExistential"@ != "PropertyDomain"@) by { assert("SubClassOfExistential"@.len() != "PropertyDomain"@.len()); }
    assert("DisjointClasses"@ != "ClassAssertion"@) by { assert("DisjointClasses"@.len() != "ClassAssertion"@.len()); }
    assert("DisjointClasses"@ != "PropertyRange"@) by { assert("DisjointClasses"@.len() != "PropertyRange"@.len()); }
    assert("DisjointClasses"@ != "PropertyDomain"@) by { assert("DisjointClasses"@.len() != "PropertyDomain"@.len()); }
    assert("ClassAssertion"@ != "PropertyRange"@) by { assert("ClassAssertion"@.len() != "PropertyRange"@.len()); }
    assert("ClassAssertion"@ != "PropertyDomain"@) by { assert("ClassAssertion"@[0] != "PropertyDomain"@[0]); }
    assert("PropertyRange"@ != "PropertyDomain"@) by { assert("PropertyRange"@.len() != "PropertyDomain"@.len()); }
    assert("InverseObjectProperties"@ != "SubClassOf"@) by { assert("InverseObjectProperties"@.len() != "SubClassOf"@.len()); }
    assert("InverseObjectProperties"@ != "EquivalentToIntersection"@) by { assert("InverseObjectProperties"@.len() != "EquivalentToIntersection"@.len()); }
    assert("InverseObjectProperties"@ != "SubClassOfExistential"@) by { assert("InverseObjectProperties"@.len() != "SubClassOfExistential"@.len()); }
    assert("InverseObjectProperties"@ != "DisjointClasses"@) by { assert("InverseObjectProperties"@.len() != "DisjointClasses"@.len()); }
    assert("InverseObjectProperties"@ != "ClassAssertion"@) by { assert("InverseObjectProperties"@.len() != "ClassAssertion"@.len()); }
    assert("InverseObjectProperties"@ != "PropertyRange"@) by { assert("InverseObjectProperties"@.len() != "PropertyRange"@.len()); }
    assert("InverseObjectProperties"@ != "PropertyDomain"@) by { assert("InverseObjectProperties"@.len() != "PropertyDomain"@.len()); }
    assert("TransitiveObjectProperty"@ != "SubClassOf"@) by { assert("TransitiveObjectProperty"@.len() != "SubClassOf"@.len()); }
    assert("TransitiveObjectProperty"@ != "EquivalentToIntersection"@) by { assert("TransitiveObjectProperty"@[0] != "EquivalentToIntersection"@[0]); }
    assert("TransitiveObjectProperty"@ != "SubClassOfExistential"@) by { assert("TransitiveObjectProperty"@.len() != "SubClassOfExistential"@.len()); }
    assert("TransitiveObjectProperty"@ != "DisjointClasses"@) by { assert("TransitiveObjectProperty"@.len() != "DisjointClasses"@.len()); }
    assert("TransitiveObjectProperty"@ != "ClassAssertion"@) by { assert("TransitiveObjectProperty"@.len() != "ClassAssertion"@.len()); }
    assert("TransitiveObjectProperty"@ != "PropertyRange"@) by { assert("TransitiveObjectProperty"@.len() != "PropertyRange"@.len()); }
    assert("TransitiveObjectProperty"@ != "PropertyDomain"@) by { assert("TransitiveObjectProperty"@.len() != "PropertyDomain"@.len()); }
    assert("ObjectHasValue"@ != "SubClassOf"@) by { assert("ObjectHasValue"@.len() != "SubClassOf"@.len()); }
    assert("ObjectHasValue"@ != "EquivalentToIntersection"@) by { assert("ObjectHasValue"@.len() != "EquivalentToIntersection"@.len()); }
    assert("ObjectHasValue"@ != "SubClassOfExistential"@) by { assert("ObjectHasValue"@.len() != "SubClassOfExistential"@.len()); }
    assert("ObjectHasValue"@ != "DisjointClasses"@) by { assert("ObjectHasValue"@.len() != "DisjointClasses"@.len()); }
    assert("ObjectHasValue"@ != "ClassAssertion"@) by { assert("ObjectHasValue"@[0] != "ClassAssertion"@[0]); }
    assert("ObjectHasValue"@ != "PropertyRange"@) by { assert("ObjectHasValue"@.len() != "PropertyRange"@.len()); }
    assert("ObjectHasValue"@ != "PropertyDomain"@) by { assert("ObjectHasValue"@[0] != "PropertyDomain"@[0]); }
    assert("ObjectOneOf"@ != "SubClassOf"@) by { assert("ObjectOneOf"@.len() != "SubClassOf"@.len()); }
    assert("ObjectOneOf"@ != "EquivalentToIntersection"@) by { assert("ObjectOneOf"@.len() != "EquivalentToIntersection"@.len()); }
    assert("ObjectOneOf"@ != "SubClassOfExistential"@) by { assert("ObjectOneOf"@.len() != "SubClassOfExistential"@.len()); }
    assert("ObjectOneOf"@ != "DisjointClasses"@) by { assert("ObjectOneOf"@.len() != "DisjointClasses"@.len()); }
    assert("ObjectOneOf"@ != "ClassAssertion"@) by { assert("ObjectOneOf"@.len() != "ClassAssertion"@.len()); }
    assert("ObjectOneOf"@ != "PropertyRange"@) by { assert("ObjectOneOf"@.len() != "PropertyRange"@.len()); }
    assert("ObjectOneOf"@ != "PropertyDomain"@) by { assert("ObjectOneOf"@.len() != "PropertyDomain"@.len()); }
    assert("ObjectUnionOf"@ != "SubClassOf"@) by { assert("ObjectUnionOf"@.len() != "SubClassOf"@.len()); }
    assert("ObjectUnionOf"@ != "EquivalentToIntersection"@) by { assert("ObjectUnionOf"@.len() != "EquivalentToIntersection"@.len()); }
    assert("ObjectUnionOf"@ != "SubClassOfExistential"@) by { assert("ObjectUnionOf"@.len() != "SubClassOfExistential"@.len()); }
    assert("ObjectUnionOf"@ != "DisjointClasses"@) by { assert("ObjectUnionOf"@.len() != "DisjointClasses"@.len()); }
    assert("ObjectUnionOf"@ != "ClassAssertion"@) by { assert("ObjectUnionOf"@.len() != "ClassAssertion"@.len()); }
    assert("ObjectUnionOf"@ != "PropertyRange"@) by { assert("ObjectUnionOf"@[0] != "PropertyRange"@[0]); }
    assert("ObjectUnionOf"@ != "PropertyDomain"@) by { assert("ObjectUnionOf"@.len() != "PropertyDomain"@.len()); }
    assert("ObjectComplementOf"@ != "SubClassOf"@) by { assert("ObjectComplementOf"@.len() != "SubClassOf"@.len()); }
    assert("ObjectComplementOf"@ != "EquivalentToIntersection"@) by { assert("ObjectComplementOf"@.len() != "EquivalentToIntersection"@.len()); }
    assert("ObjectComplementOf"@ != "SubClassOfExistential"@) by { assert("ObjectComplementOf"@.len() != "SubClassOfExistential"@.len()); }
    assert("ObjectComplementOf"@ != "DisjointClasses"@) by { assert("ObjectComplementOf"@.len() != "DisjointClasses"@.len()); }
    assert("ObjectComplementOf"@ != "ClassAssertion"@) by { assert("ObjectComplementOf"@.len() != "ClassAssertion"@.len()); }
    assert("ObjectComplementOf"@ != "PropertyRange"@) by { assert("ObjectComplementOf"@.len() != "PropertyRange"@.len()); }
    assert("ObjectComplementOf"@ != "PropertyDomain"@) by { assert("ObjectComplementOf"@.len() != "PropertyDomain"@.len()); }
    assert("ObjectMinCardinality"@ != "SubClassOf"@) by { assert("ObjectMinCardinality"@.len() != "SubClassOf"@.len()); }
    assert("ObjectMinCardinality"@ != "EquivalentToIntersection"@) by { assert("ObjectMinCardinality"@.len() != "EquivalentToIntersection"@.len()); }
    assert("ObjectMinCardinality"@ != "SubClassOfExistential"@) by { assert("ObjectMinCardinality"@.len() != "SubClassOfExistential"@.len()); }
    assert("ObjectMinCardinality"@ != "DisjointClasses"@) by { assert("ObjectMinCardinality"@.len() != "DisjointClasses"@.len()); }
    assert("ObjectMinCardinality"@ != "ClassAssertion"@) by { assert("ObjectMinCardinality"@.len() != "ClassAssertion"@.len()); }
    assert("ObjectMinCardinality"@ != "PropertyRange"@) by { assert("ObjectMinCardinality"@.len() != "PropertyRange"@.len()); }
    assert("ObjectMinCardinality"@ != "PropertyDomain"@) by { assert("ObjectMinCardinality"@.len() != "PropertyDomain"@.len()); }
    assert("ObjectMaxCardinality"@ != "SubClassOf"@) by { assert("ObjectMaxCardinality"@.len() != "SubClassOf"@.len()); }
    assert("ObjectMaxCardinality"@ != "EquivalentToIntersection"@) by { assert("ObjectMaxCardinality"@.len() != "EquivalentToIntersection"@.len()); }
    assert("ObjectMaxCardinality"@ != "SubClassOfExistential"@) by { assert("ObjectMaxCardinality"@.len() != "SubClassOfExistential"@.len()); }
    assert("ObjectMaxCardinality"@ != "DisjointClasses"@) by { assert("ObjectMaxCardinality"@.len() != "DisjointClasses"@.len()); }
    assert("ObjectMaxCardinality"@ != "ClassAssertion"@) by { assert("ObjectMaxCardinality"@.len() != "ClassAssertion"@.len()); }
    assert("ObjectMaxCardinality"@ != "PropertyRange"@) by { assert("ObjectMaxCardinality"@.len() != "PropertyRange"@.len()); }
    assert("ObjectMaxCardinality"@ != "PropertyDomain"@) by { assert("ObjectMaxCardinality"@.len() != "PropertyDomain"@.len()); }
    assert("ObjectExactCardinality"@ != "SubClassOf"@) by { assert("ObjectExactCardinality"@.len() != "SubClassOf"@.len()); }
    assert("ObjectExactCardinality"@ != "EquivalentToIntersection"@) by { assert("ObjectExactCardinality"@.len() != "EquivalentToIntersection"@.len()); }
    assert("ObjectExactCardinality"@ != "SubClassOfExistential"@) by { assert("ObjectExactCardinality"@.len() != "SubClassOfExistential"@.len()); }
    assert("ObjectExactCardinality"@ != "DisjointClasses"@) by { assert("ObjectExactCardinality"@.len() != "DisjointClasses"@.len()); }
    assert("ObjectExactCardinality"@ != "ClassAssertion"@) by { assert("ObjectExactCardinality"@.len() != "ClassAssertion"@.len()); }
    assert("ObjectExactCardinality"@ != "PropertyRange"@) by { assert("ObjectExactCardinality"@.len() != "PropertyRange"@.len()); }
    assert("ObjectExactCardinality"@ != "PropertyDomain"@) by { assert("ObjectExactCardinality"@.len() != "PropertyDomain"@.len()); }
    assert("ObjectPropertyAssertion"@ != "SubClassOf"@) by { assert("ObjectPropertyAssertion"@.len() != "SubClassOf"@.len()); }
    assert("ObjectPropertyAssertion"@ != "EquivalentToIntersection"@) by { assert("ObjectPropertyAssertion"@.len() != "EquivalentToIntersection"@.len()); }
    assert("ObjectPropertyAssertion"@ != "SubClassOfExistential"@) by { assert("ObjectPropertyAssertion"@.len() != "SubClassOfExistential"@.len()); }
    assert("ObjectPropertyAssertion"@ != "DisjointClasses"@) by { assert("ObjectPropertyAssertion"@.len() != "DisjointClasses"@.len()); }
    assert("ObjectPropertyAssertion"@ != "ClassAssertion"@) by { assert("ObjectPropertyAssertion"@.len() != "ClassAssertion"@.len()); }
    assert("ObjectPropertyAssertion"@ != "PropertyRange"@) by { assert("ObjectPropertyAssertion"@.len() != "PropertyRange"@.len()); }
    assert("ObjectPropertyAssertion"@ != "PropertyDomain"@) by { assert("ObjectPropertyAssertion"@.len() != "PropertyDomain"@.len()); }
    assert("SameIndividual"@ != "SubClassOf"@) by { assert("SameIndividual"@.len() != "SubClassOf"@.len()); }
    assert("SameIndividual"@ != "EquivalentToIntersection"@) by { assert("SameIndividual"@.len() != "EquivalentToIntersection"@.len()); }
    assert("SameIndividual"@ != "SubClassOfExistential"@) by { assert("SameIndividual"@.len() != "SubClassOfExistential"@.len()); }
    assert("SameIndividual"@ != "DisjointClasses"@) by { assert("SameIndividual"@.len() != "DisjointClasses"@.len()); }
    assert("SameIndividual"@ != "ClassAssertion"@) by { assert("SameIndividual"@[0] != "ClassAssertion"@[0]); }
    assert("SameIndividual"@ != "PropertyRange"@) by { assert("SameIndividual"@.len() != "PropertyRange"@.len()); }
    assert("SameIndividual"@ != "PropertyDomain"@) by { assert("SameIndividual"@[0] != "PropertyDomain"@[0]); }
    assert("DifferentIndividuals"@ != "SubClassOf"@) by { assert("DifferentIndividuals"@.len() != "SubClassOf"@.len()); }
    assert("DifferentIndividuals"@ != "EquivalentToIntersection"@) by { assert("DifferentIndividuals"@.len() != "EquivalentToIntersection"@.len()); }
    assert("DifferentIndividuals"@ != "SubClassOfExistential"@) by { assert("DifferentIndividuals"@.len() != "SubClassOfExistential"@.len()); }
    assert("DifferentIndividuals"@ != "DisjointClasses"@) by { assert("DifferentIndividuals"@.len() != "DisjointClasses"@.len()); }
    assert("DifferentIndividuals"@ != "ClassAssertion"@) by { assert("DifferentIndividuals"@.len() != "ClassAssertion"@.len()); }
    assert("DifferentIndividuals"@ != "PropertyRange"@) by { assert("DifferentIndividuals"@.len() != "PropertyRange"@.len()); }
    assert("DifferentIndividuals"@ != "PropertyDomain"@) by { assert("DifferentIndividuals"@.len() != "PropertyDomain"@.len()); }
    assert((seq![a, b] + more).drop_first() =~= seq![b] + more);
    assert((seq![a, b] + more)[0] == a);
    assert((seq![a, b] + more).len() >= 2);
}

/// What goes wrong in a quoted-value list.
pub enum QuoteFault {
    Unquoted(char),
    Unterminated,
}

/// The index of the first `"` at or after `i`, else the end.
pub open spec fn close_quote(s: Seq<char>, i: int) -> int
    decreases s.len() - i,
{
    if i < 0 || i >= s.len() || s[i] == '"' {
        i
    } else {
        close_quote(s, i + 1)
    }
}

/// The whitespace-separated `"…"` values of `s` from `i` on (no escapes).
pub open spec fn quoted_from(s: Seq<char>, i: int) -> Result<Seq<Seq<char>>, QuoteFault>
    decreases s.len() - i,
{
    if i < 0 || i >= s.len() {
        Ok(Seq::empty())
    } else if is_ws(s[i]) {
        quoted_from(s, i + 1)
    } else if s[i] != '"' {
        Err(QuoteFault::Unquoted(s[i]))
    } else {
        let j = close_quote(s, i + 1);
        if j >= s.len() || j <= i {
            Err(QuoteFault::Unterminated)
        } else {
            match quoted_from(s, j + 1) {
                Ok(rest) => Ok(seq![s.subrange(i + 1, j)] + rest),
                Err(f) => Err(f),
            }
        }
    }
}

/// The quoted values of `raw`, trimmed.
pub open spec fn quoted_spec(raw: Seq<char>) -> Result<Seq<Seq<char>>, QuoteFault> {
    quoted_from(trim(raw), 0)
}

/// The detail of a quoted-value fault.
pub open spec fn quote_detail(f: QuoteFault) -> Seq<char> {
    match f {
        QuoteFault::Unquoted(c) => "values must be double-quoted; found "@ + char_debug(c),
        QuoteFault::Unterminated => "unterminated quoted value"@,
    }
}

/// `@Cardinality` from its four arguments.
pub open spec fn cardinality_spec(n: nat, construct: Seq<char>, args: Seq<Seq<char>>) -> Result<AnnotationV, RejectV> {
    if args.len() != 4 {
        Err(reject(n, construct, "@Cardinality <class> <prop> <min> <max|*> expects 4 arguments, got "@ + decimal(args.len())))
    } else {
        match parse_u32_spec(args[2]) {
            None => Err(reject(n, construct, "min bound "@ + str_debug(args[2]) + " is not a u32"@)),
            Some(min) => {
                let max: Result<Option<u32>, RejectV> = if args[3] == "*"@ {
                    Ok(None)
                } else {
                    match parse_u32_spec(args[3]) {
                        None => Err(reject(n, construct, "max bound "@ + str_debug(args[3]) + " is not a u32 or '*'"@)),
                        Some(m) => Ok(Some(m)),
                    }
                };
                match max {
                    Err(e) => Err(e),
                    Ok(Some(m)) => if min > m {
                        Err(reject(n, construct, "min "@ + decimal(min as nat) + " exceeds max "@ + decimal(m as nat)))
                    } else {
                        Ok(AnnotationV::Cardinality(args[0], args[1], min, Some(m)))
                    },
                    Ok(None) => Ok(AnnotationV::Cardinality(args[0], args[1], min, None)),
                }
            },
        }
    }
}

/// The admission answer on an annotation line, `rest` being what follows the `@`.
pub open spec fn annotation_spec(n: nat, rest: Seq<char>) -> Result<AnnotationV, RejectV> {
    let (head, tail) = split_ws(rest);
    let construct = "@"@ + head;
    let args = args_of(tail);
    if head == "Attribute"@ {
        if args.len() != 3 {
            Err(reject(n, construct, "@Attribute <class> <prop> <xsd> expects 3 arguments, got "@ + decimal(args.len())))
        } else {
            Ok(AnnotationV::Attribute(args[0], args[1], args[2]))
        }
    } else if head == "Cardinality"@ {
        cardinality_spec(n, construct, args)
    } else if head == "Unique"@ {
        if args.len() != 1 {
            Err(reject(n, construct, "@Unique <prop> expects 1 argument, got "@ + decimal(args.len())))
        } else {
            Ok(AnnotationV::Unique(args[0]))
        }
    } else if head == "Key"@ {
        if args.len() < 2 {
            Err(reject(n, construct, "@Key <class> <prop> [<prop>…] expects ≥2 arguments, got "@ + decimal(args.len())))
        } else {
            Ok(AnnotationV::Key(args[0], args.drop_first()))
        }
    } else if head == "Enum"@ {
        let t = trim(tail);
        if !has_ws(t) {
            Err(reject(n, construct, "@Enum <prop> \"v\" … expects a prop then ≥1 quoted value"@))
        } else {
            match quoted_spec(split_ws(t).1) {
                Err(f) => Err(reject(n, construct, quote_detail(f))),
                Ok(vals) => if vals.len() == 0 {
                    Err(reject(n, construct, "@Enum expects ≥1 quoted value"@))
                } else {
                    Ok(AnnotationV::Enum(strip_angles_spec(split_ws(t).0), vals))
                },
            }
        }
    } else if head == "Label"@ {
        let t = trim(tail);
        if !has_ws(t) {
            Err(reject(n, construct, "@Label <entity> \"text\" expects an entity then one quoted string"@))
        } else {
            match quoted_spec(split_ws(t).1) {
                Err(f) => Err(reject(n, construct, quote_detail(f))),
                Ok(vals) => if vals.len() != 1 {
                    Err(reject(n, construct, "@Label expects exactly one quoted string, got "@ + decimal(vals.len())))
                } else {
                    Ok(AnnotationV::Label(strip_angles_spec(split_ws(t).0), vals[0]))
                },
            }
        }
    } else if head == "Relation"@ {
        if args.len() != 3 {
            Err(reject(n, construct, "@Relation <class> <prop> <target> expects 3 arguments, got "@ + decimal(args.len())))
        } else {
            Ok(AnnotationV::Relation(args[0], args[1], args[2]))
        }
    } else {
        Err(reject(n, construct, "unknown annotation form — the tier admits only @Attribute/@Cardinality/@Enum/@Label/@Relation"@))
    }
}

/// The admission answer on line `n` with text `s`: `Ok(None)` for a blank or comment line.
pub open spec fn line_spec(n: nat, s: Seq<char>) -> Result<Option<LineV>, RejectV> {
    let body = content(s);
    if body.len() == 0 {
        Ok(None)
    } else if body[0] == '@' {
        match annotation_spec(n, body.drop_first()) {
            Ok(a) => Ok(Some(LineV::Annotation(a))),
            Err(e) => Err(e),
        }
    } else {
        let k = word_end(body, 0);
        axiom_spec(n, body.take(k), args_of(body.skip(k)))
    }
}

/// The view of a line result.
pub open spec fn line_result(r: Result<Option<Line>, OutOfFragment>) -> Result<Option<LineV>, RejectV> {
    match r {
        Ok(Some(l)) => Ok(Some(l@)),
        Ok(None) => Ok(None),
        Err(e) => Err(e@),
    }
}

/// The arity rejection's detail.
fn arity_msg(form: &str, want: u64, got: usize) -> (r: String)
    ensures
        r@ == arity_detail(form@, want as nat, got as nat),
{
    let s = cat(String::from_str(form), " expects ");
    let s = cat(s, fmt_u64(want).as_str());
    let s = cat(s, " argument(s), got ");
    cat(s, fmt_u64(got as u64).as_str())
}

/// `"{prefix}{n}"`.
fn with_count(prefix: &str, n: usize) -> (r: String)
    ensures
        r@ == prefix@ + decimal(n as nat),
{
    cat(String::from_str(prefix), fmt_u64(n as u64).as_str())
}

/// Where the comment of the line starts (its end when it has none).
fn comment_cut(v: &Vec<char>) -> (c: usize)
    ensures
        c == comment_from(v@, 0),
{
    let mut i: usize = 0;
    while i < v.len()
        invariant
            i <= v@.len(),
            comment_from(v@, 0) == comment_from(v@, i as int),
        decreases v@.len() - i,
    {
        if v[i] == '#' && (i == 0 || is_whitespace(v[i - 1])) {
            return i;
        }
        i += 1;
    }
    i
}

/// The end of the word of `v[a..b]` starting at `a`.
fn scan_word(v: &Vec<char>, a: usize, b: usize) -> (k: usize)
    requires
        a <= b <= v@.len(),
    ensures
        a <= k <= b,
        k - a == word_end(v@.subrange(a as int, b as int), 0),
{
    let ghost s = v@.subrange(a as int, b as int);
    let mut k = a;
    while k < b && !is_whitespace(v[k])
        invariant
            a <= k <= b <= v@.len(),
            forall|j: int| a <= j < k ==> !is_ws(#[trigger] v@[j]),
        decreases b - k,
    {
        k += 1;
    }
    proof {
        assert forall|j: int| 0 <= j < k - a implies !is_ws(#[trigger] s[j]) by {
            assert(s[j] == v@[a + j]);
        }
        if k < b {
            assert(s[k - a] == v@[k as int]);
        }
        crate::text::lemma_word_end_at(s, 0, k - a);
    }
    k
}

/// `close_quote` is the first `"` (or the end) at or after `i`.
pub(crate) proof fn lemma_close_quote_at(s: Seq<char>, i: int, j: int)
    requires
        0 <= i <= j <= s.len(),
        forall|m: int| i <= m < j ==> #[trigger] s[m] != '"',
        j == s.len() || s[j] == '"',
    ensures
        close_quote(s, i) == j,
    decreases j - i,
{
    if i < j {
        lemma_close_quote_at(s, i + 1, j);
    }
}

/// `acc` followed by the values of `r`, or `r`'s fault.
pub open spec fn after(acc: Seq<Seq<char>>, r: Result<Seq<Seq<char>>, QuoteFault>) -> Result<Seq<Seq<char>>, QuoteFault> {
    match r {
        Ok(rest) => Ok(acc + rest),
        Err(f) => Err(f),
    }
}

/// The quoted values of `v[a..b]`; a fault is rejected as `construct` on line `line_no`.
fn quoted_values(line_no: usize, construct: &String, v: &Vec<char>, a: usize, b: usize) -> (r: Result<Vec<String>, OutOfFragment>)
    requires
        a <= b <= v@.len(),
    ensures
        match quoted_spec(v@.subrange(a as int, b as int)) {
            Ok(vals) => r matches Ok(out) && names_view(out@) == vals,
            Err(f) => r matches Err(e) && e@ == reject(line_no as nat, construct@, quote_detail(f)),
        },
{
    let (c, d) = trim_range(v, a, b);
    let ghost t = v@.subrange(c as int, d as int);
    let mut vals: Vec<String> = Vec::new();
    let mut i = c;
    proof {
        assert(after(names_view(vals@), quoted_from(t, 0)) =~= quoted_from(t, 0)) by {
            match quoted_from(t, 0) {
                Ok(rest) => { assert(names_view(vals@) + rest =~= rest); },
                Err(f) => {},
            }
        }
    }
    while i < d
        invariant
            c <= i <= d <= v@.len(),
            t == v@.subrange(c as int, d as int),
            quoted_spec(v@.subrange(a as int, b as int)) == quoted_from(t, 0),
            quoted_from(t, 0) == after(names_view(vals@), quoted_from(t, i - c)),
        decreases d - i,
    {
        let ghost ii = i - c;
        assert(t[ii] == v@[i as int]);
        if is_whitespace(v[i]) {
            i += 1;
        } else if v[i] != '"' {
            let found = debug_char(v[i]);
            let detail = cat(String::from_str("values must be double-quoted; found "), found.as_str());
            return Err(OutOfFragment { line: line_no, construct: construct.clone(), detail });
        } else {
            let mut j = i + 1;
            while j < d && v[j] != '"'
                invariant
                    i < j <= d <= v@.len(),
                    forall|m: int| i < m < j ==> #[trigger] v@[m] != '"',
                decreases d - j,
            {
                j += 1;
            }
            proof {
                assert forall|m: int| ii + 1 <= m < j - c implies #[trigger] t[m] != '"' by {
                    assert(t[m] == v@[c + m]);
                }
                if j < d {
                    assert(t[j - c] == v@[j as int]);
                }
                lemma_close_quote_at(t, ii + 1, j - c);
            }
            if j >= d {
                return Err(OutOfFragment { line: line_no, construct: construct.clone(), detail: String::from_str("unterminated quoted value") });
            }
            let val = string_of(v, i + 1, j);
            let ghost before = names_view(vals@);
            proof {
                assert(val@ =~= t.subrange(ii + 1, j - c));
            }
            vals.push(val);
            proof {
                assert(names_view(vals@) =~= before.push(t.subrange(ii + 1, j - c)));
                match quoted_from(t, j - c + 1) {
                    Ok(rest) => {
                        assert(before + (seq![t.subrange(ii + 1, j - c)] + rest) =~= names_view(vals@) + rest);
                    },
                    Err(f) => {},
                }
            }
            i = j + 1;
        }
    }
    proof {
        assert(quoted_from(t, i - c) == Ok::<Seq<Seq<char>>, QuoteFault>(Seq::empty()));
        assert(names_view(vals@) + Seq::<Seq<char>>::empty() =~= names_view(vals@));
    }
    Ok(vals)
}

/// The view of an annotation result.
pub open spec fn annotation_result(r: Result<Annotation, OutOfFragment>) -> Result<AnnotationV, RejectV> {
    match r {
        Ok(a) => Ok(a@),
        Err(e) => Err(e@),
    }
}

/// All but the first of `v`.
fn rest_of(v: &Vec<String>) -> (r: Vec<String>)
    requires
        v@.len() >= 1,
    ensures
        names_view(r@) == names_view(v@).drop_first(),
{
    let mut r: Vec<String> = Vec::new();
    let mut i: usize = 1;
    while i < v.len()
        invariant
            1 <= i <= v@.len(),
            names_view(r@) == names_view(v@).subrange(1, i as int),
        decreases v@.len() - i,
    {
        let ghost before = names_view(r@);
        let x = v[i].clone();
        r.push(x);
        assert(names_view(r@) =~= before.push(v@[i as int]@));
        i += 1;
        assert(names_view(r@) =~= names_view(v@).subrange(1, i as int));
    }
    assert(names_view(v@).subrange(1, i as int) =~= names_view(v@).drop_first());
    r
}

/// `@Cardinality` from its arguments.
fn parse_cardinality(line_no: usize, construct: String, args: Vec<String>) -> (r: Result<Annotation, OutOfFragment>)
    ensures
        annotation_result(r) == cardinality_spec(line_no as nat, construct@, names_view(args@)),
{
    if args.len() != 4 {
        let detail = with_count("@Cardinality <class> <prop> <min> <max|*> expects 4 arguments, got ", args.len());
        return Err(OutOfFragment { line: line_no, construct, detail });
    }
    let min = match parse_u32(&args[2]) {
        Some(m) => m,
        None => {
            let detail = cat(cat(String::from_str("min bound "), debug_str(args[2].as_str()).as_str()), " is not a u32");
            return Err(OutOfFragment { line: line_no, construct, detail });
        },
    };
    let max = if eq_str(args[3].as_str(), "*") {
        None
    } else {
        match parse_u32(&args[3]) {
            Some(m) => Some(m),
            None => {
                let detail = cat(cat(String::from_str("max bound "), debug_str(args[3].as_str()).as_str()), " is not a u32 or '*'");
                return Err(OutOfFragment { line: line_no, construct, detail });
            },
        }
    };
    if let Some(m) = max {
        if min > m {
            let detail = cat(cat(cat(String::from_str("min "), fmt_u64(min as u64).as_str()), " exceeds max "), fmt_u64(m as u64).as_str());
            return Err(OutOfFragment { line: line_no, construct, detail });
        }
    }
    Ok(Annotation::Cardinality { class: args[0].clone(), prop: args[1].clone(), min, max })
}

/// `@Enum` or `@Label` (per `label`): a name, then quoted values in `v[ts..b]`.
fn parse_valued(line_no: usize, construct: String, label: bool, v: &Vec<char>, ts: usize, b: usize) -> (r: Result<Annotation, OutOfFragment>)
    requires
        ts <= b <= v@.len(),
    ensures
        ({
            let n = line_no as nat;
            let t = trim(v@.subrange(ts as int, b as int));
            annotation_result(r) == if !has_ws(t) {
                Err(reject(n, construct@, if label {
                    "@Label <entity> \"text\" expects an entity then one quoted string"@
                } else {
                    "@Enum <prop> \"v\" … expects a prop then ≥1 quoted value"@
                }))
            } else {
                match quoted_spec(split_ws(t).1) {
                    Err(f) => Err(reject(n, construct@, quote_detail(f))),
                    Ok(vals) => if label {
                        if vals.len() != 1 {
                            Err(reject(n, construct@, "@Label expects exactly one quoted string, got "@ + decimal(vals.len())))
                        } else {
                            Ok(AnnotationV::Label(strip_angles_spec(split_ws(t).0), vals[0]))
                        }
                    } else {
                        if vals.len() == 0 {
                            Err(reject(n, construct@, "@Enum expects ≥1 quoted value"@))
                        } else {
                            Ok(AnnotationV::Enum(strip_angles_spec(split_ws(t).0), vals))
                        }
                    },
                }
            }
        }),
{
    let (c, d) = trim_range(v, ts, b);
    let ghost t = v@.subrange(c as int, d as int);
    let w = scan_word(v, c, d);
    if w >= d {
        let detail = if label {
            String::from_str("@Label <entity> \"text\" expects an entity then one quoted string")
        } else {
            String::from_str("@Enum <prop> \"v\" … expects a prop then ≥1 quoted value")
        };
        return Err(OutOfFragment { line: line_no, construct, detail });
    }
    proof {
        assert(split_ws(t).0 =~= v@.subrange(c as int, w as int));
        assert(split_ws(t).1 =~= v@.subrange(w + 1, d as int));
    }
    let name = strip_angles(v, c, w);
    let mut vals = match quoted_values(line_no, &construct, v, w + 1, d) {
        Ok(vals) => vals,
        Err(e) => return Err(e),
    };
    if label {
        if vals.len() != 1 {
            let detail = with_count("@Label expects exactly one quoted string, got ", vals.len());
            return Err(OutOfFragment { line: line_no, construct, detail });
        }
        let text = vals.remove(0);
        Ok(Annotation::Label { entity: name, text })
    } else {
        if vals.len() == 0 {
            return Err(OutOfFragment { line: line_no, construct, detail: String::from_str("@Enum expects ≥1 quoted value") });
        }
        Ok(Annotation::Enum { prop: name, values: vals })
    }
}

/// Parse one `@`-sigiled line, `v[a..b]` being what follows the `@`. Strict per form: an
/// unknown or malformed form is out of fragment.
fn parse_annotation(line_no: usize, v: &Vec<char>, a: usize, b: usize) -> (r: Result<Annotation, OutOfFragment>)
    requires
        a <= b <= v@.len(),
    ensures
        annotation_result(r) == annotation_spec(line_no as nat, v@.subrange(a as int, b as int)),
{
    let ghost rest = v@.subrange(a as int, b as int);
    let w = scan_word(v, a, b);
    let head = string_of(v, a, w);
    let ts = if w < b { w + 1 } else { b };
    proof {
        assert(split_ws(rest).0 =~= head@);
        assert(split_ws(rest).1 =~= v@.subrange(ts as int, b as int));
    }
    let construct = cat(String::from_str("@"), head.as_str());
    let n = line_no;
    if eq_str(head.as_str(), "Attribute") {
        let args = split_tokens(v, ts, b);
        if args.len() != 3 {
            return Err(OutOfFragment { line: n, construct, detail: with_count("@Attribute <class> <prop> <xsd> expects 3 arguments, got ", args.len()) });
        }
        Ok(Annotation::Attribute { class: args[0].clone(), prop: args[1].clone(), xsd: args[2].clone() })
    } else if eq_str(head.as_str(), "Cardinality") {
        let args = split_tokens(v, ts, b);
        parse_cardinality(n, construct, args)
    } else if eq_str(head.as_str(), "Unique") {
        let args = split_tokens(v, ts, b);
        if args.len() != 1 {
            return Err(OutOfFragment { line: n, construct, detail: with_count("@Unique <prop> expects 1 argument, got ", args.len()) });
        }
        Ok(Annotation::Unique { prop: args[0].clone() })
    } else if eq_str(head.as_str(), "Key") {
        let args = split_tokens(v, ts, b);
        if args.len() < 2 {
            return Err(OutOfFragment { line: n, construct, detail: with_count("@Key <class> <prop> [<prop>…] expects ≥2 arguments, got ", args.len()) });
        }
        Ok(Annotation::Key { class: args[0].clone(), props: rest_of(&args) })
    } else if eq_str(head.as_str(), "Enum") {
        parse_valued(n, construct, false, v, ts, b)
    } else if eq_str(head.as_str(), "Label") {
        parse_valued(n, construct, true, v, ts, b)
    } else if eq_str(head.as_str(), "Relation") {
        let args = split_tokens(v, ts, b);
        if args.len() != 3 {
            return Err(OutOfFragment { line: n, construct, detail: with_count("@Relation <class> <prop> <target> expects 3 arguments, got ", args.len()) });
        }
        Ok(Annotation::Relation { class: args[0].clone(), prop: args[1].clone(), target: args[2].clone() })
    } else {
        Err(OutOfFragment {
            line: n,
            construct,
            detail: String::from_str("unknown annotation form — the tier admits only @Attribute/@Cardinality/@Enum/@Label/@Relation"),
        })
    }
}

/// Why a recognized construct is refused, by name.
fn refused(head: &String) -> (r: Option<String>)
    ensures
        match refused_reason(head@) {
            Some(why) => r matches Some(s) && s@ == why,
            None => r is None,
        },
{
    let h = head.as_str();
    if eq_str(h, "InverseObjectProperties") {
        Some(String::from_str("inverse roles force pairwise blocking"))
    } else if eq_str(h, "TransitiveObjectProperty") {
        Some(String::from_str("transitivity expands concept closure"))
    } else if eq_str(h, "ObjectHasValue") {
        Some(String::from_str("nominal (hasValue)"))
    } else if eq_str(h, "ObjectOneOf") {
        Some(String::from_str("nominal (oneOf)"))
    } else if eq_str(h, "ObjectUnionOf") {
        Some(String::from_str("covering disjunctions fan out the label space"))
    } else if eq_str(h, "ObjectComplementOf") {
        Some(String::from_str("general negation is outside the Horn fragment"))
    } else if eq_str(h, "ObjectMinCardinality") {
        Some(String::from_str("cardinality clausification is O(n²)"))
    } else if eq_str(h, "ObjectMaxCardinality") {
        Some(String::from_str("cardinality clausification is O(n²)"))
    } else if eq_str(h, "ObjectExactCardinality") {
        Some(String::from_str("cardinality clausification is O(n²)"))
    } else if eq_str(h, "ObjectPropertyAssertion") {
        Some(String::from_str("role assertions void the Types-only ABox decomposition"))
    } else if eq_str(h, "SameIndividual") {
        Some(String::from_str("individual equality voids the disjoint-union amalgamation"))
    } else if eq_str(h, "DifferentIndividuals") {
        Some(String::from_str("individual inequality is out of the v0 ABox shape"))
    } else {
        None
    }
}

/// The arity rejection of `head` unless `args` has `want` entries.
fn arity(line_no: usize, head: &String, form: &str, args: &Vec<String>, want: usize) -> (r: Option<OutOfFragment>)
    ensures
        args@.len() == want ==> r is None,
        args@.len() != want ==> (r matches Some(e) && e@ == reject(line_no as nat, head@, arity_detail(form@, want as nat, args@.len()))),
{
    if args.len() == want {
        None
    } else {
        Some(OutOfFragment { line: line_no, construct: head.clone(), detail: arity_msg(form, want as u64, args.len()) })
    }
}

/// An axiom line with head token `head` and arguments `args`.
fn axiom_line(line_no: usize, head: String, args: Vec<String>) -> (r: Result<Option<Line>, OutOfFragment>)
    ensures
        line_result(r) == axiom_spec(line_no as nat, head@, names_view(args@)),
{
    let n = line_no;
    let h = head.as_str();
    if eq_str(h, "SubClassOf") {
        if let Some(e) = arity(n, &head, "SubClassOf <sub> <sup>", &args, 2) { return Err(e); }
        Ok(Some(Line::Axiom(Axiom::SubClassOf { sub: args[0].clone(), sup: args[1].clone() })))
    } else if eq_str(h, "EquivalentToIntersection") {
        if args.len() < 2 {
            return Err(OutOfFragment { line: n, construct: head.clone(), detail: String::from_str("expects <class> then ≥1 conjunct") });
        }
        Ok(Some(Line::Axiom(Axiom::EquivalentToIntersection { class: args[0].clone(), parts: rest_of(&args) })))
    } else if eq_str(h, "SubClassOfExistential") {
        if let Some(e) = arity(n, &head, "SubClassOfExistential <sub> <role> <filler>", &args, 3) { return Err(e); }
        Ok(Some(Line::Axiom(Axiom::SubClassOfExistential { sub: args[0].clone(), role: args[1].clone(), filler: args[2].clone() })))
    } else if eq_str(h, "DisjointClasses") {
        if let Some(e) = arity(n, &head, "DisjointClasses <a> <b>", &args, 2) { return Err(e); }
        Ok(Some(Line::Axiom(Axiom::DisjointClasses { a: args[0].clone(), b: args[1].clone() })))
    } else if eq_str(h, "ClassAssertion") {
        if let Some(e) = arity(n, &head, "ClassAssertion <class> <individual>", &args, 2) { return Err(e); }
        Ok(Some(Line::Axiom(Axiom::ClassAssertion { class: args[0].clone(), individual: args[1].clone() })))
    } else if eq_str(h, "PropertyRange") {
        if let Some(e) = arity(n, &head, "PropertyRange <role> <class>", &args, 2) { return Err(e); }
        Ok(Some(Line::Axiom(Axiom::PropertyRange { role: args[0].clone(), range: args[1].clone() })))
    } else if eq_str(h, "PropertyDomain") {
        if let Some(e) = arity(n, &head, "PropertyDomain <role> <class>", &args, 2) { return Err(e); }
        Ok(Some(Line::Axiom(Axiom::PropertyDomain { role: args[0].clone(), domain: args[1].clone() })))
    } else {
        let detail = match refused(&head) {
            Some(why) => why,
            None => String::from_str("unknown construct"),
        };
        Err(OutOfFragment { line: n, construct: head, detail })
    }
}

/// Parse one KFS line through admission; `Ok(None)` is a blank or comment line.
///
/// A comment starts at a `#` at line start or preceded by whitespace, never inside a token:
/// IRIs (`<https://…#LocalName>`) carry `#` as payload.
pub fn parse_line(line_no: usize, raw: &str) -> (r: Result<Option<Line>, OutOfFragment>)
    ensures
        line_result(r) == line_spec(line_no as nat, raw@),
{
    let v = chars_of(raw);
    let cut = comment_cut(&v);
    proof {
        crate::fragment::lemma_comment_bound(v@, 0);
        assert(v@.subrange(0, cut as int) =~= v@.take(cut as int));
    }
    let (a, b) = trim_range(&v, 0, cut);
    let ghost body = v@.subrange(a as int, b as int);
    if a == b {
        return Ok(None);
    }
    assert(body[0] == v@[a as int]);
    if v[a] == '@' {
        assert(body.drop_first() =~= v@.subrange(a + 1, b as int));
        return match parse_annotation(line_no, &v, a + 1, b) {
            Ok(x) => Ok(Some(Line::Annotation(x))),
            Err(e) => Err(e),
        };
    }
    let k = scan_word(&v, a, b);
    let head = string_of(&v, a, k);
    let args = split_tokens(&v, k, b);
    proof {
        assert(body.take(k - a) =~= head@);
        assert(body.skip(k - a) =~= v@.subrange(k as int, b as int));
    }
    axiom_line(line_no, head, args)
}

/// The comment cut is within the line.
proof fn lemma_comment_bound(s: Seq<char>, i: int)
    requires
        0 <= i <= s.len(),
    ensures
        i <= comment_from(s, i) <= s.len(),
    decreases s.len() - i,
{
    if i < s.len() && !comment_start(s, i) {
        lemma_comment_bound(s, i + 1);
    }
}

/// The index of the first newline at or after `i`, else the end.
pub open spec fn line_end(t: Seq<char>, i: int) -> int
    decreases t.len() - i,
{
    if i < 0 || i >= t.len() || t[i] == '\n' {
        i
    } else {
        line_end(t, i + 1)
    }
}

/// The line `t[i..j]`, without the `\r` of a `\r\n` ending (`str::lines`).
pub open spec fn line_text(t: Seq<char>, i: int, j: int) -> Seq<char> {
    let p = t.subrange(i, j);
    if j < t.len() && p.len() > 0 && p.last() == '\r' {
        p.drop_last()
    } else {
        p
    }
}

/// Both tiers of the document from index `i` on, its first line being line `n`; the first
/// out-of-fragment line rejects the document.
pub open spec fn doc_from(t: Seq<char>, i: int, n: nat) -> Result<(Seq<AxiomV>, Seq<AnnotationV>), RejectV>
    decreases t.len() - i,
{
    if i < 0 || i >= t.len() {
        Ok((Seq::empty(), Seq::empty()))
    } else {
        let j = line_end(t, i);
        if j < i || j > t.len() {
            Ok((Seq::empty(), Seq::empty()))
        } else {
            let rest = if j >= t.len() { Ok((Seq::empty(), Seq::empty())) } else { doc_from(t, j + 1, n + 1) };
            match line_spec(n, line_text(t, i, j)) {
                Err(e) => Err(e),
                Ok(x) => match rest {
                    Err(e) => Err(e),
                    Ok((axs, ans)) => Ok(match x {
                        None => (axs, ans),
                        Some(LineV::Axiom(a)) => (seq![a] + axs, ans),
                        Some(LineV::Annotation(an)) => (axs, seq![an] + ans),
                    }),
                },
            }
        }
    }
}

/// The admission answer on a whole document.
pub open spec fn doc_spec(t: Seq<char>) -> Result<(Seq<AxiomV>, Seq<AnnotationV>), RejectV> {
    doc_from(t, 0, 1)
}

/// `(xs, ys)` followed by the tiers of `r`, or `r`'s rejection.
pub open spec fn doc_after(xs: Seq<AxiomV>, ys: Seq<AnnotationV>, r: Result<(Seq<AxiomV>, Seq<AnnotationV>), RejectV>) -> Result<(Seq<AxiomV>, Seq<AnnotationV>), RejectV> {
    match r {
        Ok((a, b)) => Ok((xs + a, ys + b)),
        Err(e) => Err(e),
    }
}

/// `line_end` is the first newline (or the end) at or after `i`.
pub(crate) proof fn lemma_line_end_at(t: Seq<char>, i: int, j: int)
    requires
        0 <= i <= j <= t.len(),
        forall|m: int| i <= m < j ==> #[trigger] t[m] != '\n',
        j == t.len() || t[j] == '\n',
    ensures
        line_end(t, i) == j,
    decreases j - i,
{
    if i < j {
        lemma_line_end_at(t, i + 1, j);
    }
}

/// Parse a whole KFS document into both tiers; the first out-of-fragment line aborts.
pub fn parse_kfs_tiered(text: &str) -> (r: Result<(Vec<Axiom>, Vec<Annotation>), OutOfFragment>)
    ensures
        match doc_spec(text@) {
            Ok((axs, ans)) => r matches Ok((xs, ys)) && axioms_view(xs@) == axs && annotations_view(ys@) == ans,
            Err(e) => r matches Err(x) && x@ == e,
        },
{
    let v = chars_of(text);
    let ghost t = v@;
    let mut axioms: Vec<Axiom> = Vec::new();
    let mut annotations: Vec<Annotation> = Vec::new();
    let mut i: usize = 0;
    let mut k: usize = 0;
    proof {
        assert(doc_after(axioms_view(axioms@), annotations_view(annotations@), doc_from(t, 0, 1)) =~= doc_from(t, 0, 1)) by {
            match doc_from(t, 0, 1) {
                Ok((a, b)) => {
                    assert(axioms_view(axioms@) + a =~= a);
                    assert(annotations_view(annotations@) + b =~= b);
                },
                Err(e) => {},
            }
        }
    }
    while i < v.len()
        invariant
            t == v@,
            t == text@,
            k <= i <= v@.len(),
            doc_from(t, 0, 1) == doc_after(axioms_view(axioms@), annotations_view(annotations@), doc_from(t, i as int, (k + 1) as nat)),
        decreases v@.len() - i,
    {
        let n = k + 1;
        let mut j = i;
        while j < v.len() && v[j] != '\n'
            invariant
                i <= j <= v@.len(),
                forall|m: int| i <= m < j ==> #[trigger] v@[m] != '\n',
            decreases v@.len() - j,
        {
            j += 1;
        }
        proof { lemma_line_end_at(t, i as int, j as int); }
        let mut e = j;
        if j < v.len() && e > i && v[e - 1] == '\r' {
            e -= 1;
        }
        let line = string_of(&v, i, e);
        proof {
            assert(line@ =~= line_text(t, i as int, j as int));
        }
        let ghost xs = axioms_view(axioms@);
        let ghost ys = annotations_view(annotations@);
        let ghost rest = if j >= t.len() {
            Ok::<(Seq<AxiomV>, Seq<AnnotationV>), RejectV>((Seq::empty(), Seq::empty()))
        } else {
            doc_from(t, j + 1, (n + 1) as nat)
        };
        match parse_line(n, line.as_str()) {
            Err(err) => return Err(err),
            Ok(None) => {},
            Ok(Some(Line::Axiom(ax))) => {
                axioms.push(ax);
                proof { assert(axioms_view(axioms@) =~= xs.push(ax@)); }
            },
            Ok(Some(Line::Annotation(an))) => {
                annotations.push(an);
                proof { assert(annotations_view(annotations@) =~= ys.push(an@)); }
            },
        }
        proof {
            assert(doc_from(t, 0, 1) == doc_after(axioms_view(axioms@), annotations_view(annotations@), rest)) by {
                match rest {
                    Ok((a, b)) => {
                        match line_spec(n as nat, line_text(t, i as int, j as int)) {
                            Ok(Some(LineV::Axiom(ax))) => {
                                assert(xs + (seq![ax] + a) =~= xs.push(ax) + a);
                            },
                            Ok(Some(LineV::Annotation(an))) => {
                                assert(ys + (seq![an] + b) =~= ys.push(an) + b);
                            },
                            _ => {},
                        }
                    },
                    Err(_) => {},
                }
            }
        }
        if j >= v.len() {
            proof {
                assert(axioms_view(axioms@) + Seq::<AxiomV>::empty() =~= axioms_view(axioms@));
                assert(annotations_view(annotations@) + Seq::<AnnotationV>::empty() =~= annotations_view(annotations@));
            }
            return Ok((axioms, annotations));
        }
        i = j + 1;
        k = n;
    }
    proof {
        assert(axioms_view(axioms@) + Seq::<AxiomV>::empty() =~= axioms_view(axioms@));
        assert(annotations_view(annotations@) + Seq::<AnnotationV>::empty() =~= annotations_view(annotations@));
    }
    Ok((axioms, annotations))
}

/// The reasoning view of a document: annotation lines route past it; unknown constructs
/// still refuse.
pub fn parse_kfs(text: &str) -> (r: Result<Vec<Axiom>, OutOfFragment>)
    ensures
        match doc_spec(text@) {
            Ok((axs, _)) => r matches Ok(xs) && axioms_view(xs@) == axs,
            Err(e) => r matches Err(x) && x@ == e,
        },
{
    match parse_kfs_tiered(text) {
        Ok((axioms, _)) => Ok(axioms),
        Err(e) => Err(e),
    }
}


/// How a rejection reads.
pub open spec fn reject_text(e: RejectV) -> Seq<char> {
    "out of fragment at line "@ + crate::text::decimal(e.line) + ": "@ + e.construct + " — "@ + e.detail
        + " (kvasir refuses; route to the general oracle)"@
}

impl OutOfFragment {
    /// The rejection as text: `out of fragment at line N: construct — detail (…)`.
    pub fn to_text(&self) -> (r: String)
        ensures
            r@ == reject_text(self@),
    {
        let s = cat(String::from_str("out of fragment at line "), fmt_u64(self.line as u64).as_str());
        let s = cat(cat(cat(cat(s, ": "), self.construct.as_str()), " — "), self.detail.as_str());
        cat(s, " (kvasir refuses; route to the general oracle)")
    }
}

} // verus!
