//! Verdicts and the proof DAG.
//!
//! The engine is a sound refuter, not a certifier: `Refuted` carries a proof that the kernel
//! re-derives step by step; `NoClashFound` is explicitly not a consistency certificate.
use vstd::prelude::*;

verus! {

/// An entity name (IRI or local name); admission does not interpret it.
pub type Name = String;

/// The inference rules a proof step may cite.
#[derive(Debug, Clone, Copy, PartialEq, Eq)]
pub enum Rule {
    /// An input axiom cited verbatim.
    Input,
    /// `EquivalentToIntersection(c, [.. a ..])` gives `c ⊑ a` (the told direction).
    REq,
    /// `c ⊑ d`, `d ⊑ e` gives `c ⊑ e`.
    RTrans,
    /// `c ⊑ a`, `c ⊑ b`, `Disjoint(a, b)` gives `Unsat(c)`.
    RDisj,
    /// `i : c`, `Unsat(c)` refutes the knowledge base via `i`.
    RInst,
    /// `c ⊑ ∃r.d`, `domain(r) ⊑ e` gives `c ⊑ e`.
    RDomain,
    /// `d ⊓ e ⊑ ⊥`, from a disjointness or from `Unsat` of either side.
    RConjUnsat,
    /// `c ⊑ ∃r.d`, `Unsat(d)` gives `Unsat(c)`.
    RExistBot,
    /// `c ⊑ ∃r.d`, `range(r) ⊑ e`, `PairUnsat(d, e)` gives `Unsat(c)`.
    RExistRangeBot,
    /// `c ⊑ d`, `Unsat(d)` gives `Unsat(c)`.
    RSubUnsat,
}

/// The derived-fact language.
#[derive(Debug, Clone, PartialEq, Eq)]
pub enum Fact {
    Sub { sub: Name, sup: Name },
    Disjoint { a: Name, b: Name },
    Assert { class: Name, individual: Name },
    Unsat { class: Name },
    KbRefuted { individual: Name, class: Name },
    /// `sub ⊑ ∃role.filler` (input only).
    Ex { sub: Name, role: Name, filler: Name },
    /// `range(role) ⊑ range` (input only).
    Range { role: Name, range: Name },
    /// `domain(role) ⊑ domain` (input only).
    Domain { role: Name, domain: Name },
    /// `a ⊓ b ⊑ ⊥`.
    PairUnsat { a: Name, b: Name },
}

/// A fact with its names seen as character sequences.
pub enum FactV {
    Sub(Seq<char>, Seq<char>),
    Disjoint(Seq<char>, Seq<char>),
    Assert(Seq<char>, Seq<char>),
    Unsat(Seq<char>),
    KbRefuted(Seq<char>, Seq<char>),
    Ex(Seq<char>, Seq<char>, Seq<char>),
    Range(Seq<char>, Seq<char>),
    Domain(Seq<char>, Seq<char>),
    PairUnsat(Seq<char>, Seq<char>),
}

impl View for Fact {
    type V = FactV;

    /// `Assert` is viewed as (class, individual); `KbRefuted` as (individual, class).
    open spec fn view(&self) -> FactV {
        match self {
            Fact::Sub { sub, sup } => FactV::Sub(sub@, sup@),
            Fact::Disjoint { a, b } => FactV::Disjoint(a@, b@),
            Fact::Assert { class, individual } => FactV::Assert(class@, individual@),
            Fact::Unsat { class } => FactV::Unsat(class@),
            Fact::KbRefuted { individual, class } => FactV::KbRefuted(individual@, class@),
            Fact::Ex { sub, role, filler } => FactV::Ex(sub@, role@, filler@),
            Fact::Range { role, range } => FactV::Range(role@, range@),
            Fact::Domain { role, domain } => FactV::Domain(role@, domain@),
            Fact::PairUnsat { a, b } => FactV::PairUnsat(a@, b@),
        }
    }
}

/// One derivation step. `premises` index earlier steps; `axiom` indexes the input axioms.
#[derive(Debug, Clone, PartialEq, Eq)]
pub struct Step {
    pub id: usize,
    pub rule: Rule,
    pub premises: Vec<usize>,
    pub axiom_index: Option<usize>,
    pub conclusion: Fact,
}

/// A proof DAG: steps in topological order (every premise precedes its step).
#[derive(Debug, Clone, Default, PartialEq, Eq)]
pub struct Proof {
    pub steps: Vec<Step>,
}

/// The verdict. There is no `Consistent` variant, by construction.
#[derive(Debug, Clone)]
pub enum Verdict {
    /// Definitive: the named classes are unsatisfiable, with proof.
    Refuted { unsat_classes: Vec<Name>, refuted_individuals: Vec<Name>, proof: Proof },
    /// Not a certificate: the rule set found no clash.
    NoClashFound { note: String },
}

/// The note every `NoClashFound` verdict carries.
pub open spec fn no_clash_note() -> Seq<char> {
    "v0 sound-refutation subset found no clash — NOT a consistency certificate; certification authority remains with the general oracle (HermiT)"@
}

impl Verdict {
    /// The no-clash verdict, with its disclaimer.
    pub fn no_clash() -> (v: Self)
        ensures
            v matches Verdict::NoClashFound { note } && note@ == no_clash_note(),
    {
        Verdict::NoClashFound {
            note: String::from_str(
                "v0 sound-refutation subset found no clash — NOT a consistency certificate; certification authority remains with the general oracle (HermiT)",
            ),
        }
    }
}

} // verus!
