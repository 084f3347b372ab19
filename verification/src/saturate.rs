//! Saturation over the sound-refutation rule set, emitting a proof DAG.
//!
//! Core rules: R-eq, R-trans, R-disj, R-inst (told subsumption and disjointness clash);
//! loop-refuter rules: R-domain, R-conj-unsat, R-exist-⊥, R-exist-range-⊥, R-sub-unsat.
//! Every rule is OWL-entailed, so a derived clash is a genuine inconsistency; missing rules can
//! only miss clashes, never invent them. Every derived fact carries its proof step.
//!
//! Staging: `Ex`/`Range`/`Domain` facts are input only, so domain typing fires before the told
//! closure and joins it; the unsat-generating rules then run as a worklist fixpoint.
use vstd::prelude::*;
use vstd::hash_map::HashMapWithView;
use crate::closure::{in_closure, is_derivation, base_fact, fires, member, lemma_derivation_push, lemma_least, is_unsat, is_refuted_individual, told_sub, domain_typed, sub_edge, below, disj_clash, pair_disjoint, lemma_fires_pair, lemma_fires_range_bot, lemma_fires_exist_bot, lemma_fires_sub_unsat};
use crate::fragment::{Axiom, AxiomV, axioms_view, names_view};
use crate::kernel::{step_flaw, lemma_flaw_push, proof_valid};
use crate::names::{NameTable, IAx, iax_means, table_view, distinct_names, intern_axioms};
use crate::verdict::{Fact, FactV, Name, Proof, Rule, Step, Verdict, no_clash_note};
use crate::text::{strictly_sorted, insert_sorted};

verus! {

/// A fact over name ids.
#[derive(Clone, Copy, PartialEq, Eq)]
pub enum IdFact {
    Sub(usize, usize),
    Disjoint(usize, usize),
    Assert(usize, usize),
    Unsat(usize),
    KbRefuted(usize, usize),
    Ex(usize, usize, usize),
    Range(usize, usize),
    Domain(usize, usize),
    PairUnsat(usize, usize),
}

/// The fact an id-fact denotes.
pub open spec fn fv(nm: Seq<Seq<char>>, x: IdFact) -> FactV {
    match x {
        IdFact::Sub(a, b) => FactV::Sub(nm[a as int], nm[b as int]),
        IdFact::Disjoint(a, b) => FactV::Disjoint(nm[a as int], nm[b as int]),
        IdFact::Assert(a, b) => FactV::Assert(nm[a as int], nm[b as int]),
        IdFact::Unsat(a) => FactV::Unsat(nm[a as int]),
        IdFact::KbRefuted(a, b) => FactV::KbRefuted(nm[a as int], nm[b as int]),
        IdFact::Ex(a, b, c) => FactV::Ex(nm[a as int], nm[b as int], nm[c as int]),
        IdFact::Range(a, b) => FactV::Range(nm[a as int], nm[b as int]),
        IdFact::Domain(a, b) => FactV::Domain(nm[a as int], nm[b as int]),
        IdFact::PairUnsat(a, b) => FactV::PairUnsat(nm[a as int], nm[b as int]),
    }
}

/// All ids of the fact are below `n`.
pub open spec fn ids_ok(x: IdFact, n: nat) -> bool {
    match x {
        IdFact::Sub(a, b) | IdFact::Disjoint(a, b) | IdFact::Assert(a, b) | IdFact::KbRefuted(a, b)
        | IdFact::Range(a, b) | IdFact::Domain(a, b) | IdFact::PairUnsat(a, b) => a < n && b < n,
        IdFact::Unsat(a) => a < n,
        IdFact::Ex(a, b, c) => a < n && b < n && c < n,
    }
}

/// Distinct names make the denotation injective.
pub proof fn lemma_fv_injective(nm: Seq<Seq<char>>, x: IdFact, y: IdFact)
    requires
        distinct_names(nm),
        ids_ok(x, nm.len()),
        ids_ok(y, nm.len()),
        fv(nm, x) == fv(nm, y),
    ensures
        x == y,
{
}

/// The conclusions of a proof, as facts.
pub open spec fn concl(steps: Seq<Step>) -> Seq<FactV> {
    steps.map_values(|s: Step| s.conclusion@)
}

/// The fact the named ids denote, as owned names.
fn make_fact(names: &Vec<String>, x: IdFact) -> (f: Fact)
    requires
        ids_ok(x, names@.len() as nat),
    ensures
        f@ == fv(table_view(names@), x),
{
    match x {
        IdFact::Sub(a, b) => Fact::Sub { sub: names[a].clone(), sup: names[b].clone() },
        IdFact::Disjoint(a, b) => Fact::Disjoint { a: names[a].clone(), b: names[b].clone() },
        IdFact::Assert(a, b) => Fact::Assert { class: names[a].clone(), individual: names[b].clone() },
        IdFact::Unsat(a) => Fact::Unsat { class: names[a].clone() },
        IdFact::KbRefuted(a, b) => Fact::KbRefuted { individual: names[a].clone(), class: names[b].clone() },
        IdFact::Ex(a, b, c) => Fact::Ex { sub: names[a].clone(), role: names[b].clone(), filler: names[c].clone() },
        IdFact::Range(a, b) => Fact::Range { role: names[a].clone(), range: names[b].clone() },
        IdFact::Domain(a, b) => Fact::Domain { role: names[a].clone(), domain: names[b].clone() },
        IdFact::PairUnsat(a, b) => Fact::PairUnsat { a: names[a].clone(), b: names[b].clone() },
    }
}

/// `b` extends `a`.
spec fn grows(a: Seq<usize>, b: Seq<usize>) -> bool {
    a.len() <= b.len() && forall|i: int| 0 <= i < a.len() ==> #[trigger] b[i] == a[i]
}

/// The engine's state: the proof so far and indexes over its conclusions.
struct Engine {
    names: Vec<String>,
    steps: Vec<Step>,
    idf: Vec<IdFact>,
    /// Per class `c`: `d` maps to the step concluding `c ⊑ d`.
    sub_ix: Vec<HashMapWithView<usize, usize>>,
    /// Per class `c`: `(d, step)` for each `c ⊑ d`, in derivation order.
    rows: Vec<Vec<(usize, usize)>>,
    /// Per class: the step concluding `Unsat`.
    unsat_at: Vec<Option<usize>>,
    disj: Vec<(usize, usize, usize)>,
    asserts: Vec<(usize, usize, usize)>,
    exs: Vec<(usize, usize, usize, usize)>,
    ranges: Vec<(usize, usize, usize)>,
    domains: Vec<(usize, usize, usize)>,
    pairs: Vec<(usize, usize, usize)>,
    kbr: Vec<(usize, usize, usize)>,
}

impl Engine {
    spec fn nm(&self) -> Seq<Seq<char>> {
        table_view(self.names@)
    }

    spec fn n(&self) -> nat {
        self.names@.len()
    }

    spec fn len(&self) -> int {
        self.steps@.len() as int
    }

    /// The engine holds the id-fact.
    spec fn has(&self, x: IdFact) -> bool {
        exists|j: int| 0 <= j < self.idf@.len() && self.idf@[j] == x
    }

    /// Steps and id-facts agree, and no fact is concluded twice.
    spec fn steps_ok(&self) -> bool {
        &&& distinct_names(self.nm())
        &&& self.steps@.len() == self.idf@.len()
        &&& forall|j: int| 0 <= j < self.steps@.len() ==> (#[trigger] self.steps@[j]).id == j
            && self.steps@[j].conclusion@ == fv(self.nm(), self.idf@[j])
        &&& forall|j: int, k: int| 0 <= j < self.steps@.len() && 0 <= k < self.steps@[j].premises@.len()
            ==> #[trigger] self.steps@[j].premises@[k] < j
        &&& forall|j: int| 0 <= j < self.idf@.len() ==> ids_ok(#[trigger] self.idf@[j], self.n())
        &&& forall|j1: int, j2: int| 0 <= j1 < self.idf@.len() && 0 <= j2 < self.idf@.len() && j1 != j2
            ==> self.idf@[j1] != self.idf@[j2]
    }

    /// The subsumption indexes are exact.
    spec fn sub_ok(&self) -> bool {
        &&& self.sub_ix@.len() == self.n() && self.rows@.len() == self.n()
        &&& forall|c: int, d: usize| 0 <= c < self.n() && #[trigger] self.sub_ix@[c]@.contains_key(d) ==>
            d < self.n() && self.sub_ix@[c]@[d] < self.len() && self.idf@[self.sub_ix@[c]@[d] as int] == IdFact::Sub(c as usize, d)
        &&& forall|c: int, k1: int, k2: int| 0 <= c < self.n() && 0 <= k1 < self.rows@[c]@.len() && 0 <= k2 < self.rows@[c]@.len()
            && k1 != k2 ==> (#[trigger] self.rows@[c]@[k1]).0 != (#[trigger] self.rows@[c]@[k2]).0
        &&& forall|c: int, k: int| 0 <= c < self.n() && 0 <= k < self.rows@[c]@.len() ==>
            (#[trigger] self.rows@[c]@[k]).1 < self.len() && self.idf@[self.rows@[c]@[k].1 as int] == IdFact::Sub(c as usize, self.rows@[c]@[k].0)
        &&& forall|j: int| 0 <= j < self.len() ==> (#[trigger] self.idf@[j] matches IdFact::Sub(c, d) ==>
            self.sub_ix@[c as int]@.contains_key(d) && self.sub_ix@[c as int]@[d] == j
            && exists|k: int| 0 <= k < self.rows@[c as int]@.len() && self.rows@[c as int]@[k] == (d, j as usize))
    }

    /// The unsat index is exact.
    spec fn unsat_ok(&self) -> bool {
        &&& self.unsat_at@.len() == self.n()
        &&& forall|c: int| 0 <= c < self.n() && (#[trigger] self.unsat_at@[c]) is Some ==>
            self.unsat_at@[c]->0 < self.len() && self.idf@[self.unsat_at@[c]->0 as int] == IdFact::Unsat(c as usize)
        &&& forall|j: int| 0 <= j < self.len() ==> (#[trigger] self.idf@[j] matches IdFact::Unsat(c) ==>
            self.unsat_at@[c as int] == Some(j as usize))
    }

    /// The list indexes are exact.
    spec fn lists_ok(&self) -> bool {
        &&& forall|k: int| 0 <= k < self.disj@.len() ==> (#[trigger] self.disj@[k]).2 < self.len()
            && self.idf@[self.disj@[k].2 as int] == IdFact::Disjoint(self.disj@[k].0, self.disj@[k].1)
        &&& forall|j: int| 0 <= j < self.len() ==> (#[trigger] self.idf@[j] matches IdFact::Disjoint(a, b) ==> exists|k: int| 0 <= k < self.disj@.len() && self.disj@[k] == (a, b, j as usize))
        &&& forall|k: int| 0 <= k < self.asserts@.len() ==> (#[trigger] self.asserts@[k]).2 < self.len()
            && self.idf@[self.asserts@[k].2 as int] == IdFact::Assert(self.asserts@[k].0, self.asserts@[k].1)
        &&& forall|j: int| 0 <= j < self.len() ==> (#[trigger] self.idf@[j] matches IdFact::Assert(a, b) ==> exists|k: int| 0 <= k < self.asserts@.len() && self.asserts@[k] == (a, b, j as usize))
        &&& forall|k: int| 0 <= k < self.exs@.len() ==> (#[trigger] self.exs@[k]).3 < self.len()
            && self.idf@[self.exs@[k].3 as int] == IdFact::Ex(self.exs@[k].0, self.exs@[k].1, self.exs@[k].2)
        &&& forall|j: int| 0 <= j < self.len() ==> (#[trigger] self.idf@[j] matches IdFact::Ex(a, b, c) ==> exists|k: int| 0 <= k < self.exs@.len() && self.exs@[k] == (a, b, c, j as usize))
        &&& forall|k: int| 0 <= k < self.ranges@.len() ==> (#[trigger] self.ranges@[k]).2 < self.len()
            && self.idf@[self.ranges@[k].2 as int] == IdFact::Range(self.ranges@[k].0, self.ranges@[k].1)
        &&& forall|j: int| 0 <= j < self.len() ==> (#[trigger] self.idf@[j] matches IdFact::Range(a, b) ==> exists|k: int| 0 <= k < self.ranges@.len() && self.ranges@[k] == (a, b, j as usize))
        &&& forall|k: int| 0 <= k < self.domains@.len() ==> (#[trigger] self.domains@[k]).2 < self.len()
            && self.idf@[self.domains@[k].2 as int] == IdFact::Domain(self.domains@[k].0, self.domains@[k].1)
        &&& forall|j: int| 0 <= j < self.len() ==> (#[trigger] self.idf@[j] matches IdFact::Domain(a, b) ==> exists|k: int| 0 <= k < self.domains@.len() && self.domains@[k] == (a, b, j as usize))
        &&& forall|k: int| 0 <= k < self.pairs@.len() ==> (#[trigger] self.pairs@[k]).2 < self.len()
            && self.idf@[self.pairs@[k].2 as int] == IdFact::PairUnsat(self.pairs@[k].0, self.pairs@[k].1)
        &&& forall|j: int| 0 <= j < self.len() ==> (#[trigger] self.idf@[j] matches IdFact::PairUnsat(a, b) ==> exists|k: int| 0 <= k < self.pairs@.len() && self.pairs@[k] == (a, b, j as usize))
        &&& forall|k: int| 0 <= k < self.kbr@.len() ==> (#[trigger] self.kbr@[k]).2 < self.len()
            && self.idf@[self.kbr@[k].2 as int] == IdFact::KbRefuted(self.kbr@[k].0, self.kbr@[k].1)
        &&& forall|j: int| 0 <= j < self.len() ==> (#[trigger] self.idf@[j] matches IdFact::KbRefuted(a, b) ==> exists|k: int| 0 <= k < self.kbr@.len() && self.kbr@[k] == (a, b, j as usize))
    }

    spec fn inv(&self) -> bool {
        self.steps_ok() && self.sub_ok() && self.unsat_ok() && self.lists_ok()
    }

    /// Every conclusion is a base fact or follows by one rule from earlier ones.
    spec fn sound(&self, axs: Seq<AxiomV>) -> bool {
        is_derivation(axs, concl(self.steps@))
    }

    /// Every step passes the kernel.
    spec fn valid(&self, axs: Seq<AxiomV>) -> bool {
        forall|j: int| 0 <= j < self.len() ==> step_flaw(axs, self.steps@, j) is None
    }

    /// Only the steps, id-facts and the index of `x`'s kind changed.
    spec fn frame(&self, old: &Self, x: IdFact) -> bool {
        &&& self.names == old.names
        &&& (!(x is Sub) ==> self.sub_ix == old.sub_ix && self.rows == old.rows)
        &&& (!(x is Unsat) ==> self.unsat_at == old.unsat_at)
        &&& (!(x is Disjoint) ==> self.disj == old.disj)
        &&& (!(x is Assert) ==> self.asserts == old.asserts)
        &&& (!(x is Ex) ==> self.exs == old.exs)
        &&& (!(x is Range) ==> self.ranges == old.ranges)
        &&& (!(x is Domain) ==> self.domains == old.domains)
        &&& (!(x is PairUnsat) ==> self.pairs == old.pairs)
        &&& (!(x is KbRefuted) ==> self.kbr == old.kbr)
    }

    /// An empty engine over the interned names.
    fn new(names: Vec<String>) -> (e: Self)
        requires
            distinct_names(table_view(names@)),
        ensures
            e.inv(),
            e.names == names,
            e.len() == 0,
            e.idf@.len() == 0,
            e.disj@.len() == 0 && e.asserts@.len() == 0 && e.exs@.len() == 0 && e.ranges@.len() == 0
                && e.domains@.len() == 0 && e.pairs@.len() == 0 && e.kbr@.len() == 0,
            forall|c: int| 0 <= c < e.n() ==> (#[trigger] e.rows@[c])@.len() == 0,
            forall|c: int| 0 <= c < e.n() ==> (#[trigger] e.unsat_at@[c]) is None,
    {
        broadcast use vstd::std_specs::hash::axiom_usize_obeys_hash_table_key_model;
        let n = names.len();
        let mut sub_ix: Vec<HashMapWithView<usize, usize>> = Vec::new();
        let mut rows: Vec<Vec<(usize, usize)>> = Vec::new();
        let mut unsat_at: Vec<Option<usize>> = Vec::new();
        let mut i: usize = 0;
        while i < n
            invariant
                i <= n,
                sub_ix@.len() == i,
                rows@.len() == i,
                unsat_at@.len() == i,
                forall|c: int| 0 <= c < i ==> (#[trigger] sub_ix@[c])@ == Map::<usize, usize>::empty(),
                forall|c: int| 0 <= c < i ==> (#[trigger] rows@[c])@.len() == 0,
                forall|c: int| 0 <= c < i ==> (#[trigger] unsat_at@[c]) is None,
            decreases n - i,
        {
            sub_ix.push(HashMapWithView::new());
            rows.push(Vec::new());
            unsat_at.push(None);
            i += 1;
        }
        Engine {
            names,
            steps: Vec::new(),
            idf: Vec::new(),
            sub_ix,
            rows,
            unsat_at,
            disj: Vec::new(),
            asserts: Vec::new(),
            exs: Vec::new(),
            ranges: Vec::new(),
            domains: Vec::new(),
            pairs: Vec::new(),
            kbr: Vec::new(),
        }
    }

    /// Whether `c ⊑ d` is held.
    fn holds_sub(&self, c: usize, d: usize) -> (r: Option<usize>)
        requires
            self.inv(),
            c < self.n(),
        ensures
            r is Some <==> self.has(IdFact::Sub(c, d)),
            r matches Some(j) ==> j < self.len() && self.idf@[j as int] == IdFact::Sub(c, d),
    {
        match self.sub_ix[c].get(&d) {
            Some(j) => Some(*j),
            None => {
                assert forall|j: int| 0 <= j < self.len() implies self.idf@[j] != IdFact::Sub(c, d) by {
                    if self.idf@[j] == IdFact::Sub(c, d) {
                        assert(self.idf@[j] matches IdFact::Sub(c0, d0));
                    }
                }
                None
            },
        }
    }

    /// Whether `Unsat(c)` is held.
    fn holds_unsat(&self, c: usize) -> (r: Option<usize>)
        requires
            self.inv(),
            c < self.n(),
        ensures
            r is Some <==> self.has(IdFact::Unsat(c)),
            r matches Some(j) ==> j < self.len() && self.idf@[j as int] == IdFact::Unsat(c),
    {
        let r = self.unsat_at[c];
        if r.is_none() {
            assert forall|j: int| 0 <= j < self.len() implies self.idf@[j] != IdFact::Unsat(c) by {
                if self.idf@[j] == IdFact::Unsat(c) {
                    assert(self.idf@[j] matches IdFact::Unsat(c0));
                }
            }
        }
        r
    }

    /// The facts an interned axiom states are held.
    spec fn loaded(&self, ia: IAx) -> bool {
        match ia {
            IAx::Sub(c, d) => self.has(IdFact::Sub(c, d)),
            IAx::Eq(c, ps) => forall|q: int| 0 <= q < ps@.len() ==> self.has(IdFact::Sub(c, #[trigger] ps@[q])),
            IAx::Ex(s0, r, d) => self.has(IdFact::Ex(s0, r, d)),
            IAx::Dis(a, b) => self.has(IdFact::Disjoint(a, b)),
            IAx::Asr(c, i) => self.has(IdFact::Assert(c, i)),
            IAx::Rng(r, e) => self.has(IdFact::Range(r, e)),
            IAx::Dom(r, e) => self.has(IdFact::Domain(r, e)),
        }
    }

    /// Hold `x`, an input fact cited from axiom `ai`, adding it if new.
    fn add_cited(&mut self, Ghost(axs): Ghost<Seq<AxiomV>>, x: IdFact, rule: Rule, ai: usize)
        requires
            old(self).inv(),
            old(self).sound(axs),
            old(self).valid(axs),
            ids_ok(x, old(self).n()),
            ai < axs.len(),
            base_fact(axs, fv(old(self).nm(), x)),
            rule is Input ==> crate::kernel::input_matches(axs[ai as int], fv(old(self).nm(), x)),
            rule is REq ==> (fv(old(self).nm(), x) matches FactV::Sub(sub, sup) && (axs[ai as int] matches AxiomV::EquivalentToIntersection(class, parts) && sub == class && parts.contains(sup))),
            rule is Input || rule is REq,
            old(self).subs_are_edges(axs),
        ensures
            final(self).subs_are_edges(axs),
            final(self).inv(),
            final(self).sound(axs),
            final(self).valid(axs),
            final(self).names == old(self).names,
            final(self).has(x),
            forall|y: IdFact| #[trigger] old(self).has(y) ==> final(self).has(y),
            forall|y: IdFact| #[trigger] final(self).has(y) ==> old(self).has(y) || y == x,
            final(self).frame(old(self), x),
            x is Sub || final(self).rows == old(self).rows,
    {
        if !self.held(x) {
            let ghost before = *self;
            let j = self.push_step(Ghost(axs), x, rule, Vec::new(), Some(ai));
            assert(step_flaw(axs, self.steps@, j as int) is None);
            assert forall|c: usize, dd: usize| #[trigger] self.has(IdFact::Sub(c, dd)) implies
                sub_edge(axs, self.nm()[c as int], self.nm()[dd as int]) by {
                if IdFact::Sub(c, dd) != x {
                    assert(before.has(IdFact::Sub(c, dd)));
                }
            }
        }
    }

    /// Load every input axiom as base facts (the told direction of `≡` via R-eq).
    fn load(&mut self, Ghost(axs): Ghost<Seq<AxiomV>>, iaxs: &Vec<IAx>)
        requires
            old(self).inv(),
            old(self).sound(axs),
            old(self).valid(axs),
            iaxs@.len() == axs.len(),
            forall|k: int| 0 <= k < axs.len() ==> iax_means(old(self).nm(), #[trigger] iaxs@[k], axs[k]),
            old(self).subs_are_edges(axs),
        ensures
            final(self).inv(),
            final(self).sound(axs),
            final(self).valid(axs),
            final(self).subs_are_edges(axs),
            final(self).names == old(self).names,
            final(self).unsat_at == old(self).unsat_at,
            final(self).pairs == old(self).pairs,
            forall|k: int| 0 <= k < iaxs@.len() ==> final(self).loaded(#[trigger] iaxs@[k]),
    {
        let mut ai: usize = 0;
        while ai < iaxs.len()
            invariant
                self.inv(),
                self.sound(axs),
                self.valid(axs),
                self.subs_are_edges(axs),
                self.names == old(self).names,
                self.unsat_at == old(self).unsat_at,
                self.pairs == old(self).pairs,
                ai <= iaxs@.len(),
                iaxs@.len() == axs.len(),
                forall|k: int| 0 <= k < axs.len() ==> iax_means(self.nm(), #[trigger] iaxs@[k], axs[k]),
                forall|k: int| 0 <= k < ai ==> self.loaded(#[trigger] iaxs@[k]),
            decreases iaxs@.len() - ai,
        {
            let ghost nm = self.nm();
            let ghost before = *self;
            proof {
                assert(iax_means(nm, iaxs@[ai as int], axs[ai as int]));
            }
            match &iaxs[ai] {
                IAx::Sub(c, d) => {
                    assert(axs[ai as int] == AxiomV::SubClassOf(nm[*c as int], nm[*d as int]));
                    self.add_cited(Ghost(axs), IdFact::Sub(*c, *d), Rule::Input, ai);
                },
                IAx::Eq(c, ps) => {
                    let mut q: usize = 0;
                    while q < ps.len()
                        invariant
                            self.inv(),
                            self.sound(axs),
                            self.valid(axs),
                            self.subs_are_edges(axs),
                            self.names == old(self).names,
                            self.unsat_at == old(self).unsat_at,
                            self.pairs == old(self).pairs,
                            nm == self.nm(),
                            ai < iaxs@.len(),
                            iaxs@.len() == axs.len(),
                            iaxs@[ai as int] == IAx::Eq(*c, *ps),
                            iax_means(nm, iaxs@[ai as int], axs[ai as int]),
                            q <= ps@.len(),
                            forall|y: IdFact| #[trigger] before.has(y) ==> self.has(y),
                            forall|m: int| 0 <= m < q ==> self.has(IdFact::Sub(*c, #[trigger] ps@[m])),
                        decreases ps@.len() - q,
                    {
                        let p = ps[q];
                        assert(crate::names::ids_view(nm, ps@)[q as int] == nm[p as int]);
                        assert(told_sub(axs, nm[*c as int], nm[p as int]));
                        self.add_cited(Ghost(axs), IdFact::Sub(*c, p), Rule::REq, ai);
                        q += 1;
                    }
                },
                IAx::Ex(s0, r, d) => {
                    assert(axs[ai as int] == AxiomV::SubClassOfExistential(nm[*s0 as int], nm[*r as int], nm[*d as int]));
                    self.add_cited(Ghost(axs), IdFact::Ex(*s0, *r, *d), Rule::Input, ai);
                },
                IAx::Dis(a, b) => {
                    assert(axs[ai as int] == AxiomV::DisjointClasses(nm[*a as int], nm[*b as int]));
                    self.add_cited(Ghost(axs), IdFact::Disjoint(*a, *b), Rule::Input, ai);
                },
                IAx::Asr(c, i) => {
                    assert(axs[ai as int] == AxiomV::ClassAssertion(nm[*c as int], nm[*i as int]));
                    self.add_cited(Ghost(axs), IdFact::Assert(*c, *i), Rule::Input, ai);
                },
                IAx::Rng(r, e) => {
                    assert(axs[ai as int] == AxiomV::PropertyRange(nm[*r as int], nm[*e as int]));
                    self.add_cited(Ghost(axs), IdFact::Range(*r, *e), Rule::Input, ai);
                },
                IAx::Dom(r, e) => {
                    assert(axs[ai as int] == AxiomV::PropertyDomain(nm[*r as int], nm[*e as int]));
                    self.add_cited(Ghost(axs), IdFact::Domain(*r, *e), Rule::Input, ai);
                },
            }
            proof {
                assert forall|k: int| 0 <= k < ai + 1 implies self.loaded(#[trigger] iaxs@[k]) by {
                    if k < ai {
                        assert(before.loaded(iaxs@[k]));
                        if let IAx::Eq(c, ps) = iaxs@[k] {
                            assert forall|q: int| 0 <= q < ps@.len() implies self.has(IdFact::Sub(c, #[trigger] ps@[q])) by {
                                assert(before.has(IdFact::Sub(c, ps@[q])));
                            }
                        }
                    }
                }
            }
            ai += 1;
        }
    }

    /// Every held subsumption is an edge of the told hierarchy.
    spec fn subs_are_edges(&self, axs: Seq<AxiomV>) -> bool {
        forall|c: usize, d: usize| #[trigger] self.has(IdFact::Sub(c, d)) ==> sub_edge(axs, self.nm()[c as int], self.nm()[d as int])
    }

    /// A held input-kind fact is a base fact.
    proof fn lemma_input_base(&self, axs: Seq<AxiomV>, y: IdFact)
        requires
            self.inv(),
            self.sound(axs),
            self.has(y),
            y is Ex || y is Disjoint || y is Assert || y is Range || y is Domain,
        ensures
            base_fact(axs, fv(self.nm(), y)),
    {
        let j = choose|j: int| 0 <= j < self.idf@.len() && self.idf@[j] == y;
        assert(concl(self.steps@)[j] == fv(self.nm(), y));
        assert(base_fact(axs, concl(self.steps@)[j]) || fires(axs, crate::closure::prefix_has(concl(self.steps@), j), concl(self.steps@)[j]));
    }

    /// R-domain: `c ⊑ ∃r.d`, `domain(r) ⊑ e` gives `c ⊑ e`, for every held pair.
    fn domain_typing(&mut self, Ghost(axs): Ghost<Seq<AxiomV>>)
        requires
            old(self).inv(),
            old(self).sound(axs),
            old(self).valid(axs),
            old(self).subs_are_edges(axs),
        ensures
            final(self).inv(),
            final(self).sound(axs),
            final(self).valid(axs),
            final(self).subs_are_edges(axs),
            final(self).names == old(self).names,
            final(self).exs == old(self).exs && final(self).domains == old(self).domains
                && final(self).ranges == old(self).ranges && final(self).disj == old(self).disj
                && final(self).asserts == old(self).asserts && final(self).pairs == old(self).pairs
                && final(self).kbr == old(self).kbr && final(self).unsat_at == old(self).unsat_at,
            forall|y: IdFact| #[trigger] old(self).has(y) ==> final(self).has(y),
            forall|k1: int, k2: int| 0 <= k1 < final(self).exs@.len() && 0 <= k2 < final(self).domains@.len()
                && (#[trigger] final(self).exs@[k1]).1 == (#[trigger] final(self).domains@[k2]).0 ==>
                final(self).has(IdFact::Sub(final(self).exs@[k1].0, final(self).domains@[k2].1)),
    {
        let mut k1: usize = 0;
        while k1 < self.exs.len()
            invariant
                self.inv(),
                self.sound(axs),
                self.valid(axs),
                self.subs_are_edges(axs),
                self.names == old(self).names,
                self.exs == old(self).exs && self.domains == old(self).domains
                    && self.ranges == old(self).ranges && self.disj == old(self).disj
                    && self.asserts == old(self).asserts && self.pairs == old(self).pairs
                    && self.kbr == old(self).kbr && self.unsat_at == old(self).unsat_at,
                forall|y: IdFact| #[trigger] old(self).has(y) ==> self.has(y),
                k1 <= self.exs@.len(),
                forall|q1: int, q2: int| 0 <= q1 < k1 && 0 <= q2 < self.domains@.len()
                    && (#[trigger] self.exs@[q1]).1 == (#[trigger] self.domains@[q2]).0 ==>
                    self.has(IdFact::Sub(self.exs@[q1].0, self.domains@[q2].1)),
            decreases self.exs@.len() - k1,
        {
            let mut k2: usize = 0;
            while k2 < self.domains.len()
                invariant
                    self.inv(),
                    self.sound(axs),
                    self.valid(axs),
                    self.subs_are_edges(axs),
                    self.names == old(self).names,
                    self.exs == old(self).exs && self.domains == old(self).domains
                        && self.ranges == old(self).ranges && self.disj == old(self).disj
                        && self.asserts == old(self).asserts && self.pairs == old(self).pairs
                        && self.kbr == old(self).kbr && self.unsat_at == old(self).unsat_at,
                    forall|y: IdFact| #[trigger] old(self).has(y) ==> self.has(y),
                    k1 < self.exs@.len(),
                    k2 <= self.domains@.len(),
                    forall|q1: int, q2: int| 0 <= q1 < k1 && 0 <= q2 < self.domains@.len()
                        && (#[trigger] self.exs@[q1]).1 == (#[trigger] self.domains@[q2]).0 ==>
                        self.has(IdFact::Sub(self.exs@[q1].0, self.domains@[q2].1)),
                    forall|q2: int| 0 <= q2 < k2 && self.exs@[k1 as int].1 == (#[trigger] self.domains@[q2]).0 ==>
                        self.has(IdFact::Sub(self.exs@[k1 as int].0, self.domains@[q2].1)),
                decreases self.domains@.len() - k2,
            {
                let (s0, r, d, j_ex) = self.exs[k1];
                let (dr, e, j_dom) = self.domains[k2];
                if r == dr {
                    let x = IdFact::Sub(s0, e);
                    if !self.held(x) {
                        let ghost nm = self.nm();
                        let ghost before = *self;
                        proof {
                            assert(self.idf@[j_ex as int] == IdFact::Ex(s0, r, d));
                            assert(self.idf@[j_dom as int] == IdFact::Domain(dr, e));
                            self.lemma_input_base(axs, IdFact::Ex(s0, r, d));
                            self.lemma_input_base(axs, IdFact::Domain(dr, e));
                            assert(domain_typed(axs, nm[s0 as int], nm[e as int]));
                        }
                        let mut prem: Vec<usize> = Vec::new();
                        prem.push(j_ex);
                        prem.push(j_dom);
                        let j = self.push_step(Ghost(axs), x, Rule::RDomain, prem, None);
                        proof {
                            assert(self.steps@[j_ex as int] == before.steps@[j_ex as int]);
                            assert(self.steps@[j_dom as int] == before.steps@[j_dom as int]);
                            assert(step_flaw(axs, self.steps@, j as int) is None);
                            assert forall|c: usize, dd: usize| #[trigger] self.has(IdFact::Sub(c, dd)) implies
                                sub_edge(axs, self.nm()[c as int], self.nm()[dd as int]) by {
                                if IdFact::Sub(c, dd) != x {
                                    assert(before.has(IdFact::Sub(c, dd)));
                                }
                            }
                        }
                    }
                }
                k2 += 1;
            }
            k1 += 1;
        }
    }

    /// A copy of the subsumption rows.
    fn copy_rows(&self) -> (r: Vec<Vec<(usize, usize)>>)
        requires
            self.inv(),
        ensures
            r@.len() == self.n(),
            forall|c: int| 0 <= c < self.n() ==> (#[trigger] r@[c])@ == self.rows@[c]@,
    {
        let mut r: Vec<Vec<(usize, usize)>> = Vec::new();
        let mut c: usize = 0;
        while c < self.rows.len()
            invariant
                self.inv(),
                c <= self.n(),
                r@.len() == c,
                forall|c2: int| 0 <= c2 < c ==> (#[trigger] r@[c2])@ == self.rows@[c2]@,
            decreases self.n() - c,
        {
            let mut row: Vec<(usize, usize)> = Vec::new();
            let mut k: usize = 0;
            while k < self.rows[c].len()
                invariant
                    self.inv(),
                    c < self.n(),
                    k <= self.rows@[c as int]@.len(),
                    row@ == self.rows@[c as int]@.take(k as int),
                decreases self.rows@[c as int]@.len() - k,
            {
                row.push(self.rows[c][k]);
                k += 1;
                assert(row@ =~= self.rows@[c as int]@.take(k as int));
            }
            assert(row@ =~= self.rows@[c as int]@);
            r.push(row);
            c += 1;
        }
        r
    }

    /// A subsumption row holds at most one entry per class.
    proof fn lemma_row_bound(&self, c: int)
        requires
            self.inv(),
            0 <= c < self.n(),
        ensures
            self.rows@[c]@.len() <= self.n(),
    {
        let row = self.rows@[c]@;
        let ds = row.map_values(|t: (usize, usize)| t.0 as int);
        assert(ds.no_duplicates()) by {
            assert forall|i: int, j: int| 0 <= i < ds.len() && 0 <= j < ds.len() && i != j implies ds[i] != ds[j] by {
                assert(row[i].0 != row[j].0);
            }
        }
        assert forall|i: int| 0 <= i < ds.len() implies 0 <= #[trigger] ds[i] < self.n() by {
            let jj = row[i].1;
            assert(self.idf@[jj as int] == IdFact::Sub(c as usize, row[i].0));
            assert(ids_ok(self.idf@[jj as int], self.n()));
        }
        ds.unique_seq_to_set();
        vstd::set_lib::lemma_int_range(0, self.n() as int);
        assert(ds.to_set().subset_of(vstd::set_lib::set_int_range(0, self.n() as int)));
        vstd::set_lib::lemma_len_subset(ds.to_set(), vstd::set_lib::set_int_range(0, self.n() as int));
    }

    /// Row `c` is closed under the told edges for its first `upto` entries.
    spec fn row_closed(&self, edges: Seq<Vec<(usize, usize)>>, c: int, upto: int) -> bool {
        forall|k: int, q: int| 0 <= k < upto && 0 <= q < edges[self.rows@[c]@[k].0 as int]@.len() ==>
            self.has(IdFact::Sub(c as usize, (#[trigger] edges[(#[trigger] self.rows@[c]@[k]).0 as int]@[q]).0))
    }

    /// The snapshot `edges` lists held told edges.
    spec fn edges_ok(&self, axs: Seq<AxiomV>, edges: Seq<Vec<(usize, usize)>>) -> bool {
        &&& edges.len() == self.n()
        &&& forall|d: int, q: int| 0 <= d < self.n() && 0 <= q < edges[d]@.len() ==>
            (#[trigger] edges[d]@[q]).0 < self.n() && edges[d]@[q].1 < self.len()
            && self.idf@[edges[d]@[q].1 as int] == IdFact::Sub(d as usize, edges[d]@[q].0)
            && sub_edge(axs, self.nm()[d], self.nm()[edges[d]@[q].0 as int])
    }

    /// R-trans: close every row under the told edges (breadth first, the row is its own queue).
    fn close(&mut self, Ghost(axs): Ghost<Seq<AxiomV>>, edges: &Vec<Vec<(usize, usize)>>)
        requires
            old(self).inv(),
            old(self).sound(axs),
            old(self).valid(axs),
            old(self).edges_ok(axs, edges@),
        ensures
            final(self).inv(),
            final(self).sound(axs),
            final(self).valid(axs),
            final(self).edges_ok(axs, edges@),
            final(self).names == old(self).names,
            final(self).exs == old(self).exs && final(self).domains == old(self).domains
                && final(self).ranges == old(self).ranges && final(self).disj == old(self).disj
                && final(self).asserts == old(self).asserts && final(self).pairs == old(self).pairs
                && final(self).kbr == old(self).kbr && final(self).unsat_at == old(self).unsat_at,
            forall|y: IdFact| #[trigger] old(self).has(y) ==> final(self).has(y),
            forall|y: IdFact| #[trigger] final(self).has(y) ==> old(self).has(y) || y is Sub,
            forall|c: int| 0 <= c < final(self).n() ==> final(self).row_closed(edges@, c, final(self).rows@[c]@.len() as int),
    {
        let n = self.names.len();
        let mut c: usize = 0;
        while c < n
            invariant
                self.inv(),
                self.sound(axs),
                self.valid(axs),
                self.edges_ok(axs, edges@),
                n == self.n(),
                self.names == old(self).names,
                self.exs == old(self).exs && self.domains == old(self).domains
                    && self.ranges == old(self).ranges && self.disj == old(self).disj
                    && self.asserts == old(self).asserts && self.pairs == old(self).pairs
                    && self.kbr == old(self).kbr && self.unsat_at == old(self).unsat_at,
                forall|y: IdFact| #[trigger] old(self).has(y) ==> self.has(y),
                forall|y: IdFact| #[trigger] self.has(y) ==> old(self).has(y) || y is Sub,
                c <= n,
                forall|c2: int| 0 <= c2 < c ==> self.row_closed(edges@, c2, self.rows@[c2]@.len() as int),
            decreases n - c,
        {
            let mut k: usize = 0;
            while k < self.rows[c].len()
                invariant
                    self.inv(),
                    self.sound(axs),
                    self.valid(axs),
                    self.edges_ok(axs, edges@),
                    n == self.n(),
                    self.names == old(self).names,
                    self.exs == old(self).exs && self.domains == old(self).domains
                        && self.ranges == old(self).ranges && self.disj == old(self).disj
                        && self.asserts == old(self).asserts && self.pairs == old(self).pairs
                        && self.kbr == old(self).kbr && self.unsat_at == old(self).unsat_at,
                    forall|y: IdFact| #[trigger] old(self).has(y) ==> self.has(y),
                    forall|y: IdFact| #[trigger] self.has(y) ==> old(self).has(y) || y is Sub,
                    c < n,
                    k <= self.rows@[c as int]@.len(),
                    forall|c2: int| 0 <= c2 < c ==> self.row_closed(edges@, c2, self.rows@[c2]@.len() as int),
                    self.row_closed(edges@, c as int, k as int),
                decreases n - k,
            {
                proof { self.lemma_row_bound(c as int); }
                let (d, j_cd) = self.rows[c][k];
                let ghost row_before = self.rows@[c as int]@;
                let mut q: usize = 0;
                while q < edges[d].len()
                    invariant
                        self.inv(),
                        self.sound(axs),
                        self.valid(axs),
                        self.edges_ok(axs, edges@),
                        n == self.n(),
                        self.names == old(self).names,
                        self.exs == old(self).exs && self.domains == old(self).domains
                            && self.ranges == old(self).ranges && self.disj == old(self).disj
                            && self.asserts == old(self).asserts && self.pairs == old(self).pairs
                            && self.kbr == old(self).kbr && self.unsat_at == old(self).unsat_at,
                        forall|y: IdFact| #[trigger] old(self).has(y) ==> self.has(y),
                        forall|y: IdFact| #[trigger] self.has(y) ==> old(self).has(y) || y is Sub,
                        c < n,
                        d < n,
                        k < self.rows@[c as int]@.len(),
                        self.rows@[c as int]@[k as int] == (d, j_cd),
                        j_cd < self.len(),
                        self.idf@[j_cd as int] == IdFact::Sub(c, d),
                        q <= edges@[d as int]@.len(),
                        forall|c2: int| 0 <= c2 < c ==> self.row_closed(edges@, c2, self.rows@[c2]@.len() as int),
                        self.row_closed(edges@, c as int, k as int),
                        forall|q2: int| 0 <= q2 < q ==> self.has(IdFact::Sub(c, (#[trigger] edges@[d as int]@[q2]).0)),
                    decreases edges@[d as int]@.len() - q,
                {
                    let (e, j_de) = edges[d][q];
                    let x = IdFact::Sub(c, e);
                    if !self.held(x) {
                        let ghost before = *self;
                        let ghost nm = self.nm();
                        proof {
                            assert(self.idf@[j_de as int] == IdFact::Sub(d, e));
                            assert(sub_edge(axs, nm[d as int], nm[e as int]));
                            assert(concl(self.steps@)[j_cd as int] == FactV::Sub(nm[c as int], nm[d as int]));
                            assert(member(concl(self.steps@))(FactV::Sub(nm[c as int], nm[d as int])));
                        }
                        let mut prem: Vec<usize> = Vec::new();
                        prem.push(j_cd);
                        prem.push(j_de);
                        let j = self.push_step(Ghost(axs), x, Rule::RTrans, prem, None);
                        proof {
                            assert(self.steps@[j_cd as int] == before.steps@[j_cd as int]);
                            assert(self.steps@[j_de as int] == before.steps@[j_de as int]);
                            assert(step_flaw(axs, self.steps@, j as int) is None);
                            assert forall|c2: int| 0 <= c2 < c implies self.row_closed(edges@, c2, self.rows@[c2]@.len() as int) by {
                                assert(self.rows@[c2] == before.rows@[c2]);
                                assert(before.row_closed(edges@, c2, before.rows@[c2]@.len() as int));
                            }
                            assert(self.rows@[c as int]@[k as int] == (d, j_cd));
                            assert forall|k2: int, q2: int| 0 <= k2 < k && 0 <= q2 < edges@[self.rows@[c as int]@[k2].0 as int]@.len() implies
                                self.has(IdFact::Sub(c, (#[trigger] edges@[(#[trigger] self.rows@[c as int]@[k2]).0 as int]@[q2]).0)) by {
                                assert(self.rows@[c as int]@[k2] == before.rows@[c as int]@[k2]);
                            }
                        }
                    }
                    q += 1;
                }
                proof {
                    assert forall|k2: int, q2: int| 0 <= k2 < k + 1 && 0 <= q2 < edges@[self.rows@[c as int]@[k2].0 as int]@.len() implies
                        self.has(IdFact::Sub(c, (#[trigger] edges@[(#[trigger] self.rows@[c as int]@[k2]).0 as int]@[q2]).0)) by {
                        if k2 == k {
                            assert(self.has(IdFact::Sub(c, edges@[d as int]@[q2].0)));
                        }
                    }
                }
                k += 1;
            }
            c += 1;
        }
    }

    /// The worklist holds exactly the refuted classes, once each.
    spec fn work_exact(&self, work: Seq<usize>) -> bool {
        &&& work.no_duplicates()
        &&& forall|i: int| 0 <= i < work.len() ==> #[trigger] work[i] < self.n()
        &&& forall|c: usize| #[trigger] self.has(IdFact::Unsat(c)) <==> work.contains(c)
    }

    /// Refute `c`, recording it on the worklist.
    fn add_unsat(&mut self, Ghost(axs): Ghost<Seq<AxiomV>>, c: usize, rule: Rule, premises: Vec<usize>, work: &mut Vec<usize>) -> (j: usize)
        requires
            old(self).inv(),
            old(self).sound(axs),
            old(self).valid(axs),
            c < old(self).n(),
            !old(self).has(IdFact::Unsat(c)),
            fires(axs, member(concl(old(self).steps@)), FactV::Unsat(old(self).nm()[c as int])),
            old(self).work_exact(old(work)@),
            forall|k: int| 0 <= k < premises@.len() ==> #[trigger] premises@[k] < old(self).len(),
        ensures
            final(self).inv(),
            final(self).sound(axs),
            final(self).frame(old(self), IdFact::Unsat(c)),
            final(self).rows == old(self).rows,
            j == old(self).len(),
            final(self).idf@ == old(self).idf@.push(IdFact::Unsat(c)),
            final(self).has(IdFact::Unsat(c)),
            forall|y: IdFact| #[trigger] old(self).has(y) ==> final(self).has(y),
            forall|y: IdFact| #[trigger] final(self).has(y) ==> old(self).has(y) || y == IdFact::Unsat(c),
            final(self).steps@.len() == j + 1,
            final(self).steps@.drop_last() == old(self).steps@,
            final(self).steps@[j as int].rule == rule,
            final(self).steps@[j as int].premises@ == premises@,
            final(self).steps@[j as int].axiom_index.is_none(),
            final(self).steps@[j as int].id == j,
            final(self).steps@[j as int].conclusion@ == FactV::Unsat(old(self).nm()[c as int]),
            forall|i: int| 0 <= i < j ==> step_flaw(axs, final(self).steps@, i) is None,
            final(work)@ == old(work)@.push(c),
            final(self).work_exact(final(work)@),
    {
        let ghost before = *self;
        let ghost w0 = work@;
        let j = self.push_step(Ghost(axs), IdFact::Unsat(c), rule, premises, None);
        work.push(c);
        proof {
            assert forall|cc: usize| #[trigger] self.has(IdFact::Unsat(cc)) <==> work@.contains(cc) by {
                if cc == c {
                    assert(work@[w0.len() as int] == c);
                } else {
                    assert(IdFact::Unsat(cc) != IdFact::Unsat(c));
                    assert(self.has(IdFact::Unsat(cc)) == before.has(IdFact::Unsat(cc)));
                    assert(before.has(IdFact::Unsat(cc)) == w0.contains(cc));
                    if work@.contains(cc) {
                        let i = choose|i: int| 0 <= i < work@.len() && work@[i] == cc;
                        assert(w0[i] == cc);
                    }
                    if w0.contains(cc) {
                        let i = choose|i: int| 0 <= i < w0.len() && w0[i] == cc;
                        assert(work@[i] == cc);
                    }
                }
            }
            assert(!w0.contains(c));
            assert forall|i: int| 0 <= i < work@.len() implies #[trigger] work@[i] < self.n() by {
                if i < w0.len() { assert(work@[i] == w0[i]); }
            }
        }
        j
    }

    /// R-disj on class `c` and the `k`-th disjointness.
    #[verifier::rlimit(80)]
    fn disj_pair(&mut self, Ghost(axs): Ghost<Seq<AxiomV>>, c: usize, k: usize, work: &mut Vec<usize>)
        requires
            old(self).inv(),
            old(self).sound(axs),
            old(self).valid(axs),
            c < old(self).n(),
            k < old(self).disj@.len(),
            old(self).rows@[c as int]@.len() > 0,
            old(self).work_exact(old(work)@),
        ensures
            final(self).inv(),
            final(self).sound(axs),
            final(self).valid(axs),
            final(self).names == old(self).names,
            final(self).exs == old(self).exs && final(self).domains == old(self).domains
                && final(self).ranges == old(self).ranges && final(self).disj == old(self).disj
                && final(self).asserts == old(self).asserts && final(self).pairs == old(self).pairs
                && final(self).kbr == old(self).kbr && final(self).rows == old(self).rows,
            forall|y: IdFact| #[trigger] old(self).has(y) ==> final(self).has(y),
            forall|y: IdFact| #[trigger] final(self).has(y) ==> old(self).has(y) || y is Unsat,
            final(self).work_exact(final(work)@),
            (c == final(self).disj@[k as int].0 || final(self).has(IdFact::Sub(c, final(self).disj@[k as int].0)))
                && (c == final(self).disj@[k as int].1 || final(self).has(IdFact::Sub(c, final(self).disj@[k as int].1)))
                ==> final(self).has(IdFact::Unsat(c)),
    {
        let (a, b, j_ab) = self.disj[k];
        let sa = if c == a { None } else { self.holds_sub(c, a) };
        let sb = if c == b { None } else { self.holds_sub(c, b) };
        let hit_a = c == a || sa.is_some();
        let hit_b = c == b || sb.is_some();
        if hit_a && hit_b && !self.held(IdFact::Unsat(c)) {
            let ghost before = *self;
            let ghost nm = self.nm();
            let ghost sq = concl(self.steps@);
            proof {
                assert(self.idf@[j_ab as int] == IdFact::Disjoint(a, b));
                assert(sq[j_ab as int] == FactV::Disjoint(nm[a as int], nm[b as int]));
                if let Some(x) = sa { assert(sq[x as int] == FactV::Sub(nm[c as int], nm[a as int])); }
                if let Some(y) = sb { assert(sq[y as int] == FactV::Sub(nm[c as int], nm[b as int])); }
                let (x0, jx) = self.rows@[c as int]@[0];
                assert(sq[jx as int] == FactV::Sub(nm[c as int], nm[x0 as int]));
                assert(member(sq)(FactV::Sub(nm[c as int], nm[x0 as int])));
                assert(member(sq)(FactV::Disjoint(nm[a as int], nm[b as int])));
                assert(below(member(sq), nm[c as int], nm[a as int]));
                assert(below(member(sq), nm[c as int], nm[b as int]));
                assert(disj_clash(member(sq), nm[c as int]));
            }
            let mut prem: Vec<usize> = Vec::new();
            prem.push(j_ab);
            match sa { Some(x) => prem.push(x), None => {} }
            match sb { Some(y) => prem.push(y), None => {} }
            let j = self.add_unsat(Ghost(axs), c, Rule::RDisj, prem, work);
            proof {
                assert(self.steps@[j_ab as int] == before.steps@[j_ab as int]);
                if let Some(x) = sa { assert(self.steps@[x as int] == before.steps@[x as int]); }
                if let Some(y) = sb { assert(self.steps@[y as int] == before.steps@[y as int]); }
                assert(step_flaw(axs, self.steps@, j as int) is None);
            }
        }
    }

    /// R-disj: a class (with some told superclass) under both sides of a disjointness is refuted.
    fn disjointness(&mut self, Ghost(axs): Ghost<Seq<AxiomV>>) -> (work: Vec<usize>)
        requires
            old(self).inv(),
            old(self).sound(axs),
            old(self).valid(axs),
            forall|c: int| 0 <= c < old(self).n() ==> (#[trigger] old(self).unsat_at@[c]) is None,
        ensures
            final(self).inv(),
            final(self).sound(axs),
            final(self).valid(axs),
            final(self).names == old(self).names,
            final(self).exs == old(self).exs && final(self).domains == old(self).domains
                && final(self).ranges == old(self).ranges && final(self).disj == old(self).disj
                && final(self).asserts == old(self).asserts && final(self).pairs == old(self).pairs
                && final(self).kbr == old(self).kbr && final(self).rows == old(self).rows,
            forall|y: IdFact| #[trigger] old(self).has(y) ==> final(self).has(y),
            forall|y: IdFact| #[trigger] final(self).has(y) ==> old(self).has(y) || y is Unsat,
            final(self).work_exact(work@),
            forall|c: int, k: int| #![trigger final(self).disj@[k], final(self).rows@[c]] 0 <= c < final(self).n() && 0 <= k < final(self).disj@.len()
                && final(self).rows@[c]@.len() > 0
                && (c == final(self).disj@[k].0 || final(self).has(IdFact::Sub(c as usize, final(self).disj@[k].0)))
                && (c == final(self).disj@[k].1 || final(self).has(IdFact::Sub(c as usize, final(self).disj@[k].1)))
                ==> final(self).has(IdFact::Unsat(c as usize)),
    {
        let n = self.names.len();
        let mut work: Vec<usize> = Vec::new();
        proof {
            assert forall|cc: usize| #[trigger] self.has(IdFact::Unsat(cc)) <==> work@.contains(cc) by {
                if self.has(IdFact::Unsat(cc)) {
                    let j = choose|j: int| 0 <= j < self.idf@.len() && self.idf@[j] == IdFact::Unsat(cc);
                    assert(self.idf@[j] matches IdFact::Unsat(c0));
                }
            }
        }
        let mut c: usize = 0;
        while c < n
            invariant
                self.inv(),
                self.sound(axs),
                self.valid(axs),
                n == self.n(),
                self.names == old(self).names,
                self.exs == old(self).exs && self.domains == old(self).domains
                    && self.ranges == old(self).ranges && self.disj == old(self).disj
                    && self.asserts == old(self).asserts && self.pairs == old(self).pairs
                    && self.kbr == old(self).kbr && self.rows == old(self).rows,
                forall|y: IdFact| #[trigger] old(self).has(y) ==> self.has(y),
                forall|y: IdFact| #[trigger] self.has(y) ==> old(self).has(y) || y is Unsat,
                self.work_exact(work@),
                c <= n,
                forall|c2: int, k: int| #![trigger self.disj@[k], self.rows@[c2]] 0 <= c2 < c && 0 <= k < self.disj@.len()
                    && self.rows@[c2]@.len() > 0
                    && (c2 == self.disj@[k].0 || self.has(IdFact::Sub(c2 as usize, self.disj@[k].0)))
                    && (c2 == self.disj@[k].1 || self.has(IdFact::Sub(c2 as usize, self.disj@[k].1)))
                    ==> self.has(IdFact::Unsat(c2 as usize)),
            decreases n - c,
        {
            if self.rows[c].len() > 0 {
                let mut k: usize = 0;
                while k < self.disj.len()
                    invariant
                        self.inv(),
                        self.sound(axs),
                        self.valid(axs),
                        n == self.n(),
                        self.names == old(self).names,
                        self.exs == old(self).exs && self.domains == old(self).domains
                            && self.ranges == old(self).ranges && self.disj == old(self).disj
                            && self.asserts == old(self).asserts && self.pairs == old(self).pairs
                            && self.kbr == old(self).kbr && self.rows == old(self).rows,
                        forall|y: IdFact| #[trigger] old(self).has(y) ==> self.has(y),
                        forall|y: IdFact| #[trigger] self.has(y) ==> old(self).has(y) || y is Unsat,
                        self.work_exact(work@),
                        c < n,
                        self.rows@[c as int]@.len() > 0,
                        k <= self.disj@.len(),
                        forall|c2: int, k2: int| #![trigger self.disj@[k2], self.rows@[c2]] 0 <= c2 < c && 0 <= k2 < self.disj@.len()
                            && self.rows@[c2]@.len() > 0
                            && (c2 == self.disj@[k2].0 || self.has(IdFact::Sub(c2 as usize, self.disj@[k2].0)))
                            && (c2 == self.disj@[k2].1 || self.has(IdFact::Sub(c2 as usize, self.disj@[k2].1)))
                            ==> self.has(IdFact::Unsat(c2 as usize)),
                        forall|k2: int| 0 <= k2 < k
                            && (c == (#[trigger] self.disj@[k2]).0 || self.has(IdFact::Sub(c, self.disj@[k2].0)))
                            && (c == self.disj@[k2].1 || self.has(IdFact::Sub(c, self.disj@[k2].1)))
                            ==> self.has(IdFact::Unsat(c)),
                    decreases self.disj@.len() - k,
                {
                    self.disj_pair(Ghost(axs), c, k, &mut work);
                    k += 1;
                }
            }
            c += 1;
        }
        work
    }

    /// `x ⊑ y` reflexively or as a held fact.
    spec fn below_id(&self, x: usize, y: usize) -> bool {
        x == y || self.has(IdFact::Sub(x, y))
    }

    /// `d` and `e` fall under the two sides of a held disjointness, in either orientation.
    spec fn pair_cond(&self, d: usize, e: usize) -> bool {
        exists|k: int| 0 <= k < self.disj@.len()
            && ((self.below_id(d, (#[trigger] self.disj@[k]).0) && self.below_id(e, self.disj@[k].1))
            || (self.below_id(d, self.disj@[k].1) && self.below_id(e, self.disj@[k].0)))
    }

    /// `o` witnesses `x ⊑ y`: no step when reflexive, else the step concluding it.
    spec fn side_ok(&self, x: usize, y: usize, o: Option<usize>) -> bool {
        match o {
            None => x == y,
            Some(j) => j < self.len() && self.idf@[j as int] == IdFact::Sub(x, y),
        }
    }

    /// `x ⊑ y` reflexively (no premise) or by the held fact's step.
    fn side(&self, x: usize, y: usize) -> (r: Option<Option<usize>>)
        requires
            self.inv(),
            x < self.n(),
        ensures
            r is Some <==> self.below_id(x, y),
            r matches Some(o) ==> self.side_ok(x, y, o),
    {
        if x == y {
            Some(None)
        } else {
            match self.holds_sub(x, y) {
                Some(j) => Some(Some(j)),
                None => None,
            }
        }
    }

    /// The first held disjointness whose sides `d` and `e` fall under, with the side premises.
    fn find_clash(&self, d: usize, e: usize) -> (r: Option<(usize, Option<usize>, Option<usize>)>)
        requires
            self.inv(),
            d < self.n(),
            e < self.n(),
        ensures
            r is None ==> !self.pair_cond(d, e),
            r matches Some((k, fa, rb)) ==> k < self.disj@.len() && (
                (self.side_ok(d, self.disj@[k as int].0, fa) && self.side_ok(e, self.disj@[k as int].1, rb))
                || (self.side_ok(d, self.disj@[k as int].1, fa) && self.side_ok(e, self.disj@[k as int].0, rb))),
    {
        let mut k: usize = 0;
        while k < self.disj.len()
            invariant
                self.inv(),
                d < self.n(),
                e < self.n(),
                k <= self.disj@.len(),
                forall|q: int| 0 <= q < k ==> !((self.below_id(d, (#[trigger] self.disj@[q]).0) && self.below_id(e, self.disj@[q].1))
                    || (self.below_id(d, self.disj@[q].1) && self.below_id(e, self.disj@[q].0))),
            decreases self.disj@.len() - k,
        {
            let (a, b, _j) = self.disj[k];
            match (self.side(d, a), self.side(e, b)) {
                (Some(fa), Some(rb)) => return Some((k, fa, rb)),
                _ => {},
            }
            match (self.side(d, b), self.side(e, a)) {
                (Some(fa), Some(rb)) => return Some((k, fa, rb)),
                _ => {},
            }
            k += 1;
        }
        None
    }

    /// Every held pair is disjointness-sided.
    spec fn pairs_sided(&self) -> bool {
        forall|d: usize, e: usize| #[trigger] self.has(IdFact::PairUnsat(d, e)) ==> d != e && self.pair_cond(d, e)
    }

    /// The step of the held pair `(d, e)`, if any.
    fn pair_step(&self, d: usize, e: usize) -> (r: Option<usize>)
        requires
            self.inv(),
        ensures
            r is Some <==> self.has(IdFact::PairUnsat(d, e)),
            r matches Some(j) ==> j < self.len() && self.idf@[j as int] == IdFact::PairUnsat(d, e),
    {
        let r = find2(&self.pairs, d, e);
        if r.is_none() {
            assert forall|j: int| 0 <= j < self.len() implies self.idf@[j] != IdFact::PairUnsat(d, e) by {
                if self.idf@[j] == IdFact::PairUnsat(d, e) {
                    assert(self.idf@[j] matches IdFact::PairUnsat(a0, b0));
                }
            }
        }
        r
    }

    /// The facts of the proof, denoted.
    proof fn lemma_member(&self, j: int)
        requires
            self.inv(),
            0 <= j < self.len(),
        ensures
            member(concl(self.steps@))(fv(self.nm(), self.idf@[j])),
    {
        assert(concl(self.steps@)[j] == fv(self.nm(), self.idf@[j]));
    }

    /// R-conj-unsat, disjointness-sided: the pair `(d, e)` of the `k1`-th existential's filler
    /// and the `k2`-th range falls under the `k`-th disjointness with side premises `fa`, `rb`.
    #[verifier::rlimit(80)]
    fn make_pair(&mut self, Ghost(axs): Ghost<Seq<AxiomV>>, k1: usize, k2: usize, k: usize, fa: Option<usize>, rb: Option<usize>, Ghost(work): Ghost<Seq<usize>>) -> (jp: usize)
        requires
            old(self).inv(),
            old(self).sound(axs),
            old(self).valid(axs),
            old(self).work_exact(work),
            old(self).pairs_sided(),
            k1 < old(self).exs@.len(),
            k2 < old(self).ranges@.len(),
            k < old(self).disj@.len(),
            old(self).exs@[k1 as int].1 == old(self).ranges@[k2 as int].0,
            old(self).exs@[k1 as int].2 != old(self).ranges@[k2 as int].1,
            !old(self).has(IdFact::PairUnsat(old(self).exs@[k1 as int].2, old(self).ranges@[k2 as int].1)),
            ({
                let d = old(self).exs@[k1 as int].2;
                let e = old(self).ranges@[k2 as int].1;
                (old(self).side_ok(d, old(self).disj@[k as int].0, fa) && old(self).side_ok(e, old(self).disj@[k as int].1, rb))
                || (old(self).side_ok(d, old(self).disj@[k as int].1, fa) && old(self).side_ok(e, old(self).disj@[k as int].0, rb))
            }),
        ensures
            final(self).inv(),
            final(self).sound(axs),
            final(self).valid(axs),
            final(self).work_exact(work),
            final(self).pairs_sided(),
            final(self).frame(old(self), IdFact::PairUnsat(old(self).exs@[k1 as int].2, old(self).ranges@[k2 as int].1)),
            final(self).rows == old(self).rows,
            forall|y: IdFact| #[trigger] old(self).has(y) ==> final(self).has(y),
            forall|y: IdFact| #[trigger] final(self).has(y) ==> old(self).has(y) || y is PairUnsat,
            jp < final(self).len(),
            final(self).idf@[jp as int] == IdFact::PairUnsat(old(self).exs@[k1 as int].2, old(self).ranges@[k2 as int].1),
    {
        let (s0, r, d, j_ex) = self.exs[k1];
        let (rr, e, j_rg) = self.ranges[k2];
        let (a, b, j_ab) = self.disj[k];
        let ghost before = *self;
        let ghost nm = self.nm();
        let ghost sq = concl(self.steps@);
        proof {
            assert(self.idf@[j_ab as int] == IdFact::Disjoint(a, b));
            assert(self.idf@[j_ex as int] == IdFact::Ex(s0, r, d));
            assert(self.idf@[j_rg as int] == IdFact::Range(rr, e));
            self.lemma_member(j_ab as int);
            self.lemma_member(j_ex as int);
            self.lemma_member(j_rg as int);
            if let Some(x) = fa { self.lemma_member(x as int); }
            if let Some(x) = rb { self.lemma_member(x as int); }
            assert(ids_ok(self.idf@[j_ex as int], self.n()));
            assert(ids_ok(self.idf@[j_rg as int], self.n()));
            assert(nm[d as int] != nm[e as int]);
            assert(pair_disjoint(member(sq), nm[d as int], nm[e as int]));
            assert(rr == r);
            lemma_fires_pair(axs, member(sq), nm[s0 as int], nm[r as int], nm[d as int], nm[e as int]);
            assert(self.pair_cond(d, e));
        }
        let mut prem: Vec<usize> = Vec::new();
        prem.push(j_ab);
        match fa { Some(x) => prem.push(x), None => {} }
        match rb { Some(x) => prem.push(x), None => {} }
        let jp = self.push_step(Ghost(axs), IdFact::PairUnsat(d, e), Rule::RConjUnsat, prem, None);
        proof {
            {
                self.lemma_input_base(axs, IdFact::Ex(s0, r, d));
                self.lemma_input_base(axs, IdFact::Range(rr, e));
                self.lemma_input_base(axs, IdFact::Disjoint(a, b));
                assert(self.steps@[j_ab as int] == before.steps@[j_ab as int]);
                if let Some(x) = fa { assert(self.steps@[x as int] == before.steps@[x as int]); }
                if let Some(x) = rb { assert(self.steps@[x as int] == before.steps@[x as int]); }
                assert(step_flaw(axs, self.steps@, jp as int) is None);
            }
            assert forall|cc: usize| #[trigger] self.has(IdFact::Unsat(cc)) <==> work.contains(cc) by {
                assert(self.has(IdFact::Unsat(cc)) == before.has(IdFact::Unsat(cc)));
            }
            assert forall|x: usize, y: usize| #[trigger] self.has(IdFact::PairUnsat(x, y)) implies x != y && self.pair_cond(x, y) by {
                if x != d || y != e {
                    assert(before.has(IdFact::PairUnsat(x, y)));
                    assert(before.pair_cond(x, y));
                    let q = choose|q: int| 0 <= q < before.disj@.len()
                        && ((before.below_id(x, (#[trigger] before.disj@[q]).0) && before.below_id(y, before.disj@[q].1))
                        || (before.below_id(x, before.disj@[q].1) && before.below_id(y, before.disj@[q].0)));
                    assert(self.disj@[q] == before.disj@[q]);
                } else {
                    assert(before.pair_cond(d, e));
                    let q = choose|q: int| 0 <= q < before.disj@.len()
                        && ((before.below_id(d, (#[trigger] before.disj@[q]).0) && before.below_id(e, before.disj@[q].1))
                        || (before.below_id(d, before.disj@[q].1) && before.below_id(e, before.disj@[q].0)));
                    assert(self.disj@[q] == before.disj@[q]);
                }
            }
        }
        jp
    }

    /// R-conj-unsat (disjointness-sided) and R-exist-range-⊥ on the `k1`-th existential and the
    /// `k2`-th range.
    #[verifier::rlimit(80)]
    fn seed_pair(&mut self, Ghost(axs): Ghost<Seq<AxiomV>>, k1: usize, k2: usize, work: &mut Vec<usize>)
        requires
            old(self).inv(),
            old(self).sound(axs),
            old(self).valid(axs),
            old(self).work_exact(old(work)@),
            old(self).pairs_sided(),
            k1 < old(self).exs@.len(),
            k2 < old(self).ranges@.len(),
        ensures
            final(self).inv(),
            final(self).sound(axs),
            final(self).valid(axs),
            final(self).work_exact(final(work)@),
            final(self).pairs_sided(),
            final(self).names == old(self).names,
            final(self).exs == old(self).exs && final(self).domains == old(self).domains
                && final(self).ranges == old(self).ranges && final(self).disj == old(self).disj
                && final(self).asserts == old(self).asserts && final(self).kbr == old(self).kbr
                && final(self).rows == old(self).rows,
            forall|y: IdFact| #[trigger] old(self).has(y) ==> final(self).has(y),
            forall|y: IdFact| #[trigger] final(self).has(y) ==> old(self).has(y) || y is Unsat || y is PairUnsat,
            ({
                let (s0, r, d, _j1) = final(self).exs@[k1 as int];
                let (rr, e, _j2) = final(self).ranges@[k2 as int];
                r == rr && d != e && final(self).pair_cond(d, e) ==> final(self).has(IdFact::PairUnsat(d, e)) && final(self).has(IdFact::Unsat(s0))
            }),
    {
        let (s0, r, d, j_ex) = self.exs[k1];
        let (rr, e, j_rg) = self.ranges[k2];
        if r != rr || d == e {
            return;
        }
        proof {
            assert(self.idf@[j_ex as int] == IdFact::Ex(s0, r, d));
            assert(self.idf@[j_rg as int] == IdFact::Range(rr, e));
            assert(ids_ok(self.idf@[j_ex as int], self.n()));
            assert(ids_ok(self.idf@[j_rg as int], self.n()));
        }
        let found = self.find_clash(d, e);
        let (k, fa, rb) = match found {
            None => return,
            Some(t) => t,
        };
        let j_pair = match self.pair_step(d, e) {
            Some(jp) => jp,
            None => self.make_pair(Ghost(axs), k1, k2, k, fa, rb, Ghost(work@)),
        };
        self.range_bot(Ghost(axs), k1, k2, j_pair, work);
    }

    /// R-exist-range-⊥: the `k1`-th existential, the `k2`-th range on its role and the held
    /// pair of filler and range (step `jp`) refute the existential's subject.
    #[verifier::rlimit(80)]
    #[verifier::spinoff_prover]
    fn range_bot(&mut self, Ghost(axs): Ghost<Seq<AxiomV>>, k1: usize, k2: usize, jp: usize, work: &mut Vec<usize>)
        requires
            old(self).inv(),
            old(self).sound(axs),
            old(self).valid(axs),
            old(self).work_exact(old(work)@),
            k1 < old(self).exs@.len(),
            k2 < old(self).ranges@.len(),
            old(self).exs@[k1 as int].1 == old(self).ranges@[k2 as int].0,
            jp < old(self).len(),
            old(self).idf@[jp as int] == IdFact::PairUnsat(old(self).exs@[k1 as int].2, old(self).ranges@[k2 as int].1),
        ensures
            final(self).inv(),
            final(self).sound(axs),
            final(self).valid(axs),
            final(self).work_exact(final(work)@),
            grows(old(work)@, final(work)@),
            final(self).frame(old(self), IdFact::Unsat(old(self).exs@[k1 as int].0)),
            final(self).rows == old(self).rows,
            forall|y: IdFact| #[trigger] old(self).has(y) ==> final(self).has(y),
            forall|y: IdFact| #[trigger] final(self).has(y) ==> old(self).has(y) || y is Unsat,
            final(self).has(IdFact::Unsat(old(self).exs@[k1 as int].0)),
    {
        let (s0, r, d, j_ex) = self.exs[k1];
        let (rr, e, j_rg) = self.ranges[k2];
        proof {
            assert(self.idf@[j_ex as int] == IdFact::Ex(s0, r, d));
            assert(ids_ok(self.idf@[j_ex as int], self.n()));
        }
        if !self.held(IdFact::Unsat(s0)) {
            let ghost before = *self;
            let ghost nm = self.nm();
            let ghost sq = concl(self.steps@);
            proof {
                assert(self.idf@[j_rg as int] == IdFact::Range(rr, e));
                self.lemma_member(j_ex as int);
                self.lemma_member(j_rg as int);
                self.lemma_member(jp as int);
                lemma_fires_range_bot(axs, member(sq), nm[s0 as int], nm[r as int], nm[d as int], nm[e as int]);
            }
            let mut prem: Vec<usize> = Vec::new();
            prem.push(j_ex);
            prem.push(j_rg);
            prem.push(jp);
            let j = self.add_unsat(Ghost(axs), s0, Rule::RExistRangeBot, prem, work);
            proof {
                assert(self.steps@[j_ex as int] == before.steps@[j_ex as int]);
                assert(self.steps@[j_rg as int] == before.steps@[j_rg as int]);
                assert(self.steps@[jp as int] == before.steps@[jp as int]);
                {
                    assert(step_flaw(axs, self.steps@, j as int) is None);
                }
            }
        }
    }

    /// R-conj-unsat and R-exist-range-⊥ over every existential and range on its role whose
    /// filler and range fall under the two sides of a disjointness.
    fn seeds(&mut self, Ghost(axs): Ghost<Seq<AxiomV>>, work: &mut Vec<usize>)
        requires
            old(self).inv(),
            old(self).sound(axs),
            old(self).valid(axs),
            old(self).work_exact(old(work)@),
            old(self).pairs_sided(),
        ensures
            final(self).inv(),
            final(self).sound(axs),
            final(self).valid(axs),
            final(self).work_exact(final(work)@),
            final(self).pairs_sided(),
            final(self).names == old(self).names,
            final(self).exs == old(self).exs && final(self).domains == old(self).domains
                && final(self).ranges == old(self).ranges && final(self).disj == old(self).disj
                && final(self).asserts == old(self).asserts && final(self).kbr == old(self).kbr
                && final(self).rows == old(self).rows,
            forall|y: IdFact| #[trigger] old(self).has(y) ==> final(self).has(y),
            forall|y: IdFact| #[trigger] final(self).has(y) ==> old(self).has(y) || y is Unsat || y is PairUnsat,
            forall|k1: int, k2: int| 0 <= k1 < final(self).exs@.len() && 0 <= k2 < final(self).ranges@.len()
                && (#[trigger] final(self).exs@[k1]).1 == (#[trigger] final(self).ranges@[k2]).0
                && final(self).exs@[k1].2 != final(self).ranges@[k2].1
                && final(self).pair_cond(final(self).exs@[k1].2, final(self).ranges@[k2].1)
                ==> final(self).has(IdFact::PairUnsat(final(self).exs@[k1].2, final(self).ranges@[k2].1))
                    && final(self).has(IdFact::Unsat(final(self).exs@[k1].0)),
    {
        let mut k1: usize = 0;
        while k1 < self.exs.len()
            invariant
                self.inv(),
                self.sound(axs),
                self.valid(axs),
                self.work_exact(work@),
                self.pairs_sided(),
                self.names == old(self).names,
                self.exs == old(self).exs && self.domains == old(self).domains
                    && self.ranges == old(self).ranges && self.disj == old(self).disj
                    && self.asserts == old(self).asserts && self.kbr == old(self).kbr
                    && self.rows == old(self).rows,
                forall|y: IdFact| #[trigger] old(self).has(y) ==> self.has(y),
                forall|y: IdFact| #[trigger] self.has(y) ==> old(self).has(y) || y is Unsat || y is PairUnsat,
                k1 <= self.exs@.len(),
                forall|q1: int, q2: int| 0 <= q1 < k1 && 0 <= q2 < self.ranges@.len()
                    && (#[trigger] self.exs@[q1]).1 == (#[trigger] self.ranges@[q2]).0
                    && self.exs@[q1].2 != self.ranges@[q2].1
                    && self.pair_cond(self.exs@[q1].2, self.ranges@[q2].1)
                    ==> self.has(IdFact::PairUnsat(self.exs@[q1].2, self.ranges@[q2].1))
                        && self.has(IdFact::Unsat(self.exs@[q1].0)),
            decreases self.exs@.len() - k1,
        {
            let mut k2: usize = 0;
            while k2 < self.ranges.len()
                invariant
                    self.inv(),
                    self.sound(axs),
                    self.valid(axs),
                    self.work_exact(work@),
                    self.pairs_sided(),
                    self.names == old(self).names,
                    self.exs == old(self).exs && self.domains == old(self).domains
                        && self.ranges == old(self).ranges && self.disj == old(self).disj
                        && self.asserts == old(self).asserts && self.kbr == old(self).kbr
                        && self.rows == old(self).rows,
                    forall|y: IdFact| #[trigger] old(self).has(y) ==> self.has(y),
                    forall|y: IdFact| #[trigger] self.has(y) ==> old(self).has(y) || y is Unsat || y is PairUnsat,
                    k1 < self.exs@.len(),
                    k2 <= self.ranges@.len(),
                    forall|q1: int, q2: int| 0 <= q1 < k1 && 0 <= q2 < self.ranges@.len()
                        && (#[trigger] self.exs@[q1]).1 == (#[trigger] self.ranges@[q2]).0
                        && self.exs@[q1].2 != self.ranges@[q2].1
                        && self.pair_cond(self.exs@[q1].2, self.ranges@[q2].1)
                        ==> self.has(IdFact::PairUnsat(self.exs@[q1].2, self.ranges@[q2].1))
                            && self.has(IdFact::Unsat(self.exs@[q1].0)),
                    forall|q2: int| 0 <= q2 < k2
                        && self.exs@[k1 as int].1 == (#[trigger] self.ranges@[q2]).0
                        && self.exs@[k1 as int].2 != self.ranges@[q2].1
                        && self.pair_cond(self.exs@[k1 as int].2, self.ranges@[q2].1)
                        ==> self.has(IdFact::PairUnsat(self.exs@[k1 as int].2, self.ranges@[q2].1))
                            && self.has(IdFact::Unsat(self.exs@[k1 as int].0)),
                decreases self.ranges@.len() - k2,
            {
                let ghost before = *self;
                self.seed_pair(Ghost(axs), k1, k2, work);
                proof {
                    assert forall|x: usize, y: usize| before.pair_cond(x, y) == self.pair_cond(x, y) by {
                        assert forall|a: usize, b: usize| before.below_id(a, b) == self.below_id(a, b) by {
                            if self.has(IdFact::Sub(a, b)) {
                                assert(before.has(IdFact::Sub(a, b)));
                            }
                        }
                    }
                }
                k2 += 1;
            }
            k1 += 1;
        }
    }

    /// Every held pair is disjointness-sided or has a refuted side.
    spec fn pairs_ok(&self) -> bool {
        forall|d: usize, e: usize| #[trigger] self.has(IdFact::PairUnsat(d, e)) ==>
            (d != e && self.pair_cond(d, e)) || self.has(IdFact::Unsat(e))
    }

    /// The refutation of `x` has been propagated: down the told edges, to the subjects of
    /// existentials into `x`, and through every role whose range is `x`.
    spec fn done(&self, x: usize) -> bool {
        &&& forall|c: usize| c < self.n() && #[trigger] self.has(IdFact::Sub(c, x)) ==> self.has(IdFact::Unsat(c))
        &&& forall|k: int| 0 <= k < self.exs@.len() && (#[trigger] self.exs@[k]).2 == x ==> self.has(IdFact::Unsat(self.exs@[k].0))
        &&& forall|k2: int, k: int| 0 <= k2 < self.ranges@.len() && 0 <= k < self.exs@.len()
            && (#[trigger] self.ranges@[k2]).1 == x && (#[trigger] self.exs@[k]).1 == self.ranges@[k2].0
            ==> self.has(IdFact::PairUnsat(self.exs@[k].2, x)) && self.has(IdFact::Unsat(self.exs@[k].0))
    }

    /// Only refutations and pairs were added; the inputs and told facts are unchanged.
    spec fn keeps(&self, old: &Self) -> bool {
        &&& self.names == old.names
        &&& self.exs == old.exs && self.domains == old.domains && self.ranges == old.ranges
        &&& self.disj == old.disj && self.asserts == old.asserts && self.kbr == old.kbr
        &&& self.rows == old.rows
        &&& forall|y: IdFact| #[trigger] old.has(y) ==> self.has(y)
        &&& forall|y: IdFact| #[trigger] self.has(y) ==> old.has(y) || y is Unsat || y is PairUnsat
    }

    /// What `keeps` preserves: the pair condition, and propagation already done.
    proof fn lemma_keeps(&self, old: &Self, x: usize)
        requires
            self.keeps(old),
        ensures
            forall|d: usize, e: usize| old.pair_cond(d, e) == self.pair_cond(d, e),
            old.done(x) ==> self.done(x),
            old.pairs_ok() ==> forall|d: usize, e: usize| #[trigger] self.has(IdFact::PairUnsat(d, e)) && old.has(IdFact::PairUnsat(d, e))
                ==> (d != e && self.pair_cond(d, e)) || self.has(IdFact::Unsat(e)),
    {
        assert forall|a: usize, b: usize| old.below_id(a, b) == self.below_id(a, b) by {
            if self.has(IdFact::Sub(a, b)) {
                assert(old.has(IdFact::Sub(a, b)));
            }
        }
        if old.done(x) {
            assert forall|c: usize| c < self.n() && #[trigger] self.has(IdFact::Sub(c, x)) implies self.has(IdFact::Unsat(c)) by {
                assert(old.has(IdFact::Sub(c, x)));
                assert(old.has(IdFact::Unsat(c)));
            }
            assert forall|k: int| 0 <= k < self.exs@.len() && (#[trigger] self.exs@[k]).2 == x implies self.has(IdFact::Unsat(self.exs@[k].0)) by {
                assert(old.exs@[k] == self.exs@[k]);
                assert(old.has(IdFact::Unsat(self.exs@[k].0)));
            }
            assert forall|k2: int, k: int| 0 <= k2 < self.ranges@.len() && 0 <= k < self.exs@.len()
                && (#[trigger] self.ranges@[k2]).1 == x && (#[trigger] self.exs@[k]).1 == self.ranges@[k2].0
                implies self.has(IdFact::PairUnsat(self.exs@[k].2, x)) && self.has(IdFact::Unsat(self.exs@[k].0)) by {
                assert(old.ranges@[k2] == self.ranges@[k2]);
                assert(old.exs@[k] == self.exs@[k]);
                assert(old.has(IdFact::PairUnsat(self.exs@[k].2, x)));
                assert(old.has(IdFact::Unsat(self.exs@[k].0)));
            }
        }
        if old.pairs_ok() {
            assert forall|d: usize, e: usize| #[trigger] self.has(IdFact::PairUnsat(d, e)) && old.has(IdFact::PairUnsat(d, e))
                implies (d != e && self.pair_cond(d, e)) || self.has(IdFact::Unsat(e)) by {
                if old.has(IdFact::Unsat(e)) {
                    assert(self.has(IdFact::Unsat(e)));
                }
            }
        }
    }

    /// R-sub-unsat from the refuted `x`: every class told under `x` is refuted.
    fn sub_unsat(&mut self, Ghost(axs): Ghost<Seq<AxiomV>>, x: usize, work: &mut Vec<usize>)
        requires
            old(self).inv(),
            old(self).sound(axs),
            old(self).valid(axs),
            old(self).work_exact(old(work)@),
            old(self).pairs_ok(),
            x < old(self).n(),
            old(self).has(IdFact::Unsat(x)),
        ensures
            final(self).inv(),
            final(self).sound(axs),
            final(self).valid(axs),
            final(self).work_exact(final(work)@),
            grows(old(work)@, final(work)@),
            final(self).pairs_ok(),
            final(self).keeps(old(self)),
            forall|c: usize| c < final(self).n() && #[trigger] final(self).has(IdFact::Sub(c, x)) ==> final(self).has(IdFact::Unsat(c)),
    {
        let ghost o = *self;
        let ghost w0 = work@;
        let n = self.names.len();
        let mut c: usize = 0;
        while c < n
            invariant
                self.inv(),
                self.sound(axs),
                self.valid(axs),
                self.work_exact(work@),
                self.pairs_ok(),
                self.keeps(&o),
                grows(w0, work@),
                n == self.n(),
                x < n,
                self.has(IdFact::Unsat(x)),
                c <= n,
                forall|c2: usize| c2 < c && #[trigger] self.has(IdFact::Sub(c2, x)) ==> self.has(IdFact::Unsat(c2)),
            decreases n - c,
        {
            match self.holds_sub(c, x) {
                Some(j_sub) => {
                    if !self.held(IdFact::Unsat(c)) {
                        let j_x = self.holds_unsat(x).unwrap();
                        let ghost before = *self;
                        let ghost nm = self.nm();
                        let ghost sq = concl(self.steps@);
                        proof {
                            self.lemma_member(j_sub as int);
                            self.lemma_member(j_x as int);
                            lemma_fires_sub_unsat(axs, member(sq), nm[c as int], nm[x as int]);
                        }
                        let mut prem: Vec<usize> = Vec::new();
                        prem.push(j_sub);
                        prem.push(j_x);
                        let j = self.add_unsat(Ghost(axs), c, Rule::RSubUnsat, prem, work);
                        proof {
                            assert(self.steps@[j_sub as int] == before.steps@[j_sub as int]);
                            assert(self.steps@[j_x as int] == before.steps@[j_x as int]);
                            {
                                assert(step_flaw(axs, self.steps@, j as int) is None);
                            }
                            before.lemma_keeps_step(self);
                        }
                    }
                },
                None => {},
            }
            c += 1;
        }
    }

    /// Adding one refutation keeps the told facts and the pair invariant.
    proof fn lemma_keeps_step(&self, new: &Self)
        requires
            self.inv(),
            self.pairs_ok(),
            new.keeps(self),
            forall|y: IdFact| #[trigger] new.has(y) ==> self.has(y) || y is Unsat,
        ensures
            new.pairs_ok(),
    {
        new.lemma_keeps(self, 0);
        assert forall|d: usize, e: usize| #[trigger] new.has(IdFact::PairUnsat(d, e)) implies
            (d != e && new.pair_cond(d, e)) || new.has(IdFact::Unsat(e)) by {
            assert(self.has(IdFact::PairUnsat(d, e)));
        }
    }

    /// R-exist-⊥ from the refuted `x`: every existential into `x` refutes its subject.
    fn exist_bot(&mut self, Ghost(axs): Ghost<Seq<AxiomV>>, x: usize, work: &mut Vec<usize>)
        requires
            old(self).inv(),
            old(self).sound(axs),
            old(self).valid(axs),
            old(self).work_exact(old(work)@),
            old(self).pairs_ok(),
            x < old(self).n(),
            old(self).has(IdFact::Unsat(x)),
        ensures
            final(self).inv(),
            final(self).sound(axs),
            final(self).valid(axs),
            final(self).work_exact(final(work)@),
            grows(old(work)@, final(work)@),
            final(self).pairs_ok(),
            final(self).keeps(old(self)),
            forall|k: int| 0 <= k < final(self).exs@.len() && (#[trigger] final(self).exs@[k]).2 == x ==> final(self).has(IdFact::Unsat(final(self).exs@[k].0)),
    {
        let ghost o = *self;
        let ghost w0 = work@;
        let mut k: usize = 0;
        while k < self.exs.len()
            invariant
                self.inv(),
                self.sound(axs),
                self.valid(axs),
                self.work_exact(work@),
                self.pairs_ok(),
                self.keeps(&o),
                grows(w0, work@),
                x < self.n(),
                self.has(IdFact::Unsat(x)),
                k <= self.exs@.len(),
                forall|k2: int| 0 <= k2 < k && (#[trigger] self.exs@[k2]).2 == x ==> self.has(IdFact::Unsat(self.exs@[k2].0)),
            decreases self.exs@.len() - k,
        {
            let (s0, r, d, j_ex) = self.exs[k];
            proof {
                assert(self.idf@[j_ex as int] == IdFact::Ex(s0, r, d));
                assert(ids_ok(self.idf@[j_ex as int], self.n()));
            }
            if d == x && !self.held(IdFact::Unsat(s0)) {
                let j_x = self.holds_unsat(x).unwrap();
                let ghost before = *self;
                let ghost nm = self.nm();
                let ghost sq = concl(self.steps@);
                proof {
                    self.lemma_member(j_ex as int);
                    self.lemma_member(j_x as int);
                    lemma_fires_exist_bot(axs, member(sq), nm[s0 as int], nm[r as int], nm[x as int]);
                }
                let mut prem: Vec<usize> = Vec::new();
                prem.push(j_ex);
                prem.push(j_x);
                let j = self.add_unsat(Ghost(axs), s0, Rule::RExistBot, prem, work);
                proof {
                    assert(self.steps@[j_ex as int] == before.steps@[j_ex as int]);
                    assert(self.steps@[j_x as int] == before.steps@[j_x as int]);
                    {
                        assert(step_flaw(axs, self.steps@, j as int) is None);
                    }
                    before.lemma_keeps_step(self);
                }
            }
            k += 1;
        }
    }

    /// R-conj-unsat, one-sided: the refuted range `x` of the `k2`-th range empties the pair of
    /// the `k`-th existential's filler and `x`.
    #[verifier::rlimit(80)]
    #[verifier::spinoff_prover]
    fn one_sided_pair(&mut self, Ghost(axs): Ghost<Seq<AxiomV>>, k: usize, k2: usize, Ghost(work): Ghost<Seq<usize>>) -> (jp: usize)
        requires
            old(self).inv(),
            old(self).sound(axs),
            old(self).valid(axs),
            old(self).work_exact(work),
            old(self).pairs_ok(),
            k < old(self).exs@.len(),
            k2 < old(self).ranges@.len(),
            old(self).exs@[k as int].1 == old(self).ranges@[k2 as int].0,
            old(self).has(IdFact::Unsat(old(self).ranges@[k2 as int].1)),
            !old(self).has(IdFact::PairUnsat(old(self).exs@[k as int].2, old(self).ranges@[k2 as int].1)),
        ensures
            final(self).inv(),
            final(self).sound(axs),
            final(self).valid(axs),
            final(self).work_exact(work),
            final(self).pairs_ok(),
            final(self).keeps(old(self)),
            jp < final(self).len(),
            final(self).idf@[jp as int] == IdFact::PairUnsat(old(self).exs@[k as int].2, old(self).ranges@[k2 as int].1),
    {
        let (s0, r, d, j_ex) = self.exs[k];
        let (rr, x, j_rg) = self.ranges[k2];
        proof {
            assert(self.idf@[j_ex as int] == IdFact::Ex(s0, r, d));
            assert(self.idf@[j_rg as int] == IdFact::Range(rr, x));
            assert(ids_ok(self.idf@[j_ex as int], self.n()));
            assert(ids_ok(self.idf@[j_rg as int], self.n()));
        }
        let j_x = self.holds_unsat(x).unwrap();
        let ghost before = *self;
        let ghost nm = self.nm();
        let ghost sq = concl(self.steps@);
        proof {
            self.lemma_member(j_ex as int);
            self.lemma_member(j_rg as int);
            self.lemma_member(j_x as int);
            lemma_fires_pair(axs, member(sq), nm[s0 as int], nm[r as int], nm[d as int], nm[x as int]);
        }
        let mut prem: Vec<usize> = Vec::new();
        prem.push(j_x);
        let jp = self.push_step(Ghost(axs), IdFact::PairUnsat(d, x), Rule::RConjUnsat, prem, None);
        proof {
            assert(self.steps@[j_x as int] == before.steps@[j_x as int]);
            {
                assert(step_flaw(axs, self.steps@, jp as int) is None);
            }
            assert forall|cc: usize| #[trigger] self.has(IdFact::Unsat(cc)) <==> work.contains(cc) by {
                assert(self.has(IdFact::Unsat(cc)) == before.has(IdFact::Unsat(cc)));
            }
            self.lemma_keeps(&before, 0);
            assert forall|a: usize, b: usize| #[trigger] self.has(IdFact::PairUnsat(a, b)) implies
                (a != b && self.pair_cond(a, b)) || self.has(IdFact::Unsat(b)) by {
                if a != d || b != x {
                    assert(before.has(IdFact::PairUnsat(a, b)));
                }
            }
        }
        jp
    }

    /// The range side from the refuted `x`: every role whose range is `x` empties the
    /// successor sets of its existentials, refuting their subjects.
    fn range_side(&mut self, Ghost(axs): Ghost<Seq<AxiomV>>, x: usize, work: &mut Vec<usize>)
        requires
            old(self).inv(),
            old(self).sound(axs),
            old(self).valid(axs),
            old(self).work_exact(old(work)@),
            old(self).pairs_ok(),
            x < old(self).n(),
            old(self).has(IdFact::Unsat(x)),
        ensures
            final(self).inv(),
            final(self).sound(axs),
            final(self).valid(axs),
            final(self).work_exact(final(work)@),
            grows(old(work)@, final(work)@),
            final(self).pairs_ok(),
            final(self).keeps(old(self)),
            forall|k2: int, k: int| 0 <= k2 < final(self).ranges@.len() && 0 <= k < final(self).exs@.len()
                && (#[trigger] final(self).ranges@[k2]).1 == x && (#[trigger] final(self).exs@[k]).1 == final(self).ranges@[k2].0
                ==> final(self).has(IdFact::PairUnsat(final(self).exs@[k].2, x)) && final(self).has(IdFact::Unsat(final(self).exs@[k].0)),
    {
        let ghost o = *self;
        let ghost w0 = work@;
        let mut k2: usize = 0;
        while k2 < self.ranges.len()
            invariant
                self.inv(),
                self.sound(axs),
                self.valid(axs),
                self.work_exact(work@),
                self.pairs_ok(),
                self.keeps(&o),
                grows(w0, work@),
                x < self.n(),
                self.has(IdFact::Unsat(x)),
                k2 <= self.ranges@.len(),
                forall|q2: int, k: int| 0 <= q2 < k2 && 0 <= k < self.exs@.len()
                    && (#[trigger] self.ranges@[q2]).1 == x && (#[trigger] self.exs@[k]).1 == self.ranges@[q2].0
                    ==> self.has(IdFact::PairUnsat(self.exs@[k].2, x)) && self.has(IdFact::Unsat(self.exs@[k].0)),
            decreases self.ranges@.len() - k2,
        {
            let (rr, e, _j_rg) = self.ranges[k2];
            if e == x {
                let mut k: usize = 0;
                while k < self.exs.len()
                    invariant
                        self.inv(),
                        self.sound(axs),
                        self.valid(axs),
                        self.work_exact(work@),
                        self.pairs_ok(),
                        self.keeps(&o),
                        grows(w0, work@),
                        x < self.n(),
                        self.has(IdFact::Unsat(x)),
                        k2 < self.ranges@.len(),
                        self.ranges@[k2 as int].1 == x,
                        self.ranges@[k2 as int].0 == rr,
                        k <= self.exs@.len(),
                        forall|q2: int, k3: int| 0 <= q2 < k2 && 0 <= k3 < self.exs@.len()
                            && (#[trigger] self.ranges@[q2]).1 == x && (#[trigger] self.exs@[k3]).1 == self.ranges@[q2].0
                            ==> self.has(IdFact::PairUnsat(self.exs@[k3].2, x)) && self.has(IdFact::Unsat(self.exs@[k3].0)),
                        forall|k3: int| 0 <= k3 < k && (#[trigger] self.exs@[k3]).1 == rr
                            ==> self.has(IdFact::PairUnsat(self.exs@[k3].2, x)) && self.has(IdFact::Unsat(self.exs@[k3].0)),
                    decreases self.exs@.len() - k,
                {
                    let (_s0, r, d, j_ex) = self.exs[k];
                    proof {
                        assert(self.idf@[j_ex as int] == IdFact::Ex(_s0, r, d));
                        assert(ids_ok(self.idf@[j_ex as int], self.n()));
                    }
                    if r == rr {
                        let ghost b0 = *self;
                        let jp = match self.pair_step(d, x) {
                            Some(jp) => jp,
                            None => self.one_sided_pair(Ghost(axs), k, k2, Ghost(work@)),
                        };
                        let ghost b1 = *self;
                        self.range_bot(Ghost(axs), k, k2, jp, work);
                        proof {
                            b1.lemma_keeps_step(self);
                        }
                    }
                    k += 1;
                }
            }
            k2 += 1;
        }
    }

    /// A worklist of distinct classes is no longer than the name table.
    proof fn lemma_work_bound(&self, work: Seq<usize>)
        requires
            self.work_exact(work),
        ensures
            work.len() <= self.n(),
    {
        let ds = work.map_values(|c: usize| c as int);
        assert(ds.no_duplicates()) by {
            assert forall|i: int, j: int| 0 <= i < ds.len() && 0 <= j < ds.len() && i != j implies ds[i] != ds[j] by {
                assert(work[i] != work[j]);
            }
        }
        assert forall|i: int| 0 <= i < ds.len() implies 0 <= #[trigger] ds[i] < self.n() by {
            assert(work[i] < self.n());
        }
        ds.unique_seq_to_set();
        vstd::set_lib::lemma_int_range(0, self.n() as int);
        assert(ds.to_set().subset_of(vstd::set_lib::set_int_range(0, self.n() as int)));
        vstd::set_lib::lemma_len_subset(ds.to_set(), vstd::set_lib::set_int_range(0, self.n() as int));
    }

    /// The ⊥ fixpoint: propagate every refutation on the worklist until none is new.
    fn fixpoint(&mut self, Ghost(axs): Ghost<Seq<AxiomV>>, work: &mut Vec<usize>)
        requires
            old(self).inv(),
            old(self).sound(axs),
            old(self).valid(axs),
            old(self).work_exact(old(work)@),
            old(self).pairs_ok(),
        ensures
            final(self).inv(),
            final(self).sound(axs),
            final(self).valid(axs),
            final(self).work_exact(final(work)@),
            final(self).pairs_ok(),
            final(self).keeps(old(self)),
            forall|i: int| 0 <= i < final(work)@.len() ==> final(self).done(#[trigger] final(work)@[i]),
    {
        let ghost o = *self;
        let mut i: usize = 0;
        while i < work.len()
            invariant
                self.inv(),
                self.sound(axs),
                self.valid(axs),
                self.work_exact(work@),
                self.pairs_ok(),
                self.keeps(&o),
                i <= work@.len(),
                forall|i2: int| 0 <= i2 < i ==> self.done(#[trigger] work@[i2]),
            decreases self.n() - i,
        {
            proof { self.lemma_work_bound(work@); }
            let x = work[i];
            let ghost w1 = work@;
            let ghost b1 = *self;
            proof {
                assert(w1.contains(x));
                assert(b1.has(IdFact::Unsat(x)));
            }
            self.sub_unsat(Ghost(axs), x, work);
            let ghost b2 = *self;
            assert(b2.has(IdFact::Unsat(x)));
            self.exist_bot(Ghost(axs), x, work);
            let ghost b3 = *self;
            assert(b3.has(IdFact::Unsat(x)));
            self.range_side(Ghost(axs), x, work);
            proof {
                assert forall|i2: int| 0 <= i2 < i + 1 implies self.done(#[trigger] work@[i2]) by {
                    assert(work@[i2] == w1[i2]);
                    if i2 < i {
                        assert(b1.done(w1[i2]));
                        self.lemma_keeps(&b1, w1[i2]);
                    } else {
                        b3.lemma_keeps(&b2, x);
                        assert forall|c: usize| c < self.n() && #[trigger] self.has(IdFact::Sub(c, x)) implies self.has(IdFact::Unsat(c)) by {
                            assert(b1.has(IdFact::Sub(c, x)));
                            assert(b2.has(IdFact::Sub(c, x)));
                            assert(b2.has(IdFact::Unsat(c)));
                        }
                        assert forall|k: int| 0 <= k < self.exs@.len() && (#[trigger] self.exs@[k]).2 == x implies self.has(IdFact::Unsat(self.exs@[k].0)) by {
                            assert(b3.exs@[k] == self.exs@[k]);
                            assert(b3.has(IdFact::Unsat(self.exs@[k].0)));
                        }
                    }
                }
            }
            i += 1;
        }
        proof { self.lemma_work_bound(work@); }
    }

    /// R-inst: every individual asserted into a refuted class refutes the knowledge base.
    #[verifier::rlimit(80)]
    #[verifier::spinoff_prover]
    fn instances(&mut self, Ghost(axs): Ghost<Seq<AxiomV>>)
        requires
            old(self).inv(),
            old(self).sound(axs),
            old(self).valid(axs),
        ensures
            final(self).inv(),
            final(self).sound(axs),
            final(self).valid(axs),
            final(self).names == old(self).names,
            final(self).exs == old(self).exs && final(self).domains == old(self).domains
                && final(self).ranges == old(self).ranges && final(self).disj == old(self).disj
                && final(self).asserts == old(self).asserts && final(self).pairs == old(self).pairs
                && final(self).rows == old(self).rows && final(self).unsat_at == old(self).unsat_at,
            forall|y: IdFact| #[trigger] old(self).has(y) ==> final(self).has(y),
            forall|y: IdFact| #[trigger] final(self).has(y) ==> old(self).has(y) || y is KbRefuted,
            forall|k: int| 0 <= k < final(self).asserts@.len() && final(self).has(IdFact::Unsat((#[trigger] final(self).asserts@[k]).0))
                ==> final(self).has(IdFact::KbRefuted(final(self).asserts@[k].1, final(self).asserts@[k].0)),
    {
        let mut k: usize = 0;
        while k < self.asserts.len()
            invariant
                self.inv(),
                self.sound(axs),
                self.valid(axs),
                self.names == old(self).names,
                self.exs == old(self).exs && self.domains == old(self).domains
                    && self.ranges == old(self).ranges && self.disj == old(self).disj
                    && self.asserts == old(self).asserts && self.pairs == old(self).pairs
                    && self.rows == old(self).rows && self.unsat_at == old(self).unsat_at,
                forall|y: IdFact| #[trigger] old(self).has(y) ==> self.has(y),
                forall|y: IdFact| #[trigger] self.has(y) ==> old(self).has(y) || y is KbRefuted,
                k <= self.asserts@.len(),
                forall|k2: int| 0 <= k2 < k && self.has(IdFact::Unsat((#[trigger] self.asserts@[k2]).0))
                    ==> self.has(IdFact::KbRefuted(self.asserts@[k2].1, self.asserts@[k2].0)),
            decreases self.asserts@.len() - k,
        {
            let (c, ind, j_a) = self.asserts[k];
            proof {
                assert(self.idf@[j_a as int] == IdFact::Assert(c, ind));
                assert(ids_ok(self.idf@[j_a as int], self.n()));
            }
            match self.holds_unsat(c) {
                Some(j_u) => {
                    let x = IdFact::KbRefuted(ind, c);
                    if !self.held(x) {
                        let ghost before = *self;
                        proof {
                            self.lemma_member(j_a as int);
                            self.lemma_member(j_u as int);
                        }
                        let mut prem: Vec<usize> = Vec::new();
                        prem.push(j_a);
                        prem.push(j_u);
                        let j = self.push_step(Ghost(axs), x, Rule::RInst, prem, None);
                        proof {
                            assert(self.steps@[j_a as int] == before.steps@[j_a as int]);
                            assert(self.steps@[j_u as int] == before.steps@[j_u as int]);
                            {
                                assert(step_flaw(axs, self.steps@, j as int) is None);
                            }
                        }
                    }
                },
                None => {},
            }
            k += 1;
        }
    }

    /// A held id-fact is a conclusion of the proof.
    proof fn lemma_has_member(&self, y: IdFact)
        requires
            self.inv(),
            self.has(y),
        ensures
            member(concl(self.steps@))(fv(self.nm(), y)),
    {
        let j = choose|j: int| 0 <= j < self.idf@.len() && self.idf@[j] == y;
        self.lemma_member(j);
    }

    /// A conclusion of the proof is a held id-fact.
    proof fn lemma_member_id(&self, g: FactV) -> (y: IdFact)
        requires
            self.inv(),
            member(concl(self.steps@))(g),
        ensures
            self.has(y),
            ids_ok(y, self.n()),
            fv(self.nm(), y) == g,
    {
        let j = choose|j: int| 0 <= j < concl(self.steps@).len() && concl(self.steps@)[j] == g;
        assert(concl(self.steps@)[j] == self.steps@[j].conclusion@);
        self.idf@[j]
    }

    /// Every base fact of the axioms is held.
    spec fn all_loaded(&self, axs: Seq<AxiomV>, iaxs: Seq<IAx>) -> bool {
        &&& iaxs.len() == axs.len()
        &&& forall|k: int| 0 <= k < axs.len() ==> iax_means(self.nm(), #[trigger] iaxs[k], axs[k]) && self.loaded(iaxs[k])
    }

    /// The base facts are conclusions of the proof.
    proof fn lemma_base_held(&self, axs: Seq<AxiomV>, iaxs: Seq<IAx>, g: FactV)
        requires
            self.inv(),
            self.all_loaded(axs, iaxs),
            base_fact(axs, g),
        ensures
            member(concl(self.steps@))(g),
    {
        let nm = self.nm();
        match g {
            FactV::Sub(c, d) => {
                let k = choose|k: int| 0 <= k < axs.len() && (#[trigger] axs[k] == AxiomV::SubClassOf(c, d)
                    || (axs[k] matches AxiomV::EquivalentToIntersection(cl, parts) && cl == c && parts.contains(d)));
                assert(iax_means(nm, iaxs[k], axs[k]) && self.loaded(iaxs[k]));
                match iaxs[k] {
                    IAx::Sub(ci, di) => {
                        self.lemma_has_member(IdFact::Sub(ci, di));
                    },
                    IAx::Eq(ci, ps) => {
                        let parts = crate::names::ids_view(nm, ps@);
                        let q = choose|q: int| 0 <= q < parts.len() && parts[q] == d;
                        assert(parts[q] == nm[ps@[q] as int]);
                        assert(self.has(IdFact::Sub(ci, ps@[q])));
                        self.lemma_has_member(IdFact::Sub(ci, ps@[q]));
                    },
                    _ => {},
                }
            },
            FactV::Disjoint(a, b) => {
                let k = choose|k: int| 0 <= k < axs.len() && #[trigger] axs[k] == AxiomV::DisjointClasses(a, b);
                assert(iax_means(nm, iaxs[k], axs[k]) && self.loaded(iaxs[k]));
                if let IAx::Dis(x, y) = iaxs[k] { self.lemma_has_member(IdFact::Disjoint(x, y)); }
            },
            FactV::Assert(a, b) => {
                let k = choose|k: int| 0 <= k < axs.len() && #[trigger] axs[k] == AxiomV::ClassAssertion(a, b);
                assert(iax_means(nm, iaxs[k], axs[k]) && self.loaded(iaxs[k]));
                if let IAx::Asr(x, y) = iaxs[k] { self.lemma_has_member(IdFact::Assert(x, y)); }
            },
            FactV::Ex(a, b, c) => {
                let k = choose|k: int| 0 <= k < axs.len() && #[trigger] axs[k] == AxiomV::SubClassOfExistential(a, b, c);
                assert(iax_means(nm, iaxs[k], axs[k]) && self.loaded(iaxs[k]));
                if let IAx::Ex(x, y, z) = iaxs[k] { self.lemma_has_member(IdFact::Ex(x, y, z)); }
            },
            FactV::Range(a, b) => {
                let k = choose|k: int| 0 <= k < axs.len() && #[trigger] axs[k] == AxiomV::PropertyRange(a, b);
                assert(iax_means(nm, iaxs[k], axs[k]) && self.loaded(iaxs[k]));
                if let IAx::Rng(x, y) = iaxs[k] { self.lemma_has_member(IdFact::Range(x, y)); }
            },
            FactV::Domain(a, b) => {
                let k = choose|k: int| 0 <= k < axs.len() && #[trigger] axs[k] == AxiomV::PropertyDomain(a, b);
                assert(iax_means(nm, iaxs[k], axs[k]) && self.loaded(iaxs[k]));
                if let IAx::Dom(x, y) = iaxs[k] { self.lemma_has_member(IdFact::Domain(x, y)); }
            },
            _ => {},
        }
    }

    /// Every edge of the told hierarchy is a held subsumption.
    spec fn edges_held(&self, axs: Seq<AxiomV>) -> bool {
        forall|c: Seq<char>, x: Seq<char>| #[trigger] sub_edge(axs, c, x) ==>
            exists|ci: usize, xi: usize| ci < self.n() && xi < self.n() && self.nm()[ci as int] == c
                && self.nm()[xi as int] == x && #[trigger] self.has(IdFact::Sub(ci, xi))
    }

    /// Held subsumptions are closed under the edges of the told hierarchy.
    spec fn trans_closed(&self, axs: Seq<AxiomV>) -> bool {
        forall|ci: usize, di: usize, x: Seq<char>|
            #![trigger self.has(IdFact::Sub(ci, di)), sub_edge(axs, self.nm()[di as int], x)]
            ci < self.n() && di < self.n() && self.has(IdFact::Sub(ci, di)) && sub_edge(axs, self.nm()[di as int], x) ==>
            exists|xi: usize| xi < self.n() && self.nm()[xi as int] == x && #[trigger] self.has(IdFact::Sub(ci, xi))
    }

    /// R-disj has been applied everywhere.
    spec fn disj_closed(&self) -> bool {
        forall|c: int, k: int| #![trigger self.disj@[k], self.rows@[c]] 0 <= c < self.n() && 0 <= k < self.disj@.len()
            && self.rows@[c]@.len() > 0
            && (c == self.disj@[k].0 || self.has(IdFact::Sub(c as usize, self.disj@[k].0)))
            && (c == self.disj@[k].1 || self.has(IdFact::Sub(c as usize, self.disj@[k].1)))
            ==> self.has(IdFact::Unsat(c as usize))
    }

    /// The disjointness-sided pairs have been applied everywhere.
    spec fn seeds_closed(&self) -> bool {
        forall|k1: int, k2: int| 0 <= k1 < self.exs@.len() && 0 <= k2 < self.ranges@.len()
            && (#[trigger] self.exs@[k1]).1 == (#[trigger] self.ranges@[k2]).0
            && self.exs@[k1].2 != self.ranges@[k2].1
            && self.pair_cond(self.exs@[k1].2, self.ranges@[k2].1)
            ==> self.has(IdFact::PairUnsat(self.exs@[k1].2, self.ranges@[k2].1))
                && self.has(IdFact::Unsat(self.exs@[k1].0))
    }

    /// Every refutation has been propagated.
    spec fn unsat_done(&self) -> bool {
        forall|x: usize| #[trigger] self.has(IdFact::Unsat(x)) ==> self.done(x)
    }

    /// R-inst has been applied everywhere.
    spec fn inst_closed(&self) -> bool {
        forall|k: int| 0 <= k < self.asserts@.len() && self.has(IdFact::Unsat((#[trigger] self.asserts@[k]).0))
            ==> self.has(IdFact::KbRefuted(self.asserts@[k].1, self.asserts@[k].0))
    }

    /// The held facts are closed under every rule.
    spec fn closed(&self, axs: Seq<AxiomV>, iaxs: Seq<IAx>) -> bool {
        &&& self.all_loaded(axs, iaxs)
        &&& self.edges_held(axs)
        &&& self.trans_closed(axs)
        &&& self.disj_closed()
        &&& self.seeds_closed()
        &&& self.unsat_done()
        &&& self.inst_closed()
        &&& self.pairs_ok()
    }

    /// Distinct ids name distinct classes.
    proof fn lemma_same_id(&self, i: usize, j: usize)
        requires
            self.inv(),
            i < self.n(),
            j < self.n(),
            self.nm()[i as int] == self.nm()[j as int],
        ensures
            i == j,
    {
    }

    /// `below` over conclusions is `below_id` over ids.
    proof fn lemma_below(&self, xi: usize, ai: usize)
        requires
            self.inv(),
            xi < self.n(),
            ai < self.n(),
            below(member(concl(self.steps@)), self.nm()[xi as int], self.nm()[ai as int]),
        ensures
            self.below_id(xi, ai),
    {
        let nm = self.nm();
        if nm[xi as int] == nm[ai as int] {
            self.lemma_same_id(xi, ai);
        } else {
            let y = self.lemma_member_id(FactV::Sub(nm[xi as int], nm[ai as int]));
            lemma_fv_injective(nm, y, IdFact::Sub(xi, ai));
        }
    }

    /// Closure under the subsumption rules.
    proof fn lemma_fires_sub(&self, axs: Seq<AxiomV>, iaxs: Seq<IAx>, c: Seq<char>, e: Seq<char>)
        requires
            self.inv(),
            self.closed(axs, iaxs),
            fires(axs, member(concl(self.steps@)), FactV::Sub(c, e)),
        ensures
            member(concl(self.steps@))(FactV::Sub(c, e)),
    {
        let nm = self.nm();
        let p = member(concl(self.steps@));
        if domain_typed(axs, c, e) {
            assert(sub_edge(axs, c, e));
            let (ci, xi) = choose|ci: usize, xi: usize| ci < self.n() && xi < self.n() && nm[ci as int] == c
                && nm[xi as int] == e && #[trigger] self.has(IdFact::Sub(ci, xi));
            self.lemma_has_member(IdFact::Sub(ci, xi));
        } else {
            let d = choose|d: Seq<char>| #[trigger] p(FactV::Sub(c, d)) && sub_edge(axs, d, e);
            let y = self.lemma_member_id(FactV::Sub(c, d));
            if let IdFact::Sub(ci, di) = y {
                assert(self.has(IdFact::Sub(ci, di)) && sub_edge(axs, nm[di as int], e));
                let xi = choose|xi: usize| xi < self.n() && nm[xi as int] == e && #[trigger] self.has(IdFact::Sub(ci, xi));
                self.lemma_has_member(IdFact::Sub(ci, xi));
            }
        }
    }

    /// Where a held fact is listed.
    proof fn lemma_listed(&self, y: IdFact)
        requires
            self.inv(),
            self.has(y),
        ensures
            y matches IdFact::Ex(a, b, c) ==> exists|k: int| 0 <= k < self.exs@.len() && (#[trigger] self.exs@[k]).0 == a && self.exs@[k].1 == b && self.exs@[k].2 == c,
            y matches IdFact::Range(a, b) ==> exists|k: int| 0 <= k < self.ranges@.len() && (#[trigger] self.ranges@[k]).0 == a && self.ranges@[k].1 == b,
            y matches IdFact::Disjoint(a, b) ==> exists|k: int| 0 <= k < self.disj@.len() && (#[trigger] self.disj@[k]).0 == a && self.disj@[k].1 == b,
            y matches IdFact::Assert(a, b) ==> exists|k: int| 0 <= k < self.asserts@.len() && (#[trigger] self.asserts@[k]).0 == a && self.asserts@[k].1 == b,
            y matches IdFact::Domain(a, b) ==> exists|k: int| 0 <= k < self.domains@.len() && (#[trigger] self.domains@[k]).0 == a && self.domains@[k].1 == b,
            y matches IdFact::Sub(a, b) ==> self.rows@[a as int]@.len() > 0,
    {
        let j = choose|j: int| 0 <= j < self.idf@.len() && self.idf@[j] == y;
        assert(ids_ok(self.idf@[j], self.n()));
        match y {
            IdFact::Ex(a, b, c) => {
                let k = choose|k: int| 0 <= k < self.exs@.len() && self.exs@[k] == (a, b, c, j as usize);
                assert(self.exs@[k].0 == a && self.exs@[k].1 == b && self.exs@[k].2 == c);
            },
            IdFact::Range(a, b) => {
                let k = choose|k: int| 0 <= k < self.ranges@.len() && self.ranges@[k] == (a, b, j as usize);
                assert(self.ranges@[k].0 == a && self.ranges@[k].1 == b);
            },
            IdFact::Disjoint(a, b) => {
                let k = choose|k: int| 0 <= k < self.disj@.len() && self.disj@[k] == (a, b, j as usize);
                assert(self.disj@[k].0 == a && self.disj@[k].1 == b);
            },
            IdFact::Assert(a, b) => {
                let k = choose|k: int| 0 <= k < self.asserts@.len() && self.asserts@[k] == (a, b, j as usize);
                assert(self.asserts@[k].0 == a && self.asserts@[k].1 == b);
            },
            IdFact::Domain(a, b) => {
                let k = choose|k: int| 0 <= k < self.domains@.len() && self.domains@[k] == (a, b, j as usize);
                assert(self.domains@[k].0 == a && self.domains@[k].1 == b);
            },
            IdFact::Sub(a, b) => {
                let k = choose|k: int| 0 <= k < self.rows@[a as int]@.len() && self.rows@[a as int]@[k] == (b, j as usize);
            },
            _ => {},
        }
    }

    /// Where a held refutation of the knowledge base is listed.
    proof fn lemma_listed_kbr(&self, i: usize, c: usize)
        requires
            self.inv(),
            self.has(IdFact::KbRefuted(i, c)),
        ensures
            exists|k: int| 0 <= k < self.kbr@.len() && (#[trigger] self.kbr@[k]).0 == i && self.kbr@[k].1 == c,
    {
        let j = choose|j: int| 0 <= j < self.idf@.len() && self.idf@[j] == IdFact::KbRefuted(i, c);
        let k = choose|k: int| 0 <= k < self.kbr@.len() && self.kbr@[k] == (i, c, j as usize);
        assert(self.kbr@[k].0 == i && self.kbr@[k].1 == c);
    }

    /// Closure under the refutation rules.
    #[verifier::rlimit(80)]
    proof fn lemma_fires_unsat(&self, axs: Seq<AxiomV>, iaxs: Seq<IAx>, c: Seq<char>)
        requires
            self.inv(),
            self.closed(axs, iaxs),
            fires(axs, member(concl(self.steps@)), FactV::Unsat(c)),
        ensures
            member(concl(self.steps@))(FactV::Unsat(c)),
    {
        let nm = self.nm();
        let p = member(concl(self.steps@));
        if disj_clash(p, c) {
            let (a, b) = choose|a: Seq<char>, b: Seq<char>| #[trigger] p(FactV::Disjoint(a, b)) && below(p, c, a) && below(p, c, b);
            let x = choose|x: Seq<char>| #[trigger] p(FactV::Sub(c, x));
            let yd = self.lemma_member_id(FactV::Disjoint(a, b));
            let ys = self.lemma_member_id(FactV::Sub(c, x));
            if let (IdFact::Disjoint(ai, bi), IdFact::Sub(ci, xi)) = (yd, ys) {
                self.lemma_listed(yd);
                self.lemma_listed(ys);
                let k = choose|k: int| 0 <= k < self.disj@.len() && (#[trigger] self.disj@[k]).0 == ai && self.disj@[k].1 == bi;
                self.lemma_below(ci, ai);
                self.lemma_below(ci, bi);
                assert(self.rows@[ci as int]@.len() > 0);
                assert(self.has(IdFact::Unsat(ci)));
                self.lemma_has_member(IdFact::Unsat(ci));
            }
        } else if exists|r: Seq<char>, d: Seq<char>, e: Seq<char>|
            #[trigger] p(FactV::Ex(c, r, d)) && #[trigger] p(FactV::Range(r, e)) && p(FactV::PairUnsat(d, e)) {
            let (r, d, e) = choose|r: Seq<char>, d: Seq<char>, e: Seq<char>|
                #[trigger] p(FactV::Ex(c, r, d)) && #[trigger] p(FactV::Range(r, e)) && p(FactV::PairUnsat(d, e));
            let yx = self.lemma_member_id(FactV::Ex(c, r, d));
            let yr = self.lemma_member_id(FactV::Range(r, e));
            let yp = self.lemma_member_id(FactV::PairUnsat(d, e));
            if let (IdFact::Ex(ci, ri, di), IdFact::Range(ri2, ei), IdFact::PairUnsat(di2, ei2)) = (yx, yr, yp) {
                self.lemma_same_id(ri, ri2);
                self.lemma_same_id(di, di2);
                self.lemma_same_id(ei, ei2);
                self.lemma_listed(yx);
                self.lemma_listed(yr);
                let k1 = choose|k: int| 0 <= k < self.exs@.len() && (#[trigger] self.exs@[k]).0 == ci && self.exs@[k].1 == ri && self.exs@[k].2 == di;
                let k2 = choose|k: int| 0 <= k < self.ranges@.len() && (#[trigger] self.ranges@[k]).0 == ri && self.ranges@[k].1 == ei;
                if self.has(IdFact::Unsat(ei)) {
                    assert(self.done(ei));
                    assert(self.ranges@[k2].1 == ei && self.exs@[k1].1 == self.ranges@[k2].0);
                } else {
                    assert(di != ei && self.pair_cond(di, ei));
                }
                assert(self.has(IdFact::Unsat(ci)));
                self.lemma_has_member(IdFact::Unsat(ci));
            }
        } else if exists|r: Seq<char>, d: Seq<char>| #[trigger] p(FactV::Ex(c, r, d)) && p(FactV::Unsat(d)) {
            let (r, d) = choose|r: Seq<char>, d: Seq<char>| #[trigger] p(FactV::Ex(c, r, d)) && p(FactV::Unsat(d));
            let yx = self.lemma_member_id(FactV::Ex(c, r, d));
            let yu = self.lemma_member_id(FactV::Unsat(d));
            if let (IdFact::Ex(ci, ri, di), IdFact::Unsat(di2)) = (yx, yu) {
                self.lemma_same_id(di, di2);
                self.lemma_listed(yx);
                let k1 = choose|k: int| 0 <= k < self.exs@.len() && (#[trigger] self.exs@[k]).0 == ci && self.exs@[k].1 == ri && self.exs@[k].2 == di;
                assert(self.done(di));
                assert(self.has(IdFact::Unsat(ci)));
                self.lemma_has_member(IdFact::Unsat(ci));
            }
        } else {
            let x = choose|x: Seq<char>| #[trigger] p(FactV::Sub(c, x)) && p(FactV::Unsat(x));
            let ys = self.lemma_member_id(FactV::Sub(c, x));
            let yu = self.lemma_member_id(FactV::Unsat(x));
            if let (IdFact::Sub(ci, xi), IdFact::Unsat(xi2)) = (ys, yu) {
                self.lemma_same_id(xi, xi2);
                assert(self.done(xi));
                assert(self.has(IdFact::Unsat(ci)));
                self.lemma_has_member(IdFact::Unsat(ci));
            }
        }
    }

    /// Closure under R-conj-unsat.
    #[verifier::rlimit(80)]
    proof fn lemma_fires_pairunsat(&self, axs: Seq<AxiomV>, iaxs: Seq<IAx>, d: Seq<char>, e: Seq<char>)
        requires
            self.inv(),
            self.closed(axs, iaxs),
            fires(axs, member(concl(self.steps@)), FactV::PairUnsat(d, e)),
        ensures
            member(concl(self.steps@))(FactV::PairUnsat(d, e)),
    {
        let nm = self.nm();
        let p = member(concl(self.steps@));
        let (s0, r) = choose|s0: Seq<char>, r: Seq<char>|
            #[trigger] p(FactV::Ex(s0, r, d)) && p(FactV::Range(r, e)) && (pair_disjoint(p, d, e) || p(FactV::Unsat(e)));
        let yx = self.lemma_member_id(FactV::Ex(s0, r, d));
        let yr = self.lemma_member_id(FactV::Range(r, e));
        if let (IdFact::Ex(si, ri, di), IdFact::Range(ri2, ei)) = (yx, yr) {
            self.lemma_same_id(ri, ri2);
            self.lemma_listed(yx);
            self.lemma_listed(yr);
            let k1 = choose|k: int| 0 <= k < self.exs@.len() && (#[trigger] self.exs@[k]).0 == si && self.exs@[k].1 == ri && self.exs@[k].2 == di;
            let k2 = choose|k: int| 0 <= k < self.ranges@.len() && (#[trigger] self.ranges@[k]).0 == ri && self.ranges@[k].1 == ei;
            if p(FactV::Unsat(e)) {
                let yu = self.lemma_member_id(FactV::Unsat(e));
                if let IdFact::Unsat(ei2) = yu {
                    self.lemma_same_id(ei, ei2);
                    assert(self.done(ei));
                    assert(self.ranges@[k2].1 == ei && self.exs@[k1].1 == self.ranges@[k2].0);
                }
            } else {
                let (a, b) = choose|a: Seq<char>, b: Seq<char>|
                    #[trigger] p(FactV::Disjoint(a, b)) && ((below(p, d, a) && below(p, e, b)) || (below(p, d, b) && below(p, e, a)));
                let yd = self.lemma_member_id(FactV::Disjoint(a, b));
                if let IdFact::Disjoint(ai, bi) = yd {
                    self.lemma_listed(yd);
                    let k = choose|k: int| 0 <= k < self.disj@.len() && (#[trigger] self.disj@[k]).0 == ai && self.disj@[k].1 == bi;
                    if below(p, d, a) && below(p, e, b) {
                        self.lemma_below(di, ai);
                        self.lemma_below(ei, bi);
                    } else {
                        self.lemma_below(di, bi);
                        self.lemma_below(ei, ai);
                    }
                    assert(self.pair_cond(di, ei));
                    assert(di != ei);
                }
            }
            assert(self.has(IdFact::PairUnsat(di, ei)));
            self.lemma_has_member(IdFact::PairUnsat(di, ei));
        }
    }

    /// Closure under R-inst.
    proof fn lemma_fires_kbr(&self, axs: Seq<AxiomV>, iaxs: Seq<IAx>, i: Seq<char>, c: Seq<char>)
        requires
            self.inv(),
            self.closed(axs, iaxs),
            fires(axs, member(concl(self.steps@)), FactV::KbRefuted(i, c)),
        ensures
            member(concl(self.steps@))(FactV::KbRefuted(i, c)),
    {
        let ya = self.lemma_member_id(FactV::Assert(c, i));
        let yu = self.lemma_member_id(FactV::Unsat(c));
        if let (IdFact::Assert(ci, ii), IdFact::Unsat(ci2)) = (ya, yu) {
            self.lemma_same_id(ci, ci2);
            self.lemma_listed(ya);
            let k = choose|k: int| 0 <= k < self.asserts@.len() && (#[trigger] self.asserts@[k]).0 == ci && self.asserts@[k].1 == ii;
            assert(self.has(IdFact::KbRefuted(ii, ci)));
            self.lemma_has_member(IdFact::KbRefuted(ii, ci));
        }
    }

    /// The proof's conclusions are exactly the closure of the rules over the axioms.
    proof fn lemma_complete(&self, axs: Seq<AxiomV>, iaxs: Seq<IAx>)
        requires
            self.inv(),
            self.sound(axs),
            self.closed(axs, iaxs),
        ensures
            forall|g: FactV| #[trigger] member(concl(self.steps@))(g) <==> in_closure(axs, g),
    {
        let p = member(concl(self.steps@));
        assert forall|g: FactV| #[trigger] base_fact(axs, g) implies p(g) by {
            self.lemma_base_held(axs, iaxs, g);
        }
        assert forall|g: FactV| #[trigger] fires(axs, p, g) implies p(g) by {
            match g {
                FactV::Sub(c, e) => self.lemma_fires_sub(axs, iaxs, c, e),
                FactV::Unsat(c) => self.lemma_fires_unsat(axs, iaxs, c),
                FactV::PairUnsat(d, e) => self.lemma_fires_pairunsat(axs, iaxs, d, e),
                FactV::KbRefuted(i, c) => self.lemma_fires_kbr(axs, iaxs, i, c),
                _ => {},
            }
        }
        assert forall|g: FactV| #[trigger] p(g) <==> in_closure(axs, g) by {
            if in_closure(axs, g) {
                lemma_least(axs, p, g);
            }
            if p(g) {
                assert(is_derivation(axs, concl(self.steps@)) && concl(self.steps@).contains(g));
            }
        }
    }

    /// After domain typing every edge of the told hierarchy is held.
    proof fn lemma_edges_held(&self, axs: Seq<AxiomV>, iaxs: Seq<IAx>)
        requires
            self.inv(),
            self.all_loaded(axs, iaxs),
            forall|k1: int, k2: int| 0 <= k1 < self.exs@.len() && 0 <= k2 < self.domains@.len()
                && (#[trigger] self.exs@[k1]).1 == (#[trigger] self.domains@[k2]).0 ==>
                self.has(IdFact::Sub(self.exs@[k1].0, self.domains@[k2].1)),
        ensures
            self.edges_held(axs),
    {
        let nm = self.nm();
        assert forall|c: Seq<char>, x: Seq<char>| #[trigger] sub_edge(axs, c, x) implies
            exists|ci: usize, xi: usize| ci < self.n() && xi < self.n() && nm[ci as int] == c
                && nm[xi as int] == x && #[trigger] self.has(IdFact::Sub(ci, xi)) by {
            if told_sub(axs, c, x) {
                self.lemma_base_held(axs, iaxs, FactV::Sub(c, x));
                let y = self.lemma_member_id(FactV::Sub(c, x));
                if let IdFact::Sub(ci, xi) = y {
                    assert(self.has(IdFact::Sub(ci, xi)));
                }
            } else {
                let (r, d) = choose|r: Seq<char>, d: Seq<char>|
                    #[trigger] base_fact(axs, FactV::Ex(c, r, d)) && base_fact(axs, FactV::Domain(r, x));
                self.lemma_base_held(axs, iaxs, FactV::Ex(c, r, d));
                self.lemma_base_held(axs, iaxs, FactV::Domain(r, x));
                let yx = self.lemma_member_id(FactV::Ex(c, r, d));
                let yd = self.lemma_member_id(FactV::Domain(r, x));
                if let (IdFact::Ex(ci, ri, di), IdFact::Domain(ri2, xi)) = (yx, yd) {
                    self.lemma_same_id(ri, ri2);
                    self.lemma_listed(yx);
                    self.lemma_listed(yd);
                    let k1 = choose|k: int| 0 <= k < self.exs@.len() && (#[trigger] self.exs@[k]).0 == ci && self.exs@[k].1 == ri && self.exs@[k].2 == di;
                    let k2 = choose|k: int| 0 <= k < self.domains@.len() && (#[trigger] self.domains@[k]).0 == ri && self.domains@[k].1 == xi;
                    assert(self.has(IdFact::Sub(ci, xi)));
                }
            }
        }
    }

    /// After the told closure, held subsumptions are closed under the edges.
    proof fn lemma_trans_closed(&self, e2: &Self, axs: Seq<AxiomV>, edges: Seq<Vec<(usize, usize)>>)
        requires
            self.inv(),
            e2.inv(),
            e2.edges_held(axs),
            self.names == e2.names,
            edges.len() == e2.n(),
            forall|d: int| 0 <= d < e2.n() ==> (#[trigger] edges[d])@ == e2.rows@[d]@,
            forall|c: int| 0 <= c < self.n() ==> self.row_closed(edges, c, self.rows@[c]@.len() as int),
        ensures
            self.trans_closed(axs),
    {
        let nm = self.nm();
        assert forall|ci: usize, di: usize, x: Seq<char>|
            ci < self.n() && di < self.n() && #[trigger] self.has(IdFact::Sub(ci, di)) && #[trigger] sub_edge(axs, nm[di as int], x) implies
            exists|xi: usize| xi < self.n() && nm[xi as int] == x && #[trigger] self.has(IdFact::Sub(ci, xi)) by {
            let (di2, xi) = choose|ci2: usize, xi: usize| ci2 < e2.n() && xi < e2.n() && nm[ci2 as int] == nm[di as int]
                && nm[xi as int] == x && #[trigger] e2.has(IdFact::Sub(ci2, xi));
            self.lemma_same_id(di, di2);
            let j = choose|j: int| 0 <= j < e2.idf@.len() && e2.idf@[j] == IdFact::Sub(di, xi);
            assert(e2.idf@[j] matches IdFact::Sub(a, b));
            let q = choose|q: int| 0 <= q < e2.rows@[di as int]@.len() && e2.rows@[di as int]@[q] == (xi, j as usize);
            let j2 = choose|j: int| 0 <= j < self.idf@.len() && self.idf@[j] == IdFact::Sub(ci, di);
            assert(self.idf@[j2] matches IdFact::Sub(a, b));
            let k = choose|k: int| 0 <= k < self.rows@[ci as int]@.len() && self.rows@[ci as int]@[k] == (di, j2 as usize);
            assert(self.row_closed(edges, ci as int, self.rows@[ci as int]@.len() as int));
            assert(edges[self.rows@[ci as int]@[k].0 as int]@[q] == (xi, j as usize));
            assert(self.has(IdFact::Sub(ci, xi)));
        }
    }

    /// Loading and the told edges carry over to any state that only added facts.
    proof fn lemma_mono(&self, old: &Self, axs: Seq<AxiomV>, iaxs: Seq<IAx>)
        requires
            self.names == old.names,
            forall|y: IdFact| #[trigger] old.has(y) ==> self.has(y),
        ensures
            old.all_loaded(axs, iaxs) ==> self.all_loaded(axs, iaxs),
            old.edges_held(axs) ==> self.edges_held(axs),
    {
        let nm = self.nm();
        if old.all_loaded(axs, iaxs) {
            assert forall|k: int| 0 <= k < axs.len() implies iax_means(nm, #[trigger] iaxs[k], axs[k]) && self.loaded(iaxs[k]) by {
                assert(old.loaded(iaxs[k]));
                if let IAx::Eq(c, ps) = iaxs[k] {
                    assert forall|q: int| 0 <= q < ps@.len() implies self.has(IdFact::Sub(c, #[trigger] ps@[q])) by {
                        assert(old.has(IdFact::Sub(c, ps@[q])));
                    }
                }
            }
        }
        if old.edges_held(axs) {
            assert forall|c: Seq<char>, x: Seq<char>| #[trigger] sub_edge(axs, c, x) implies
                exists|ci: usize, xi: usize| ci < self.n() && xi < self.n() && nm[ci as int] == c
                    && nm[xi as int] == x && #[trigger] self.has(IdFact::Sub(ci, xi)) by {
                let (ci, xi) = choose|ci: usize, xi: usize| ci < old.n() && xi < old.n() && nm[ci as int] == c
                    && nm[xi as int] == x && #[trigger] old.has(IdFact::Sub(ci, xi));
                assert(self.has(IdFact::Sub(ci, xi)));
            }
        }
    }

    /// What later phases keep: they add no subsumption and change no input list.
    spec fn later(&self, old: &Self) -> bool {
        &&& self.names == old.names
        &&& self.exs == old.exs && self.domains == old.domains && self.ranges == old.ranges
        &&& self.disj == old.disj && self.asserts == old.asserts && self.rows == old.rows
        &&& forall|y: IdFact| #[trigger] old.has(y) ==> self.has(y)
        &&& forall|c: usize, d: usize| #[trigger] self.has(IdFact::Sub(c, d)) ==> old.has(IdFact::Sub(c, d))
    }

    /// The closure properties carry over to a later state.
    proof fn lemma_up(&self, old: &Self, axs: Seq<AxiomV>, iaxs: Seq<IAx>)
        requires
            self.later(old),
        ensures
            old.all_loaded(axs, iaxs) ==> self.all_loaded(axs, iaxs),
            old.edges_held(axs) ==> self.edges_held(axs),
            old.trans_closed(axs) ==> self.trans_closed(axs),
            old.disj_closed() ==> self.disj_closed(),
            old.seeds_closed() ==> self.seeds_closed(),
            forall|x: usize| #[trigger] old.done(x) ==> self.done(x),
            forall|d: usize, e: usize| #[trigger] self.pair_cond(d, e) == old.pair_cond(d, e),
    {
        let nm = self.nm();
        assert forall|a: usize, b: usize| old.below_id(a, b) == self.below_id(a, b) by {
            if self.has(IdFact::Sub(a, b)) {
                assert(old.has(IdFact::Sub(a, b)));
            }
        }
        assert forall|d: usize, e: usize| #[trigger] self.pair_cond(d, e) == old.pair_cond(d, e) by {}
        self.lemma_mono(old, axs, iaxs);
        if old.trans_closed(axs) {
            assert forall|ci: usize, di: usize, x: Seq<char>|
                ci < self.n() && di < self.n() && #[trigger] self.has(IdFact::Sub(ci, di)) && #[trigger] sub_edge(axs, nm[di as int], x) implies
                exists|xi: usize| xi < self.n() && nm[xi as int] == x && #[trigger] self.has(IdFact::Sub(ci, xi)) by {
                assert(old.has(IdFact::Sub(ci, di)));
                let xi = choose|xi: usize| xi < old.n() && nm[xi as int] == x && #[trigger] old.has(IdFact::Sub(ci, xi));
                assert(self.has(IdFact::Sub(ci, xi)));
            }
        }
        if old.disj_closed() {
            assert forall|c: int, k: int| #![trigger self.disj@[k], self.rows@[c]] 0 <= c < self.n() && 0 <= k < self.disj@.len()
                && self.rows@[c]@.len() > 0
                && (c == self.disj@[k].0 || self.has(IdFact::Sub(c as usize, self.disj@[k].0)))
                && (c == self.disj@[k].1 || self.has(IdFact::Sub(c as usize, self.disj@[k].1)))
                implies self.has(IdFact::Unsat(c as usize)) by {
                assert(old.disj@[k] == self.disj@[k]);
                assert(old.rows@[c] == self.rows@[c]);
                if c != self.disj@[k].0 { assert(old.has(IdFact::Sub(c as usize, self.disj@[k].0))); }
                if c != self.disj@[k].1 { assert(old.has(IdFact::Sub(c as usize, self.disj@[k].1))); }
                assert(old.has(IdFact::Unsat(c as usize)));
            }
        }
        if old.seeds_closed() {
            assert forall|k1: int, k2: int| 0 <= k1 < self.exs@.len() && 0 <= k2 < self.ranges@.len()
                && (#[trigger] self.exs@[k1]).1 == (#[trigger] self.ranges@[k2]).0
                && self.exs@[k1].2 != self.ranges@[k2].1
                && self.pair_cond(self.exs@[k1].2, self.ranges@[k2].1)
                implies self.has(IdFact::PairUnsat(self.exs@[k1].2, self.ranges@[k2].1))
                    && self.has(IdFact::Unsat(self.exs@[k1].0)) by {
                assert(old.exs@[k1] == self.exs@[k1]);
                assert(old.ranges@[k2] == self.ranges@[k2]);
                assert(old.pair_cond(self.exs@[k1].2, self.ranges@[k2].1));
                assert(old.has(IdFact::PairUnsat(self.exs@[k1].2, self.ranges@[k2].1)));
                assert(old.has(IdFact::Unsat(self.exs@[k1].0)));
            }
        }
        assert forall|x: usize| #[trigger] old.done(x) implies self.done(x) by {
            assert forall|c: usize| c < self.n() && #[trigger] self.has(IdFact::Sub(c, x)) implies self.has(IdFact::Unsat(c)) by {
                assert(old.has(IdFact::Sub(c, x)));
                assert(old.has(IdFact::Unsat(c)));
            }
            assert forall|k: int| 0 <= k < self.exs@.len() && (#[trigger] self.exs@[k]).2 == x implies self.has(IdFact::Unsat(self.exs@[k].0)) by {
                assert(old.exs@[k] == self.exs@[k]);
                assert(old.has(IdFact::Unsat(self.exs@[k].0)));
            }
            assert forall|k2: int, k: int| 0 <= k2 < self.ranges@.len() && 0 <= k < self.exs@.len()
                && (#[trigger] self.ranges@[k2]).1 == x && (#[trigger] self.exs@[k]).1 == self.ranges@[k2].0
                implies self.has(IdFact::PairUnsat(self.exs@[k].2, x)) && self.has(IdFact::Unsat(self.exs@[k].0)) by {
                assert(old.ranges@[k2] == self.ranges@[k2]);
                assert(old.exs@[k] == self.exs@[k]);
                assert(old.has(IdFact::PairUnsat(self.exs@[k].2, x)));
                assert(old.has(IdFact::Unsat(self.exs@[k].0)));
            }
        }
    }

    /// Whether `x` is held.
    fn held(&self, x: IdFact) -> (r: bool)
        requires
            self.inv(),
            ids_ok(x, self.n()),
        ensures
            r == self.has(x),
    {
        match x {
            IdFact::Sub(c, d) => self.holds_sub(c, d).is_some(),
            IdFact::Unsat(c) => self.holds_unsat(c).is_some(),
            IdFact::Disjoint(a, b) => {
                let r = find2(&self.disj, a, b);
                if r.is_none() {
                    assert forall|j: int| 0 <= j < self.len() implies self.idf@[j] != x by {
                        if self.idf@[j] == x {
                            assert(self.idf@[j] matches IdFact::Disjoint(a0, b0));
                        }
                    }
                }
                r.is_some()
            },
            IdFact::Assert(a, b) => {
                let r = find2(&self.asserts, a, b);
                if r.is_none() {
                    assert forall|j: int| 0 <= j < self.len() implies self.idf@[j] != x by {
                        if self.idf@[j] == x {
                            assert(self.idf@[j] matches IdFact::Assert(a0, b0));
                        }
                    }
                }
                r.is_some()
            },
            IdFact::Range(a, b) => {
                let r = find2(&self.ranges, a, b);
                if r.is_none() {
                    assert forall|j: int| 0 <= j < self.len() implies self.idf@[j] != x by {
                        if self.idf@[j] == x {
                            assert(self.idf@[j] matches IdFact::Range(a0, b0));
                        }
                    }
                }
                r.is_some()
            },
            IdFact::Domain(a, b) => {
                let r = find2(&self.domains, a, b);
                if r.is_none() {
                    assert forall|j: int| 0 <= j < self.len() implies self.idf@[j] != x by {
                        if self.idf@[j] == x {
                            assert(self.idf@[j] matches IdFact::Domain(a0, b0));
                        }
                    }
                }
                r.is_some()
            },
            IdFact::PairUnsat(a, b) => {
                let r = find2(&self.pairs, a, b);
                if r.is_none() {
                    assert forall|j: int| 0 <= j < self.len() implies self.idf@[j] != x by {
                        if self.idf@[j] == x {
                            assert(self.idf@[j] matches IdFact::PairUnsat(a0, b0));
                        }
                    }
                }
                r.is_some()
            },
            IdFact::KbRefuted(a, b) => {
                let r = find2(&self.kbr, a, b);
                if r.is_none() {
                    assert forall|j: int| 0 <= j < self.len() implies self.idf@[j] != x by {
                        if self.idf@[j] == x {
                            assert(self.idf@[j] matches IdFact::KbRefuted(a0, b0));
                        }
                    }
                }
                r.is_some()
            },
            IdFact::Ex(a, b, c) => {
                let r = find3(&self.exs, a, b, c);
                if r.is_none() {
                    assert forall|j: int| 0 <= j < self.len() implies self.idf@[j] != x by {
                        if self.idf@[j] == x {
                            assert(self.idf@[j] matches IdFact::Ex(a0, b0, c0));
                        }
                    }
                }
                r.is_some()
            },
        }
    }

    /// Append a step concluding `x`, a fact not yet held, and index it.
    fn push_step(&mut self, Ghost(axs): Ghost<Seq<AxiomV>>, x: IdFact, rule: Rule, premises: Vec<usize>, axiom_index: Option<usize>) -> (j: usize)
        requires
            old(self).inv(),
            old(self).sound(axs),
            old(self).valid(axs),
            ids_ok(x, old(self).n()),
            !old(self).has(x),
            base_fact(axs, fv(old(self).nm(), x)) || fires(axs, member(concl(old(self).steps@)), fv(old(self).nm(), x)),
            forall|k: int| 0 <= k < premises@.len() ==> #[trigger] premises@[k] < old(self).len(),
        ensures
            final(self).inv(),
            final(self).sound(axs),
            final(self).frame(old(self), x),
            j == old(self).len(),
            final(self).idf@ == old(self).idf@.push(x),
            final(self).has(x),
            forall|y: IdFact| #[trigger] old(self).has(y) ==> final(self).has(y),
            forall|y: IdFact| #[trigger] final(self).has(y) ==> old(self).has(y) || y == x,
            final(self).steps@.len() == j + 1,
            final(self).steps@.drop_last() == old(self).steps@,
            final(self).steps@[j as int].id == j,
            final(self).steps@[j as int].rule == rule,
            final(self).steps@[j as int].premises@ == premises@,
            final(self).steps@[j as int].axiom_index == axiom_index,
            final(self).steps@[j as int].conclusion@ == fv(old(self).nm(), x),
            forall|i: int| 0 <= i < j ==> step_flaw(axs, final(self).steps@, i) is None,
            match x {
                IdFact::Sub(c, d) => final(self).rows@[c as int]@ == old(self).rows@[c as int]@.push((d, j))
                    && (forall|c2: int| 0 <= c2 < final(self).n() && c2 != c ==> final(self).rows@[c2] == old(self).rows@[c2])
                    && (forall|c2: int, d2: usize| 0 <= c2 < final(self).n() && (c2 != c || d2 != d) ==>
                        (#[trigger] final(self).sub_ix@[c2]@.contains_key(d2)) == old(self).sub_ix@[c2]@.contains_key(d2)),
                IdFact::Unsat(c) => final(self).unsat_at@ == old(self).unsat_at@.update(c as int, Some(j)),
                IdFact::Disjoint(a, b) => final(self).disj@ == old(self).disj@.push((a, b, j)),
                IdFact::Assert(a, b) => final(self).asserts@ == old(self).asserts@.push((a, b, j)),
                IdFact::Ex(a, b, c) => final(self).exs@ == old(self).exs@.push((a, b, c, j)),
                IdFact::Range(a, b) => final(self).ranges@ == old(self).ranges@.push((a, b, j)),
                IdFact::Domain(a, b) => final(self).domains@ == old(self).domains@.push((a, b, j)),
                IdFact::PairUnsat(a, b) => final(self).pairs@ == old(self).pairs@.push((a, b, j)),
                IdFact::KbRefuted(a, b) => final(self).kbr@ == old(self).kbr@.push((a, b, j)),
            },
    {
        let j = self.steps.len();
        let conclusion = make_fact(&self.names, x);
        let step = Step { id: j, rule, premises, axiom_index, conclusion };
        let ghost old_steps = self.steps@;
        self.steps.push(step);
        self.idf.push(x);
        match x {
            IdFact::Sub(c, d) => {
                let ghost om = self.sub_ix@;
                let ghost orow = self.rows@;
                self.sub_ix[c].insert(d, j);
                self.rows[c].push((d, j));
                assert(self.sub_ix@[c as int]@ == om[c as int]@.insert(d, j));
                assert(forall|c2: int| 0 <= c2 < om.len() && c2 != c ==> self.sub_ix@[c2] == om[c2]);
                assert(self.rows@[c as int]@ == orow[c as int]@.push((d, j)));
                assert(forall|c2: int| 0 <= c2 < orow.len() && c2 != c ==> self.rows@[c2] == orow[c2]);
            },
            IdFact::Unsat(c) => {
                self.unsat_at.set(c, Some(j));
            },
            IdFact::Disjoint(a, b) => self.disj.push((a, b, j)),
            IdFact::Assert(a, b) => self.asserts.push((a, b, j)),
            IdFact::Ex(a, b, c) => self.exs.push((a, b, c, j)),
            IdFact::Range(a, b) => self.ranges.push((a, b, j)),
            IdFact::Domain(a, b) => self.domains.push((a, b, j)),
            IdFact::PairUnsat(a, b) => self.pairs.push((a, b, j)),
            IdFact::KbRefuted(a, b) => self.kbr.push((a, b, j)),
        }
        proof {
            assert(concl(self.steps@) =~= concl(old_steps).push(fv(self.nm(), x)));
            lemma_derivation_push(axs, concl(old_steps), fv(self.nm(), x));
            assert(self.steps@ =~= old_steps.push(self.steps@[j as int]));
            assert forall|i: int| 0 <= i < j implies step_flaw(axs, self.steps@, i) == step_flaw(axs, old_steps, i) by {
                lemma_flaw_push(axs, old_steps, self.steps@[j as int], i);
            }
            assert(self.steps@.drop_last() =~= old_steps);
            {
                assert forall|i: int| 0 <= i < j implies step_flaw(axs, self.steps@, i) is None by {
                    lemma_flaw_push(axs, old_steps, self.steps@[j as int], i);
                    assert(step_flaw(axs, old_steps, i) is None);
                }
            }
            let ghost o = old(self);
            assert forall|i: int| 0 <= i < j implies #[trigger] self.idf@[i] == o.idf@[i] by {}
            assert(self.idf@[j as int] == x);
            assert forall|y: IdFact| #[trigger] o.has(y) implies self.has(y) by {
                let i = choose|i: int| 0 <= i < o.idf@.len() && o.idf@[i] == y;
                assert(self.idf@[i] == y);
            }
            assert forall|y: IdFact| #[trigger] self.has(y) implies o.has(y) || y == x by {
                let i = choose|i: int| 0 <= i < self.idf@.len() && self.idf@[i] == y;
                if i < j {
                    assert(o.idf@[i] == y);
                }
            }
            assert(self.steps_ok());
            assert forall|i: int| 0 <= i < self.len() implies (#[trigger] self.idf@[i] matches IdFact::Sub(c, d) ==>
                self.sub_ix@[c as int]@.contains_key(d) && self.sub_ix@[c as int]@[d] == i
                && exists|k: int| 0 <= k < self.rows@[c as int]@.len() && self.rows@[c as int]@[k] == (d, i as usize)) by {
                if let IdFact::Sub(c, d) = self.idf@[i] {
                    if i < j {
                        assert(o.idf@[i] == IdFact::Sub(c, d));
                        assert(o.sub_ix@[c as int]@.contains_key(d) && o.sub_ix@[c as int]@[d] == i);
                        assert(exists|k: int| 0 <= k < o.rows@[c as int]@.len() && o.rows@[c as int]@[k] == (d, i as usize));
                        let k = choose|k: int| 0 <= k < o.rows@[c as int]@.len() && o.rows@[c as int]@[k] == (d, i as usize);
                        assert(c < o.n());
                        if let IdFact::Sub(c1, d1) = x {
                            assert(c1 != c || d1 != d);
                            if c1 == c {
                                assert(self.rows@[c as int]@[k] == (d, i as usize));
                            } else {
                                assert(self.rows@[c as int] == o.rows@[c as int]);
                            }
                        } else {
                            assert(self.rows@ == o.rows@);
                        }
                        assert(self.rows@[c as int]@[k] == (d, i as usize));
                    } else {
                        assert(self.rows@[c as int]@[o.rows@[c as int]@.len() as int] == (d, i as usize));
                    }
                }
            }
            assert forall|c: int, d: usize| 0 <= c < self.n() && #[trigger] self.sub_ix@[c]@.contains_key(d) implies
                d < self.n() && self.sub_ix@[c]@[d] < self.len() && self.idf@[self.sub_ix@[c]@[d] as int] == IdFact::Sub(c as usize, d) by {
                if let IdFact::Sub(c1, d1) = x {
                    if c1 as int != c || d1 != d {
                        assert(o.sub_ix@[c]@.contains_key(d));
                    }
                } else {
                    assert(o.sub_ix@[c]@.contains_key(d));
                }
            }
            assert forall|c: int, k: int| 0 <= c < self.n() && 0 <= k < self.rows@[c]@.len() implies
                (#[trigger] self.rows@[c]@[k]).1 < self.len() && self.idf@[self.rows@[c]@[k].1 as int] == IdFact::Sub(c as usize, self.rows@[c]@[k].0) by {
                if k < o.rows@[c]@.len() {
                    assert(self.rows@[c]@[k] == o.rows@[c]@[k]);
                }
            }
            assert forall|c: int, k1: int, k2: int| 0 <= c < self.n() && 0 <= k1 < self.rows@[c]@.len() && 0 <= k2 < self.rows@[c]@.len()
                && k1 != k2 implies (#[trigger] self.rows@[c]@[k1]).0 != (#[trigger] self.rows@[c]@[k2]).0 by {
                let ol = o.rows@[c]@.len();
                if let IdFact::Sub(c1, d1) = x {
                    if c1 as int == c {
                        if k1 == ol as int {
                            assert(self.rows@[c]@[k2] == o.rows@[c]@[k2]);
                            let jj = o.rows@[c]@[k2].1;
                            assert(o.idf@[jj as int] == IdFact::Sub(c as usize, o.rows@[c]@[k2].0));
                            assert(o.has(IdFact::Sub(c as usize, o.rows@[c]@[k2].0)));
                        } else if k2 == ol as int {
                            assert(self.rows@[c]@[k1] == o.rows@[c]@[k1]);
                            let jj = o.rows@[c]@[k1].1;
                            assert(o.idf@[jj as int] == IdFact::Sub(c as usize, o.rows@[c]@[k1].0));
                            assert(o.has(IdFact::Sub(c as usize, o.rows@[c]@[k1].0)));
                        } else {
                            assert(self.rows@[c]@[k1] == o.rows@[c]@[k1]);
                            assert(self.rows@[c]@[k2] == o.rows@[c]@[k2]);
                        }
                    } else {
                        assert(self.rows@[c] == o.rows@[c]);
                    }
                } else {
                    assert(self.rows@ == o.rows@);
                }
            }
            assert(self.sub_ok());
            assert(self.unsat_ok());
            assert forall|q: int| 0 <= q < self.disj@.len() implies (#[trigger] self.disj@[q]).2 < self.len()
                && self.idf@[self.disj@[q].2 as int] == IdFact::Disjoint(self.disj@[q].0, self.disj@[q].1) by {
                if q < o.disj@.len() {
                    assert(self.disj@[q] == o.disj@[q]);
                }
            }
            assert forall|i: int| 0 <= i < self.len() implies (#[trigger] self.idf@[i] matches IdFact::Disjoint(a, b) ==>
                exists|q: int| 0 <= q < self.disj@.len() && self.disj@[q] == (a, b, i as usize)) by {
                if let IdFact::Disjoint(a, b) = self.idf@[i] {
                    if i < j {
                        assert(o.idf@[i] == IdFact::Disjoint(a, b));
                        let q = choose|q: int| 0 <= q < o.disj@.len() && o.disj@[q] == (a, b, i as usize);
                        assert(self.disj@[q] == (a, b, i as usize));
                    } else {
                        assert(self.disj@[o.disj@.len() as int] == (a, b, i as usize));
                    }
                }
            }
            assert forall|q: int| 0 <= q < self.asserts@.len() implies (#[trigger] self.asserts@[q]).2 < self.len()
                && self.idf@[self.asserts@[q].2 as int] == IdFact::Assert(self.asserts@[q].0, self.asserts@[q].1) by {
                if q < o.asserts@.len() {
                    assert(self.asserts@[q] == o.asserts@[q]);
                }
            }
            assert forall|i: int| 0 <= i < self.len() implies (#[trigger] self.idf@[i] matches IdFact::Assert(a, b) ==>
                exists|q: int| 0 <= q < self.asserts@.len() && self.asserts@[q] == (a, b, i as usize)) by {
                if let IdFact::Assert(a, b) = self.idf@[i] {
                    if i < j {
                        assert(o.idf@[i] == IdFact::Assert(a, b));
                        let q = choose|q: int| 0 <= q < o.asserts@.len() && o.asserts@[q] == (a, b, i as usize);
                        assert(self.asserts@[q] == (a, b, i as usize));
                    } else {
                        assert(self.asserts@[o.asserts@.len() as int] == (a, b, i as usize));
                    }
                }
            }
            assert forall|q: int| 0 <= q < self.exs@.len() implies (#[trigger] self.exs@[q]).3 < self.len()
                && self.idf@[self.exs@[q].3 as int] == IdFact::Ex(self.exs@[q].0, self.exs@[q].1, self.exs@[q].2) by {
                if q < o.exs@.len() {
                    assert(self.exs@[q] == o.exs@[q]);
                }
            }
            assert forall|i: int| 0 <= i < self.len() implies (#[trigger] self.idf@[i] matches IdFact::Ex(a, b, c) ==>
                exists|q: int| 0 <= q < self.exs@.len() && self.exs@[q] == (a, b, c, i as usize)) by {
                if let IdFact::Ex(a, b, c) = self.idf@[i] {
                    if i < j {
                        assert(o.idf@[i] == IdFact::Ex(a, b, c));
                        let q = choose|q: int| 0 <= q < o.exs@.len() && o.exs@[q] == (a, b, c, i as usize);
                        assert(self.exs@[q] == (a, b, c, i as usize));
                    } else {
                        assert(self.exs@[o.exs@.len() as int] == (a, b, c, i as usize));
                    }
                }
            }
            assert forall|q: int| 0 <= q < self.ranges@.len() implies (#[trigger] self.ranges@[q]).2 < self.len()
                && self.idf@[self.ranges@[q].2 as int] == IdFact::Range(self.ranges@[q].0, self.ranges@[q].1) by {
                if q < o.ranges@.len() {
                    assert(self.ranges@[q] == o.ranges@[q]);
                }
            }
            assert forall|i: int| 0 <= i < self.len() implies (#[trigger] self.idf@[i] matches IdFact::Range(a, b) ==>
                exists|q: int| 0 <= q < self.ranges@.len() && self.ranges@[q] == (a, b, i as usize)) by {
                if let IdFact::Range(a, b) = self.idf@[i] {
                    if i < j {
                        assert(o.idf@[i] == IdFact::Range(a, b));
                        let q = choose|q: int| 0 <= q < o.ranges@.len() && o.ranges@[q] == (a, b, i as usize);
                        assert(self.ranges@[q] == (a, b, i as usize));
                    } else {
                        assert(self.ranges@[o.ranges@.len() as int] == (a, b, i as usize));
                    }
                }
            }
            assert forall|q: int| 0 <= q < self.domains@.len() implies (#[trigger] self.domains@[q]).2 < self.len()
                && self.idf@[self.domains@[q].2 as int] == IdFact::Domain(self.domains@[q].0, self.domains@[q].1) by {
                if q < o.domains@.len() {
                    assert(self.domains@[q] == o.domains@[q]);
                }
            }
            assert forall|i: int| 0 <= i < self.len() implies (#[trigger] self.idf@[i] matches IdFact::Domain(a, b) ==>
                exists|q: int| 0 <= q < self.domains@.len() && self.domains@[q] == (a, b, i as usize)) by {
                if let IdFact::Domain(a, b) = self.idf@[i] {
                    if i < j {
                        assert(o.idf@[i] == IdFact::Domain(a, b));
                        let q = choose|q: int| 0 <= q < o.domains@.len() && o.domains@[q] == (a, b, i as usize);
                        assert(self.domains@[q] == (a, b, i as usize));
                    } else {
                        assert(self.domains@[o.domains@.len() as int] == (a, b, i as usize));
                    }
                }
            }
            assert forall|q: int| 0 <= q < self.pairs@.len() implies (#[trigger] self.pairs@[q]).2 < self.len()
                && self.idf@[self.pairs@[q].2 as int] == IdFact::PairUnsat(self.pairs@[q].0, self.pairs@[q].1) by {
                if q < o.pairs@.len() {
                    assert(self.pairs@[q] == o.pairs@[q]);
                }
            }
            assert forall|i: int| 0 <= i < self.len() implies (#[trigger] self.idf@[i] matches IdFact::PairUnsat(a, b) ==>
                exists|q: int| 0 <= q < self.pairs@.len() && self.pairs@[q] == (a, b, i as usize)) by {
                if let IdFact::PairUnsat(a, b) = self.idf@[i] {
                    if i < j {
                        assert(o.idf@[i] == IdFact::PairUnsat(a, b));
                        let q = choose|q: int| 0 <= q < o.pairs@.len() && o.pairs@[q] == (a, b, i as usize);
                        assert(self.pairs@[q] == (a, b, i as usize));
                    } else {
                        assert(self.pairs@[o.pairs@.len() as int] == (a, b, i as usize));
                    }
                }
            }
            assert forall|q: int| 0 <= q < self.kbr@.len() implies (#[trigger] self.kbr@[q]).2 < self.len()
                && self.idf@[self.kbr@[q].2 as int] == IdFact::KbRefuted(self.kbr@[q].0, self.kbr@[q].1) by {
                if q < o.kbr@.len() {
                    assert(self.kbr@[q] == o.kbr@[q]);
                }
            }
            assert forall|i: int| 0 <= i < self.len() implies (#[trigger] self.idf@[i] matches IdFact::KbRefuted(a, b) ==>
                exists|q: int| 0 <= q < self.kbr@.len() && self.kbr@[q] == (a, b, i as usize)) by {
                if let IdFact::KbRefuted(a, b) = self.idf@[i] {
                    if i < j {
                        assert(o.idf@[i] == IdFact::KbRefuted(a, b));
                        let q = choose|q: int| 0 <= q < o.kbr@.len() && o.kbr@[q] == (a, b, i as usize);
                        assert(self.kbr@[q] == (a, b, i as usize));
                    } else {
                        assert(self.kbr@[o.kbr@.len() as int] == (a, b, i as usize));
                    }
                }
            }
            assert(self.lists_ok());
        }
        j
    }
}

/// Run every phase of the engine over the axioms: its proof concludes exactly the closure.
#[verifier::rlimit(80)]
fn run(axioms: &[Axiom]) -> (e: Engine)
    ensures
        e.inv(),
        e.sound(axioms_view(axioms@)),
        e.valid(axioms_view(axioms@)),
        forall|g: FactV| #[trigger] member(concl(e.steps@))(g) <==> in_closure(axioms_view(axioms@), g),
{
    let ghost axs = axioms_view(axioms@);
    let (table, iaxs) = intern_axioms(axioms);
    proof {
        assert forall|k: int| 0 <= k < axs.len() implies iax_means(table_view(table.names@), #[trigger] iaxs@[k], axs[k]) by {
            assert(axs[k] == axioms@[k]@);
        }
    }
    let mut e = Engine::new(table.names);
    let ghost e0 = e;
    proof {
        assert(concl(e.steps@) =~= Seq::<FactV>::empty());
        assert(e.subs_are_edges(axs));
    }
    e.load(Ghost(axs), &iaxs);
    let ghost e1 = e;
    e.domain_typing(Ghost(axs));
    let ghost e2 = e;
    proof {
        assert(e1.all_loaded(axs, iaxs@));
        e2.lemma_mono(&e1, axs, iaxs@);
        e2.lemma_edges_held(axs, iaxs@);
    }
    let edges = e.copy_rows();
    proof {
        assert forall|d: int, q: int| 0 <= d < e.n() && 0 <= q < edges@[d]@.len() implies
            (#[trigger] edges@[d]@[q]).0 < e.n() && edges@[d]@[q].1 < e.len()
            && e.idf@[edges@[d]@[q].1 as int] == IdFact::Sub(d as usize, edges@[d]@[q].0)
            && sub_edge(axs, e.nm()[d], e.nm()[edges@[d]@[q].0 as int]) by {
            assert(edges@[d]@[q] == e.rows@[d]@[q]);
            let j = e.rows@[d]@[q].1;
            assert(e.names.len() == e.n());
            let c = d as usize;
            assert(c as int == d);
            let x = edges@[d]@[q].0;
            assert(e.idf@[j as int] == IdFact::Sub(c, x));
            assert(ids_ok(e.idf@[j as int], e.n()));
            assert(e.has(IdFact::Sub(c, x)));
            assert(sub_edge(axs, e.nm()[c as int], e.nm()[x as int]));
        }
    }
    e.close(Ghost(axs), &edges);
    let ghost e3 = e;
    proof {
        e3.lemma_trans_closed(&e2, axs, edges@);
        e3.lemma_mono(&e2, axs, iaxs@);
    }
    let mut work = e.disjointness(Ghost(axs));
    let ghost e4 = e;
    proof {
        assert(e4.pairs@.len() == 0);
        assert forall|d: usize, x: usize| #[trigger] e4.has(IdFact::PairUnsat(d, x)) implies d != x && e4.pair_cond(d, x) by {
            let j = choose|j: int| 0 <= j < e4.idf@.len() && e4.idf@[j] == IdFact::PairUnsat(d, x);
            assert(e4.idf@[j] matches IdFact::PairUnsat(a, b));
        }
        assert(e4.later(&e3));
        e4.lemma_up(&e3, axs, iaxs@);
    }
    e.seeds(Ghost(axs), &mut work);
    let ghost e5 = e;
    proof {
        assert(e5.later(&e4));
        e5.lemma_up(&e4, axs, iaxs@);
    }
    e.fixpoint(Ghost(axs), &mut work);
    let ghost e6 = e;
    proof {
        assert(e6.later(&e5));
        e6.lemma_up(&e5, axs, iaxs@);
    }
    e.instances(Ghost(axs));
    proof {
        assert(e.later(&e6));
        e.lemma_up(&e6, axs, iaxs@);
        assert forall|x: usize| #[trigger] e.has(IdFact::Unsat(x)) implies e.done(x) by {
            assert(e6.has(IdFact::Unsat(x)));
            assert(work@.contains(x));
            let i = choose|i: int| 0 <= i < work@.len() && work@[i] == x;
            assert(e6.done(work@[i]));
        }
        assert forall|d: usize, x: usize| #[trigger] e.has(IdFact::PairUnsat(d, x)) implies
            (d != x && e.pair_cond(d, x)) || e.has(IdFact::Unsat(x)) by {
            assert(e6.has(IdFact::PairUnsat(d, x)));
        }
        assert(e.closed(axs, iaxs@));
        e.lemma_complete(axs, iaxs@);
    }
    e
}

/// The refuted classes and the individuals asserted into them, each as a sorted name list.
fn refuted_names(e: &Engine) -> (r: (Vec<Name>, Vec<Name>))
    requires
        e.inv(),
    ensures
        strictly_sorted(names_view(r.0@)),
        forall|c: Seq<char>| #[trigger] names_view(r.0@).contains(c) <==> member(concl(e.steps@))(FactV::Unsat(c)),
        strictly_sorted(names_view(r.1@)),
        forall|i: Seq<char>| #[trigger] names_view(r.1@).contains(i) <==>
            exists|c: Seq<char>| #[trigger] member(concl(e.steps@))(FactV::KbRefuted(i, c)),
{
    let ghost nm = e.nm();
    let mut classes: Vec<Name> = Vec::new();
    let mut c: usize = 0;
    while c < e.names.len()
        invariant
            e.inv(),
            nm == e.nm(),
            c <= e.n(),
            strictly_sorted(names_view(classes@)),
            forall|x: Seq<char>| #[trigger] names_view(classes@).contains(x) <==>
                exists|c2: usize| c2 < c && #[trigger] e.has(IdFact::Unsat(c2)) && nm[c2 as int] == x,
        decreases e.n() - c,
    {
        if e.holds_unsat(c).is_some() {
            let ghost before = names_view(classes@);
            let name = e.names[c].clone();
            insert_sorted(&mut classes, name);
            proof {
                assert forall|x: Seq<char>| #[trigger] names_view(classes@).contains(x) <==>
                    exists|c2: usize| c2 < c + 1 && #[trigger] e.has(IdFact::Unsat(c2)) && nm[c2 as int] == x by {
                    if before.contains(x) {
                        let c2 = choose|c2: usize| c2 < c && #[trigger] e.has(IdFact::Unsat(c2)) && nm[c2 as int] == x;
                    }
                    if exists|c2: usize| c2 < c + 1 && #[trigger] e.has(IdFact::Unsat(c2)) && nm[c2 as int] == x {
                        let c2 = choose|c2: usize| c2 < c + 1 && #[trigger] e.has(IdFact::Unsat(c2)) && nm[c2 as int] == x;
                        if c2 < c {
                            assert(before.contains(x));
                        }
                    }
                }
            }
        } else {
            proof {
                assert forall|x: Seq<char>| #[trigger] names_view(classes@).contains(x) <==>
                    exists|c2: usize| c2 < c + 1 && #[trigger] e.has(IdFact::Unsat(c2)) && nm[c2 as int] == x by {
                    if exists|c2: usize| c2 < c + 1 && #[trigger] e.has(IdFact::Unsat(c2)) && nm[c2 as int] == x {
                        let c2 = choose|c2: usize| c2 < c + 1 && #[trigger] e.has(IdFact::Unsat(c2)) && nm[c2 as int] == x;
                        assert(c2 != c);
                    }
                }
            }
        }
        c += 1;
    }
    proof {
        assert forall|x: Seq<char>| #[trigger] names_view(classes@).contains(x) <==> member(concl(e.steps@))(FactV::Unsat(x)) by {
            if names_view(classes@).contains(x) {
                let c2 = choose|c2: usize| c2 < e.n() && #[trigger] e.has(IdFact::Unsat(c2)) && nm[c2 as int] == x;
                e.lemma_has_member(IdFact::Unsat(c2));
            }
            if member(concl(e.steps@))(FactV::Unsat(x)) {
                let y = e.lemma_member_id(FactV::Unsat(x));
                if let IdFact::Unsat(c2) = y {
                    assert(e.has(IdFact::Unsat(c2)) && nm[c2 as int] == x);
                }
            }
        }
    }
    let mut inds: Vec<Name> = Vec::new();
    let mut k: usize = 0;
    while k < e.kbr.len()
        invariant
            e.inv(),
            nm == e.nm(),
            k <= e.kbr@.len(),
            strictly_sorted(names_view(inds@)),
            forall|x: Seq<char>| #[trigger] names_view(inds@).contains(x) <==>
                exists|k2: int| 0 <= k2 < k && nm[(#[trigger] e.kbr@[k2]).0 as int] == x,
        decreases e.kbr@.len() - k,
    {
        let (i, _c, j) = e.kbr[k];
        proof {
            assert(e.idf@[j as int] == IdFact::KbRefuted(i, _c));
            assert(ids_ok(e.idf@[j as int], e.n()));
        }
        let ghost before = names_view(inds@);
        let name = e.names[i].clone();
        insert_sorted(&mut inds, name);
        proof {
            assert forall|x: Seq<char>| #[trigger] names_view(inds@).contains(x) <==>
                exists|k2: int| 0 <= k2 < k + 1 && nm[(#[trigger] e.kbr@[k2]).0 as int] == x by {
                if before.contains(x) {
                    let k2 = choose|k2: int| 0 <= k2 < k && nm[(#[trigger] e.kbr@[k2]).0 as int] == x;
                }
                if x == nm[i as int] {
                    assert(e.kbr@[k as int].0 == i);
                }
                if exists|k2: int| 0 <= k2 < k + 1 && nm[(#[trigger] e.kbr@[k2]).0 as int] == x {
                    let k2 = choose|k2: int| 0 <= k2 < k + 1 && nm[(#[trigger] e.kbr@[k2]).0 as int] == x;
                    if k2 < k {
                        assert(before.contains(x));
                    }
                }
            }
        }
        k += 1;
    }
    proof {
        assert forall|x: Seq<char>| #[trigger] names_view(inds@).contains(x) <==>
            exists|c: Seq<char>| #[trigger] member(concl(e.steps@))(FactV::KbRefuted(x, c)) by {
            if names_view(inds@).contains(x) {
                let k2 = choose|k2: int| 0 <= k2 < e.kbr@.len() && nm[(#[trigger] e.kbr@[k2]).0 as int] == x;
                let (i, c2, j) = e.kbr@[k2];
                assert(e.idf@[j as int] == IdFact::KbRefuted(i, c2));
                assert(e.has(IdFact::KbRefuted(i, c2)));
                e.lemma_has_member(IdFact::KbRefuted(i, c2));
                assert(member(concl(e.steps@))(FactV::KbRefuted(x, nm[c2 as int])));
            }
            if exists|c: Seq<char>| #[trigger] member(concl(e.steps@))(FactV::KbRefuted(x, c)) {
                let c = choose|c: Seq<char>| #[trigger] member(concl(e.steps@))(FactV::KbRefuted(x, c));
                let y = e.lemma_member_id(FactV::KbRefuted(x, c));
                if let IdFact::KbRefuted(i, c2) = y {
                    e.lemma_listed_kbr(i, c2);
                    let k2 = choose|k2: int| 0 <= k2 < e.kbr@.len() && (#[trigger] e.kbr@[k2]).0 == i && e.kbr@[k2].1 == c2;
                    assert(nm[e.kbr@[k2].0 as int] == x);
                }
            }
        }
    }
    (classes, inds)
}

/// `v` is the rule set's exact verdict on the axioms: the refuted classes and individuals
/// (sorted, each once), and a proof whose conclusions are exactly the derivable facts.
pub open spec fn is_verdict_of(axs: Seq<AxiomV>, v: Verdict) -> bool {
    match v {
        Verdict::NoClashFound { note } => note@ == no_clash_note() && forall|c: Seq<char>| !#[trigger] is_unsat(axs, c),
        Verdict::Refuted { unsat_classes, refuted_individuals, proof } => {
            &&& exists|c: Seq<char>| #[trigger] is_unsat(axs, c)
            &&& strictly_sorted(names_view(unsat_classes@))
            &&& forall|c: Seq<char>| #[trigger] names_view(unsat_classes@).contains(c) <==> is_unsat(axs, c)
            &&& strictly_sorted(names_view(refuted_individuals@))
            &&& forall|i: Seq<char>| #[trigger] names_view(refuted_individuals@).contains(i) <==> is_refuted_individual(axs, i)
            &&& forall|g: FactV| #[trigger] concl(proof.steps@).contains(g) <==> in_closure(axs, g)
            &&& concl(proof.steps@).no_duplicates()
            &&& forall|k: int| 0 <= k < proof.steps@.len() ==> (#[trigger] proof.steps@[k]).id == k
            &&& forall|k: int, q: int| 0 <= k < proof.steps@.len() && 0 <= q < proof.steps@[k].premises@.len()
                ==> #[trigger] proof.steps@[k].premises@[q] < k
            &&& proof_valid(axs, proof.steps@)
        },
    }
}

/// Every refutation re-checks: on any input, the kernel finds no flawed step in the proof
/// that a `Refuted` verdict carries.
pub proof fn lemma_refutation_rechecks(axs: Seq<AxiomV>, v: Verdict)
    requires
        is_verdict_of(axs, v),
    ensures
        v matches Verdict::Refuted { proof, .. } ==> forall|j: int| 0 <= j < proof.steps@.len()
            ==> step_flaw(axs, proof.steps@, j) is None,
{
}

/// Saturate the axioms and return the verdict with its proof.
///
/// Sound for refutation: every refuted class is derivable by OWL-entailed rules, and the proof
/// passes the kernel.
pub fn saturate(axioms: &[Axiom]) -> (v: Verdict)
    ensures
        is_verdict_of(axioms_view(axioms@), v),
{
    let ghost axs = axioms_view(axioms@);
    let e = run(axioms);
    let (unsat_classes, refuted_individuals) = refuted_names(&e);
    proof {
        assert forall|c: Seq<char>| #[trigger] names_view(unsat_classes@).contains(c) <==> is_unsat(axs, c) by {
            assert(member(concl(e.steps@))(FactV::Unsat(c)) <==> in_closure(axs, FactV::Unsat(c)));
        }
        assert forall|i: Seq<char>| #[trigger] names_view(refuted_individuals@).contains(i) <==> is_refuted_individual(axs, i) by {
            if is_refuted_individual(axs, i) {
                let c = choose|c: Seq<char>| #[trigger] in_closure(axs, FactV::KbRefuted(i, c));
                assert(member(concl(e.steps@))(FactV::KbRefuted(i, c)));
            }
            if names_view(refuted_individuals@).contains(i) {
                let c = choose|c: Seq<char>| #[trigger] member(concl(e.steps@))(FactV::KbRefuted(i, c));
                assert(in_closure(axs, FactV::KbRefuted(i, c)));
            }
        }
    }
    if unsat_classes.len() == 0 {
        proof {
            assert forall|c: Seq<char>| !#[trigger] is_unsat(axs, c) by {
                if is_unsat(axs, c) {
                    assert(names_view(unsat_classes@).contains(c));
                }
            }
        }
        return Verdict::no_clash();
    }
    let ghost steps = e.steps@;
    proof {
        assert(names_view(unsat_classes@).contains(names_view(unsat_classes@)[0]));
        assert(is_unsat(axs, names_view(unsat_classes@)[0]));
        assert forall|g: FactV| #[trigger] concl(steps).contains(g) <==> in_closure(axs, g) by {
            assert(member(concl(steps))(g) == concl(steps).contains(g));
        }
        assert forall|i: int, j: int| 0 <= i < concl(steps).len() && 0 <= j < concl(steps).len() && i != j
            implies concl(steps)[i] != concl(steps)[j] by {
            assert(concl(steps)[i] == fv(e.nm(), e.idf@[i]));
            assert(concl(steps)[j] == fv(e.nm(), e.idf@[j]));
            if concl(steps)[i] == concl(steps)[j] {
                lemma_fv_injective(e.nm(), e.idf@[i], e.idf@[j]);
            }
        }
    }
    Verdict::Refuted { unsat_classes, refuted_individuals, proof: Proof { steps: e.steps } }
}

/// The step of the entry `(a, b, step)` of `list`, if any.
fn find2(list: &Vec<(usize, usize, usize)>, a: usize, b: usize) -> (r: Option<usize>)
    ensures
        r matches Some(j) ==> exists|k: int| 0 <= k < list@.len() && list@[k] == (a, b, j),
        r is None ==> forall|k: int| 0 <= k < list@.len() ==> (#[trigger] list@[k]).0 != a || list@[k].1 != b,
{
    let mut k: usize = 0;
    while k < list.len()
        invariant
            k <= list@.len(),
            forall|q: int| 0 <= q < k ==> (#[trigger] list@[q]).0 != a || list@[q].1 != b,
        decreases list@.len() - k,
    {
        if list[k].0 == a && list[k].1 == b {
            return Some(list[k].2);
        }
        k += 1;
    }
    None
}

/// The step of the entry `(a, b, c, step)` of `list`, if any.
fn find3(list: &Vec<(usize, usize, usize, usize)>, a: usize, b: usize, c: usize) -> (r: Option<usize>)
    ensures
        r matches Some(j) ==> exists|k: int| 0 <= k < list@.len() && list@[k] == (a, b, c, j),
        r is None ==> forall|k: int| 0 <= k < list@.len() ==> (#[trigger] list@[k]).0 != a || list@[k].1 != b || list@[k].2 != c,
{
    let mut k: usize = 0;
    while k < list.len()
        invariant
            k <= list@.len(),
            forall|q: int| 0 <= q < k ==> (#[trigger] list@[q]).0 != a || list@[q].1 != b || list@[q].2 != c,
        decreases list@.len() - k,
    {
        if list[k].0 == a && list[k].1 == b && list[k].2 == c {
            return Some(list[k].3);
        }
        k += 1;
    }
    None
}

} // verus!
