//! The engine's semantics: the facts its rule set derives from a set of axioms.
//!
//! `Sub` facts are reachability over told edges (told subclass, told ≡ conjunct, and domain
//! typing of an existential's subject); `Unsat`, `PairUnsat` and `KbRefuted` facts are the
//! least set closed under the refutation rules. Every rule is OWL-entailed, so a derived
//! `Unsat` is a genuine inconsistency.
use vstd::prelude::*;
use crate::fragment::AxiomV;
use crate::verdict::FactV;

verus! {

/// `c ⊑ d` is told: a `SubClassOf` axiom or a conjunct of an `EquivalentToIntersection`.
pub open spec fn told_sub(axs: Seq<AxiomV>, c: Seq<char>, d: Seq<char>) -> bool {
    exists|k: int|
        0 <= k < axs.len() && (#[trigger] axs[k] == AxiomV::SubClassOf(c, d) || (axs[k] matches AxiomV::EquivalentToIntersection(cl, parts) && cl == c && parts.contains(d)))
}

/// The input facts the axioms state directly.
pub open spec fn base_fact(axs: Seq<AxiomV>, f: FactV) -> bool {
    match f {
        FactV::Sub(c, d) => told_sub(axs, c, d),
        FactV::Disjoint(a, b) => exists|k: int| 0 <= k < axs.len() && #[trigger] axs[k] == AxiomV::DisjointClasses(a, b),
        FactV::Assert(c, i) => exists|k: int| 0 <= k < axs.len() && #[trigger] axs[k] == AxiomV::ClassAssertion(c, i),
        FactV::Ex(s, r, d) => exists|k: int| 0 <= k < axs.len() && #[trigger] axs[k] == AxiomV::SubClassOfExistential(s, r, d),
        FactV::Range(r, e) => exists|k: int| 0 <= k < axs.len() && #[trigger] axs[k] == AxiomV::PropertyRange(r, e),
        FactV::Domain(r, e) => exists|k: int| 0 <= k < axs.len() && #[trigger] axs[k] == AxiomV::PropertyDomain(r, e),
        _ => false,
    }
}

/// `c ⊑ e` by domain typing: `c ⊑ ∃r.d` and `domain(r) ⊑ e`.
pub open spec fn domain_typed(axs: Seq<AxiomV>, c: Seq<char>, e: Seq<char>) -> bool {
    exists|r: Seq<char>, d: Seq<char>|
        #[trigger] base_fact(axs, FactV::Ex(c, r, d)) && base_fact(axs, FactV::Domain(r, e))
}

/// An edge of the told hierarchy.
pub open spec fn sub_edge(axs: Seq<AxiomV>, c: Seq<char>, d: Seq<char>) -> bool {
    told_sub(axs, c, d) || domain_typed(axs, c, d)
}

/// `x ⊑ y` reflexively or as a fact of `p`.
pub open spec fn below(p: spec_fn(FactV) -> bool, x: Seq<char>, y: Seq<char>) -> bool {
    x == y || p(FactV::Sub(x, y))
}

/// The disjointness clash on `c`: `c` (with some told superclass) falls under both sides.
pub open spec fn disj_clash(p: spec_fn(FactV) -> bool, c: Seq<char>) -> bool {
    (exists|a: Seq<char>, b: Seq<char>| #[trigger] p(FactV::Disjoint(a, b)) && below(p, c, a) && below(p, c, b))
        && (exists|x: Seq<char>| #[trigger] p(FactV::Sub(c, x)))
}

/// `d` and `e` fall under the two sides of a disjointness, in either orientation.
pub open spec fn pair_disjoint(p: spec_fn(FactV) -> bool, d: Seq<char>, e: Seq<char>) -> bool {
    d != e && exists|a: Seq<char>, b: Seq<char>|
        #[trigger] p(FactV::Disjoint(a, b)) && ((below(p, d, a) && below(p, e, b)) || (below(p, d, b) && below(p, e, a)))
}

/// Whether one rule application concludes `f` from facts satisfying `p`.
pub open spec fn fires(axs: Seq<AxiomV>, p: spec_fn(FactV) -> bool, f: FactV) -> bool {
    match f {
        FactV::Sub(c, e) => domain_typed(axs, c, e) || exists|d: Seq<char>| #[trigger] p(FactV::Sub(c, d)) && sub_edge(axs, d, e),
        FactV::Unsat(c) => disj_clash(p, c)
            || (exists|r: Seq<char>, d: Seq<char>, e: Seq<char>|
                #[trigger] p(FactV::Ex(c, r, d)) && #[trigger] p(FactV::Range(r, e)) && p(FactV::PairUnsat(d, e)))
            || (exists|r: Seq<char>, d: Seq<char>| #[trigger] p(FactV::Ex(c, r, d)) && p(FactV::Unsat(d)))
            || (exists|x: Seq<char>| #[trigger] p(FactV::Sub(c, x)) && p(FactV::Unsat(x))),
        FactV::PairUnsat(d, e) => exists|s: Seq<char>, r: Seq<char>|
            #[trigger] p(FactV::Ex(s, r, d)) && p(FactV::Range(r, e)) && (pair_disjoint(p, d, e) || p(FactV::Unsat(e))),
        FactV::KbRefuted(i, c) => p(FactV::Assert(c, i)) && p(FactV::Unsat(c)),
        _ => false,
    }
}

/// The facts among the first `i` of `seq`.
pub open spec fn prefix_has(seq: Seq<FactV>, i: int) -> spec_fn(FactV) -> bool {
    |g: FactV| exists|j: int| 0 <= j < i && seq[j] == g
}

/// The facts of `seq`.
pub open spec fn member(seq: Seq<FactV>) -> spec_fn(FactV) -> bool {
    |g: FactV| seq.contains(g)
}

/// Every fact of `seq` is a base fact or follows by one rule from facts before it.
pub open spec fn is_derivation(axs: Seq<AxiomV>, seq: Seq<FactV>) -> bool {
    forall|i: int|
        0 <= i < seq.len() ==> base_fact(axs, #[trigger] seq[i]) || fires(axs, prefix_has(seq, i), seq[i])
}

/// `f` is in the least fixpoint of the rules over the axioms: some derivation reaches it.
pub open spec fn in_closure(axs: Seq<AxiomV>, f: FactV) -> bool {
    exists|seq: Seq<FactV>| #[trigger] is_derivation(axs, seq) && seq.contains(f)
}

/// The class is refuted by the rule set.
pub open spec fn is_unsat(axs: Seq<AxiomV>, c: Seq<char>) -> bool {
    in_closure(axs, FactV::Unsat(c))
}

/// The individual is asserted into a refuted class.
pub open spec fn is_refuted_individual(axs: Seq<AxiomV>, i: Seq<char>) -> bool {
    exists|c: Seq<char>| #[trigger] in_closure(axs, FactV::KbRefuted(i, c))
}

/// A rule that fires from `p` fires from any larger `q`.
pub proof fn lemma_fires_mono(
    axs: Seq<AxiomV>,
    p: spec_fn(FactV) -> bool,
    q: spec_fn(FactV) -> bool,
    f: FactV,
)
    requires
        forall|g: FactV| #[trigger] p(g) ==> q(g),
        fires(axs, p, f),
    ensures
        fires(axs, q, f),
{
    match f {
        FactV::Sub(c, e) => {
            if !domain_typed(axs, c, e) {
                let d = choose|d: Seq<char>| #[trigger] p(FactV::Sub(c, d)) && sub_edge(axs, d, e);
                assert(q(FactV::Sub(c, d)));
            }
        },
        FactV::Unsat(c) => {
            if disj_clash(p, c) {
                let (a, b) = choose|a: Seq<char>, b: Seq<char>|
                    #[trigger] p(FactV::Disjoint(a, b)) && below(p, c, a) && below(p, c, b);
                let x = choose|x: Seq<char>| #[trigger] p(FactV::Sub(c, x));
                assert(q(FactV::Disjoint(a, b)));
                assert(q(FactV::Sub(c, x)));
                assert(below(q, c, a));
                assert(below(q, c, b));
                assert(disj_clash(q, c));
            } else if exists|r: Seq<char>, d: Seq<char>, e: Seq<char>|
                #[trigger] p(FactV::Ex(c, r, d)) && #[trigger] p(FactV::Range(r, e)) && p(FactV::PairUnsat(d, e)) {
                let (r, d, e) = choose|r: Seq<char>, d: Seq<char>, e: Seq<char>|
                    #[trigger] p(FactV::Ex(c, r, d)) && #[trigger] p(FactV::Range(r, e)) && p(FactV::PairUnsat(d, e));
                assert(q(FactV::Ex(c, r, d)) && q(FactV::Range(r, e)) && q(FactV::PairUnsat(d, e)));
            } else if exists|r: Seq<char>, d: Seq<char>| #[trigger] p(FactV::Ex(c, r, d)) && p(FactV::Unsat(d)) {
                let (r, d) = choose|r: Seq<char>, d: Seq<char>| #[trigger] p(FactV::Ex(c, r, d)) && p(FactV::Unsat(d));
                assert(q(FactV::Ex(c, r, d)) && q(FactV::Unsat(d)));
            } else {
                let x = choose|x: Seq<char>| #[trigger] p(FactV::Sub(c, x)) && p(FactV::Unsat(x));
                assert(q(FactV::Sub(c, x)) && q(FactV::Unsat(x)));
            }
        },
        FactV::PairUnsat(d, e) => {
            let (s, r) = choose|s: Seq<char>, r: Seq<char>|
                #[trigger] p(FactV::Ex(s, r, d)) && p(FactV::Range(r, e)) && (pair_disjoint(p, d, e) || p(FactV::Unsat(e)));
            assert(q(FactV::Ex(s, r, d)) && q(FactV::Range(r, e)));
            if pair_disjoint(p, d, e) {
                let (a, b) = choose|a: Seq<char>, b: Seq<char>|
                    #[trigger] p(FactV::Disjoint(a, b)) && ((below(p, d, a) && below(p, e, b)) || (below(p, d, b) && below(p, e, a)));
                assert(q(FactV::Disjoint(a, b)));
                assert(below(p, d, a) ==> below(q, d, a));
                assert(below(p, e, b) ==> below(q, e, b));
                assert(below(p, d, b) ==> below(q, d, b));
                assert(below(p, e, a) ==> below(q, e, a));
                assert(pair_disjoint(q, d, e));
            } else {
                assert(q(FactV::Unsat(e)));
            }
        },
        FactV::KbRefuted(i, c) => {
            assert(q(FactV::Assert(c, i)) && q(FactV::Unsat(c)));
        },
        _ => {},
    }
}

/// R-conj-unsat fires from an existential, a range on its role, and a clash of the pair.
pub proof fn lemma_fires_pair(
    axs: Seq<AxiomV>,
    p: spec_fn(FactV) -> bool,
    subj: Seq<char>,
    role: Seq<char>,
    fill: Seq<char>,
    rng: Seq<char>,
)
    requires
        p(FactV::Ex(subj, role, fill)),
        p(FactV::Range(role, rng)),
        pair_disjoint(p, fill, rng) || p(FactV::Unsat(rng)),
    ensures
        fires(axs, p, FactV::PairUnsat(fill, rng)),
{
    let f = FactV::PairUnsat(fill, rng);
    assert(f is PairUnsat);
    assert(f->PairUnsat_0 == fill && f->PairUnsat_1 == rng);
    assert(exists|s1: Seq<char>, r1: Seq<char>| #[trigger] p(FactV::Ex(s1, r1, fill)) && p(FactV::Range(r1, rng))
        && (pair_disjoint(p, fill, rng) || p(FactV::Unsat(rng))));
    assert(fires(axs, p, f));
}

/// R-exist-range-⊥ fires from an existential, a range on its role, and their empty pair.
pub proof fn lemma_fires_range_bot(
    axs: Seq<AxiomV>,
    p: spec_fn(FactV) -> bool,
    c: Seq<char>,
    r: Seq<char>,
    d: Seq<char>,
    e: Seq<char>,
)
    requires
        p(FactV::Ex(c, r, d)),
        p(FactV::Range(r, e)),
        p(FactV::PairUnsat(d, e)),
    ensures
        fires(axs, p, FactV::Unsat(c)),
{
}

/// R-exist-⊥ fires from an existential whose filler is refuted.
pub proof fn lemma_fires_exist_bot(axs: Seq<AxiomV>, p: spec_fn(FactV) -> bool, c: Seq<char>, r: Seq<char>, d: Seq<char>)
    requires
        p(FactV::Ex(c, r, d)),
        p(FactV::Unsat(d)),
    ensures
        fires(axs, p, FactV::Unsat(c)),
{
}

/// R-sub-unsat fires from a subsumption into a refuted class.
pub proof fn lemma_fires_sub_unsat(axs: Seq<AxiomV>, p: spec_fn(FactV) -> bool, c: Seq<char>, x: Seq<char>)
    requires
        p(FactV::Sub(c, x)),
        p(FactV::Unsat(x)),
    ensures
        fires(axs, p, FactV::Unsat(c)),
{
}

/// Extending a derivation by a base fact or a fact that fires from it gives a derivation.
pub proof fn lemma_derivation_push(axs: Seq<AxiomV>, seq: Seq<FactV>, f: FactV)
    requires
        is_derivation(axs, seq),
        base_fact(axs, f) || fires(axs, member(seq), f),
    ensures
        is_derivation(axs, seq.push(f)),
{
    let s2 = seq.push(f);
    assert forall|i: int| 0 <= i < s2.len() implies base_fact(axs, #[trigger] s2[i]) || fires(axs, prefix_has(s2, i), s2[i]) by {
        if i < seq.len() {
            assert(prefix_has(s2, i) =~= prefix_has(seq, i)) by {
                assert forall|g: FactV| #[trigger] prefix_has(s2, i)(g) == prefix_has(seq, i)(g) by {
                    if prefix_has(seq, i)(g) {
                        let j = choose|j: int| 0 <= j < i && seq[j] == g;
                        assert(s2[j] == g);
                    }
                    if prefix_has(s2, i)(g) {
                        let j = choose|j: int| 0 <= j < i && s2[j] == g;
                        assert(seq[j] == g);
                    }
                }
            }
            assert(s2[i] == seq[i]);
            assert(base_fact(axs, seq[i]) || fires(axs, prefix_has(seq, i), seq[i]));
        } else {
            assert(prefix_has(s2, i) =~= member(seq)) by {
                assert forall|g: FactV| #[trigger] prefix_has(s2, i)(g) == member(seq)(g) by {
                    if member(seq)(g) {
                        let j = choose|j: int| 0 <= j < seq.len() && seq[j] == g;
                        assert(s2[j] == g);
                    }
                    if prefix_has(s2, i)(g) {
                        let j = choose|j: int| 0 <= j < i && s2[j] == g;
                        assert(seq[j] == g);
                    }
                }
            }
        }
    }
}

/// Every fact of a derivation lies in any set that holds the base facts and is closed under
/// the rules.
pub proof fn lemma_derivation_least(axs: Seq<AxiomV>, p: spec_fn(FactV) -> bool, seq: Seq<FactV>, i: int)
    requires
        forall|g: FactV| #[trigger] base_fact(axs, g) ==> p(g),
        forall|g: FactV| #[trigger] fires(axs, p, g) ==> p(g),
        is_derivation(axs, seq),
        0 <= i < seq.len(),
    ensures
        p(seq[i]),
    decreases i,
{
    if !base_fact(axs, seq[i]) {
        assert(fires(axs, prefix_has(seq, i), seq[i]));
        assert forall|g: FactV| #[trigger] prefix_has(seq, i)(g) implies p(g) by {
            let j = choose|j: int| 0 <= j < i && seq[j] == g;
            lemma_derivation_least(axs, p, seq, j);
        }
        lemma_fires_mono(axs, prefix_has(seq, i), p, seq[i]);
    }
}

/// The closure lies in any set that holds the base facts and is closed under the rules.
pub proof fn lemma_least(axs: Seq<AxiomV>, p: spec_fn(FactV) -> bool, f: FactV)
    requires
        forall|g: FactV| #[trigger] base_fact(axs, g) ==> p(g),
        forall|g: FactV| #[trigger] fires(axs, p, g) ==> p(g),
        in_closure(axs, f),
    ensures
        p(f),
{
    let seq = choose|seq: Seq<FactV>| #[trigger] is_derivation(axs, seq) && seq.contains(f);
    let i = choose|i: int| 0 <= i < seq.len() && seq[i] == f;
    lemma_derivation_least(axs, p, seq, i);
}

} // verus!
