//! What the fact language means in an interpretation, and the kernel's soundness for it.
//!
//! An interpretation gives each class a set of elements (`cls(c, x)`), each role a relation
//! (`role(r, x, y)`) and each individual an element (`ind(i)`). The axioms are read as OWL
//! reads them; a proof the kernel accepts then states only what holds in every model of the
//! axioms, and an accepted refutation leaves the axioms without a model.
use vstd::prelude::*;
use crate::fragment::AxiomV;
use crate::kernel::{prem, proof_valid, side_sub, step_flaw};
use crate::closure::{base_fact, fires, in_closure, below, disj_clash, pair_disjoint, domain_typed, sub_edge, told_sub, lemma_least};
use crate::verdict::{FactV, Rule, Step};

verus! {

/// The interpretation satisfies the axiom.
pub open spec fn sat_axiom(
    cls: spec_fn(Seq<char>, int) -> bool,
    role: spec_fn(Seq<char>, int, int) -> bool,
    ind: spec_fn(Seq<char>) -> int,
    ax: AxiomV,
) -> bool {
    match ax {
        AxiomV::SubClassOf(c, d) => forall|x: int| #[trigger] cls(c, x) ==> cls(d, x),
        AxiomV::EquivalentToIntersection(c, parts) => forall|x: int|
            #[trigger] cls(c, x) <==> (forall|k: int| 0 <= k < parts.len() ==> #[trigger] cls(parts[k], x)),
        AxiomV::SubClassOfExistential(s, r, d) => forall|x: int|
            #[trigger] cls(s, x) ==> exists|y: int| #[trigger] role(r, x, y) && cls(d, y),
        AxiomV::DisjointClasses(a, b) => forall|x: int| #![trigger cls(a, x)] #![trigger cls(b, x)] !(cls(a, x) && cls(b, x)),
        AxiomV::ClassAssertion(c, i) => cls(c, ind(i)),
        AxiomV::PropertyRange(r, e) => forall|x: int, y: int| #[trigger] role(r, x, y) ==> cls(e, y),
        AxiomV::PropertyDomain(r, e) => forall|x: int, y: int| #[trigger] role(r, x, y) ==> cls(e, x),
    }
}

/// The interpretation satisfies every axiom: it is a model of them.
pub open spec fn is_model(
    cls: spec_fn(Seq<char>, int) -> bool,
    role: spec_fn(Seq<char>, int, int) -> bool,
    ind: spec_fn(Seq<char>) -> int,
    axs: Seq<AxiomV>,
) -> bool {
    forall|k: int| 0 <= k < axs.len() ==> sat_axiom(cls, role, ind, #[trigger] axs[k])
}

/// The fact is true in the interpretation. A refutation of the knowledge base is true in
/// none.
pub open spec fn fact_true(
    cls: spec_fn(Seq<char>, int) -> bool,
    role: spec_fn(Seq<char>, int, int) -> bool,
    ind: spec_fn(Seq<char>) -> int,
    f: FactV,
) -> bool {
    match f {
        FactV::Sub(c, d) => forall|x: int| #[trigger] cls(c, x) ==> cls(d, x),
        FactV::Disjoint(a, b) => forall|x: int| #![trigger cls(a, x)] #![trigger cls(b, x)] !(cls(a, x) && cls(b, x)),
        FactV::Assert(c, i) => cls(c, ind(i)),
        FactV::Unsat(c) => forall|x: int| !#[trigger] cls(c, x),
        FactV::KbRefuted(_, _) => false,
        FactV::Ex(s, r, d) => forall|x: int| #[trigger] cls(s, x) ==> exists|y: int| #[trigger] role(r, x, y) && cls(d, y),
        FactV::Range(r, e) => forall|x: int, y: int| #[trigger] role(r, x, y) ==> cls(e, y),
        FactV::Domain(r, e) => forall|x: int, y: int| #[trigger] role(r, x, y) ==> cls(e, x),
        FactV::PairUnsat(d, e) => forall|x: int| #![trigger cls(d, x)] #![trigger cls(e, x)] !(cls(d, x) && cls(e, x)),
    }
}

/// A premise of a valid step comes earlier, so it is true once the earlier steps are.
proof fn lemma_prem_true(
    axs: Seq<AxiomV>,
    steps: Seq<Step>,
    cls: spec_fn(Seq<char>, int) -> bool,
    role: spec_fn(Seq<char>, int, int) -> bool,
    ind: spec_fn(Seq<char>) -> int,
    i: int,
    k: int,
)
    requires
        0 <= i < steps.len(),
        step_flaw(axs, steps, i) is None,
        forall|j: int| 0 <= j < i ==> fact_true(cls, role, ind, #[trigger] steps[j].conclusion@),
        0 <= k < steps[i].premises@.len(),
    ensures
        fact_true(cls, role, ind, prem(steps, i, k)),
{
    assert(steps[i].premises@[k] < i);
    let j = steps[i].premises@[k] as int;
    assert(fact_true(cls, role, ind, steps[j].conclusion@));
}

/// A true subsumption carries membership.
proof fn lemma_sub_true(
    cls: spec_fn(Seq<char>, int) -> bool,
    role: spec_fn(Seq<char>, int, int) -> bool,
    ind: spec_fn(Seq<char>) -> int,
    u: Seq<char>,
    w: Seq<char>,
    x: int,
)
    requires
        fact_true(cls, role, ind, FactV::Sub(u, w)),
    ensures
        cls(u, x) ==> cls(w, x),
{
    let f = FactV::Sub(u, w);
    assert(f->Sub_0 == u && f->Sub_1 == w);
}

/// One valid step whose earlier steps are true concludes a true fact.
proof fn lemma_step_true(
    axs: Seq<AxiomV>,
    steps: Seq<Step>,
    cls: spec_fn(Seq<char>, int) -> bool,
    role: spec_fn(Seq<char>, int, int) -> bool,
    ind: spec_fn(Seq<char>) -> int,
    i: int,
)
    requires
        0 <= i < steps.len(),
        step_flaw(axs, steps, i) is None,
        is_model(cls, role, ind, axs),
        forall|j: int| 0 <= j < i ==> fact_true(cls, role, ind, #[trigger] steps[j].conclusion@),
    ensures
        fact_true(cls, role, ind, steps[i].conclusion@),
{
    let st = steps[i];
    let n = st.premises@.len();
    match st.rule {
        Rule::Input | Rule::REq => {
            let ai = st.axiom_index.unwrap() as int;
            let ax = axs[ai];
            assert(sat_axiom(cls, role, ind, ax));
            if st.rule is REq {
                match (ax, st.conclusion@) {
                    (AxiomV::EquivalentToIntersection(c, parts), FactV::Sub(sub, sup)) => {
                        let k = choose|k: int| 0 <= k < parts.len() && parts[k] == sup;
                        assert forall|x: int| #[trigger] cls(sub, x) implies cls(sup, x) by {
                            assert(cls(c, x));
                            assert(cls(parts[k], x));
                        }
                    },
                    _ => {},
                }
            }
        },
        Rule::RDisj => {
            if let FactV::Unsat(class) = st.conclusion@ {
                if let FactV::Disjoint(a, b) = prem(steps, i, 0) {
                    lemma_prem_true(axs, steps, cls, role, ind, i, 0);
                    assert forall|x: int| !#[trigger] cls(class, x) by {
                        if cls(class, x) {
                            if class != a {
                                let k = choose|k: int| 1 <= k < n && #[trigger] prem(steps, i, k) == FactV::Sub(class, a);
                                lemma_prem_true(axs, steps, cls, role, ind, i, k);
                            }
                            if class != b {
                                let k = choose|k: int| 1 <= k < n && #[trigger] prem(steps, i, k) == FactV::Sub(class, b);
                                lemma_prem_true(axs, steps, cls, role, ind, i, k);
                            }
                            assert(cls(a, x) && cls(b, x));
                        }
                    }
                }
            }
        },
        Rule::RConjUnsat => {
            if let FactV::PairUnsat(d, e) = st.conclusion@ {
                lemma_prem_true(axs, steps, cls, role, ind, i, 0);
                match prem(steps, i, 0) {
                    FactV::Unsat(c) => {
                        assert forall|x: int| #![trigger cls(d, x)] #![trigger cls(e, x)] !(cls(d, x) && cls(e, x)) by {
                            assert(!cls(c, x));
                        }
                    },
                    FactV::Disjoint(a, b) => {
                        assert forall|x: int| #![trigger cls(d, x)] #![trigger cls(e, x)] !(cls(d, x) && cls(e, x)) by {
                            if cls(d, x) && cls(e, x) {
                                assert forall|u: Seq<char>, w: Seq<char>| #[trigger] crate::kernel::holds(steps, i, u, w) && cls(u, x)
                                    implies cls(w, x) by {
                                    if u != w {
                                        assert(side_sub(steps, i, u, w));
                                        let k = choose|k: int| 1 <= k < steps[i].premises@.len() && #[trigger] prem(steps, i, k) == FactV::Sub(u, w);
                                        lemma_prem_true(axs, steps, cls, role, ind, i, k);
                                        lemma_sub_true(cls, role, ind, u, w, x);
                                    }
                                }
                                assert(cls(a, x) && cls(b, x));
                            }
                        }
                    },
                    _ => {},
                }
            }
        },
        _ => {
            if n >= 1 {
                lemma_prem_true(axs, steps, cls, role, ind, i, 0);
            }
            if n >= 2 {
                lemma_prem_true(axs, steps, cls, role, ind, i, 1);
            }
            if n >= 3 {
                lemma_prem_true(axs, steps, cls, role, ind, i, 2);
            }
            match st.rule {
                Rule::RTrans => {
                    if let (FactV::Sub(c, d1), FactV::Sub(d2, e)) = (prem(steps, i, 0), prem(steps, i, 1)) {
                        assert forall|x: int| #[trigger] cls(c, x) implies cls(e, x) by {
                            assert(cls(d1, x));
                            assert(cls(d2, x));
                        }
                    }
                },
                Rule::RInst => {
                    if let (FactV::Assert(ca, who), FactV::Unsat(cu)) = (prem(steps, i, 0), prem(steps, i, 1)) {
                        assert(cls(ca, ind(who)));
                        assert(!cls(cu, ind(who)));
                    }
                },
                Rule::RDomain => {
                    if let (FactV::Ex(sub, r, f), FactV::Domain(dr, dom)) = (prem(steps, i, 0), prem(steps, i, 1)) {
                        assert forall|x: int| #[trigger] cls(sub, x) implies cls(dom, x) by {
                            let y = choose|y: int| #[trigger] role(r, x, y) && cls(f, y);
                            assert(role(dr, x, y));
                        }
                    }
                },
                Rule::RExistBot => {
                    if let (FactV::Ex(sub, r, f), FactV::Unsat(c)) = (prem(steps, i, 0), prem(steps, i, 1)) {
                        assert forall|x: int| !#[trigger] cls(sub, x) by {
                            if cls(sub, x) {
                                let y = choose|y: int| #[trigger] role(r, x, y) && cls(f, y);
                                assert(!cls(c, y));
                            }
                        }
                    }
                },
                Rule::RExistRangeBot => {
                    if let (FactV::Ex(sub, r, f), FactV::Range(rr, rg), FactV::PairUnsat(a, b))
                        = (prem(steps, i, 0), prem(steps, i, 1), prem(steps, i, 2)) {
                        assert forall|x: int| !#[trigger] cls(sub, x) by {
                            if cls(sub, x) {
                                let y = choose|y: int| #[trigger] role(r, x, y) && cls(f, y);
                                assert(role(rr, x, y));
                                assert(cls(rg, y));
                                assert(!(cls(a, y) && cls(b, y)));
                            }
                        }
                    }
                },
                _ => {
                    if let (FactV::Sub(sub, sup), FactV::Unsat(c)) = (prem(steps, i, 0), prem(steps, i, 1)) {
                        assert forall|x: int| !#[trigger] cls(sub, x) by {
                            if cls(sub, x) {
                                assert(cls(sup, x));
                                assert(!cls(c, x));
                            }
                        }
                    }
                },
            }
        },
    }
}

/// The first `n` steps of a valid proof conclude true facts.
proof fn lemma_steps_true(
    axs: Seq<AxiomV>,
    steps: Seq<Step>,
    cls: spec_fn(Seq<char>, int) -> bool,
    role: spec_fn(Seq<char>, int, int) -> bool,
    ind: spec_fn(Seq<char>) -> int,
    n: int,
)
    requires
        0 <= n <= steps.len(),
        proof_valid(axs, steps),
        is_model(cls, role, ind, axs),
    ensures
        forall|j: int| 0 <= j < n ==> fact_true(cls, role, ind, #[trigger] steps[j].conclusion@),
    decreases n,
{
    if n > 0 {
        lemma_steps_true(axs, steps, cls, role, ind, n - 1);
        lemma_step_true(axs, steps, cls, role, ind, n - 1);
    }
}

/// The kernel is sound: in every model of the axioms, every conclusion of a proof it accepts
/// is true. In particular a proof it accepts that concludes a refutation (`KbRefuted`)
/// shows that the axioms have no model.
pub proof fn lemma_kernel_sound(
    axs: Seq<AxiomV>,
    steps: Seq<Step>,
    cls: spec_fn(Seq<char>, int) -> bool,
    role: spec_fn(Seq<char>, int, int) -> bool,
    ind: spec_fn(Seq<char>) -> int,
)
    requires
        proof_valid(axs, steps),
        is_model(cls, role, ind, axs),
    ensures
        forall|j: int| 0 <= j < steps.len() ==> fact_true(cls, role, ind, #[trigger] steps[j].conclusion@),
        forall|j: int| 0 <= j < steps.len() ==> !(#[trigger] steps[j].conclusion@ is KbRefuted),
{
    lemma_steps_true(axs, steps, cls, role, ind, steps.len() as int);
}

/// A base fact of a model's axioms is true in it.
proof fn lemma_base_true(
    axs: Seq<AxiomV>,
    cls: spec_fn(Seq<char>, int) -> bool,
    role: spec_fn(Seq<char>, int, int) -> bool,
    ind: spec_fn(Seq<char>) -> int,
    g: FactV,
)
    requires
        is_model(cls, role, ind, axs),
        base_fact(axs, g),
    ensures
        fact_true(cls, role, ind, g),
{
    match g {
        FactV::Sub(c, d) => {
            let k = choose|k: int| 0 <= k < axs.len() && (#[trigger] axs[k] == AxiomV::SubClassOf(c, d)
                || (axs[k] matches AxiomV::EquivalentToIntersection(cl, parts) && cl == c && parts.contains(d)));
            assert(sat_axiom(cls, role, ind, axs[k]));
            if axs[k] == AxiomV::SubClassOf(c, d) {
                let ax = axs[k];
                assert(ax->SubClassOf_0 == c && ax->SubClassOf_1 == d);
                assert forall|x: int| #[trigger] cls(c, x) implies cls(d, x) by {
                    assert(cls(ax->SubClassOf_0, x));
                }
            }
            if let AxiomV::EquivalentToIntersection(cl, parts) = axs[k] {
                if axs[k] != AxiomV::SubClassOf(c, d) {
                    let ax = axs[k];
                    assert(ax->EquivalentToIntersection_0 == cl && ax->EquivalentToIntersection_1 == parts);
                    let q = choose|q: int| 0 <= q < parts.len() && parts[q] == d;
                    assert forall|x: int| #[trigger] cls(c, x) implies cls(d, x) by {
                        assert(cls(cl, x));
                        assert(cls(ax->EquivalentToIntersection_0, x));
                        assert(cls(ax->EquivalentToIntersection_1[q], x));
                    }
                }
            }
        },
        FactV::Disjoint(a, b) => {
            let k = choose|k: int| 0 <= k < axs.len() && #[trigger] axs[k] == AxiomV::DisjointClasses(a, b);
            assert(sat_axiom(cls, role, ind, axs[k]));
            let ax = axs[k];
            assert(ax->DisjointClasses_0 == a && ax->DisjointClasses_1 == b);
            assert forall|x: int| #![trigger cls(a, x)] #![trigger cls(b, x)] !(cls(a, x) && cls(b, x)) by {
                if cls(a, x) { assert(cls(ax->DisjointClasses_0, x)); }
            }
        },
        FactV::Assert(c, i) => {
            let k = choose|k: int| 0 <= k < axs.len() && #[trigger] axs[k] == AxiomV::ClassAssertion(c, i);
            assert(sat_axiom(cls, role, ind, axs[k]));
            let ax = axs[k];
            assert(ax->ClassAssertion_0 == c && ax->ClassAssertion_1 == i);
        },
        FactV::Ex(s2, r, d) => {
            let k = choose|k: int| 0 <= k < axs.len() && #[trigger] axs[k] == AxiomV::SubClassOfExistential(s2, r, d);
            assert(sat_axiom(cls, role, ind, axs[k]));
            let ax = axs[k];
            assert(ax->SubClassOfExistential_0 == s2 && ax->SubClassOfExistential_1 == r && ax->SubClassOfExistential_2 == d);
            assert forall|x: int| #[trigger] cls(s2, x) implies exists|y: int| #[trigger] role(r, x, y) && cls(d, y) by {
                assert(cls(ax->SubClassOfExistential_0, x));
            }
        },
        FactV::Range(r, e) => {
            let k = choose|k: int| 0 <= k < axs.len() && #[trigger] axs[k] == AxiomV::PropertyRange(r, e);
            assert(sat_axiom(cls, role, ind, axs[k]));
            let ax = axs[k];
            assert(ax->PropertyRange_0 == r && ax->PropertyRange_1 == e);
            assert forall|x: int, y: int| #[trigger] role(r, x, y) implies cls(e, y) by {
                assert(role(ax->PropertyRange_0, x, y));
            }
        },
        FactV::Domain(r, e) => {
            let k = choose|k: int| 0 <= k < axs.len() && #[trigger] axs[k] == AxiomV::PropertyDomain(r, e);
            assert(sat_axiom(cls, role, ind, axs[k]));
            let ax = axs[k];
            assert(ax->PropertyDomain_0 == r && ax->PropertyDomain_1 == e);
            assert forall|x: int, y: int| #[trigger] role(r, x, y) implies cls(e, x) by {
                assert(role(ax->PropertyDomain_0, x, y));
            }
        },
        _ => {},
    }
}

/// Membership along a true subsumption or reflexively.
proof fn lemma_below_true(
    cls: spec_fn(Seq<char>, int) -> bool,
    role: spec_fn(Seq<char>, int, int) -> bool,
    ind: spec_fn(Seq<char>) -> int,
    u: Seq<char>,
    w: Seq<char>,
    x: int,
)
    requires
        below(|g: FactV| fact_true(cls, role, ind, g), u, w),
        cls(u, x),
    ensures
        cls(w, x),
{
    if u != w {
        lemma_sub_true(cls, role, ind, u, w, x);
    }
}

/// Every rule of the engine's closure concludes a true fact from true facts of a model.
proof fn lemma_fires_true(
    axs: Seq<AxiomV>,
    cls: spec_fn(Seq<char>, int) -> bool,
    role: spec_fn(Seq<char>, int, int) -> bool,
    ind: spec_fn(Seq<char>) -> int,
    g: FactV,
)
    requires
        is_model(cls, role, ind, axs),
        fires(axs, |h: FactV| fact_true(cls, role, ind, h), g),
    ensures
        fact_true(cls, role, ind, g),
{
    let t = |h: FactV| fact_true(cls, role, ind, h);
    match g {
        FactV::Sub(c, e) => {
            assert forall|x: int| #[trigger] cls(c, x) implies cls(e, x) by {
                if domain_typed(axs, c, e) {
                    let (r, d) = choose|r: Seq<char>, d: Seq<char>| #[trigger] base_fact(axs, FactV::Ex(c, r, d)) && base_fact(axs, FactV::Domain(r, e));
                    lemma_base_true(axs, cls, role, ind, FactV::Ex(c, r, d));
                    lemma_base_true(axs, cls, role, ind, FactV::Domain(r, e));
                    let ex = FactV::Ex(c, r, d);
                    assert(ex->Ex_0 == c && ex->Ex_1 == r && ex->Ex_2 == d);
                    let y = choose|y: int| #[trigger] role(r, x, y) && cls(d, y);
                    let dm = FactV::Domain(r, e);
                    assert(dm->Domain_0 == r && dm->Domain_1 == e);
                } else {
                    let d = choose|d: Seq<char>| #[trigger] t(FactV::Sub(c, d)) && sub_edge(axs, d, e);
                    lemma_sub_true(cls, role, ind, c, d, x);
                    if told_sub(axs, d, e) {
                        lemma_base_true(axs, cls, role, ind, FactV::Sub(d, e));
                        lemma_sub_true(cls, role, ind, d, e, x);
                    } else {
                        let (r, f) = choose|r: Seq<char>, f: Seq<char>| #[trigger] base_fact(axs, FactV::Ex(d, r, f)) && base_fact(axs, FactV::Domain(r, e));
                        lemma_base_true(axs, cls, role, ind, FactV::Ex(d, r, f));
                        lemma_base_true(axs, cls, role, ind, FactV::Domain(r, e));
                        let ex = FactV::Ex(d, r, f);
                        assert(ex->Ex_0 == d && ex->Ex_1 == r && ex->Ex_2 == f);
                        let y = choose|y: int| #[trigger] role(r, x, y) && cls(f, y);
                        let dm = FactV::Domain(r, e);
                        assert(dm->Domain_0 == r && dm->Domain_1 == e);
                    }
                }
            }
        },
        FactV::Unsat(c) => {
            assert forall|x: int| !#[trigger] cls(c, x) by {
                if cls(c, x) {
                    if disj_clash(t, c) {
                        let (a, b) = choose|a: Seq<char>, b: Seq<char>| #[trigger] t(FactV::Disjoint(a, b)) && below(t, c, a) && below(t, c, b);
                        lemma_below_true(cls, role, ind, c, a, x);
                        lemma_below_true(cls, role, ind, c, b, x);
                        let dj = FactV::Disjoint(a, b);
                        assert(dj->Disjoint_0 == a && dj->Disjoint_1 == b);
                    } else if exists|r: Seq<char>, d: Seq<char>, e: Seq<char>|
                        #[trigger] t(FactV::Ex(c, r, d)) && #[trigger] t(FactV::Range(r, e)) && t(FactV::PairUnsat(d, e)) {
                        let (r, d, e) = choose|r: Seq<char>, d: Seq<char>, e: Seq<char>|
                            #[trigger] t(FactV::Ex(c, r, d)) && #[trigger] t(FactV::Range(r, e)) && t(FactV::PairUnsat(d, e));
                        let ex = FactV::Ex(c, r, d);
                        assert(ex->Ex_0 == c && ex->Ex_1 == r && ex->Ex_2 == d);
                        let y = choose|y: int| #[trigger] role(r, x, y) && cls(d, y);
                        let rg = FactV::Range(r, e);
                        assert(rg->Range_0 == r && rg->Range_1 == e);
                        assert(cls(e, y));
                        let pu = FactV::PairUnsat(d, e);
                        assert(pu->PairUnsat_0 == d && pu->PairUnsat_1 == e);
                    } else if exists|r: Seq<char>, d: Seq<char>| #[trigger] t(FactV::Ex(c, r, d)) && t(FactV::Unsat(d)) {
                        let (r, d) = choose|r: Seq<char>, d: Seq<char>| #[trigger] t(FactV::Ex(c, r, d)) && t(FactV::Unsat(d));
                        let ex = FactV::Ex(c, r, d);
                        assert(ex->Ex_0 == c && ex->Ex_1 == r && ex->Ex_2 == d);
                        let y = choose|y: int| #[trigger] role(r, x, y) && cls(d, y);
                        let un = FactV::Unsat(d);
                        assert(un->Unsat_0 == d);
                    } else {
                        let z = choose|z: Seq<char>| #[trigger] t(FactV::Sub(c, z)) && t(FactV::Unsat(z));
                        lemma_sub_true(cls, role, ind, c, z, x);
                        let un = FactV::Unsat(z);
                        assert(un->Unsat_0 == z);
                    }
                }
            }
        },
        FactV::PairUnsat(d, e) => {
            assert forall|x: int| #![trigger cls(d, x)] #![trigger cls(e, x)] !(cls(d, x) && cls(e, x)) by {
                if cls(d, x) && cls(e, x) {
                    if pair_disjoint(t, d, e) {
                        let (a, b) = choose|a: Seq<char>, b: Seq<char>|
                            #[trigger] t(FactV::Disjoint(a, b)) && ((below(t, d, a) && below(t, e, b)) || (below(t, d, b) && below(t, e, a)));
                        let dj = FactV::Disjoint(a, b);
                        assert(dj->Disjoint_0 == a && dj->Disjoint_1 == b);
                        if below(t, d, a) && below(t, e, b) {
                            lemma_below_true(cls, role, ind, d, a, x);
                            lemma_below_true(cls, role, ind, e, b, x);
                        } else {
                            lemma_below_true(cls, role, ind, d, b, x);
                            lemma_below_true(cls, role, ind, e, a, x);
                        }
                    } else {
                        let (s2, r) = choose|s2: Seq<char>, r: Seq<char>|
                            #[trigger] t(FactV::Ex(s2, r, d)) && t(FactV::Range(r, e)) && (pair_disjoint(t, d, e) || t(FactV::Unsat(e)));
                        let un = FactV::Unsat(e);
                        assert(un->Unsat_0 == e);
                    }
                }
            }
        },
        FactV::KbRefuted(i, c) => {
            let asr = FactV::Assert(c, i);
            assert(asr->Assert_0 == c && asr->Assert_1 == i);
            let un = FactV::Unsat(c);
            assert(un->Unsat_0 == c);
            assert(cls(c, ind(i)));
        },
        _ => {},
    }
}

/// The engine's rule closure is sound: every fact it derives from the axioms is true in every
/// model of them; a refuted class is empty in every model, and a refuted individual leaves
/// the axioms without one.
pub proof fn lemma_closure_sound(
    axs: Seq<AxiomV>,
    cls: spec_fn(Seq<char>, int) -> bool,
    role: spec_fn(Seq<char>, int, int) -> bool,
    ind: spec_fn(Seq<char>) -> int,
    f: FactV,
)
    requires
        is_model(cls, role, ind, axs),
        in_closure(axs, f),
    ensures
        fact_true(cls, role, ind, f),
{
    let t = |h: FactV| fact_true(cls, role, ind, h);
    assert forall|g: FactV| #[trigger] base_fact(axs, g) implies t(g) by {
        lemma_base_true(axs, cls, role, ind, g);
    }
    assert forall|g: FactV| #[trigger] fires(axs, t, g) implies t(g) by {
        lemma_fires_true(axs, cls, role, ind, g);
    }
    lemma_least(axs, t, f);
}

/// The engine's verdicts are sound: in every model of the axioms each class a `Refuted`
/// verdict lists is empty, and a verdict listing a refuted individual means the axioms have no
/// model at all.
pub proof fn lemma_verdict_sound(
    axs: Seq<AxiomV>,
    v: crate::verdict::Verdict,
    cls: spec_fn(Seq<char>, int) -> bool,
    role: spec_fn(Seq<char>, int, int) -> bool,
    ind: spec_fn(Seq<char>) -> int,
)
    requires
        crate::saturate::is_verdict_of(axs, v),
        is_model(cls, role, ind, axs),
    ensures
        v matches crate::verdict::Verdict::Refuted { unsat_classes, refuted_individuals, .. } ==> {
            &&& forall|c: Seq<char>, x: int| #[trigger] crate::fragment::names_view(unsat_classes@).contains(c) ==> !#[trigger] cls(c, x)
            &&& refuted_individuals@.len() == 0
        },
{
    if let crate::verdict::Verdict::Refuted { unsat_classes, refuted_individuals, .. } = v {
        assert forall|c: Seq<char>, x: int| #[trigger] crate::fragment::names_view(unsat_classes@).contains(c) implies !#[trigger] cls(c, x) by {
            assert(crate::closure::is_unsat(axs, c));
            lemma_closure_sound(axs, cls, role, ind, FactV::Unsat(c));
            let u = FactV::Unsat(c);
            assert(u->Unsat_0 == c);
        }
        if refuted_individuals@.len() > 0 {
            let i = refuted_individuals@[0]@;
            assert(crate::fragment::names_view(refuted_individuals@)[0] == i);
            assert(crate::fragment::names_view(refuted_individuals@).contains(i));
            assert(crate::closure::is_refuted_individual(axs, i));
            let c = choose|c: Seq<char>| #[trigger] in_closure(axs, FactV::KbRefuted(i, c));
            lemma_closure_sound(axs, cls, role, ind, FactV::KbRefuted(i, c));
        }
    }
}

} // verus!
