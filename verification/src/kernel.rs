//! The small trusted kernel: validates a proof DAG independently of the engine's search.
//!
//! Every step's conclusion must follow from its premises under its named rule, input
//! citations must match the input axioms verbatim, and the DAG must be topologically ordered.
//! What it accepts is sound: every conclusion is true in every model of the axioms
//! (`crate::semantics::lemma_kernel_sound`).
use vstd::prelude::*;
use crate::fragment::{Axiom, AxiomV, axioms_view};
use crate::verdict::{Fact, FactV, Proof, Rule, Step};

verus! {

/// A rejected proof: the first invalid step and why.
#[derive(Debug, Clone, PartialEq, Eq)]
pub struct CheckError {
    pub step: usize,
    pub reason: String,
}

/// The conclusion of the `k`-th premise of step `i`.
pub open spec fn prem(steps: Seq<Step>, i: int, k: int) -> FactV {
    steps[steps[i].premises@[k] as int].conclusion@
}

/// An `Input` step's conclusion restates its cited axiom.
pub open spec fn input_matches(ax: AxiomV, f: FactV) -> bool {
    match (ax, f) {
        (AxiomV::SubClassOf(s, p), FactV::Sub(fs, fp)) => s == fs && p == fp,
        (AxiomV::DisjointClasses(a, b), FactV::Disjoint(fa, fb)) => a == fa && b == fb,
        (AxiomV::ClassAssertion(c, i), FactV::Assert(fc, fi)) => c == fc && i == fi,
        (AxiomV::SubClassOfExistential(s, r, d), FactV::Ex(fs, fr, fd)) => s == fs && r == fr
            && d == fd,
        (AxiomV::PropertyRange(r, c), FactV::Range(fr, fc)) => r == fr && c == fc,
        (AxiomV::PropertyDomain(r, c), FactV::Domain(fr, fc)) => r == fr && c == fc,
        _ => false,
    }
}

/// `R-disj`: some side premise (index ≥ 1) establishes `class ⊑ x`.
pub open spec fn side_sub(steps: Seq<Step>, i: int, x: Seq<char>, y: Seq<char>) -> bool {
    exists|k: int| 1 <= k < steps[i].premises@.len() && #[trigger] prem(steps, i, k) == FactV::Sub(x, y)
}

/// Why an `Input` or `R-eq` step fails, if it does.
pub open spec fn cite_flaw(axs: Seq<AxiomV>, st: Step) -> Option<Seq<char>> {
    match st.rule {
        Rule::Input => match st.axiom_index {
            None => Some("Input step must cite an axiom"@),
            Some(ai) => if ai >= axs.len() {
                Some("axiom index out of range"@)
            } else if !input_matches(axs[ai as int], st.conclusion@) {
                Some("Input conclusion does not match the cited axiom"@)
            } else {
                None
            },
        },
        _ => match st.axiom_index {
            None => Some("R-eq must cite its ≡ axiom"@),
            Some(ai) => if ai >= axs.len() {
                Some("axiom index out of range"@)
            } else {
                match st.conclusion@ {
                    FactV::Sub(sub, sup) => match axs[ai as int] {
                        AxiomV::EquivalentToIntersection(class, parts) => if sub != class
                            || !parts.contains(sup) {
                            Some("R-eq conclusion is not a told conjunct of the ≡ axiom"@)
                        } else {
                            None
                        },
                        _ => Some("R-eq must cite an EquivalentToIntersection axiom"@),
                    },
                    _ => Some("R-eq must conclude a Sub fact"@),
                }
            },
        },
    }
}

/// Why an `R-disj` step fails, if it does: each side of the disjointness holds of the class
/// reflexively or by a side premise `class ⊑ side`; against `Disjoint(a, a)` one premise
/// `class ⊑ a` establishes both sides.
pub open spec fn disj_flaw(steps: Seq<Step>, i: int) -> Option<Seq<char>> {
    let n = steps[i].premises@.len();
    match steps[i].conclusion@ {
        FactV::Unsat(class) => if n == 0 {
            Some("R-disj's first premise must be a Disjoint fact"@)
        } else {
            match prem(steps, i, 0) {
                FactV::Disjoint(a, b) => if exists|k: int|
                    1 <= k < n && !(#[trigger] prem(steps, i, k) matches FactV::Sub(s, p) && s == class && (p
                        == a || p == b)) {
                    Some("R-disj side premise is not class ⊑ a|b"@)
                } else if !((class == a || side_sub(steps, i, class, a)) && (class == b || side_sub(
                    steps,
                    i,
                    class,
                    b,
                ))) {
                    Some("R-disj does not establish both disjoint sides"@)
                } else {
                    None
                },
                _ => Some("R-disj's first premise must be a Disjoint fact"@),
            }
        },
        _ => Some("R-disj must conclude an Unsat fact"@),
    }
}

/// `R-conj-unsat`: `x ⊑ y` reflexively or via a side premise.
pub open spec fn holds(steps: Seq<Step>, i: int, x: Seq<char>, y: Seq<char>) -> bool {
    x == y || side_sub(steps, i, x, y)
}

/// Why an `R-conj-unsat` step fails, if it does: either one `Unsat` premise names a member of
/// the pair, or a `Disjoint` premise is followed by `Sub` side premises placing the pair under
/// its two sides (none where both sides are reflexive).
pub open spec fn conj_flaw(steps: Seq<Step>, i: int) -> Option<Seq<char>> {
    let n = steps[i].premises@.len();
    match steps[i].conclusion@ {
        FactV::PairUnsat(d, e) => if n == 0 {
            Some("R-conj-unsat's first premise must be Disjoint"@)
        } else {
            match prem(steps, i, 0) {
                FactV::Unsat(class) => if n != 1 {
                    Some("R-conj-unsat's first premise must be Disjoint"@)
                } else if class != d && class != e {
                    Some("R-conj-unsat's Unsat premise is neither pair member"@)
                } else {
                    None
                },
                FactV::Disjoint(a, b) => if !((holds(steps, i, d, a) && holds(steps, i, e, b)) || (
                holds(steps, i, d, b) && holds(steps, i, e, a))) {
                    Some("R-conj-unsat does not establish the pair under the disjointness"@)
                } else if exists|k: int| 1 <= k < n && !(#[trigger] prem(steps, i, k) is Sub) {
                    Some("R-conj-unsat side premises must be Sub facts"@)
                } else {
                    None
                },
                _ => Some("R-conj-unsat's first premise must be Disjoint"@),
            }
        },
        _ => Some("R-conj-unsat must conclude PairUnsat"@),
    }
}

/// Why a step with a fixed number of premises fails, if it does.
pub open spec fn fixed_flaw(steps: Seq<Step>, i: int) -> Option<Seq<char>> {
    let st = steps[i];
    let n = st.premises@.len();
    match st.rule {
        Rule::RTrans => if n != 2 {
            Some("R-trans takes exactly 2 premises"@)
        } else {
            match (prem(steps, i, 0), prem(steps, i, 1)) {
                (FactV::Sub(c, d1), FactV::Sub(d2, e)) => match st.conclusion@ {
                    FactV::Sub(sub, sup) => if d1 != d2 || sub != c || sup != e {
                        Some("R-trans premises do not chain to the conclusion"@)
                    } else {
                        None
                    },
                    _ => Some("R-trans must conclude a Sub fact"@),
                },
                _ => Some("R-trans premises must both be Sub facts"@),
            }
        },
        Rule::RInst => if n != 2 {
            Some("R-inst takes exactly 2 premises"@)
        } else {
            match (prem(steps, i, 0), prem(steps, i, 1)) {
                (FactV::Assert(ca, ind), FactV::Unsat(cu)) => match st.conclusion@ {
                    FactV::KbRefuted(ri, rc) => if ca != cu || ri != ind || rc != ca {
                        Some("R-inst premises do not support the refutation"@)
                    } else {
                        None
                    },
                    _ => Some("R-inst must conclude KbRefuted"@),
                },
                _ => Some("R-inst premises must be Assert then Unsat"@),
            }
        },
        Rule::RDomain => if n != 2 {
            Some("R-domain takes exactly 2 premises"@)
        } else {
            match (prem(steps, i, 0), prem(steps, i, 1)) {
                (FactV::Ex(sub, role, _f), FactV::Domain(dr, domain)) => match st.conclusion@ {
                    FactV::Sub(cs, sup) => if role != dr || cs != sub || sup != domain {
                        Some("R-domain premises do not type the subject"@)
                    } else {
                        None
                    },
                    _ => Some("R-domain must conclude a Sub fact"@),
                },
                _ => Some("R-domain premises must be Ex then Domain"@),
            }
        },
        Rule::RExistBot => if n != 2 {
            Some("R-exist-⊥ takes exactly 2 premises"@)
        } else {
            match (prem(steps, i, 0), prem(steps, i, 1)) {
                (FactV::Ex(sub, _r, filler), FactV::Unsat(class)) => match st.conclusion@ {
                    FactV::Unsat(cu) => if class != filler || cu != sub {
                        Some("R-exist-⊥ filler/subject do not line up"@)
                    } else {
                        None
                    },
                    _ => Some("R-exist-⊥ must conclude Unsat"@),
                },
                _ => Some("R-exist-⊥ premises must be Ex then Unsat"@),
            }
        },
        Rule::RExistRangeBot => if n != 3 {
            Some("R-exist-range-⊥ takes exactly 3 premises"@)
        } else {
            match (prem(steps, i, 0), prem(steps, i, 1), prem(steps, i, 2)) {
                (FactV::Ex(sub, role, filler), FactV::Range(rr, range), FactV::PairUnsat(a, b)) => {
                    match st.conclusion@ {
                        FactV::Unsat(cu) => if role != rr || !((a == filler && b == range) || (a
                            == range && b == filler)) || cu != sub {
                            Some("R-exist-range-⊥ does not empty this successor set"@)
                        } else {
                            None
                        },
                        _ => Some("R-exist-range-⊥ must conclude Unsat"@),
                    }
                },
                _ => Some("R-exist-range-⊥ premises must be Ex, Range, PairUnsat"@),
            }
        },
        _ => if n != 2 {
            Some("R-sub-unsat takes exactly 2 premises"@)
        } else {
            match (prem(steps, i, 0), prem(steps, i, 1)) {
                (FactV::Sub(sub, sup), FactV::Unsat(class)) => match st.conclusion@ {
                    FactV::Unsat(cu) => if class != sup || cu != sub {
                        Some("R-sub-unsat does not propagate down the told edge"@)
                    } else {
                        None
                    },
                    _ => Some("R-sub-unsat must conclude Unsat"@),
                },
                _ => Some("R-sub-unsat premises must be Sub then Unsat"@),
            }
        },
    }
}

/// Why step `i` of a proof fails against the input axioms; `None` when it is valid.
pub open spec fn step_flaw(axs: Seq<AxiomV>, steps: Seq<Step>, i: int) -> Option<Seq<char>> {
    let st = steps[i];
    if st.id != i {
        Some("step ids must be dense and ordered"@)
    } else if exists|k: int| 0 <= k < st.premises@.len() && #[trigger] st.premises@[k] >= i {
        Some("premise does not precede the step (not a DAG order)"@)
    } else {
        match st.rule {
            Rule::Input | Rule::REq => cite_flaw(axs, st),
            Rule::RDisj => disj_flaw(steps, i),
            Rule::RConjUnsat => conj_flaw(steps, i),
            _ => fixed_flaw(steps, i),
        }
    }
}

/// Every step of the proof is valid against the axioms.
pub open spec fn proof_valid(axs: Seq<AxiomV>, steps: Seq<Step>) -> bool {
    forall|i: int| 0 <= i < steps.len() ==> step_flaw(axs, steps, i) is None
}

/// Appending a step leaves the verdict on every earlier step unchanged.
pub proof fn lemma_flaw_push(axs: Seq<AxiomV>, steps: Seq<Step>, s: Step, j: int)
    requires
        0 <= j < steps.len(),
    ensures
        step_flaw(axs, steps.push(s), j) == step_flaw(axs, steps, j),
{
    let t = steps.push(s);
    assert(t[j] == steps[j]);
    if forall|k: int| 0 <= k < steps[j].premises@.len() ==> #[trigger] steps[j].premises@[k] < j {
        assert forall|k: int| 0 <= k < steps[j].premises@.len() implies #[trigger] prem(t, j, k) == prem(steps, j, k) by {
            assert(steps[j].premises@[k] < j);
            assert(t[steps[j].premises@[k] as int] == steps[steps[j].premises@[k] as int]);
        }
        assert forall|x: Seq<char>, y: Seq<char>| #[trigger] side_sub(t, j, x, y) == side_sub(steps, j, x, y) by {
            if side_sub(t, j, x, y) {
                let k = choose|k: int| 1 <= k < t[j].premises@.len() && #[trigger] prem(t, j, k) == FactV::Sub(x, y);
                assert(prem(steps, j, k) == FactV::Sub(x, y));
            }
            if side_sub(steps, j, x, y) {
                let k = choose|k: int| 1 <= k < steps[j].premises@.len() && #[trigger] prem(steps, j, k) == FactV::Sub(x, y);
                assert(prem(t, j, k) == FactV::Sub(x, y));
            }
        }
        assert(disj_flaw(t, j) == disj_flaw(steps, j));
        if t[j].premises@.len() > 0 {
            assert(prem(t, j, 0) == prem(steps, j, 0));
        }
        assert forall|x: Seq<char>, y: Seq<char>| #[trigger] holds(t, j, x, y) == holds(steps, j, x, y) by {
            assert(side_sub(t, j, x, y) == side_sub(steps, j, x, y));
        }
        let n = steps[j].premises@.len();
        assert((exists|k: int| 1 <= k < n && !(#[trigger] prem(t, j, k) is Sub)) == (exists|k: int|
            1 <= k < n && !(#[trigger] prem(steps, j, k) is Sub))) by {
            if exists|k: int| 1 <= k < n && !(#[trigger] prem(t, j, k) is Sub) {
                let k = choose|k: int| 1 <= k < n && !(#[trigger] prem(t, j, k) is Sub);
                assert(prem(t, j, k) == prem(steps, j, k));
            }
            if exists|k: int| 1 <= k < n && !(#[trigger] prem(steps, j, k) is Sub) {
                let k = choose|k: int| 1 <= k < n && !(#[trigger] prem(steps, j, k) is Sub);
                assert(prem(t, j, k) == prem(steps, j, k));
            }
        }
        assert(conj_flaw(t, j) == conj_flaw(steps, j));
        assert(fixed_flaw(t, j) == fixed_flaw(steps, j));
    }
}

/// Name equality by content.
fn same(a: &String, b: &String) -> (r: bool)
    ensures
        r == (a@ == b@),
{
    *a == *b
}

/// Whether `v` holds a name equal to `x`.
fn has_name(v: &Vec<String>, x: &String) -> (r: bool)
    ensures
        r == crate::fragment::names_view(v@).contains(x@),
{
    let mut k: usize = 0;
    while k < v.len()
        invariant
            k <= v.len(),
            forall|j: int| 0 <= j < k ==> v@[j]@ != x@,
        decreases v.len() - k,
    {
        if same(&v[k], x) {
            assert(crate::fragment::names_view(v@)[k as int] == x@);
            return true;
        }
        k += 1;
    }
    assert(forall|j: int| 0 <= j < v.len() ==> crate::fragment::names_view(v@)[j] != x@);
    false
}

/// Exec form of [`input_matches`].
fn input_matches_exec(ax: &Axiom, f: &Fact) -> (r: bool)
    ensures
        r == input_matches(ax@, f@),
{
    match (ax, f) {
        (Axiom::SubClassOf { sub, sup }, Fact::Sub { sub: fs, sup: fp }) => same(sub, fs) && same(
            sup,
            fp,
        ),
        (Axiom::DisjointClasses { a, b }, Fact::Disjoint { a: fa, b: fb }) => same(a, fa) && same(
            b,
            fb,
        ),
        (
            Axiom::ClassAssertion { class, individual },
            Fact::Assert { class: fc, individual: fi },
        ) => same(class, fc) && same(individual, fi),
        (
            Axiom::SubClassOfExistential { sub, role, filler },
            Fact::Ex { sub: fs, role: fr, filler: ff },
        ) => same(sub, fs) && same(role, fr) && same(filler, ff),
        (Axiom::PropertyRange { role, range }, Fact::Range { role: fr, range: fc }) => same(
            role,
            fr,
        ) && same(range, fc),
        (Axiom::PropertyDomain { role, domain }, Fact::Domain { role: fr, domain: fc }) => same(
            role,
            fr,
        ) && same(domain, fc),
        _ => false,
    }
}

/// The spec view of an optional static reason.
pub open spec fn reason_view(r: Option<&'static str>) -> Option<Seq<char>> {
    match r {
        Some(s) => Some(s@),
        None => None,
    }
}

/// The conclusion of the `k`-th premise of step `i`.
fn premise<'a>(steps: &'a [Step], i: usize, k: usize) -> (f: &'a Fact)
    requires
        i < steps@.len(),
        k < steps@[i as int].premises@.len(),
        steps@[i as int].premises@[k as int] < steps@.len(),
    ensures
        f@ == prem(steps@, i as int, k as int),
{
    &steps[steps[i].premises[k]].conclusion
}

/// Exec form of [`cite_flaw`].
fn cite_flaw_exec(axioms: &[Axiom], st: &Step) -> (r: Option<&'static str>)
    requires
        st.rule is Input || st.rule is REq,
    ensures
        reason_view(r) == cite_flaw(axioms_view(axioms@), *st),
{
    let ghost axs = axioms_view(axioms@);
    match st.rule {
        Rule::Input => match st.axiom_index {
            None => Some("Input step must cite an axiom"),
            Some(ai) => if ai >= axioms.len() {
                Some("axiom index out of range")
            } else if !input_matches_exec(&axioms[ai], &st.conclusion) {
                Some("Input conclusion does not match the cited axiom")
            } else {
                None
            },
        },
        _ => match st.axiom_index {
            None => Some("R-eq must cite its ≡ axiom"),
            Some(ai) => if ai >= axioms.len() {
                Some("axiom index out of range")
            } else {
                match &st.conclusion {
                    Fact::Sub { sub, sup } => match &axioms[ai] {
                        Axiom::EquivalentToIntersection { class, parts } => {
                            if !same(sub, class) || !has_name(parts, sup) {
                                Some("R-eq conclusion is not a told conjunct of the ≡ axiom")
                            } else {
                                None
                            }
                        },
                        _ => Some("R-eq must cite an EquivalentToIntersection axiom"),
                    },
                    _ => Some("R-eq must conclude a Sub fact"),
                }
            },
        },
    }
}

/// The premises of step `i` all precede it.
pub open spec fn ordered_premises(steps: Seq<Step>, i: int) -> bool {
    forall|k: int| 0 <= k < steps[i].premises@.len() ==> #[trigger] steps[i].premises@[k] < i
}

/// Exec form of [`disj_flaw`].
fn disj_flaw_exec(steps: &[Step], i: usize) -> (r: Option<&'static str>)
    requires
        i < steps@.len(),
        ordered_premises(steps@, i as int),
    ensures
        reason_view(r) == disj_flaw(steps@, i as int),
{
    let st = &steps[i];
    let n = st.premises.len();
    let class = match &st.conclusion {
        Fact::Unsat { class } => class,
        _ => return Some("R-disj must conclude an Unsat fact"),
    };
    if n == 0 {
        return Some("R-disj's first premise must be a Disjoint fact");
    }
    let (a, b) = match premise(steps, i, 0) {
        Fact::Disjoint { a, b } => (a, b),
        _ => return Some("R-disj's first premise must be a Disjoint fact"),
    };
    let mut have_a = same(class, a);
    let mut have_b = same(class, b);
    let mut k: usize = 1;
    while k < n
        invariant
            1 <= k <= n,
            n == steps@[i as int].premises@.len(),
            i < steps@.len(),
            ordered_premises(steps@, i as int),
            steps@[i as int].conclusion@ == FactV::Unsat(class@),
            prem(steps@, i as int, 0) == FactV::Disjoint(a@, b@),
            forall|j: int|
                1 <= j < k ==> (#[trigger] prem(steps@, i as int, j) matches FactV::Sub(s, p) && s
                    == class@ && (p == a@ || p == b@)),
            have_a == (class@ == a@ || exists|j: int|
                1 <= j < k && #[trigger] prem(steps@, i as int, j) == FactV::Sub(class@, a@)),
            have_b == (class@ == b@ || exists|j: int|
                1 <= j < k && #[trigger] prem(steps@, i as int, j) == FactV::Sub(class@, b@)),
        decreases n - k,
    {
        match premise(steps, i, k) {
            Fact::Sub { sub, sup } if same(sub, class) && (same(sup, a) || same(sup, b)) => {
                if same(sup, a) {
                    have_a = true;
                }
                if same(sup, b) {
                    have_b = true;
                }
            },
            _ => {
                assert(!(prem(steps@, i as int, k as int) matches FactV::Sub(s, p) && s == class@
                    && (p == a@ || p == b@)));
                return Some("R-disj side premise is not class ⊑ a|b");
            },
        }
        k += 1;
    }
    if !(have_a && have_b) {
        return Some("R-disj does not establish both disjoint sides");
    }
    None
}

/// Whether some side premise (index ≥ 1) of step `i` is `x ⊑ y`.
fn side_sub_exec(steps: &[Step], i: usize, x: &String, y: &String) -> (r: bool)
    requires
        i < steps@.len(),
        ordered_premises(steps@, i as int),
    ensures
        r == side_sub(steps@, i as int, x@, y@),
{
    let n = steps[i].premises.len();
    let mut k: usize = 1;
    while k < n
        invariant
            1 <= k,
            n == steps@[i as int].premises@.len(),
            i < steps@.len(),
            ordered_premises(steps@, i as int),
            forall|j: int| 1 <= j < k ==> #[trigger] prem(steps@, i as int, j) != FactV::Sub(x@, y@),
        decreases n - k,
    {
        match premise(steps, i, k) {
            Fact::Sub { sub, sup } => {
                if same(sub, x) && same(sup, y) {
                    return true;
                }
            },
            _ => {},
        }
        k += 1;
    }
    false
}

/// Exec form of [`conj_flaw`].
fn conj_flaw_exec(steps: &[Step], i: usize) -> (r: Option<&'static str>)
    requires
        i < steps@.len(),
        ordered_premises(steps@, i as int),
    ensures
        reason_view(r) == conj_flaw(steps@, i as int),
{
    let st = &steps[i];
    let n = st.premises.len();
    let (d, e) = match &st.conclusion {
        Fact::PairUnsat { a, b } => (a, b),
        _ => return Some("R-conj-unsat must conclude PairUnsat"),
    };
    if n == 0 {
        return Some("R-conj-unsat's first premise must be Disjoint");
    }
    if let Fact::Unsat { class } = premise(steps, i, 0) {
        if n != 1 {
            return Some("R-conj-unsat's first premise must be Disjoint");
        }
        return if !same(class, d) && !same(class, e) {
            Some("R-conj-unsat's Unsat premise is neither pair member")
        } else {
            None
        };
    }
    {
        match premise(steps, i, 0) {
            Fact::Disjoint { a, b } => {
                let da = same(d, a) || side_sub_exec(steps, i, d, a);
                let eb = same(e, b) || side_sub_exec(steps, i, e, b);
                let db = same(d, b) || side_sub_exec(steps, i, d, b);
                let ea = same(e, a) || side_sub_exec(steps, i, e, a);
                if !((da && eb) || (db && ea)) {
                    return Some("R-conj-unsat does not establish the pair under the disjointness");
                }
                let mut k: usize = 1;
                while k < n
                    invariant
                        1 <= k,
                        n == steps@[i as int].premises@.len(),
                        i < steps@.len(),
                        ordered_premises(steps@, i as int),
                        n >= 1,
                        steps@[i as int].conclusion@ == FactV::PairUnsat(d@, e@),
                        prem(steps@, i as int, 0) == FactV::Disjoint(a@, b@),
                        (holds(steps@, i as int, d@, a@) && holds(steps@, i as int, e@, b@)) || (
                        holds(steps@, i as int, d@, b@) && holds(steps@, i as int, e@, a@)),
                        forall|j: int| 1 <= j < k ==> #[trigger] prem(steps@, i as int, j) is Sub,
                    decreases n - k,
                {
                    match premise(steps, i, k) {
                        Fact::Sub { .. } => {},
                        _ => {
                            assert(!(prem(steps@, i as int, k as int) is Sub));
                            return Some("R-conj-unsat side premises must be Sub facts");
                        },
                    }
                    k += 1;
                }
                None
            },
            _ => Some("R-conj-unsat's first premise must be Disjoint"),
        }
    }
}

/// Exec form of [`fixed_flaw`].
fn fixed_flaw_exec(steps: &[Step], i: usize) -> (r: Option<&'static str>)
    requires
        i < steps@.len(),
        ordered_premises(steps@, i as int),
    ensures
        reason_view(r) == fixed_flaw(steps@, i as int),
{
    let st = &steps[i];
    let n = st.premises.len();
    match st.rule {
        Rule::RTrans => {
            if n != 2 {
                return Some("R-trans takes exactly 2 premises");
            }
            match (premise(steps, i, 0), premise(steps, i, 1)) {
                (Fact::Sub { sub: c, sup: d1 }, Fact::Sub { sub: d2, sup: e }) => match &st.conclusion {
                    Fact::Sub { sub, sup } => if !same(d1, d2) || !same(sub, c) || !same(sup, e) {
                        Some("R-trans premises do not chain to the conclusion")
                    } else {
                        None
                    },
                    _ => Some("R-trans must conclude a Sub fact"),
                },
                _ => Some("R-trans premises must both be Sub facts"),
            }
        },
        Rule::RInst => {
            if n != 2 {
                return Some("R-inst takes exactly 2 premises");
            }
            match (premise(steps, i, 0), premise(steps, i, 1)) {
                (Fact::Assert { class: ca, individual }, Fact::Unsat { class: cu }) => match &st.conclusion {
                    Fact::KbRefuted { individual: ri, class: rc } => if !same(ca, cu) || !same(
                        ri,
                        individual,
                    ) || !same(rc, ca) {
                        Some("R-inst premises do not support the refutation")
                    } else {
                        None
                    },
                    _ => Some("R-inst must conclude KbRefuted"),
                },
                _ => Some("R-inst premises must be Assert then Unsat"),
            }
        },
        Rule::RDomain => {
            if n != 2 {
                return Some("R-domain takes exactly 2 premises");
            }
            match (premise(steps, i, 0), premise(steps, i, 1)) {
                (Fact::Ex { sub, role, .. }, Fact::Domain { role: dr, domain }) => match &st.conclusion {
                    Fact::Sub { sub: cs, sup } => if !same(role, dr) || !same(cs, sub) || !same(
                        sup,
                        domain,
                    ) {
                        Some("R-domain premises do not type the subject")
                    } else {
                        None
                    },
                    _ => Some("R-domain must conclude a Sub fact"),
                },
                _ => Some("R-domain premises must be Ex then Domain"),
            }
        },
        Rule::RExistBot => {
            if n != 2 {
                return Some("R-exist-⊥ takes exactly 2 premises");
            }
            match (premise(steps, i, 0), premise(steps, i, 1)) {
                (Fact::Ex { sub, filler, .. }, Fact::Unsat { class }) => match &st.conclusion {
                    Fact::Unsat { class: cu } => if !same(class, filler) || !same(cu, sub) {
                        Some("R-exist-⊥ filler/subject do not line up")
                    } else {
                        None
                    },
                    _ => Some("R-exist-⊥ must conclude Unsat"),
                },
                _ => Some("R-exist-⊥ premises must be Ex then Unsat"),
            }
        },
        Rule::RExistRangeBot => {
            if n != 3 {
                return Some("R-exist-range-⊥ takes exactly 3 premises");
            }
            match (premise(steps, i, 0), premise(steps, i, 1), premise(steps, i, 2)) {
                (
                    Fact::Ex { sub, role, filler },
                    Fact::Range { role: rr, range },
                    Fact::PairUnsat { a, b },
                ) => match &st.conclusion {
                    Fact::Unsat { class: cu } => {
                        let pair_ok = (same(a, filler) && same(b, range)) || (same(a, range)
                            && same(b, filler));
                        if !same(role, rr) || !pair_ok || !same(cu, sub) {
                            Some("R-exist-range-⊥ does not empty this successor set")
                        } else {
                            None
                        }
                    },
                    _ => Some("R-exist-range-⊥ must conclude Unsat"),
                },
                _ => Some("R-exist-range-⊥ premises must be Ex, Range, PairUnsat"),
            }
        },
        _ => {
            if n != 2 {
                return Some("R-sub-unsat takes exactly 2 premises");
            }
            match (premise(steps, i, 0), premise(steps, i, 1)) {
                (Fact::Sub { sub, sup }, Fact::Unsat { class }) => match &st.conclusion {
                    Fact::Unsat { class: cu } => if !same(class, sup) || !same(cu, sub) {
                        Some("R-sub-unsat does not propagate down the told edge")
                    } else {
                        None
                    },
                    _ => Some("R-sub-unsat must conclude Unsat"),
                },
                _ => Some("R-sub-unsat premises must be Sub then Unsat"),
            }
        },
    }
}

/// Exec form of [`step_flaw`].
fn step_flaw_exec(axioms: &[Axiom], steps: &[Step], i: usize) -> (r: Option<&'static str>)
    requires
        i < steps@.len(),
    ensures
        reason_view(r) == step_flaw(axioms_view(axioms@), steps@, i as int),
{
    let st = &steps[i];
    if st.id != i {
        return Some("step ids must be dense and ordered");
    }
    let mut k: usize = 0;
    while k < st.premises.len()
        invariant
            i < steps@.len(),
            st == steps@[i as int],
            st.id == i,
            k <= st.premises@.len(),
            forall|j: int| 0 <= j < k ==> #[trigger] st.premises@[j] < i,
        decreases st.premises@.len() - k,
    {
        if st.premises[k] >= i {
            assert(st.premises@[k as int] >= i);
            return Some("premise does not precede the step (not a DAG order)");
        }
        k += 1;
    }
    assert(ordered_premises(steps@, i as int));
    match st.rule {
        Rule::Input | Rule::REq => cite_flaw_exec(axioms, st),
        Rule::RDisj => disj_flaw_exec(steps, i),
        Rule::RConjUnsat => conj_flaw_exec(steps, i),
        _ => fixed_flaw_exec(steps, i),
    }
}

/// The rejection for step `step`.
fn err(step: usize, reason: &str) -> (e: CheckError)
    ensures
        e.step == step,
        e.reason@ == reason@,
{
    CheckError { step, reason: String::from_str(reason) }
}

/// Validate a proof DAG against the input axioms. Returns the number of validated steps, or
/// the first invalid step with the reason it fails.
pub fn check_proof(axioms: &[Axiom], proof: &Proof) -> (r: Result<usize, CheckError>)
    ensures
        match r {
            Ok(n) => n == proof.steps@.len() && proof_valid(axioms_view(axioms@), proof.steps@),
            Err(e) => e.step < proof.steps@.len() && step_flaw(
                axioms_view(axioms@),
                proof.steps@,
                e.step as int,
            ) == Some(e.reason@) && forall|j: int|
                0 <= j < e.step ==> step_flaw(axioms_view(axioms@), proof.steps@, j) is None,
        },
        r is Ok ==> forall|cls: spec_fn(Seq<char>, int) -> bool, role: spec_fn(Seq<char>, int, int) -> bool, ind: spec_fn(Seq<char>) -> int|
            #[trigger] crate::semantics::is_model(cls, role, ind, axioms_view(axioms@))
            ==> forall|j: int| 0 <= j < proof.steps@.len() ==> crate::semantics::fact_true(cls, role, ind, #[trigger] proof.steps@[j].conclusion@),
{
    let steps = proof.steps.as_slice();
    let mut i: usize = 0;
    while i < steps.len()
        invariant
            steps@ == proof.steps@,
            i <= steps@.len(),
            forall|j: int| 0 <= j < i ==> step_flaw(axioms_view(axioms@), steps@, j) is None,
        decreases steps@.len() - i,
    {
        match step_flaw_exec(axioms, steps, i) {
            Some(reason) => return Err(err(i, reason)),
            None => {},
        }
        i += 1;
    }
    proof {
        assert forall|cls: spec_fn(Seq<char>, int) -> bool, role: spec_fn(Seq<char>, int, int) -> bool, ind: spec_fn(Seq<char>) -> int|
            #[trigger] crate::semantics::is_model(cls, role, ind, axioms_view(axioms@))
            implies forall|j: int| 0 <= j < proof.steps@.len() ==> crate::semantics::fact_true(cls, role, ind, #[trigger] proof.steps@[j].conclusion@) by {
            crate::semantics::lemma_kernel_sound(axioms_view(axioms@), proof.steps@, cls, role, ind);
        }
    }
    Ok(steps.len())
}


impl CheckError {
    /// The error as text: `proof step N invalid: reason`.
    pub fn to_text(&self) -> (r: String)
        ensures
            r@ == "proof step "@ + crate::text::decimal(self.step as nat) + " invalid: "@ + self.reason@,
    {
        let s = crate::text::cat(String::from_str("proof step "), crate::text::fmt_u64(self.step as u64).as_str());
        crate::text::cat(crate::text::cat(s, " invalid: "), self.reason.as_str())
    }
}

} // verus!
