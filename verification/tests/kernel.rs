use kvasir::check;
use kvasir::fragment::parse_kfs;
use kvasir::kernel::check_proof;
use kvasir::saturate::saturate;
use kvasir::verdict::{Fact, Proof, Rule, Step, Verdict};

#[test]
fn validates_the_engines_own_proofs() {
    let doc = "\
SubClassOf <process> <occurrent>
DisjointClasses <continuant> <occurrent>
EquivalentToIntersection <dual> <process> <continuant>
ClassAssertion <dual> <i_sample_01>
";
    let (axioms, verdict) = check(doc).unwrap();
    let Verdict::Refuted { proof, .. } = verdict else {
        panic!("expected Refuted")
    };
    let n = check_proof(&axioms, &proof).expect("engine proof must check");
    assert!(n >= 4);
}

#[test]
fn validates_p0_rule_proofs() {
    for doc in [
        "SubClassOfExistential <role> <inheres_in> <person>\n\
         PropertyDomain <inheres_in> <dependent>\n\
         SubClassOf <dependent> <continuant>\n\
         SubClassOf <role> <occurrent>\n\
         DisjointClasses <continuant> <occurrent>\n",
        "SubClassOf <d> <a>\nSubClassOf <d> <b>\nDisjointClasses <a> <b>\n\
         SubClassOfExistential <c> <r> <d>\nSubClassOf <c2> <c>\n",
        "SubClassOfExistential <jie> <part_of> <service>\n\
         PropertyRange <part_of> <material>\n\
         SubClassOf <service> <immaterial>\n\
         DisjointClasses <material> <immaterial>\n",
        "SubClassOf <e> <a>\nSubClassOf <e> <b>\nDisjointClasses <a> <b>\n\
         PropertyRange <r> <e>\nSubClassOfExistential <c> <r> <x>\n",
    ] {
        let (axioms, verdict) = check(doc).unwrap();
        let Verdict::Refuted { proof, .. } = verdict else {
            panic!("expected Refuted for:\n{doc}")
        };
        check_proof(&axioms, &proof).unwrap_or_else(|e| panic!("proof must check: {e:?}\n{doc}"));
    }
}

#[test]
fn rejects_a_tampered_p0_proof() {
    let doc = "\
SubClassOfExistential <jie> <part_of> <service>
PropertyRange <part_of> <material>
SubClassOf <service> <immaterial>
DisjointClasses <material> <immaterial>
";
    let (axioms, verdict) = check(doc).unwrap();
    let Verdict::Refuted { mut proof, .. } = verdict else {
        panic!("expected Refuted")
    };
    for s in &mut proof.steps {
        if let Fact::PairUnsat { a, .. } = &mut s.conclusion {
            *a = "innocent_bystander".to_string();
        }
    }
    assert!(check_proof(&axioms, &proof).is_err(), "tampered PairUnsat must be rejected");
}

#[test]
fn rejects_a_tampered_proof() {
    let doc = "\
SubClassOf <process> <occurrent>
DisjointClasses <continuant> <occurrent>
EquivalentToIntersection <dual> <process> <continuant>
ClassAssertion <dual> <i_sample_01>
";
    let (axioms, verdict) = check(doc).unwrap();
    let Verdict::Refuted { mut proof, .. } = verdict else {
        panic!("expected Refuted")
    };
    for s in &mut proof.steps {
        if let Fact::Unsat { class } = &mut s.conclusion {
            *class = "innocent_bystander".to_string();
        }
    }
    assert!(check_proof(&axioms, &proof).is_err(), "tampered proof must be rejected");
}

#[test]
fn the_first_flawed_step_is_reported_with_its_reason() {
    let axioms = parse_kfs("SubClassOf <a> <b>\n").unwrap();
    let proof = Proof {
        steps: vec![
            Step { id: 0, rule: Rule::Input, premises: vec![], axiom_index: Some(0), conclusion: Fact::Sub { sub: "a".into(), sup: "b".into() } },
            Step { id: 1, rule: Rule::RTrans, premises: vec![0], axiom_index: None, conclusion: Fact::Sub { sub: "a".into(), sup: "b".into() } },
            Step { id: 5, rule: Rule::Input, premises: vec![], axiom_index: Some(0), conclusion: Fact::Sub { sub: "a".into(), sup: "b".into() } },
        ],
    };
    let e = check_proof(&axioms, &proof).unwrap_err();
    assert_eq!(e.step, 1);
    assert_eq!(e.reason, "R-trans takes exactly 2 premises");
}

#[test]
fn premises_must_precede_their_step() {
    let axioms = parse_kfs("SubClassOf <a> <b>\nSubClassOf <b> <c>\n").unwrap();
    let proof = Proof {
        steps: vec![
            Step { id: 0, rule: Rule::RTrans, premises: vec![1, 2], axiom_index: None, conclusion: Fact::Sub { sub: "a".into(), sup: "c".into() } },
            Step { id: 1, rule: Rule::Input, premises: vec![], axiom_index: Some(0), conclusion: Fact::Sub { sub: "a".into(), sup: "b".into() } },
            Step { id: 2, rule: Rule::Input, premises: vec![], axiom_index: Some(1), conclusion: Fact::Sub { sub: "b".into(), sup: "c".into() } },
        ],
    };
    let e = check_proof(&axioms, &proof).unwrap_err();
    assert_eq!(e.step, 0);
    assert_eq!(e.reason, "premise does not precede the step (not a DAG order)");
}

#[test]
fn an_input_step_must_restate_its_axiom() {
    let axioms = parse_kfs("SubClassOf <a> <b>\n").unwrap();
    let proof = Proof {
        steps: vec![Step { id: 0, rule: Rule::Input, premises: vec![], axiom_index: Some(0), conclusion: Fact::Sub { sub: "b".into(), sup: "a".into() } }],
    };
    let e = check_proof(&axioms, &proof).unwrap_err();
    assert_eq!(e.reason, "Input conclusion does not match the cited axiom");
    let ok = Proof {
        steps: vec![Step { id: 0, rule: Rule::Input, premises: vec![], axiom_index: Some(0), conclusion: Fact::Sub { sub: "a".into(), sup: "b".into() } }],
    };
    assert_eq!(check_proof(&axioms, &ok).unwrap(), 1);
}

#[test]
fn engine_proofs_over_chained_subsumptions_pass_the_kernel() {
    let doc = "\
SubClassOf <a> <b>
SubClassOf <b> <c>
SubClassOf <a> <d>
DisjointClasses <c> <d>
SubClassOfExistential <s> <r> <a>
PropertyRange <r> <a>
ClassAssertion <s> <i>
";
    let axioms = parse_kfs(doc).unwrap();
    let Verdict::Refuted { proof, .. } = saturate(&axioms) else {
        panic!("expected Refuted")
    };
    assert_eq!(check_proof(&axioms, &proof).unwrap(), proof.steps.len());
}

#[test]
fn a_subclass_of_a_self_disjoint_class_re_checks() {
    // one side premise c ⊑ a establishes both sides of Disjoint(a, a)
    let doc = "\
DisjointClasses <a> <a>
SubClassOf <c> <a>
";
    let axioms = parse_kfs(doc).unwrap();
    let Verdict::Refuted { unsat_classes, proof, .. } = saturate(&axioms) else {
        panic!("expected Refuted")
    };
    assert_eq!(unsat_classes, vec!["c".to_string()]);
    assert_eq!(check_proof(&axioms, &proof), Ok(proof.steps.len()));
}

#[test]
fn a_filler_disjoint_from_the_range_re_checks() {
    // the pair is the disjointness itself: both sides reflexive, no side premise
    let doc = "\
SubClassOfExistential <s> <r> <d>
PropertyRange <r> <e>
DisjointClasses <d> <e>
ClassAssertion <s> <i>
";
    let axioms = parse_kfs(doc).unwrap();
    let Verdict::Refuted { unsat_classes, refuted_individuals, proof } = saturate(&axioms) else {
        panic!("expected Refuted")
    };
    assert_eq!(unsat_classes, vec!["s".to_string()]);
    assert_eq!(refuted_individuals, vec!["i".to_string()]);
    assert_eq!(check_proof(&axioms, &proof), Ok(proof.steps.len()));
}

#[test]
fn a_self_disjoint_class_refutation_re_checks() {
    let axioms = parse_kfs("DisjointClasses <a> <a>\nSubClassOf <a> <b>\n").unwrap();
    match saturate(&axioms) {
        Verdict::Refuted { unsat_classes, proof, .. } => {
            assert_eq!(unsat_classes, vec!["a".to_string()]);
            assert_eq!(check_proof(&axioms, &proof), Ok(proof.steps.len()));
        }
        v => panic!("expected Refuted, got {v:?}"),
    }
}

#[test]
fn a_disjointness_alone_empties_its_own_pair() {
    let axioms = parse_kfs("DisjointClasses <d> <e>\n").unwrap();
    let step0 = Step { id: 0, rule: Rule::Input, premises: vec![], axiom_index: Some(0), conclusion: Fact::Disjoint { a: "d".into(), b: "e".into() } };
    let ok = Proof {
        steps: vec![
            step0.clone(),
            Step { id: 1, rule: Rule::RConjUnsat, premises: vec![0], axiom_index: None, conclusion: Fact::PairUnsat { a: "e".into(), b: "d".into() } },
        ],
    };
    assert_eq!(check_proof(&axioms, &ok), Ok(2));
    let bad = Proof {
        steps: vec![
            step0,
            Step { id: 1, rule: Rule::RConjUnsat, premises: vec![0], axiom_index: None, conclusion: Fact::PairUnsat { a: "d".into(), b: "f".into() } },
        ],
    };
    let e = check_proof(&axioms, &bad).unwrap_err();
    assert_eq!(e.step, 1);
    assert_eq!(e.reason, "R-conj-unsat does not establish the pair under the disjointness");
}
