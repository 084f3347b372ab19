use kvasir::fragment::parse_kfs;
use kvasir::saturate::saturate;
use kvasir::verdict::{Fact, Verdict};

#[test]
fn refutes_dual_grounding_with_proof() {
    let doc = "\
SubClassOf <process> <occurrent>
DisjointClasses <continuant> <occurrent>
EquivalentToIntersection <dual> <process> <continuant>
ClassAssertion <dual> <i_sample_01>
";
    let axioms = parse_kfs(doc).unwrap();
    match saturate(&axioms) {
        Verdict::Refuted { unsat_classes, refuted_individuals, proof } => {
            assert_eq!(unsat_classes, vec!["dual".to_string()]);
            assert_eq!(refuted_individuals, vec!["i_sample_01".to_string()]);
            assert!(!proof.steps.is_empty());
            assert!(proof.steps.iter().any(|s| matches!(&s.conclusion, Fact::KbRefuted { .. })));
        }
        v => panic!("expected Refuted, got {v:?}"),
    }
}

#[test]
fn no_clash_is_not_a_certificate() {
    let doc = "\
SubClassOf <a> <b>
SubClassOf <b> <c>
DisjointClasses <c> <d>
";
    let axioms = parse_kfs(doc).unwrap();
    match saturate(&axioms) {
        Verdict::NoClashFound { note } => {
            assert!(note.contains("NOT a consistency certificate"));
        }
        v => panic!("expected NoClashFound, got {v:?}"),
    }
}

#[test]
fn transitive_clash_found_through_a_chain() {
    let doc = "\
SubClassOf <a> <b>
SubClassOf <b> <c>
SubClassOf <a> <d>
DisjointClasses <c> <d>
";
    let axioms = parse_kfs(doc).unwrap();
    match saturate(&axioms) {
        Verdict::Refuted { unsat_classes, .. } => {
            assert!(unsat_classes.contains(&"a".to_string()));
        }
        v => panic!("expected Refuted, got {v:?}"),
    }
}

#[test]
fn a_satisfiable_existential_is_sound() {
    let doc = "\
SubClassOfExistential <role> <realized_in> <process>
SubClassOf <process> <occurrent>
DisjointClasses <continuant> <occurrent>
";
    let axioms = parse_kfs(doc).unwrap();
    assert!(matches!(saturate(&axioms), Verdict::NoClashFound { .. }));
}

#[test]
fn domain_typing_refutes_the_subject() {
    let doc = "\
SubClassOfExistential <role> <inheres_in> <person>
PropertyDomain <inheres_in> <dependent>
SubClassOf <dependent> <continuant>
SubClassOf <role> <occurrent>
DisjointClasses <continuant> <occurrent>
";
    let axioms = parse_kfs(doc).unwrap();
    match saturate(&axioms) {
        Verdict::Refuted { unsat_classes, .. } => {
            assert!(unsat_classes.contains(&"role".to_string()));
        }
        v => panic!("expected Refuted via R-domain, got {v:?}"),
    }
}

#[test]
fn empty_filler_refutes_the_subject_and_its_subclasses() {
    let doc = "\
SubClassOf <d> <a>
SubClassOf <d> <b>
DisjointClasses <a> <b>
SubClassOfExistential <c> <r> <d>
SubClassOf <c2> <c>
";
    let axioms = parse_kfs(doc).unwrap();
    match saturate(&axioms) {
        Verdict::Refuted { unsat_classes, .. } => {
            for want in ["d", "c", "c2"] {
                assert!(unsat_classes.contains(&want.to_string()), "missing {want} in {unsat_classes:?}");
            }
        }
        v => panic!("expected Refuted via R-exist-⊥/R-sub-unsat, got {v:?}"),
    }
}

#[test]
fn filler_range_conjunction_clash_refutes_the_subject() {
    let doc = "\
SubClassOfExistential <jie> <part_of> <service>
PropertyRange <part_of> <material>
SubClassOf <service> <immaterial>
DisjointClasses <material> <immaterial>
";
    let axioms = parse_kfs(doc).unwrap();
    match saturate(&axioms) {
        Verdict::Refuted { unsat_classes, .. } => {
            assert_eq!(unsat_classes, vec!["jie".to_string()]);
        }
        v => panic!("expected Refuted via R-exist-range-⊥, got {v:?}"),
    }
}

#[test]
fn unsat_range_class_refutes_all_subjects_of_the_role() {
    let doc = "\
SubClassOf <e> <a>
SubClassOf <e> <b>
DisjointClasses <a> <b>
PropertyRange <r> <e>
SubClassOfExistential <c> <r> <anything>
";
    let axioms = parse_kfs(doc).unwrap();
    match saturate(&axioms) {
        Verdict::Refuted { unsat_classes, .. } => {
            assert!(unsat_classes.contains(&"c".to_string()));
            assert!(unsat_classes.contains(&"e".to_string()));
        }
        v => panic!("expected Refuted via one-sided R-conj-unsat, got {v:?}"),
    }
}

#[test]
fn verdict_lists_are_sorted_and_deduplicated() {
    let doc = "\
SubClassOf <z> <a>
SubClassOf <z> <b>
SubClassOf <m> <z>
SubClassOf <b2> <z>
DisjointClasses <a> <b>
ClassAssertion <z> <i2>
ClassAssertion <m> <i1>
ClassAssertion <b2> <i1>
";
    let axioms = parse_kfs(doc).unwrap();
    match saturate(&axioms) {
        Verdict::Refuted { unsat_classes, refuted_individuals, proof } => {
            assert_eq!(unsat_classes, vec!["b2".to_string(), "m".to_string(), "z".to_string()]);
            assert_eq!(refuted_individuals, vec!["i1".to_string(), "i2".to_string()]);
            let n = proof.steps.len();
            for (i, s) in proof.steps.iter().enumerate() {
                assert_eq!(s.id, i);
                for j in (i + 1)..n {
                    assert_ne!(s.conclusion, proof.steps[j].conclusion);
                }
            }
        }
        v => panic!("expected Refuted, got {v:?}"),
    }
}

#[test]
fn self_disjointness_refutes_subclasses_only() {
    let doc = "\
DisjointClasses <a> <a>
SubClassOf <a> <x>
";
    let axioms = parse_kfs(doc).unwrap();
    match saturate(&axioms) {
        Verdict::Refuted { unsat_classes, .. } => {
            assert_eq!(unsat_classes, vec!["a".to_string()]);
        }
        v => panic!("expected Refuted, got {v:?}"),
    }
}

#[test]
fn a_class_without_told_superclass_is_not_joined() {
    let doc = "DisjointClasses <a> <a>\n";
    let axioms = parse_kfs(doc).unwrap();
    assert!(matches!(saturate(&axioms), Verdict::NoClashFound { .. }));
}

#[test]
fn proof_steps_are_dense_and_ordered_even_on_degenerate_input() {
    let doc = "\
DisjointClasses <a> <a>
SubClassOf <b> <a>
SubClassOf <a> <x>
";
    let axioms = parse_kfs(doc).unwrap();
    match saturate(&axioms) {
        Verdict::Refuted { proof, .. } => {
            assert!(!proof.steps.is_empty());
            for (k, s) in proof.steps.iter().enumerate() {
                assert_eq!(s.id, k);
                assert!(s.premises.iter().all(|&p| p < k));
            }
        }
        v => panic!("expected Refuted, got {v:?}"),
    }
}
