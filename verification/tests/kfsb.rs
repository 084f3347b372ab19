use kvasir::fragment::{parse_kfs, Axiom};
use kvasir::kfsb::{read, BinAxiom, FactStream};
use kvasir::saturate::saturate;
use kvasir::verdict::Verdict;

const VECTOR: &str = "\
SubClassOf <process> <occurrent>
SubClassOf <function> <continuant>
DisjointClasses <continuant> <occurrent>
EquivalentToIntersection <DualGroundedThing> <process> <continuant>
SubClassOfExistential <ExecutiveDirectorRole> <realized_in> <function>
ClassAssertion <DualGroundedThing> <i_sample_01>
";

#[test]
fn round_trip_preserves_axioms_and_verdict() {
    let axioms = parse_kfs(VECTOR).unwrap();
    let fs = kvasir::kfsb::write(&axioms, "test-vector");
    assert_eq!(fs.source, "test-vector");
    let back = read(&fs).expect("round trip must read");
    assert_eq!(axioms, back, "binary round trip must be identity on axioms");
    let (v1, v2) = (saturate(&axioms), saturate(&back));
    assert!(matches!(v1, Verdict::Refuted { .. }));
    match (v1, v2) {
        (Verdict::Refuted { unsat_classes: a, .. }, Verdict::Refuted { unsat_classes: b, .. }) => assert_eq!(a, b),
        _ => panic!("verdicts must agree across the wire"),
    }
}

#[test]
fn interning_dedupes_names() {
    let axioms = parse_kfs(VECTOR).unwrap();
    let fs = kvasir::kfsb::write(&axioms, "t");
    let n = fs.names.len();
    let mut seen = std::collections::HashSet::new();
    for i in 0..n {
        assert!(seen.insert(fs.names[i].clone()), "names must be interned once");
    }
    assert_eq!(n, 8);
    assert_eq!(fs.names[0], "process");
    assert_eq!(fs.axioms[0], BinAxiom::Sub(0, 1));
}

#[test]
fn corrupt_streams_are_loud_errors_not_defaults() {
    let fs = FactStream { names: vec!["a".to_string()], axioms: vec![BinAxiom::Sub(0, 3)], source: String::new() };
    let e = read(&fs).unwrap_err();
    assert_eq!(e.line, 1);
    assert_eq!(e.construct, "name-index");
    assert_eq!(e.detail, "index 3 out of range (1 interned names)");
    let empty = FactStream { names: vec!["a".to_string()], axioms: vec![BinAxiom::Dis(0, 0), BinAxiom::Eq(0, vec![])], source: String::new() };
    let e = read(&empty).unwrap_err();
    assert_eq!(e.line, 2);
    assert_eq!(e.detail, "EquivalentToIntersection with no conjuncts");
    let ok = FactStream { names: vec!["a".to_string(), "b".to_string()], axioms: vec![BinAxiom::Assert(1, 0)], source: String::new() };
    assert_eq!(read(&ok).unwrap(), vec![Axiom::ClassAssertion { class: "b".to_string(), individual: "a".to_string() }]);
}

#[test]
fn the_binary_front_end_checks_like_the_text_one() {
    let axioms = parse_kfs(VECTOR).unwrap();
    let fs = kvasir::kfsb::write(&axioms, "v");
    let (back, verdict) = kvasir::check_kfsb(&fs).unwrap();
    assert_eq!(back, axioms);
    assert!(matches!(verdict, Verdict::Refuted { .. }));
}

#[test]
fn interned_names_come_in_first_seen_order() {
    let axioms = parse_kfs(VECTOR).unwrap();
    let fs = kvasir::kfsb::write(&axioms, "t");
    let expected = [
        "process", "occurrent", "function", "continuant", "DualGroundedThing",
        "ExecutiveDirectorRole", "realized_in", "i_sample_01",
    ];
    assert_eq!(fs.names.len(), expected.len());
    for (i, n) in expected.iter().enumerate() {
        assert_eq!(fs.names[i], *n);
    }
}
