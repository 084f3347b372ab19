use kvasir::manchester::lower::{parse_enum_from_definition, Tally};
use kvasir::manchester::{lower, parse_document};

#[test]
fn tiered_lowering_end_to_end() {
    let doc_text = "\
Prefix: sdg: <https://signals.zndx.org/sdg#>
Prefix: bfo: <http://purl.obolibrary.org/obo/BFO_>
Prefix: xsd: <http://www.w3.org/2001/XMLSchema#>
Class: bfo:0000002 SubClassOf: bfo:0000001
DisjointClasses: bfo:0000002, bfo:0000003
Class: sdg:Role SubClassOf: bfo:0000023, sdg:inheresIn exactly 1 sdg:Bearer, sdg:realizes some sdg:Act
Class: <https://signals.zndx.org/sdg#Role> SubClassOf: sdg:hasEncoding some xsd:string
Class: sdg:Role
    Annotations: rdfs:label \"role\"
ObjectProperty: sdg:inheresIn
    Domain: sdg:Role
Individual: sdg:i_role_01
    Types: sdg:Role
";
    let (doc, issues) = parse_document(doc_text);
    assert!(issues.is_empty(), "{issues:?}");
    let low = lower(&doc);
    let lines: Vec<&str> = low.kfs.lines().collect();
    // canonicalization: the prefixed and full-IRI Role frames merged on one name
    let role = "https://signals.zndx.org/sdg#Role";
    assert!(lines.contains(&format!("SubClassOf <{role}> <http://purl.obolibrary.org/obo/BFO_0000023>").as_str()));
    // exactly 1 → existential (weakened) + true bounds in the tier
    assert!(lines.iter().any(|l| l.starts_with(&format!("SubClassOfExistential <{role}> <https://signals.zndx.org/sdg#inheresIn>"))));
    assert!(lines.contains(&format!("@Cardinality <{role}> <https://signals.zndx.org/sdg#inheresIn> 1 1").as_str()));
    // xsd filler → @Attribute + existential
    assert!(lines.contains(&format!("@Attribute <{role}> <https://signals.zndx.org/sdg#hasEncoding> <http://www.w3.org/2001/XMLSchema#string>").as_str()));
    // label, domain, types, disjoint pair
    assert!(lines.contains(&format!("@Label <{role}> \"role\"").as_str()));
    assert!(lines.iter().any(|l| l.starts_with("PropertyDomain <https://signals.zndx.org/sdg#inheresIn>")));
    assert!(lines.iter().any(|l| l.starts_with("ClassAssertion ")));
    assert!(lines.iter().any(|l| l.starts_with("DisjointClasses ")));
    assert_eq!(low.n_axioms + low.n_annotations, lines.len());
}

#[test]
fn enum_extraction_ports_the_python_rules() {
    assert_eq!(
        parse_enum_from_definition("Current state (pending / running / complete / failed)."),
        Some(vec!["pending".into(), "running".into(), "complete".into(), "failed".into()])
    );
    assert_eq!(
        parse_enum_from_definition("The status: open, closed, or archived"),
        Some(vec!["open".into(), "closed".into(), "archived".into()])
    );
    // illustrative parentheticals never fire
    assert_eq!(parse_enum_from_definition("A standard identifier (e.g. ISO, RFC)."), None);
    assert_eq!(parse_enum_from_definition("A free-text note."), None);
}

#[test]
fn dataprop_definition_emits_enum_annotation() {
    let (doc, _) = parse_document(
        "Prefix: sdg: <https://x.org/sdg#>\nDataProperty: sdg:hasStatus\n    Annotations: skos:definition \"Lifecycle state (draft / final / retired)\"\n",
    );
    let low = lower(&doc);
    assert!(low.kfs.contains("@Enum <https://x.org/sdg#hasStatus> \"draft\" \"final\" \"retired\""),
        "{}", low.kfs);
}

#[test]
fn max_and_only_relations_emit_relation_annotations() {
    let (doc, _) = parse_document(
        "Prefix: sdg: <https://x.org/sdg#>\nClass: sdg:A SubClassOf: sdg:derivedFrom max 1 sdg:B, sdg:typedAs only sdg:C\n",
    );
    let low = lower(&doc);
    assert!(low.kfs.contains("@Relation <https://x.org/sdg#A> <https://x.org/sdg#derivedFrom> <https://x.org/sdg#B>"), "{}", low.kfs);
    assert!(low.kfs.contains("@Relation <https://x.org/sdg#A> <https://x.org/sdg#typedAs> <https://x.org/sdg#C>"), "{}", low.kfs);
    // still no reasoning-tier existential for max/only (unsound to entail ∃)
    assert!(!low.kfs.contains("SubClassOfExistential"));
    // max 0 asserts absence → no relation
    let (doc0, _) = parse_document("Prefix: sdg: <https://x.org/sdg#>\nClass: sdg:A SubClassOf: sdg:p max 0 sdg:B\n");
    assert!(!lower(&doc0).kfs.contains("@Relation"));
}

#[test]
fn refused_shapes_are_counted_never_silent() {
    let (doc, _) = parse_document(
        "Class: A SubClassOf: B or C, p only D, p some (q some R)\n",
    );
    let low = lower(&doc);
    assert_eq!(low.n_axioms, 0);
    assert_eq!(low.skipped.get("expr:or"), Some(&1));
    assert_eq!(low.skipped.get("expr:only"), Some(&1));
    assert_eq!(low.skipped.get("expr:nested"), Some(&1));
}

#[test]
fn incompatible_bounds_are_reported_as_conflicts() {
    let (doc, _) = parse_document("Class: A SubClassOf: p min 2 B, p max 1 B\nClass: C SubClassOf: q min 3 D\n");
    let low = lower(&doc);
    assert_eq!(
        low.conflicts,
        vec!["<A> <p>: conflicting bounds (2..*) vs (0..1) — combined interval empty ⇒ class unsatisfiable".to_string()]
    );
    assert!(low.kfs.contains("@Cardinality <A> <p> 2 *"), "{}", low.kfs);
    assert!(low.kfs.contains("@Cardinality <C> <q> 3 *"), "{}", low.kfs);
    assert_eq!(low.constructs.get("cardinality_many"), Some(&2));
}

#[test]
fn pairwise_disjointness_and_source_lines() {
    let (doc, _) = parse_document("DisjointClasses: a, b, c\n");
    let low = lower(&doc);
    assert_eq!(low.kfs, "DisjointClasses <a> <b>\nDisjointClasses <a> <c>\nDisjointClasses <b> <c>\n");
    assert_eq!(low.src_lines, vec![1, 1, 1]);
    assert_eq!(low.n_annotations, 0);
}

#[test]
fn empty_document_lowers_to_one_newline() {
    let (doc, _) = parse_document("");
    let low = lower(&doc);
    assert_eq!(low.kfs, "\n");
    assert_eq!(low.n_axioms, 0);
}

#[test]
fn tally_counts_each_key_in_key_order() {
    let mut t = Tally::new();
    t.bump("b");
    t.bump("a");
    t.bump("b");
    assert_eq!(t.get("b"), Some(&2));
    assert_eq!(t.get("a"), Some(&1));
    assert_eq!(t.get("c"), None);
    let keys: Vec<&str> = t.entries().iter().map(|e| e.0.as_str()).collect();
    assert_eq!(keys, vec!["a", "b"]);
}

#[test]
fn enumeration_class_fillers_become_value_sets() {
    let text = "Prefix: s: <https://x.org/s#>\nClass: s:Status EquivalentTo: { s:open s:closed }\nClass: s:Ticket SubClassOf: s:hasStatus some s:Status\n";
    let (doc, _) = parse_document(text);
    let low = lower(&doc);
    assert!(low.kfs.contains("@Attribute <https://x.org/s#Ticket> <https://x.org/s#hasStatus> <http://www.w3.org/2001/XMLSchema#string>"), "{}", low.kfs);
    assert!(low.kfs.contains("@Enum <https://x.org/s#hasStatus> \"open\" \"closed\""), "{}", low.kfs);
    assert!(!low.kfs.contains("SubClassOfExistential"));
}

#[test]
fn the_reasoning_tier_is_blocks_then_frames_in_order() {
    let (doc, issues) = parse_document(
        "Prefix: a: <http://a#>\nDisjointClasses: a:X, a:Y, a:Z\nClass: a:E EquivalentTo: {a:one, a:two}\nClass: a:C SubClassOf: a:D, a:p some a:E, a:q some a:F, a:r min 0 a:G\n",
    );
    assert!(issues.is_empty(), "{issues:?}");
    let low = lower(&doc);
    let lines: Vec<&str> = low.kfs.lines().collect();
    assert_eq!(low.n_axioms, 5);
    assert_eq!(
        &lines[..5],
        &[
            "DisjointClasses <http://a#X> <http://a#Y>",
            "DisjointClasses <http://a#X> <http://a#Z>",
            "DisjointClasses <http://a#Y> <http://a#Z>",
            "SubClassOf <http://a#C> <http://a#D>",
            "SubClassOfExistential <http://a#C> <http://a#q> <http://a#F>",
        ]
    );
}
