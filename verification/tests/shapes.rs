use kvasir::fragment::{parse_kfs_tiered, Annotation, Axiom};
use kvasir::shapes::{emit, parse};

#[test]
fn shapes_carry_the_tier_and_the_rollup() {
    let kfs = "\
SubClassOf <s#NurseRole> <s#Role>
SubClassOfExistential <s#Role> <s#inheresIn> <s#Bearer>
@Attribute <s#Role> <s#hasStatus> <http://www.w3.org/2001/XMLSchema#string>
@Cardinality <s#Role> <s#inheresIn> 1 1
@Enum <s#hasStatus> \"active\" \"retired\"
";
    let (axioms, annotations) = parse_kfs_tiered(kfs).unwrap();
    let ttl = emit(&axioms, &annotations);
    assert!(ttl.contains("<s#RoleShape>"));
    assert!(ttl.contains("sh:targetClass <s#Role>"));
    assert!(ttl.contains("sh:class <s#Bearer>"));
    assert!(ttl.contains("sh:minCount 1"));
    assert!(ttl.contains("sh:maxCount 1"));
    assert!(ttl.contains("sh:in (\"active\" \"retired\")"));
    // denormalized rollup: NurseRole carries the inherited constraints itself
    assert!(ttl.contains("<s#NurseRoleShape>"));
    let nurse = ttl.split("<s#NurseRoleShape>").nth(1).unwrap();
    assert!(nurse.contains("sh:path <s#inheresIn>"));
    assert!(nurse.contains("sh:datatype xsd:string"));
    // deterministic: same input, same bytes
    assert_eq!(ttl, emit(&axioms, &annotations));
}

#[test]
fn emitted_shapes_round_trip_to_the_same_facts() {
    let kfs = "\
SubClassOf <s#Blood> <s#Sample>
SubClassOfExistential <s#Sample> <s#storedIn> <s#Freezer>
SubClassOfExistential <s#Sample> <s#testedIn> <s#Assay>
@Attribute <s#Sample> <s#hasBarcode> <http://www.w3.org/2001/XMLSchema#string>
@Cardinality <s#Sample> <s#testedIn> 2 *
@Relation <s#Sample> <s#derivedFrom> <s#Subject>
@Cardinality <s#Sample> <s#derivedFrom> 0 1
@Enum <s#hasBarcode> \"a\" \"b\"
";
    let (ax, an) = parse_kfs_tiered(kfs).unwrap();
    let ttl1 = emit(&ax, &an);
    let (ax2, an2) = parse(&ttl1);
    let ttl2 = emit(&ax2, &an2);
    assert_eq!(ttl1, ttl2, "emit∘parse∘emit must be a fixed point");
    // the storedIn existential survives as NOT NULL (min 1); derivedFrom stays a
    // nullable @Relation; testedIn stays a many (min 2)
    assert!(ax2.iter().any(|a| matches!(a, Axiom::SubClassOfExistential { role, .. } if role.ends_with("storedIn"))));
    assert!(an2.iter().any(|a| matches!(a, Annotation::Relation { prop, .. } if prop.ends_with("derivedFrom"))));
    assert!(an2.iter().any(|a| matches!(a, Annotation::Cardinality { prop, min: 2, .. } if prop.ends_with("testedIn"))));
}

#[test]
fn an_empty_fact_set_emits_only_the_prefixes() {
    let ttl = emit(&[], &[]);
    assert_eq!(
        ttl,
        "@prefix sh: <http://www.w3.org/ns/shacl#> .\n@prefix xsd: <http://www.w3.org/2001/XMLSchema#> .\n@prefix kvasir: <https://kvasir.zndx.org/ns#> .\n\n"
    );
    assert_eq!(parse(&ttl), (vec![], vec![]));
}

#[test]
fn one_shape_renders_exactly() {
    let (ax, an) = parse_kfs_tiered("SubClassOfExistential <A> <p> <B>\n@Unique <p>\n@Key <A> <p>\n").unwrap();
    let ttl = emit(&ax, &an);
    let body = ttl.split("\n\n").nth(1).unwrap();
    assert_eq!(
        body,
        "<AShape>\n    a sh:NodeShape ;\n    sh:targetClass <A> ;\n    kvasir:key ( <p> ) ;\n    sh:property [\n        sh:path <p> ;\n        kvasir:unique true ;\n        sh:class <B> ;\n        sh:minCount 1 ;\n    ] ."
    );
    let (ax2, an2) = parse(&ttl);
    assert_eq!(ax2, ax);
    assert!(an2.contains(&Annotation::Unique { prop: "p".to_string() }));
    assert!(an2.contains(&Annotation::Key { class: "A".to_string(), props: vec!["p".to_string()] }));
}

#[test]
fn hand_written_datatypes_and_bounds_read_back() {
    let ttl = "<XShape>\n    a sh:NodeShape ;\n    sh:targetClass <X> ;\n    sh:property [\n        sh:path <q> ;\n        sh:datatype xsd:integer ;\n        sh:maxCount 3 ;\n    ] .\n";
    let (ax, an) = parse(ttl);
    assert!(ax.is_empty());
    assert_eq!(
        an,
        vec![
            Annotation::Attribute { class: "X".to_string(), prop: "q".to_string(), xsd: "http://www.w3.org/2001/XMLSchema#integer".to_string() },
            Annotation::Cardinality { class: "X".to_string(), prop: "q".to_string(), min: 0, max: Some(3) },
        ]
    );
}

#[test]
fn a_hand_written_graph_reads_to_exact_facts() {
    let ttl = "\
@prefix sh: <http://www.w3.org/ns/shacl#> .
# a comment line
<s#AShape>
    a sh:NodeShape ;
    sh:targetClass <s#A> ;
    kvasir:key ( <s#code> ) ;
    sh:property [
        sh:path <s#zeta> ;
        sh:datatype xsd:string ;
        sh:in (\"x\" \"y\") ;
    ] ;
    sh:property [
        sh:path <s#code> ;
        kvasir:unique true ;
        sh:datatype <http://example.org/dt> ;
        sh:maxCount 1 ;
    ] ;
    sh:property [
        sh:path <s#owner> ;
        sh:class <s#B> ;
        sh:minCount 3 ;
    ] ;
    sh:property [
        sh:path <s#alpha> ;
        sh:datatype xsd:int ;
        sh:in (\"p\") ;
    ] ;
    sh:property [
        sh:path <s#friend> ;
        sh:class <s#C> ;
    ] .
";
    let (ax, an) = parse(ttl);
    assert_eq!(
        ax,
        vec![Axiom::SubClassOfExistential { sub: "s#A".to_string(), role: "s#owner".to_string(), filler: "s#B".to_string() }]
    );
    let s = |x: &str| x.to_string();
    assert_eq!(
        an,
        vec![
            Annotation::Key { class: s("s#A"), props: vec![s("s#code")] },
            Annotation::Attribute { class: s("s#A"), prop: s("s#zeta"), xsd: s("http://www.w3.org/2001/XMLSchema#string") },
            Annotation::Unique { prop: s("s#code") },
            Annotation::Attribute { class: s("s#A"), prop: s("s#code"), xsd: s("http://example.org/dt") },
            Annotation::Cardinality { class: s("s#A"), prop: s("s#code"), min: 0, max: Some(1) },
            Annotation::Cardinality { class: s("s#A"), prop: s("s#owner"), min: 3, max: None },
            Annotation::Attribute { class: s("s#A"), prop: s("s#alpha"), xsd: s("http://www.w3.org/2001/XMLSchema#int") },
            Annotation::Relation { class: s("s#A"), prop: s("s#friend"), target: s("s#C") },
            Annotation::Enum { prop: s("s#alpha"), values: vec![s("p")] },
            Annotation::Enum { prop: s("s#zeta"), values: vec![s("x"), s("y")] },
        ]
    );
}

#[test]
fn a_property_shape_before_any_target_class_is_dropped() {
    let ttl = "\
    sh:property [
        sh:path <s#p> ;
        sh:class <s#B> ;
        sh:minCount 1 ;
    ] .
";
    let (ax, an) = parse(ttl);
    assert!(ax.is_empty());
    assert!(an.is_empty());
}
