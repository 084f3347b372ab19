use kvasir::fragment::{parse_kfs, parse_kfs_tiered, parse_line, Annotation, Axiom, Line};

const REFUSED: [&str; 12] = [
    "InverseObjectProperties",
    "TransitiveObjectProperty",
    "ObjectHasValue",
    "ObjectOneOf",
    "ObjectUnionOf",
    "ObjectComplementOf",
    "ObjectMinCardinality",
    "ObjectMaxCardinality",
    "ObjectExactCardinality",
    "ObjectPropertyAssertion",
    "SameIndividual",
    "DifferentIndividuals",
];

#[test]
fn admits_the_fragment() {
    let doc = "\
# the dual-grounding shape
SubClassOf <process> <occurrent>
EquivalentToIntersection <dual> <process> <continuant>
SubClassOfExistential <role> <realized_in> <process>
DisjointClasses <continuant> <occurrent>
ClassAssertion <dual> <i_sample_01>
";
    let axs = parse_kfs(doc).expect("in-fragment doc must parse");
    assert_eq!(axs.len(), 5);
}

#[test]
fn refuses_known_expensive_constructs_by_name() {
    for construct in REFUSED {
        let doc = format!("{construct} <a> <b>");
        let err = parse_kfs(&doc).expect_err("must refuse");
        assert_eq!(&err.construct, construct);
        assert!(!err.detail.is_empty(), "refusal must carry its reason");
    }
}

#[test]
fn refuses_unknown_constructs_loudly() {
    let err = parse_kfs("HasKey <a> <p>").expect_err("must refuse");
    assert_eq!(err.construct, "HasKey");
}

#[test]
fn iri_fragments_are_not_comments() {
    let doc = "\
SubClassOf <https://signals.zndx.org/sdg#A> <https://signals.zndx.org/sdg#B>  # trailing comment
# full-line comment
DisjointClasses <https://signals.zndx.org/sdg#B> <https://signals.zndx.org/sdg#C>
";
    let axs = parse_kfs(doc).expect("IRI fragments must survive the comment stripper");
    assert_eq!(axs.len(), 2);
    assert!(matches!(&axs[0], Axiom::SubClassOf { sub, sup }
        if sub.contains("sdg#A") && sup.contains("sdg#B")));
}

#[test]
fn arity_errors_are_out_of_fragment() {
    assert!(parse_kfs("SubClassOf <a>").is_err());
    assert!(parse_kfs("DisjointClasses <a> <b> <c>").is_err());
}

#[test]
fn annotation_tier_routes_not_admits() {
    let doc = "\
SubClassOf <a> <b>
@Attribute <a> <sdg:hasEncoding> <xsd:string>
@Cardinality <a> <sdg:inheresIn> 1 1
@Enum <sdg:hasStatus> \"pending\" \"in progress\" \"complete\"
@Label <a> \"ablation process\"
DisjointClasses <a> <c>
";
    let (axioms, annotations) = parse_kfs_tiered(doc).expect("tiered doc must parse");
    assert_eq!(axioms.len(), 2);
    assert_eq!(annotations.len(), 4);
    assert_eq!(parse_kfs(doc).unwrap().len(), 2);
    assert!(matches!(&annotations[1], Annotation::Cardinality { min: 1, max: Some(1), .. }));
    assert!(matches!(&annotations[2], Annotation::Enum { values, .. } if values[1] == "in progress"));
}

#[test]
fn relation_annotation_routes_like_the_rest() {
    let doc = "SubClassOf <a> <b>\n@Relation <a> <sdg:derivedFrom> <c>\n";
    let (axioms, annotations) = parse_kfs_tiered(doc).unwrap();
    assert_eq!(axioms.len(), 1);
    assert!(matches!(
        &annotations[0],
        Annotation::Relation { class, target, .. } if class == "a" && target == "c"
    ));
    assert!(parse_kfs("@Relation <a> <p>").is_err());
}

#[test]
fn unknown_annotation_forms_refuse_loudly() {
    let err = parse_kfs("@Widget <a> <b>").expect_err("must refuse");
    assert_eq!(err.construct, "@Widget");
    assert!(!err.detail.is_empty());
}

#[test]
fn bare_cardinality_stays_refused_the_tier_does_not_soften_the_gate() {
    assert!(parse_kfs("ObjectExactCardinality <a> <b>").is_err());
}

#[test]
fn malformed_annotations_refuse() {
    assert!(parse_kfs("@Cardinality <a> <p> 2 1").is_err());
    assert!(parse_kfs("@Cardinality <a> <p> 1 x").is_err());
    assert!(parse_kfs("@Enum <p> pending").is_err());
    assert!(parse_kfs("@Label <a> \"unterminated").is_err());
    assert!(parse_kfs("@Attribute <a> <p>").is_err());
}

#[test]
fn cardinality_star_is_unbounded() {
    let (_, anns) = parse_kfs_tiered("@Cardinality <a> <p> 2 *").unwrap();
    assert!(matches!(&anns[0], Annotation::Cardinality { min: 2, max: None, .. }));
}

#[test]
fn rejection_details_name_the_form_and_counts() {
    let e = parse_kfs("\n\nSubClassOf <a>").unwrap_err();
    assert_eq!(e.line, 3);
    assert_eq!(e.construct, "SubClassOf");
    assert_eq!(e.detail, "SubClassOf <sub> <sup> expects 2 argument(s), got 1");
    let e = parse_kfs("EquivalentToIntersection <a>").unwrap_err();
    assert_eq!(e.detail, "expects <class> then ≥1 conjunct");
    let e = parse_kfs("ObjectOneOf <a>").unwrap_err();
    assert_eq!(e.detail, "nominal (oneOf)");
    let e = parse_kfs("Frobnicate").unwrap_err();
    assert_eq!(e.detail, "unknown construct");
    let e = parse_kfs("@Cardinality <a> <p> 7 3").unwrap_err();
    assert_eq!(e.construct, "@Cardinality");
    assert_eq!(e.detail, "min 7 exceeds max 3");
    let e = parse_kfs("@Cardinality <a> <p> -1 3").unwrap_err();
    assert_eq!(e.detail, "min bound \"-1\" is not a u32");
    let e = parse_kfs("@Cardinality <a> <p> 1 4294967296").unwrap_err();
    assert_eq!(e.detail, "max bound \"4294967296\" is not a u32 or '*'");
    let e = parse_kfs("@Enum <p> pending").unwrap_err();
    assert_eq!(e.detail, "values must be double-quoted; found 'p'");
    let e = parse_kfs("@Label <a> \"x").unwrap_err();
    assert_eq!(e.detail, "unterminated quoted value");
    let e = parse_kfs("@Label <a> \"x\" \"y\"").unwrap_err();
    assert_eq!(e.detail, "@Label expects exactly one quoted string, got 2");
    let e = parse_kfs("@Enum <p>").unwrap_err();
    assert_eq!(e.detail, "@Enum <prop> \"v\" … expects a prop then ≥1 quoted value");
    let e = parse_kfs("@Key <a>").unwrap_err();
    assert_eq!(e.detail, "@Key <class> <prop> [<prop>…] expects ≥2 arguments, got 1");
}

#[test]
fn lines_and_tokens_follow_the_text_conventions() {
    assert_eq!(parse_line(1, "   # only a comment").unwrap(), None);
    assert_eq!(parse_line(1, "").unwrap(), None);
    let l = parse_line(4, "\tSubClassOf  <<a>>   <b>\r").unwrap();
    assert_eq!(l, Some(Line::Axiom(Axiom::SubClassOf { sub: "a".into(), sup: "b".into() })));
    let (axs, anns) = parse_kfs_tiered("SubClassOf <a> <b>\r\n@Key <a> <p> <q>\r\n@Unique <p>").unwrap();
    assert_eq!(axs.len(), 1);
    assert_eq!(anns[0], Annotation::Key { class: "a".into(), props: vec!["p".into(), "q".into()] });
    assert_eq!(anns[1], Annotation::Unique { prop: "p".into() });
    let (_, anns) = parse_kfs_tiered("@Cardinality <a> <p> +3 *\n@Label <a>  \"la  bel\"  ").unwrap();
    assert_eq!(anns[0], Annotation::Cardinality { class: "a".into(), prop: "p".into(), min: 3, max: None });
    assert_eq!(anns[1], Annotation::Label { entity: "a".into(), text: "la  bel".into() });
}
