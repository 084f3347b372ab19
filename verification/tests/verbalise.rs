use kvasir::manchester::parse_document;
use kvasir::verbalise::{
    count, fnv, frames, parts_of, verb, verbalise_document, verbalise_expr, vocab_of, words, Constraint, Parts, Quant,
};

const DOC: &str = "\
Prefix: sdg: <https://signals.zndx.org/sdg#>
Prefix: bfo: <http://purl.obolibrary.org/obo/BFO_>
Class: bfo:0000023
    Annotations: rdfs:label \"role\"
Class: sdg:ParentingRole SubClassOf: bfo:0000023, sdg:inheresIn exactly 1 sdg:DisabledAdult, sdg:realizes some sdg:ParentingActivity
Class: sdg:DisabledAdult
    Annotations: rdfs:label \"disabled adult\"
Class: sdg:ParentingActivity
    Annotations: rdfs:label \"parenting activity\"
Class: sdg:Mystery SubClassOf: bfo:0000031
Class: sdg:Blend SubClassOf: sdg:consumes some sdg:CoffeeBean and sdg:consumes some sdg:Water
Class: sdg:CoffeeBean
Class: sdg:Water
";

#[test]
fn true_bounds_and_labels_verbalise() {
    let (doc, _) = parse_document(DOC);
    let out = verbalise_document(&doc, 5);
    let role = out.iter().find(|c| c.class.ends_with("ParentingRole")).unwrap();
    let first = &role.frames[0];
    assert!(first.contains("exactly one disabled adult"), "true bounds: {first}");
    assert!(first.contains("at least one parenting activity"), "{first}");
    assert!(first.contains("is a role that"), "label-first head: {first}");
    assert!(role.frames.len() == 5);
    // distinct skeletons
    assert!(role.frames.iter().any(|f| f.starts_with("For an entity to count as")));
}

#[test]
fn vacuity_guard_unlabeled_opaque_head_yields_no_head_noun() {
    let (doc, _) = parse_document(DOC);
    let out = verbalise_document(&doc, 3);
    // Mystery ⊑ bfo:0000031 (unlabeled, opaque local) → no supers, no constraints → NO frames
    assert!(!out.iter().any(|c| c.class.ends_with("Mystery")));
}

#[test]
fn same_property_conjuncts_merge_into_one_clause() {
    let (doc, _) = parse_document(DOC);
    let out = verbalise_document(&doc, 1);
    let blend = out.iter().find(|c| c.class.ends_with("Blend")).unwrap();
    let f = &blend.frames[0];
    assert!(
        f.contains("consumes at least one coffee bean and water"),
        "same-property merge: {f}"
    );
    assert_eq!(f.matches("consumes").count(), 1, "one clause, not two: {f}");
}

#[test]
fn classes_come_out_in_iri_order_with_their_labels() {
    let (doc, _) = parse_document(DOC);
    let out = verbalise_document(&doc, 2);
    let classes: Vec<&str> = out.iter().map(|c| c.class.as_str()).collect();
    let mut sorted = classes.clone();
    sorted.sort();
    assert_eq!(classes, sorted);
    assert!(out.iter().all(|c| c.frames.len() == 2));
    let role = out.iter().find(|c| c.class.ends_with("ParentingRole")).unwrap();
    assert_eq!(role.label, None);
}

#[test]
fn words_split_camel_and_snake_case() {
    assert_eq!(words("inheresIn"), "inheres in");
    assert_eq!(words("records_patient_encounter"), "records patient encounter");
    assert_eq!(words("HTTPServer"), "httpserver");
}

#[test]
fn counts_carry_true_bounds() {
    assert_eq!(count(Quant::Exists), "at least one");
    assert_eq!(count(Quant::Only), "only");
    assert_eq!(count(Quant::Exactly(1)), "exactly one");
    assert_eq!(count(Quant::Exactly(3)), "exactly 3");
    assert_eq!(count(Quant::Min(2)), "at least 2");
    assert_eq!(count(Quant::Max(4)), "at most 4");
}

#[test]
fn fnv_matches_the_reference_vectors() {
    assert_eq!(fnv(""), 0xcbf29ce484222325);
    assert_eq!(fnv("a"), 0xaf63dc4c8601ec8c);
    assert_eq!(fnv("foobar"), 0x85944171f73967e8);
}

#[test]
fn frames_rotate_the_tail_by_the_seed() {
    let parts = Parts { subject: "widget".to_string(), supers: vec!["tool".to_string()], constraints: vec![] };
    let all = frames(&parts, 9, "a");
    assert_eq!(all.len(), 5);
    assert_eq!(all[0], "widget is a kind of tool.");
    // fnv("a") % 4 == 0: the tail keeps its order
    assert_eq!(all[1], "widget is a type of tool.");
    assert_eq!(all[2], "Every widget is a tool.");
    let two = frames(&parts, 2, "a");
    assert_eq!(two, vec!["widget is a kind of tool.".to_string(), "widget is a type of tool.".to_string()]);
    let with_c = Parts {
        subject: "cup".to_string(),
        supers: vec![],
        constraints: vec![Constraint { prop: "holds".to_string(), filler: "tea".to_string(), quant: Quant::Min(2) }],
    };
    let f = frames(&with_c, 1, "x");
    assert_eq!(f, vec!["cup is an entity that holds at least 2 tea.".to_string()]);
}

#[test]
fn expressions_and_opaque_verbs_verbalise() {
    let (doc, _) = parse_document(DOC);
    let vocab = vocab_of(&doc);
    assert_eq!(verb(&vocab, "http://x.org/0000050"), "relates via 0000050");
    let e = kvasir::manchester::expr::parse("sdg:realizes some (sdg:Water or not sdg:CoffeeBean)").unwrap();
    assert_eq!(
        verbalise_expr(&vocab, &doc, &e),
        "something that realizes at least one water or not coffee bean"
    );
    let frame = &doc.frames[1];
    let p = parts_of(&vocab, &doc, frame).unwrap();
    assert_eq!(p.supers, vec!["role".to_string()]);
    assert_eq!(p.constraints.len(), 2);
}
