use kvasir::ddl::{attr_less_tables, bound_phrase, labelled_tables, plan, prop_col, render_and_check, snake, sql_type, table_widths};
use kvasir::fragment::parse_kfs_tiered;

const KFS: &str = "\
SubClassOf <s#Role> <b#Continuant>
SubClassOfExistential <s#Role> <s#inheresIn> <s#Bearer>
SubClassOfExistential <s#Role> <s#realizes> <s#Act>
SubClassOfExistential <s#Act> <s#hasCount> <xsd:integer>
SubClassOf <s#NurseRole> <s#Role>
PropertyDomain <s#inheresIn> <s#Role>
@Attribute <s#Role> <s#hasStatus> <http://www.w3.org/2001/XMLSchema#string>
@Cardinality <s#Role> <s#inheresIn> 1 1
@Cardinality <s#Role> <s#realizes> 2 *
@Enum <s#hasStatus> \"active\" \"retired\"
@Label <s#Role> \"role\"
";

#[test]
fn plan_emits_cited_tables_fks_junctions_lookups() {
    let (axioms, annotations) = parse_kfs_tiered(KFS).unwrap();
    let ax_c: Vec<usize> = (1..=axioms.len()).collect();
    let ann_c: Vec<usize> = (100..100 + annotations.len()).collect();
    let p = plan(&axioms, &annotations, &ax_c, &ann_c);
    let role = p.tables.iter().find(|t| t.name == "role").expect("role table");
    assert_eq!(role.label.as_deref(), Some("role"));
    // exactly-1 relation → single NOT NULL FK column, cited
    let fk = role.fks.iter().find(|f| f.column == "inheres_in").expect("fk");
    assert!(!fk.cites.is_empty());
    // 1..* relation → junction
    assert!(p.junctions.iter().any(|j| j.prop.ends_with("realizes")));
    // enum → lookup + FK rewrite
    assert_eq!(p.lookups.len(), 1);
    assert!(role.fks.iter().any(|f| f.target_table == "status_lut"));
    // inheritance rollup: NurseRole inherits the attribute + relations, cites carry the path
    let nurse = p.tables.iter().find(|t| t.name == "nurse_role").expect("nurse");
    let status = nurse.columns.iter().find(|c| c.name == "status").expect("inherited");
    assert!(status.cites.len() >= 2, "attribute cite + subsumption path");
    // xsd existential is an attribute, not an FK target: no table for xsd:integer
    assert!(!p.tables.iter().any(|t| t.class.contains("XMLSchema")));
    // reference table for Bearer (FK target without own structure)
    assert!(p.tables.iter().any(|t| t.name == "bearer" && t.columns.len() == 1));
    let (stmts, ok) = render_and_check(&p);
    assert!(ok, "sqlparser must accept every rendered statement:\n{}", stmts.join(";\n"));
}

const ENRICHED: &str = "\
SubClassOf <s#Blood> <s#Sample>
SubClassOfExistential <s#Sample> <s#storedIn> <s#Freezer>
@Attribute <s#Sample> <s#hasBarcode> <http://www.w3.org/2001/XMLSchema#string>
@Cardinality <s#Sample> <s#storedIn> 1 1
@Cardinality <s#Sample> <s#testedIn> 2 *
SubClassOfExistential <s#Sample> <s#testedIn> <s#Assay>
@Relation <s#Sample> <s#derivedFrom> <s#Subject>
@Cardinality <s#Sample> <s#derivedFrom> 0 1
";

#[test]
fn leak1_cardinality_rolls_up_through_inheritance() {
    // min-2 on the parent must stay a JUNCTION on the subclass, not downgrade to a FK
    let (ax, an) = parse_kfs_tiered(ENRICHED).unwrap();
    let p = plan(&ax, &an, &(1..=ax.len()).collect::<Vec<_>>(), &(1..=an.len()).collect::<Vec<_>>());
    assert!(p.junctions.iter().any(|j| j.subject_table == "sample" && j.prop.ends_with("testedIn")));
    assert!(
        p.junctions.iter().any(|j| j.subject_table == "blood" && j.prop.ends_with("testedIn")),
        "the subclass must inherit the many-to-many as a junction, not a single FK"
    );
    assert!(!p.tables.iter().any(|t| t.name == "blood" && t.columns.iter().any(|c| c.name == "tested_in")));
}

#[test]
fn leak2_max_only_relations_render_as_nullable_fks() {
    let (ax, an) = parse_kfs_tiered(ENRICHED).unwrap();
    let p = plan(&ax, &an, &(1..=ax.len()).collect::<Vec<_>>(), &(1..=an.len()).collect::<Vec<_>>());
    for tbl in ["sample", "blood"] {
        let t = p.tables.iter().find(|t| t.name == tbl).unwrap();
        let df = t.columns.iter().find(|c| c.name == "derived_from")
            .unwrap_or_else(|| panic!("{tbl} must carry the max-1 relation as a column"));
        assert!(df.nullable, "a max-1 relation is an OPTIONAL FK");
        assert!(t.fks.iter().any(|f| f.column == "derived_from" && f.target_table == "subject"));
    }
    let (_, ok) = render_and_check(&p);
    assert!(ok);
}

#[test]
fn names_are_semantic_snake_case() {
    assert_eq!(snake("NurseRole"), "nurse_role");
    assert_eq!(snake("HTTPServer"), "httpserver");
    assert_eq!(snake("0000031"), "t_0000031");
    assert_eq!(snake("--"), "t");
    assert_eq!(snake("a-b  c"), "a_b_c");
    assert_eq!(prop_col("https://x.org/s#hasStatus"), "status");
    assert_eq!(prop_col("https://x.org/s#isPartOf"), "part_of");
    assert_eq!(prop_col("https://x.org/s#hashValue"), "hash_value");
    assert_eq!(sql_type("http://www.w3.org/2001/XMLSchema#dateTime"), "TIMESTAMP");
    assert_eq!(sql_type("http://www.w3.org/2001/XMLSchema#anyURI"), "VARCHAR(255)");
    assert_eq!(bound_phrase(1, Some(1)), "exactly 1");
    assert_eq!(bound_phrase(0, Some(3)), "at most 3");
    assert_eq!(bound_phrase(2, None), "at least 2");
    assert_eq!(bound_phrase(2, Some(5)), "2 to 5");
}

#[test]
fn reserved_table_names_are_quoted_and_keys_elected() {
    let kfs = "\
@Attribute <s#Order> <s#hasCode> <http://www.w3.org/2001/XMLSchema#string>
@Key <s#Order> <s#hasCode>
@Key <s#Order2> <s#a> <s#b>
";
    let (ax, an) = parse_kfs_tiered(kfs).unwrap();
    let p = plan(&ax, &an, &[], &[]);
    let order = p.tables.iter().find(|t| t.name == "order").unwrap();
    assert_eq!(order.columns.len(), 1);
    assert!(order.columns[0].pk && !order.columns[0].nullable && order.columns[0].name == "code");
    assert!(p.warnings.iter().any(|w| w.starts_with("composite @Key on <s#Order2> (2 props)")));
    let (stmts, ok) = render_and_check(&p);
    assert!(ok);
    assert!(stmts.iter().any(|s| s.starts_with("CREATE TABLE \"order\" (")), "{stmts:?}");
    assert_eq!(p.stats.get("pk_natural"), Some(&1));
}

#[test]
fn every_foreign_key_and_junction_names_an_existing_table() {
    for src in [KFS, ENRICHED] {
        let (axioms, annotations) = parse_kfs_tiered(src).unwrap();
        let ax_c: Vec<usize> = (1..=axioms.len()).collect();
        let ann_c: Vec<usize> = (100..100 + annotations.len()).collect();
        let p = plan(&axioms, &annotations, &ax_c, &ann_c);
        let table = |class: &str, name: &str| p.tables.iter().any(|t| t.class == class && t.name == name);
        let lookup = |prop: &str, name: &str| p.lookups.iter().any(|l| l.prop == prop && l.name == name);
        for t in &p.tables {
            for fk in &t.fks {
                assert!(table(&fk.target_class, &fk.target_table) || lookup(&fk.target_class, &fk.target_table));
            }
        }
        for j in &p.junctions {
            assert!(table(&j.subject_class, &j.subject_table));
            assert!(table(&j.target_class, &j.target_table));
        }
        for (i, a) in p.tables.iter().enumerate() {
            for b in &p.tables[i + 1..] {
                assert_ne!(a.class, b.class);
                assert_ne!(a.name, b.name);
            }
        }
    }
}

#[test]
fn colliding_table_names_get_numbered() {
    let kfs = "\
@Attribute <a#Thing> <a#hasX> <http://www.w3.org/2001/XMLSchema#string>
@Attribute <b#Thing> <b#hasY> <http://www.w3.org/2001/XMLSchema#string>
";
    let (axioms, annotations) = parse_kfs_tiered(kfs).unwrap();
    let p = plan(&axioms, &annotations, &[], &[]);
    let names: Vec<&str> = p.tables.iter().map(|t| t.name.as_str()).collect();
    assert_eq!(names, vec!["thing", "thing_2"]);
    assert!(p.warnings.iter().any(|w| w.contains("table name collision")));
}

#[test]
fn elected_tables_come_first_in_class_order_then_references() {
    let (axioms, annotations) = parse_kfs_tiered(KFS).unwrap();
    let ax_c: Vec<usize> = (1..=axioms.len()).collect();
    let ann_c: Vec<usize> = (100..100 + annotations.len()).collect();
    let p = plan(&axioms, &annotations, &ax_c, &ann_c);
    let n_el = p.tables.len() - p.n_reference_tables;
    let elected: Vec<&str> = p.tables[..n_el].iter().map(|t| t.class.as_str()).collect();
    assert_eq!(elected, vec!["s#NurseRole", "s#Role"]);
    assert_eq!(p.n_reference_tables, 2);
    for t in &p.tables[n_el..] {
        assert_eq!(t.columns.len(), 1);
        assert_eq!(t.columns[0].name, "id");
        assert!(t.fks.is_empty());
    }
    for t in &p.tables {
        assert_eq!(t.columns.iter().filter(|c| c.pk).count(), 1);
        for f in &t.fks {
            assert!(t.columns.iter().any(|c| c.name == f.column));
        }
    }
}

#[test]
fn census_counts_match_the_tables() {
    let (axioms, annotations) = parse_kfs_tiered(KFS).unwrap();
    let ax_c: Vec<usize> = (1..=axioms.len()).collect();
    let ann_c: Vec<usize> = (100..100 + annotations.len()).collect();
    let p = plan(&axioms, &annotations, &ax_c, &ann_c);
    let expected: Vec<usize> = p.tables.iter().filter(|t| t.columns.len() > 1).map(|t| t.columns.len()).collect();
    assert_eq!(table_widths(&p), expected);
    assert_eq!(expected.len(), 2);
    let attr_less = p
        .tables
        .iter()
        .filter(|t| t.columns.len() > 1)
        .filter(|t| !t.columns.iter().any(|c| c.prop.is_some() && !t.fks.iter().any(|f| f.column == c.name)))
        .count();
    assert_eq!(attr_less_tables(&p), attr_less);
    assert_eq!(labelled_tables(&p), 1);
}
