use kvasir::manchester::parse_document;
use kvasir::manchester::expr::{parse, parse_list};
use kvasir::manchester::lexer::{tokenize, Token};
use kvasir::manchester::{Expr, FrameKind, ManchesterError};

#[test]
fn iris_strings_and_commas_tokenize() {
    let toks = tokenize(
        r#"<https://signals.zndx.org/sdg#A> , bfo:0000015 and "a label"@en "typed"^^xsd:string"#,
    )
    .unwrap();
    assert!(matches!(&toks[0].0, Token::Iri(s) if s.ends_with("sdg#A")));
    assert!(matches!(&toks[1].0, Token::Comma));
    assert!(matches!(&toks[2].0, Token::Ident(s) if s == "bfo:0000015"));
    assert!(matches!(&toks[3].0, Token::And));
    assert!(matches!(&toks[4].0, Token::Str(s) if s == "a label"));
    assert!(matches!(&toks[5].0, Token::Str(s) if s == "typed"));
}

#[test]
fn facets_refuse_loudly() {
    let err = tokenize("xsd:integer[>= 0]").unwrap_err();
    assert!(err.to_text().contains("facets"));
}

#[test]
fn multibyte_utf8_survives_string_literals() {
    let toks = tokenize(r#""élan vital""#).unwrap();
    assert!(matches!(&toks[0].0, Token::Str(s) if s == "élan vital"));
}

#[test]
fn token_offsets_are_byte_offsets() {
    let toks = tokenize("\"é\" a").unwrap();
    assert_eq!(toks[0].1, 0);
    assert_eq!(toks[1].1, 5);
    assert_eq!(toks[2], (Token::Eof, 6));
    let err = tokenize("é").unwrap_err();
    assert_eq!(err, ManchesterError::Lex { pos: 0, msg: "unexpected character `Ã`".to_string() });
    let err = tokenize("a 99999999999").unwrap_err();
    assert_eq!(err, ManchesterError::Lex { pos: 2, msg: "integer literal `99999999999` overflows u32".to_string() });
    assert_eq!(err.to_text(), "lex error at byte 2: integer literal `99999999999` overflows u32");
    let err = tokenize("x \"open").unwrap_err();
    assert_eq!(err, ManchesterError::Lex { pos: 2, msg: "unterminated string literal".to_string() });
    let toks = tokenize("\"a\\\"b\" min 3").unwrap();
    assert_eq!(toks[0].0, Token::Str("a\"b".to_string()));
    assert_eq!(toks[1].0, Token::Min);
    assert_eq!(toks[2].0, Token::Number(3));
}

#[test]
fn precedence_and_nesting() {
    let e = parse("A and p some (B or C) and not D").unwrap();
    let Expr::And(parts) = e else { panic!("expected And") };
    assert_eq!(parts.len(), 3);
    assert!(matches!(&parts[0], Expr::Named(n) if n == "A"));
    assert!(matches!(&parts[1], Expr::Exists { filler, .. } if matches!(**filler, Expr::Or(_))));
    assert!(matches!(&parts[2], Expr::Not(_)));
}

#[test]
fn comma_lists_are_separate_axioms() {
    let items =
        parse_list("bfo:0000023, sdg:inheresIn exactly 1 <https://x.org/sdg#A>, sdg:realizes some B")
            .unwrap();
    assert_eq!(items.len(), 3);
    assert!(matches!(&items[1], Expr::Exactly { n: 1, .. }));
}

#[test]
fn that_is_conjunction_sugar() {
    let e = parse("Person that hasChild some Person").unwrap();
    assert!(matches!(e, Expr::And(parts) if parts.len() == 2));
}

#[test]
fn self_refuses_by_name() {
    assert!(parse("likes Self").is_err());
}

#[test]
fn nested_restriction_filler() {
    let e = parse("p some (q some R)").unwrap();
    let Expr::Exists { filler, .. } = e else { panic!() };
    assert!(matches!(*filler, Expr::Exists { .. }));
}

#[test]
fn parse_errors_name_the_token_and_position() {
    assert_eq!(
        parse("   ").unwrap_err(),
        ManchesterError::Parse { pos: 0, msg: "input is empty — expected a class expression".to_string() }
    );
    assert_eq!(
        parse("A, B").unwrap_err(),
        ManchesterError::Parse { pos: 0, msg: "expected one expression, found a list of 2".to_string() }
    );
    assert_eq!(
        parse("A B").unwrap_err(),
        ManchesterError::Parse { pos: 1, msg: "unexpected token identifier `B` after expression — expected `,` or end of input".to_string() }
    );
    assert_eq!(
        parse("p min x").unwrap_err(),
        ManchesterError::Parse { pos: 2, msg: "expected a number, got identifier `x`".to_string() }
    );
    assert_eq!(
        parse("{ }").unwrap_err(),
        ManchesterError::Parse { pos: 2, msg: "`{…}` must contain at least one individual".to_string() }
    );
    let e = parse("{a, <b>} or p value i or q max 2").unwrap();
    let Expr::Or(arms) = e else { panic!() };
    assert_eq!(arms[0], Expr::OneOf(vec!["a".to_string(), "b".to_string()]));
    assert_eq!(arms[1], Expr::HasValue { property: "p".to_string(), individual: "i".to_string() });
    assert_eq!(arms[2], Expr::Max { property: "q".to_string(), n: 2, filler: None });
}

const DOC: &str = "\
Prefix: sdg: <https://signals.zndx.org/sdg#>
Prefix: bfo: <http://purl.obolibrary.org/obo/BFO_>

Ontology: <https://signals.zndx.org/sdg>

Class: bfo:0000002 SubClassOf: bfo:0000001
DisjointClasses: bfo:0000002, bfo:0000003
Class: <https://signals.zndx.org/sdg#ParentingRole> SubClassOf: bfo:0000023, sdg:inheresIn exactly 1 <https://signals.zndx.org/sdg#DisabledAdult>, sdg:realizes some <https://signals.zndx.org/sdg#ParentingActivity>
Class: sdg:Widget
    Annotations: rdfs:label \"widget\", skos:definition \"a made thing\"
    SubClassOf: bfo:0000002 and sdg:partakes some
        sdg:Ritual
ObjectProperty: sdg:partakes
    Domain: sdg:Widget
    Range: sdg:Ritual
";

#[test]
fn document_structure_parses() {
    let (doc, issues) = parse_document(DOC);
    assert!(issues.is_empty(), "unexpected issues: {issues:?}");
    assert_eq!(doc.prefixes.len(), 2);
    assert_eq!(doc.frames.len(), 4);
    assert_eq!(doc.disjoint_blocks.len(), 1);
    // comma list on the role frame = 3 items
    let role = &doc.frames[1];
    assert!(role.subject.ends_with("ParentingRole"));
    assert_eq!(role.sections[0].items.len(), 3);
    // widget frame: annotations + a section body spanning lines
    let widget = &doc.frames[2];
    assert_eq!(widget.annotations.len(), 2);
    assert_eq!(widget.annotations[0].1, "widget");
    assert_eq!(widget.sections[0].items.len(), 1);
    // object property domain/range
    let prop = &doc.frames[3];
    assert_eq!(prop.sections.len(), 2);
}

#[test]
fn expansion_uses_declared_prefixes() {
    let (doc, _) = parse_document(DOC);
    assert_eq!(
        doc.expand("bfo:0000002"),
        "http://purl.obolibrary.org/obo/BFO_0000002"
    );
    assert_eq!(doc.expand("plain"), "plain");
}

#[test]
fn unparseable_sections_become_issues_and_the_rest_proceeds() {
    let doc_text = "Class: A SubClassOf: B and\nClass: C SubClassOf: D\nFoo bar\n    stray\nPrefix: broken\n";
    let (doc, issues) = parse_document(doc_text);
    assert_eq!(doc.frames.len(), 2);
    assert_eq!(doc.frames[0].sections.len(), 0);
    assert_eq!(doc.frames[1].sections.len(), 1);
    let texts: Vec<String> = issues.iter().map(|i| i.to_text()).collect();
    assert_eq!(issues.len(), 4, "{texts:?}");
    assert_eq!(issues[0].line, 1);
    assert_eq!(issues[0].context, "A: SubClassOf");
    assert_eq!(issues[1].message, "unrecognized top-level line: Foo bar");
    assert_eq!(issues[2].message, "indented content with no active section");
    assert_eq!(issues[3].message, "malformed prefix declaration");
}

#[test]
fn non_string_annotation_values_are_reported_and_skipped() {
    let (doc, issues) = parse_document("Class: A\n    Annotations: rdfs:label B, rdfs:comment \"ok\"\n");
    assert_eq!(doc.frames[0].annotations, vec![("rdfs:comment".to_string(), "ok".to_string())]);
    assert_eq!(issues.len(), 1);
    assert_eq!(issues[0].context, "A: Annotations");
}

#[test]
fn every_frame_keyword_opens_a_frame_of_its_kind() {
    let kinds = [
        FrameKind::Class,
        FrameKind::ObjectProperty,
        FrameKind::DataProperty,
        FrameKind::AnnotationProperty,
        FrameKind::Datatype,
        FrameKind::Individual,
    ];
    for k in kinds {
        let (doc, issues) = parse_document(&format!("{}: X\n", k.keyword()));
        assert!(issues.is_empty(), "{k:?}: {issues:?}");
        assert_eq!(doc.frames.len(), 1);
        assert_eq!(doc.frames[0].kind, k);
        assert_eq!(doc.frames[0].subject, "X");
        assert_eq!(doc.frames[0].line, 1);
        assert!(doc.frames[0].sections.is_empty());
        assert!(doc.frames[0].annotations.is_empty());
    }
}
