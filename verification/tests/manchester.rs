use strixonomy::error::OwlError;
use strixonomy::manchester::{
    parse_class_expression, parse_class_expression_with_datatypes, parse_data_range,
};
use strixonomy::mexpr::{ClassExpression, DataRange};
use strixonomy::mturtle::{class_expression_to_turtle_fragment, class_expression_to_turtle_value};
use strixonomy::namespaces::Namespaces;

fn nsmap(pairs: &[(&str, &str)]) -> Namespaces {
    let mut ns = Namespaces::new();
    for (p, n) in pairs {
        ns.insert(p, n);
    }
    ns
}

fn ex_ns() -> Namespaces {
    nsmap(&[
        ("ex", "http://example.org/people#"),
        ("owl", "http://www.w3.org/2002/07/owl#"),
        ("rdfs", "http://www.w3.org/2000/01/rdf-schema#"),
    ])
}

fn clinic_ns() -> Namespaces {
    nsmap(&[("ex", "http://example.org/clinic#"), ("owl", "http://www.w3.org/2002/07/owl#")])
}

fn anatomy_ns() -> Namespaces {
    nsmap(&[("ex", "http://example.org/anatomy#"), ("owl", "http://www.w3.org/2002/07/owl#")])
}

fn is_owl_thing(expr: &ClassExpression) -> bool {
    matches!(
        expr,
        ClassExpression::Class(c) if c.iter().collect::<String>() == "http://www.w3.org/2002/07/owl#Thing"
    )
}

fn turtle_value(expr: &ClassExpression, ns: &Namespaces, indent: usize) -> Result<String, OwlError> {
    class_expression_to_turtle_value(expr, ns, indent)
}

fn turtle_fragment(expr: &ClassExpression, predicate: &str, ns: &Namespaces) -> Result<String, OwlError> {
    class_expression_to_turtle_fragment(expr, predicate, ns)
}

#[test]
fn parse_property_first_min_cardinality() {
    let ns = anatomy_ns();
    let out = parse_class_expression("ex:hasPart min 1 ex:Organ", &ns).expect("parse");
    assert!(out.normalized.contains("ex:hasPart min 1 ex:Organ"));
}

#[test]
fn parse_property_first_without_filler() {
    let ns = anatomy_ns();
    let out = parse_class_expression("ex:hasPart min 1", &ns).expect("parse");
    assert_eq!(out.normalized, "ex:hasPart min 1");
    match &out.expression {
        ClassExpression::ObjectMinCardinality { bce, .. } => {
            assert!(is_owl_thing(bce));
        }
        other => panic!("expected min cardinality, got {other:?}"),
    }
}

#[test]
fn unqualified_cardinality_without_owl_prefix() {
    let ns = nsmap(&[("ex", "http://example.org/")]);
    let out = parse_class_expression("ex:p min 1", &ns).expect("parse without owl prefix");
    match &out.expression {
        ClassExpression::ObjectMinCardinality { bce, .. } => {
            assert!(is_owl_thing(bce), "default filler must be owl:Thing");
        }
        other => panic!("expected min cardinality, got {other:?}"),
    }
}

#[test]
fn parse_keyword_first_cardinality_without_some() {
    let ns = anatomy_ns();
    let out = parse_class_expression("min 1 ex:hasPart ex:Organ", &ns).expect("parse");
    assert!(out.normalized.contains("ex:hasPart min 1 ex:Organ"));
}

#[test]
fn cardinality_turtle_emits_typed_literal() {
    let ns = anatomy_ns();
    for input in [
        "ex:hasPart min 1 ex:Organ",
        "ex:hasPart max 2 ex:Organ",
        "ex:hasPart exactly 3 ex:Organ",
    ] {
        let out = parse_class_expression(input, &ns).expect("parse");
        let turtle = turtle_value(&out.expression, &ns, 0).expect("turtle");
        assert!(
            turtle.contains("^^<http://www.w3.org/2001/XMLSchema#nonNegativeInteger>"),
            "expected typed cardinality literal in: {turtle}"
        );
        assert!(!turtle.contains("minQualifiedCardinality 1 ;"));
        assert!(!turtle.contains("maxQualifiedCardinality 2 ;"));
        assert!(!turtle.contains("qualifiedCardinality 3 ;"));
    }
}

#[test]
fn cardinality_round_trip_property_first() {
    let ns = anatomy_ns();
    let out = parse_class_expression("ex:hasPart min 1 ex:Organ", &ns).expect("parse");
    let turtle = turtle_fragment(&out.expression, "rdfs:subClassOf", &ns)
        .expect("turtle");
    assert!(turtle.contains("owl:Restriction"));
    assert!(turtle.contains("owl:minQualifiedCardinality"));
    assert!(turtle.contains("owl:onClass"));
    assert!(turtle.contains("^^<http://www.w3.org/2001/XMLSchema#nonNegativeInteger>"));
}

#[test]
fn parse_some_values_from() {
    let ns = clinic_ns();
    let out = parse_class_expression("ex:hasRecord some ex:MedicalRecord", &ns).expect("parse");
    assert!(out.normalized.contains("some"));
}

#[test]
fn parse_and_expression() {
    let ns = ex_ns();
    let out = parse_class_expression("ex:Person and ex:Organization", &ns).expect("parse");
    assert!(out.normalized.contains("and"));
}

#[test]
fn turtle_fragment_for_restriction() {
    let ns = clinic_ns();
    let out = parse_class_expression("ex:hasRecord some ex:MedicalRecord", &ns).expect("parse");
    let turtle = turtle_fragment(&out.expression, "rdfs:subClassOf", &ns)
        .expect("turtle");
    assert!(turtle.contains("owl:Restriction"));
    assert!(turtle.contains("owl:someValuesFrom"));
}

#[test]
fn turtle_intersection_includes_all_operands() {
    let ns = ex_ns();
    let out = parse_class_expression("ex:Person and ex:Organization", &ns).expect("parse");
    let turtle = turtle_value(&out.expression, &ns, 0).expect("turtle");
    assert!(turtle.contains("ex:Person"));
    assert!(turtle.contains("ex:Organization"));
    assert!(turtle.contains("owl:intersectionOf"));
}

#[test]
fn turtle_term_longest_namespace_prefix_wins() {
    let ns = nsmap(&[
        ("ex", "http://example.org/"),
        ("exfoo", "http://example.org/foo/"),
        ("owl", "http://www.w3.org/2002/07/owl#"),
    ]);
    let out = parse_class_expression("exfoo:Bar", &ns).expect("parse");
    let turtle = turtle_fragment(&out.expression, "rdfs:subClassOf", &ns)
        .expect("turtle");
    assert!(turtle.contains("exfoo:Bar"));
    assert!(!turtle.contains("ex:foo/Bar"));
}

#[test]
fn parse_not_complement() {
    let ns = ex_ns();
    let out = parse_class_expression("not ex:Person", &ns).expect("parse not");
    assert!(matches!(out.expression, ClassExpression::ObjectComplementOf(_)));
    let turtle = turtle_value(&out.expression, &ns, 0).expect("turtle");
    assert!(turtle.contains("owl:complementOf"));
}

#[test]
fn parse_has_value_and_has_self() {
    let ns = clinic_ns();
    let out = parse_class_expression("ex:hasRecord value ex:rec1", &ns).expect("has value");
    assert!(matches!(out.expression, ClassExpression::ObjectHasValue { .. }));
    let out = parse_class_expression("ex:likes Self", &ns).expect("has self");
    assert!(matches!(out.expression, ClassExpression::ObjectHasSelf(_)));
}

#[test]
fn parse_one_of() {
    let ns = ex_ns();
    let out = parse_class_expression("{ ex:Person ex:Organization }", &ns).expect("one of");
    match out.expression {
        ClassExpression::ObjectOneOf(inds) => assert_eq!(inds.len(), 2),
        other => panic!("expected oneOf, got {other:?}"),
    }
}

#[test]
fn parse_data_some_with_xsd() {
    let ns = nsmap(&[
        ("ex", "http://example.org/"),
        ("xsd", "http://www.w3.org/2001/XMLSchema#"),
    ]);
    let out = parse_class_expression("ex:age some xsd:integer", &ns).expect("data some");
    assert!(matches!(out.expression, ClassExpression::DataSomeValuesFrom { .. }));
}

#[test]
fn parse_data_some_with_known_custom_datatype() {
    // #335
    let ns = nsmap(&[("ex", "http://example.org/")]);
    let known: Vec<Vec<char>> = vec!["http://example.org/SSN".chars().collect()];
    let out = parse_class_expression_with_datatypes("ex:hasSSN some ex:SSN", &ns, &known)
        .expect("custom datatype filler");
    assert!(matches!(out.expression, ClassExpression::DataSomeValuesFrom { .. }));
    let as_class = parse_class_expression("ex:hasSSN some ex:SSN", &ns).expect("no known");
    assert!(matches!(as_class.expression, ClassExpression::ObjectSomeValuesFrom { .. }));
}

#[test]
fn parse_data_range_facets_and_one_of() {
    let ns =
        nsmap(&[("xsd", "http://www.w3.org/2001/XMLSchema#")]);
    let restricted = parse_data_range("xsd:integer[>= 0][<= 10]", &ns).expect("facets");
    match restricted {
        DataRange::DatatypeRestriction(_, facets) => assert_eq!(facets.len(), 2),
        other => panic!("expected DatatypeRestriction, got {other:?}"),
    }
    let one_of = parse_data_range("{\"a\", \"b\"}", &ns).expect("oneOf");
    assert!(matches!(one_of, DataRange::DataOneOf(_)));
    let complement = parse_data_range("not xsd:string", &ns).expect("not");
    assert!(matches!(complement, DataRange::DataComplementOf(_)));
}

#[test]
fn expression_tree_is_sorted_compact_json() {
    let ns = ex_ns();
    let out = parse_class_expression("ex:hasRecord some ex:MedicalRecord", &ns).expect("parse");
    assert_eq!(
        out.tree,
        r#"{"filler":{"kind":"Class","label":"ex:MedicalRecord"},"kind":"ObjectSomeValuesFrom","property":"ex:hasRecord"}"#
    );
    let value: serde_json::Value = serde_json::from_str(&out.tree).expect("valid json");
    assert_eq!(value["kind"], "ObjectSomeValuesFrom");
    assert_eq!(serde_json::to_string(&value).unwrap(), out.tree);
}

#[test]
fn expression_tree_of_cardinality_and_intersection() {
    let ns = ex_ns();
    let out = parse_class_expression("ex:hasPart min 1 ex:Organ", &ns).expect("parse");
    assert_eq!(
        out.tree,
        r#"{"cardinality":1,"filler":{"kind":"Class","label":"ex:Organ"},"kind":"ObjectMinCardinality","property":"ex:hasPart"}"#
    );
    let out = parse_class_expression("ex:Person and ex:Organization", &ns).expect("parse");
    let value: serde_json::Value = serde_json::from_str(&out.tree).expect("valid json");
    assert_eq!(value["children"].as_array().map(|v| v.len()), Some(2));
    assert_eq!(serde_json::to_string(&value).unwrap(), out.tree);
}

#[test]
fn json_strings_escape_like_serde_json() {
    let text = "a\"b\\c\nd\u{1}e\u{7f}";
    let chars: Vec<char> = text.chars().collect();
    let escaped: String = strixonomy::mtree::json_string_exec(&chars).into_iter().collect();
    assert_eq!(escaped, serde_json::to_string(text).unwrap());
    assert_eq!(escaped, "\"a\\\"b\\\\c\\nd\\u0001e\u{7f}\"");
}

#[test]
fn inverse_property_renders_as_its_text() {
    let ns = ex_ns();
    let e = ClassExpression::ObjectSomeValuesFrom {
        ope: "inverse http://example.org/people#hasPart".chars().collect(),
        bce: Box::new(ClassExpression::Class("http://example.org/people#Organ".chars().collect())),
    };
    let text = strixonomy::mman::class_expression_to_manchester(&e, &ns);
    assert_eq!(text, "inversehttp://example.org/people#hasPart some ex:Organ");
}

#[test]
fn data_cardinality_tree_kind_is_its_debug_form() {
    let ns = ex_ns();
    let e = ClassExpression::DataMinCardinality {
        n: 2,
        dp: "http://example.org/people#age".chars().collect(),
        dr: DataRange::DataOneOf(vec!["a\"b".chars().collect()]),
    };
    let tree = strixonomy::mtree::expression_tree_json(&e, &ns);
    let value: serde_json::Value = serde_json::from_str(&tree).expect("valid json");
    assert_eq!(
        value["kind"],
        "DataMinCardinality { n: 2, dp: DataProperty(IRI(\"http://example.org/people#age\")), dr: DataOneOf([Simple { literal: \"a\\\"b\" }]) }"
    );
    let e = ClassExpression::DataExactCardinality {
        n: 1,
        dp: "http://example.org/people#age".chars().collect(),
        dr: DataRange::Datatype("http://www.w3.org/2001/XMLSchema#integer".chars().collect()),
    };
    let tree = strixonomy::mtree::expression_tree_json(&e, &ns);
    assert_eq!(
        tree,
        "{\"kind\":\"DataExactCardinality { n: 1, dp: DataProperty(IRI(\\\"http://example.org/people#age\\\")), dr: Datatype(Datatype(IRI(\\\"http://www.w3.org/2001/XMLSchema#integer\\\"))) }\"}"
    );
}
