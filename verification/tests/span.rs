use strixonomy::namespaces::Namespaces;
use strixonomy::patch::{apply_patches_to_text, PatchOp};
use strixonomy::span::{
    entity_block_range, find_entity_block, find_subject_statement, is_in_comment_or_string,
    prefixes_from_turtle, statement_end_byte, subject_needles, SourceLocation,
};

/// The people ontology the write-back tests edit.
const EXAMPLE_TTL: &str = r#"@prefix ex: <http://example.org/people#> .
@prefix owl: <http://www.w3.org/2002/07/owl#> .
@prefix rdfs: <http://www.w3.org/2000/01/rdf-schema#> .
@prefix xsd: <http://www.w3.org/2001/XMLSchema#> .

<http://example.org/people> a owl:Ontology ;
    rdfs:label "People Ontology" .

ex:Thing a owl:Class ;
    rdfs:label "Thing" .

ex:Person a owl:Class ;
    rdfs:label "Person" ;
    rdfs:comment "A person." .

ex:hasName a owl:DatatypeProperty ;
    rdfs:domain ex:Person ;
    rdfs:range xsd:string .

ex:Person rdfs:subClassOf ex:Thing .
"#;

fn nsmap(pairs: &[(&str, &str)]) -> Namespaces {
    let mut ns = Namespaces::new();
    for (p, n) in pairs {
        ns.insert(p, n);
    }
    ns
}

fn ex_ns() -> Namespaces {
    nsmap(&[
        ("ex", "http://example.org/people#"),
        ("owl", "http://www.w3.org/2002/07/owl#"),
    ])
}


#[test]
fn subject_not_domain_mention() {
    let ttl = EXAMPLE_TTL;
    let range =
        find_subject_statement(ttl, "http://example.org/people#Person", "Person", &ex_ns())
            .expect("subject");
    let line = ttl[..range.start as usize].rfind('\n').map(|p| p + 1).unwrap_or(0);
    let subject_line = &ttl[line..];
    assert!(subject_line.starts_with("ex:Person a"));
}

#[test]
fn add_label_targets_class_block_not_trailing_triple() {
    let ttl = EXAMPLE_TTL;
    let patches = vec![PatchOp::AddLabel {
        entity_iri: "http://example.org/people#Person".into(),
        value: "Human".into(),
    }];
    let result = apply_patches_to_text(ttl, &patches, true, &ex_ns()).expect("patch");
    let preview = result.preview_text.expect("preview");
    let person_block_start = preview.find("ex:Person a owl:Class").expect("class decl");
    let human_pos = preview.find("Human").expect("label");
    assert!(human_pos > person_block_start);
    let trailing = preview.find("ex:Person rdfs:subClassOf ex:Thing");
    if let Some(t) = trailing {
        assert!(human_pos < t, "label must be in class block, not trailing triple");
    }
}

#[test]
fn statement_end_respects_dots_in_absolute_iris() {
    let ttl = "<http://example.org/people#Person> a owl:Class ;\n    rdfs:label \"Person\" .\n";
    let end = statement_end_byte(ttl, 0).expect("end");
    let block = &ttl[..end];
    assert!(block.contains("rdfs:label"));
    assert!(block.trim_end().ends_with('.'));
    assert!(!block.ends_with("example."));
}

#[test]
fn statement_end_respects_dots_in_comments() {
    let ttl = "ex:Person a owl:Class ; # see docs.\n    rdfs:label \"Person\" .\n";
    let end = statement_end_byte(ttl, 0).expect("end");
    let block = &ttl[..end];
    assert!(block.contains("rdfs:label"));
    assert!(block.contains("# see docs."));
}

#[test]
fn statement_end_respects_dots_in_local_names() {
    let ttl = "ex:foo.bar a owl:Class .\n";
    let end = statement_end_byte(ttl, 0).expect("end");
    assert_eq!(&ttl[..end], "ex:foo.bar a owl:Class .");
}

#[test]
fn is_in_comment_or_string_detects_all_turtle_string_forms() {
    let double = "rdfs:label \"http://example.org#Person\" .";
    let person_in_double = double.find("http://example.org#Person").unwrap();
    assert!(is_in_comment_or_string(double, person_in_double));

    let single = "rdfs:comment 'http://example.org#Person' .";
    let person_in_single = single.find("http://example.org#Person").unwrap();
    assert!(is_in_comment_or_string(single, person_in_single));

    let long_double = "rdfs:comment \"\"\"http://example.org#Person\"\"\" .";
    let person_in_long_double = long_double.find("http://example.org#Person").unwrap();
    assert!(is_in_comment_or_string(long_double, person_in_long_double));

    let long_single = "rdfs:comment '''http://example.org#Person''' .";
    let person_in_long_single = long_single.find("http://example.org#Person").unwrap();
    assert!(is_in_comment_or_string(long_single, person_in_long_single));

    let outside = "ex:Person a owl:Class .";
    let person_outside = outside.find("ex:Person").unwrap();
    assert!(!is_in_comment_or_string(outside, person_outside));
}

#[test]
fn statement_end_respects_dots_in_long_strings() {
    let ttl = "ex:Person a owl:Class ;\n    rdfs:comment '''See Dr. Smith.''' .\n";
    let end = statement_end_byte(ttl, 0).expect("end");
    let block = &ttl[..end];
    assert!(block.contains("Dr. Smith"));
    assert!(block.trim_end().ends_with('.'));
}

#[test]
fn subject_needles_use_longest_namespace_local_not_short_name() {
    let ns = nsmap(&[("ex", "http://example.org/")]);
    let iri = "http://example.org/foo/Person";
    let needles = subject_needles(iri, "Person", &ns);
    assert!(needles.contains(&format!("<{iri}>")));
    assert!(
        !needles.iter().any(|n| n == "ex:Person"),
        "must not emit CURIE that expands to a different IRI: {needles:?}"
    );
    // `foo/Person` is not a valid PN_LOCAL, so no prefixed needle.
    assert!(!needles.iter().any(|n| n.starts_with("ex:")));
}

#[test]
fn subject_needles_prefer_longest_prefix_match() {
    let ns = nsmap(&[
        ("ex", "http://example.org/"),
        ("foo", "http://example.org/foo/"),
    ]);
    let iri = "http://example.org/foo/Person";
    let needles = subject_needles(iri, "Person", &ns);
    assert!(needles.contains(&"foo:Person".to_string()));
    assert!(
        !needles.iter().any(|n| n == "ex:Person"),
        "shorter prefix must not produce a colliding CURIE: {needles:?}"
    );
}

#[test]
fn find_subject_does_not_match_wrong_curie_under_short_prefix() {
    let ttl = r#"@prefix ex: <http://example.org/> .
@prefix owl: <http://www.w3.org/2002/07/owl#> .

ex:Person a owl:Class .
<http://example.org/foo/Person> a owl:Class .
"#;
    let ns = nsmap(&[
        ("ex", "http://example.org/"),
        ("owl", "http://www.w3.org/2002/07/owl#"),
    ]);
    let range = find_subject_statement(ttl, "http://example.org/foo/Person", "Person", &ns)
        .expect("nested path subject");
    let line_start = ttl[..range.start as usize].rfind('\n').map(|p| p + 1).unwrap_or(0);
    let subject_line = &ttl[line_start..];
    assert!(
        subject_line.trim_start().starts_with("<http://example.org/foo/Person>"),
        "must locate the absolute IRI subject, not ex:Person: {subject_line}"
    );
}

#[test]
fn statement_end_includes_single_quoted_label() {
    let ttl = r#"ex:Person a owl:Class ;
    rdfs:label 'Human' ."#;
    let start = ttl.find("ex:Person").unwrap();
    let end = statement_end_byte(ttl, start).expect("end");
    assert!(ttl[start..end].contains("'Human'"));
}

#[test]
fn statement_end_respects_escaped_triple_quotes_in_long_string() {
    let ttl = r#"@prefix ex: <http://example.org/> .
@prefix rdfs: <http://www.w3.org/2000/01/rdf-schema#> .
ex:A a owl:Class ;
  rdfs:comment """contains \""" quote""" .
"#;
    let start = ttl.find("ex:A").unwrap();
    let end = statement_end_byte(ttl, start).expect("end");
    assert!(ttl[start..end].contains(r#"\""" quote"""#));
}

#[test]
fn prefixes_from_turtle_accepts_prefix_keyword() {
    let ttl = "PREFIX ex: <http://example.org/people#>\n";
    let map = prefixes_from_turtle(ttl);
    assert_eq!(map.get("ex"), Some("http://example.org/people#".to_string()));
}

#[test]
fn prefixes_from_turtle_accepts_uppercase_at_prefix() {
    let ttl = "@PREFIX owl: <http://www.w3.org/2002/07/owl#> .\n";
    let map = prefixes_from_turtle(ttl);
    assert_eq!(map.get("owl"), Some("http://www.w3.org/2002/07/owl#".to_string()));
}

#[test]
fn prefixes_from_turtle_scans_after_prefix_form_and_default_prefix() {
    let ttl = "PREFIX ex: <http://example.org/people#>\n\
@prefix owl: <http://www.w3.org/2002/07/owl#> .\n\
@prefix : <http://example.org/org#> .\n\
:Person a owl:Class .\n";
    let map = prefixes_from_turtle(ttl);
    assert_eq!(map.get("ex"), Some("http://example.org/people#".to_string()));
    assert_eq!(map.get("owl"), Some("http://www.w3.org/2002/07/owl#".to_string()));
    assert_eq!(map.get(""), Some("http://example.org/org#".to_string()));
}

/// A clinic ontology whose patient class carries a restriction over several lines.
const COMPLEX_CLASSES_TTL: &str = r#"@prefix ex: <http://example.org/clinic#> .
@prefix owl: <http://www.w3.org/2002/07/owl#> .
@prefix rdfs: <http://www.w3.org/2000/01/rdf-schema#> .

ex:MedicalRecord a owl:Class .

ex:hasRecord a owl:ObjectProperty .

ex:Patient a owl:Class ;
    rdfs:label "Patient" ;
    rdfs:subClassOf [
        a owl:Restriction ;
        owl:onProperty ex:hasRecord ;
        owl:someValuesFrom ex:MedicalRecord
    ] .

ex:Doctor a owl:Class .
"#;

fn clinic_ns() -> Namespaces {
    nsmap(&[("ex", "http://example.org/clinic#"), ("owl", "http://www.w3.org/2002/07/owl#")])
}

#[test]
fn finds_entity_line() {
    let ttl = EXAMPLE_TTL;
    let loc = find_entity_block(ttl, "http://example.org/people#Person", "Person", &ex_ns());
    assert!(loc.line.is_some());
    let line = ttl.lines().nth(loc.line.unwrap() as usize - 1).unwrap();
    assert!(line.contains("ex:Person a owl:Class"));
}

#[test]
fn patient_block_includes_multiline_restriction() {
    let ttl = COMPLEX_CLASSES_TTL;
    let location = find_entity_block(ttl, "http://example.org/clinic#Patient", "Patient", &clinic_ns());
    let range = entity_block_range(ttl, "http://example.org/clinic#Patient", location.start_byte, &clinic_ns())
        .expect("block");
    let block = &ttl[range.start as usize..range.end as usize];
    assert!(block.contains("owl:Restriction"));
    assert!(block.contains("owl:someValuesFrom"));
    assert!(block.trim_end().ends_with('.'));
}

#[test]
fn entity_location_has_line_column_and_byte() {
    let ttl = "@prefix ex: <http://e/#> .\n\n  ex:A a <http://www.w3.org/2002/07/owl#Class> .\n";
    let ns = nsmap(&[("ex", "http://e/#")]);
    let loc = find_entity_block(ttl, "http://e/#A", "A", &ns);
    assert_eq!(loc.line, Some(3));
    assert_eq!(loc.column, Some(2));
    assert_eq!(loc.start_byte, Some(ttl.find("ex:A").unwrap() as u64));
    assert_eq!(loc.end_byte, None);
    let missing = find_entity_block(ttl, "http://e/#B", "B", &ns);
    assert_eq!(missing, SourceLocation::default());
}

#[test]
fn entity_block_range_without_start_finds_primary_block() {
    let ttl = COMPLEX_CLASSES_TTL;
    let range = entity_block_range(ttl, "http://example.org/clinic#Doctor", None, &clinic_ns()).expect("block");
    assert_eq!(&ttl[range.start as usize..range.end as usize], "ex:Doctor a owl:Class .");
    assert!(entity_block_range(ttl, "http://example.org/clinic#Nurse", None, &clinic_ns()).is_none());
}
