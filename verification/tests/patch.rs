use strixonomy::block::cleanup_exec;
use strixonomy::error::OwlError;
use strixonomy::iri::iri_to_turtle_term;
use strixonomy::namespaces::Namespaces;
use strixonomy::patch::{apply_patches_to_text, PatchEntityKind, PatchOp};
use strixonomy::span::entity_primary_block_range;

/// The people ontology the write-back tests edit.
const EXAMPLE_TTL: &str = r#"@prefix ex: <http://example.org/people#> .
@prefix owl: <http://www.w3.org/2002/07/owl#> .
@prefix rdfs: <http://www.w3.org/2000/01/rdf-schema#> .
@prefix xsd: <http://www.w3.org/2001/XMLSchema#> .

<http://example.org/people> a owl:Ontology ;
    rdfs:label "People Ontology" .

ex:Thing a owl:Class ;
    rdfs:label "Thing" .

ex:Person a owl:Class ;
    rdfs:label "Person" ;
    rdfs:comment "A person." .

ex:hasName a owl:DatatypeProperty ;
    rdfs:domain ex:Person ;
    rdfs:range xsd:string .

ex:Person rdfs:subClassOf ex:Thing .
"#;

/// Two disjoint classes and an object property between them.
const DISJOINT_CLASSES_TTL: &str = r#"@prefix ex: <http://example.org/org#> .
@prefix owl: <http://www.w3.org/2002/07/owl#> .
@prefix rdfs: <http://www.w3.org/2000/01/rdf-schema#> .

<http://example.org/org> a owl:Ontology .

ex:Animal a owl:Class .

ex:Cat a owl:Class ;
    rdfs:subClassOf ex:Animal ;
    owl:disjointWith ex:Dog .

ex:Dog a owl:Class ;
    rdfs:subClassOf ex:Animal .

ex:chases a owl:ObjectProperty ;
    rdfs:domain ex:Cat ;
    rdfs:range ex:Dog .
"#;

fn nsmap(pairs: &[(&str, &str)]) -> Namespaces {
    let mut ns = Namespaces::new();
    for (p, n) in pairs {
        ns.insert(p, n);
    }
    ns
}

fn turtle_term(iri: &str, ns: &Namespaces) -> Result<String, OwlError> {
    let chars: Vec<char> = iri.chars().collect();
    iri_to_turtle_term(&chars, ns).map(|t| t.into_iter().collect())
}

fn cleanup_separators(block: &str) -> String {
    let chars: Vec<char> = block.chars().collect();
    cleanup_exec(&chars).into_iter().collect()
}

fn ex_ns() -> Namespaces {
    nsmap(&[
        ("ex", "http://example.org/people#"),
        ("owl", "http://www.w3.org/2002/07/owl#"),
        ("rdfs", "http://www.w3.org/2000/01/rdf-schema#"),
    ])
}

// Catalog/Horned reparse oracles for success-path patches live in
// tests/owl_patch_oracles.rs (apply_and_reindex).

#[test]
fn add_label_to_existing_class() {
    let ttl = EXAMPLE_TTL;
    let patches = vec![PatchOp::AddLabel {
        entity_iri: "http://example.org/people#Person".to_string(),
        value: "Human".to_string(),
    }];
    let result = apply_patches_to_text(ttl, &patches, true, &ex_ns()).expect("patch");
    let preview = result.preview_text.expect("preview");
    assert_eq!(
        preview.matches("rdfs:label \"Human\"").count(),
        1,
        "must insert label exactly once"
    );
}

#[test]
fn add_label_not_blocked_by_label_text_in_long_comment() {
    let ttl = r#"@prefix ex: <http://example.org/ex#> .
@prefix owl: <http://www.w3.org/2002/07/owl#> .
@prefix rdfs: <http://www.w3.org/2000/01/rdf-schema#> .

ex:Foo a owl:Class ;
    rdfs:comment """Documentation mentions rdfs:label \"Bar\" syntax.""" .
"#;
    let ns = nsmap(&[
        ("ex", "http://example.org/ex#"),
        ("owl", "http://www.w3.org/2002/07/owl#"),
        ("rdfs", "http://www.w3.org/2000/01/rdf-schema#"),
    ]);
    let patches = vec![PatchOp::AddLabel {
        entity_iri: "http://example.org/ex#Foo".to_string(),
        value: "Bar".to_string(),
    }];
    let result = apply_patches_to_text(ttl, &patches, true, &ns).expect("patch");
    let preview = result.preview_text.expect("preview");
    assert!(preview.contains("rdfs:label \"Bar\""));
}

#[test]
fn add_label_duplicate_returns_error() {
    let ttl = r#"@prefix ex: <http://example.org/ex#> .
@prefix owl: <http://www.w3.org/2002/07/owl#> .
@prefix rdfs: <http://www.w3.org/2000/01/rdf-schema#> .

ex:Foo a owl:Class ;
    rdfs:label "Bar" .
"#;
    let ns = nsmap(&[
        ("ex", "http://example.org/ex#"),
        ("owl", "http://www.w3.org/2002/07/owl#"),
        ("rdfs", "http://www.w3.org/2000/01/rdf-schema#"),
    ]);
    let patches = vec![PatchOp::AddLabel {
        entity_iri: "http://example.org/ex#Foo".to_string(),
        value: "Bar".to_string(),
    }];
    let result = apply_patches_to_text(ttl, &patches, true, &ns).expect("patch");
    assert!(!result.applied);
    assert!(result.diagnostics.iter().any(|d| d.message.contains("duplicate")));
}

#[test]
fn remove_subclass_does_not_leave_orphaned_predicate() {
    let ttl = EXAMPLE_TTL;
    let patches = vec![PatchOp::RemoveSubClassOf {
        entity_iri: "http://example.org/people#Person".to_string(),
        parent_iri: "http://example.org/people#Thing".to_string(),
    }];
    let result = apply_patches_to_text(ttl, &patches, true, &ex_ns()).expect("patch");
    let preview = result.preview_text.expect("preview");
    assert!(!preview.contains("rdfs:subClassOf."));
    assert!(!preview.contains("rdfs:subClassOf ;"));
    assert!(!preview.contains("ex:Person rdfs:subClassOf"));
}

#[test]
fn add_subclass_of_no_duplicate_when_trailing_triple_exists() {
    let ttl = EXAMPLE_TTL;
    let patches = vec![PatchOp::AddSubClassOf {
        entity_iri: "http://example.org/people#Person".to_string(),
        parent_iri: "http://example.org/people#Thing".to_string(),
    }];
    let result = apply_patches_to_text(ttl, &patches, true, &ex_ns()).expect("patch");
    assert!(
        result.preview_text.is_none(),
        "must not duplicate subclass axiom already present as trailing triple"
    );
}

#[test]
fn remove_import_from_trailing_triple() {
    let ttl = r#"@prefix owl: <http://www.w3.org/2002/07/owl#> .

<http://example.org/people> a owl:Ontology .
<http://example.org/people> owl:imports <http://example.org/other> .
"#;
    let ns = ex_ns();
    let result = apply_patches_to_text(
        ttl,
        &[PatchOp::RemoveImport {
            ontology_iri: "http://example.org/people".to_string(),
            import_iri: "http://example.org/other".to_string(),
        }],
        true,
        &ns,
    )
    .expect("remove trailing import");
    let preview = result.preview_text.expect("preview");
    assert!(!preview.contains("owl:imports"));
}

#[test]
fn remove_label_from_single_quoted_literal() {
    let ttl = r#"@prefix ex: <http://example.org/people#> .
@prefix rdfs: <http://www.w3.org/2000/01/rdf-schema#> .
@prefix owl: <http://www.w3.org/2002/07/owl#> .

ex:Person a owl:Class ;
    rdfs:label 'Human' .
"#;
    let patches = vec![PatchOp::RemoveLabel {
        entity_iri: "http://example.org/people#Person".to_string(),
        value: "Human".to_string(),
    }];
    let result = apply_patches_to_text(ttl, &patches, true, &ex_ns()).expect("patch");
    let preview = result.preview_text.expect("preview");
    assert!(!preview.contains("rdfs:label 'Human'"));
    assert!(!preview.contains("'Human'"));
    assert!(preview.contains("ex:Person a owl:Class"));
}

#[test]
fn remove_comment_from_long_single_quoted_literal() {
    let ttl = r#"@prefix ex: <http://example.org/people#> .
@prefix rdfs: <http://www.w3.org/2000/01/rdf-schema#> .
@prefix owl: <http://www.w3.org/2002/07/owl#> .

ex:Person a owl:Class ;
    rdfs:comment '''A human being.''' .
"#;
    let patches = vec![PatchOp::RemoveComment {
        entity_iri: "http://example.org/people#Person".to_string(),
        value: "A human being.".to_string(),
    }];
    let result = apply_patches_to_text(ttl, &patches, true, &ex_ns()).expect("patch");
    let preview = result.preview_text.expect("preview");
    assert!(!preview.contains("rdfs:comment '''A human being.'''"));
    assert!(preview.contains("ex:Person a owl:Class"));
}

#[test]
fn remove_label_ignores_predicate_inside_long_single_quoted_comment() {
    let ttl = r#"@prefix ex: <http://example.org/people#> .
@prefix rdfs: <http://www.w3.org/2000/01/rdf-schema#> .
@prefix owl: <http://www.w3.org/2002/07/owl#> .

ex:Person a owl:Class ;
    rdfs:comment '''see rdfs:label usage''' ;
    rdfs:label "Name" .
"#;
    let patches = vec![PatchOp::RemoveLabel {
        entity_iri: "http://example.org/people#Person".to_string(),
        value: "Name".to_string(),
    }];
    let result = apply_patches_to_text(ttl, &patches, true, &ex_ns()).expect("patch");
    let preview = result.preview_text.expect("preview");
    assert!(preview.contains("see rdfs:label usage"));
    assert!(!preview.contains("rdfs:label \"Name\""));
}

#[test]
fn remove_comment_with_period_in_literal() {
    let ttl = r#"@prefix ex: <http://example.org/people#> .
@prefix rdfs: <http://www.w3.org/2000/01/rdf-schema#> .
@prefix owl: <http://www.w3.org/2002/07/owl#> .

ex:Person a owl:Class ;
    rdfs:comment "A human being." .
"#;
    let patches = vec![PatchOp::RemoveComment {
        entity_iri: "http://example.org/people#Person".to_string(),
        value: "A human being.".to_string(),
    }];
    let result = apply_patches_to_text(ttl, &patches, true, &ex_ns()).expect("patch");
    let preview = result.preview_text.expect("preview");
    assert!(!preview.contains("A human being."));
    assert!(!preview.contains("rdfs:comment"));
    assert!(preview.contains("ex:Person a owl:Class"));
}

#[test]
fn remove_label_ignores_predicate_name_inside_comment() {
    let ttl = r#"@prefix ex: <http://example.org/people#> .
@prefix rdfs: <http://www.w3.org/2000/01/rdf-schema#> .
@prefix owl: <http://www.w3.org/2002/07/owl#> .

ex:Person a owl:Class ;
    rdfs:comment "see rdfs:label usage" ;
    rdfs:label "Name" .
"#;
    let patches = vec![PatchOp::RemoveLabel {
        entity_iri: "http://example.org/people#Person".to_string(),
        value: "Name".to_string(),
    }];
    let result = apply_patches_to_text(ttl, &patches, true, &ex_ns()).expect("patch");
    let preview = result.preview_text.expect("preview");
    assert!(preview.contains("see rdfs:label usage"));
    assert!(!preview.contains("rdfs:label \"Name\""));
}

#[test]
fn create_new_class() {
    let ttl = EXAMPLE_TTL;
    let patches = vec![PatchOp::CreateEntity {
        entity_iri: "http://example.org/people#Employee".to_string(),
        kind: PatchEntityKind::Class,
    }];
    let result = apply_patches_to_text(ttl, &patches, true, &ex_ns()).expect("patch");
    assert!(result.preview_text.unwrap().contains("ex:Employee"));
}

#[test]
fn batch_failure_leaves_source_unchanged() {
    let ttl = EXAMPLE_TTL;
    let patches = vec![
        PatchOp::AddLabel {
            entity_iri: "http://example.org/people#Person".to_string(),
            value: "Human".to_string(),
        },
        PatchOp::AddLabel {
            entity_iri: "http://example.org/people#NoSuch".to_string(),
            value: "X".to_string(),
        },
    ];
    let result = apply_patches_to_text(ttl, &patches, true, &ex_ns()).expect("patch");
    assert!(!result.diagnostics.is_empty());
    assert_eq!(result.preview_text.as_deref(), Some(ttl));
    assert!(!result.applied);
}

#[test]
fn crlf_line_offsets_match_byte_positions() {
    let ttl = "ex:Foo a owl:Class ;\r\n    rdfs:label \"Bar\" .\r\n";
    let ns = nsmap(&[
        ("ex", "http://example.org/"),
        ("owl", "http://www.w3.org/2002/07/owl#"),
    ]);
    let range = entity_primary_block_range(ttl, "http://example.org/Foo", &ns).expect("range");
    let block = &ttl[range.start as usize..range.end as usize];
    assert!(block.contains("rdfs:label"));
    assert!(block.trim_end().ends_with('.'));
}

#[test]
fn cleanup_preserves_literal_double_spaces() {
    let block = "ex:Foo rdfs:label \"a  b\" .";
    let cleaned = cleanup_separators(block);
    assert!(cleaned.contains("\"a  b\""));
}

#[test]
fn iri_with_angle_bracket_is_rejected_not_injected() {
    let ttl = "@prefix ex: <http://example.org/people#> .\n@prefix owl: <http://www.w3.org/2002/07/owl#> .\n\nex:Person a owl:Class .\n";
    let evil =
        "http://example.org/people#X> . ex:Pwned a owl:Class . <http://example.org/people#Y";
    let patches = vec![PatchOp::CreateEntity {
        entity_iri: evil.to_string(),
        kind: PatchEntityKind::Class,
    }];
    let result = apply_patches_to_text(ttl, &patches, true, &ex_ns()).expect("patch");
    assert!(!result.applied);
    assert!(!result.diagnostics.is_empty());
    assert_eq!(result.preview_text.as_deref(), Some(ttl));
    // Injection must not appear in any produced text (preview equals original).
    let produced = result.preview_text.as_deref().unwrap_or("");
    assert!(
        !produced.contains("ex:Pwned") && !produced.contains("Pwned"),
        "malicious local name must not be written: {produced}"
    );
    assert!(
        result.diagnostics.iter().any(|d| d.severity == "error"),
        "expected error diagnostic for angle-bracket IRI injection"
    );
}

#[test]
fn iri_with_newline_is_rejected() {
    let ttl = "@prefix ex: <http://example.org/people#> .\n@prefix owl: <http://www.w3.org/2002/07/owl#> .\n\nex:Person a owl:Class .\n";
    let evil = "http://example.org/people#X\n. ex:Injected a owl:Class .\n#";
    let patches = vec![PatchOp::CreateEntity {
        entity_iri: evil.to_string(),
        kind: PatchEntityKind::Class,
    }];
    let result = apply_patches_to_text(ttl, &patches, true, &ex_ns()).expect("patch");
    assert!(!result.applied);
    assert_eq!(result.preview_text.as_deref(), Some(ttl));
}

#[test]
fn longest_namespace_prefix_wins() {
    let ns = nsmap(&[
        ("ex", "http://example.org/"),
        ("exfoo", "http://example.org/foo/"),
    ]);
    let term = turtle_term("http://example.org/foo/Bar", &ns).expect("term");
    assert_eq!(term, "exfoo:Bar");
}

#[test]
fn slash_in_local_name_uses_angle_brackets() {
    let ns = nsmap(&[("ex", "http://example.org/")]);
    let term = turtle_term("http://example.org/foo/Bar", &ns).expect("term");
    assert_eq!(term, "<http://example.org/foo/Bar>");
}

#[test]
fn add_disjoint_class_is_idempotent_when_axiom_exists() {
    let ttl = DISJOINT_CLASSES_TTL;
    let ns = nsmap(&[
        ("ex", "http://example.org/org#"),
        ("owl", "http://www.w3.org/2002/07/owl#"),
        ("rdfs", "http://www.w3.org/2000/01/rdf-schema#"),
    ]);
    let patches = vec![PatchOp::AddDisjointClass {
        entity_iri: "http://example.org/org#Cat".to_string(),
        other_iri: "http://example.org/org#Dog".to_string(),
    }];
    let before = ttl.matches("owl:disjointWith").count();
    let result = apply_patches_to_text(ttl, &patches, true, &ns).expect("patch");
    let preview = result.preview_text.as_deref().unwrap_or(ttl);
    assert_eq!(before, preview.matches("owl:disjointWith").count());
}

fn org_ns() -> Namespaces {
    nsmap(&[
        ("ex", "http://example.org/org#"),
        ("owl", "http://www.w3.org/2002/07/owl#"),
        ("rdfs", "http://www.w3.org/2000/01/rdf-schema#"),
    ])
}

#[test]
fn add_property_chain_rejects_class_iris() {
    let ttl = DISJOINT_CLASSES_TTL;
    let ns = org_ns();
    let result = apply_patches_to_text(
        ttl,
        &[PatchOp::AddPropertyChain {
            entity_iri: "http://example.org/org#chases".to_string(),
            properties: vec![
                "http://example.org/org#Cat".to_string(),
                "http://example.org/org#Dog".to_string(),
            ],
        }],
        true,
        &ns,
    )
    .expect("patch result");
    assert!(!result.diagnostics.is_empty());
    assert!(result.diagnostics[0].message.contains("owl:Class"));
}

#[test]
fn url_shaped_annotation_value_is_literal_not_iri() {
    let ttl = r#"@prefix ex: <http://example.org/org#> .
@prefix owl: <http://www.w3.org/2002/07/owl#> .
@prefix skos: <http://www.w3.org/2004/02/skos/core#> .

ex:Cat a owl:Class .
"#;
    let mut ns = org_ns();
    ns.insert("skos", "http://www.w3.org/2004/02/skos/core#");
    let result = apply_patches_to_text(
        ttl,
        &[PatchOp::AddAnnotation {
            entity_iri: "http://example.org/org#Cat".to_string(),
            predicate: "skos:note".to_string(),
            value: "https://example.org/docs/guide".to_string(),
        }],
        true,
        &ns,
    )
    .expect("add url-shaped annotation");
    let preview = result.preview_text.expect("preview");
    assert!(
        preview.contains("skos:note \"https://example.org/docs/guide\""),
        "URL-shaped strings must be quoted literals: {preview}"
    );
    assert!(
        !preview.contains("skos:note <https://example.org/docs/guide>"),
        "must not write URL-shaped strings as IRI objects: {preview}"
    );
}

#[test]
fn bracketed_iri_annotation_value_is_object() {
    let ttl = r#"@prefix ex: <http://example.org/org#> .
@prefix owl: <http://www.w3.org/2002/07/owl#> .
@prefix skos: <http://www.w3.org/2004/02/skos/core#> .

ex:Cat a owl:Class .
"#;
    let mut ns = org_ns();
    ns.insert("skos", "http://www.w3.org/2004/02/skos/core#");
    let result = apply_patches_to_text(
        ttl,
        &[PatchOp::AddAnnotation {
            entity_iri: "http://example.org/org#Cat".to_string(),
            predicate: "skos:exactMatch".to_string(),
            value: "<https://example.org/other#Cat>".to_string(),
        }],
        true,
        &ns,
    )
    .expect("add bracketed IRI annotation");
    let preview = result.preview_text.expect("preview");
    assert!(
        preview.contains("skos:exactMatch <https://example.org/other#Cat>")
            || preview.contains("skos:exactMatch ex:"),
        "bracketed values should write as IRI objects: {preview}"
    );
    assert!(!preview.contains("skos:exactMatch \"<https://"));
}

#[test]
fn remove_url_shaped_literal_annotation() {
    let ttl = r#"@prefix ex: <http://example.org/org#> .
@prefix owl: <http://www.w3.org/2002/07/owl#> .
@prefix skos: <http://www.w3.org/2004/02/skos/core#> .

ex:Cat a owl:Class ;
    skos:note "https://example.org/docs/guide" .
"#;
    let mut ns = org_ns();
    ns.insert("skos", "http://www.w3.org/2004/02/skos/core#");
    let result = apply_patches_to_text(
        ttl,
        &[PatchOp::RemoveAnnotation {
            entity_iri: "http://example.org/org#Cat".to_string(),
            predicate: "skos:note".to_string(),
            value: "https://example.org/docs/guide".to_string(),
        }],
        true,
        &ns,
    )
    .expect("remove url-shaped literal");
    let preview = result.preview_text.expect("preview");
    assert!(!preview.contains("https://example.org/docs/guide"));
}

#[test]
fn adversarial_curie_annotation_predicate_is_rejected() {
    let ttl = r#"@prefix ex: <http://example.org/org#> .
@prefix owl: <http://www.w3.org/2002/07/owl#> .

ex:Cat a owl:Class .
"#;
    let evil = "x:y> a owl:Class . <http://ex.org/z";
    let result = apply_patches_to_text(
        ttl,
        &[PatchOp::AddAnnotation {
            entity_iri: "http://example.org/org#Cat".to_string(),
            predicate: evil.to_string(),
            value: "safe".to_string(),
        }],
        true,
        &org_ns(),
    )
    .expect("patch call succeeds with diagnostics");
    assert!(!result.diagnostics.is_empty());
    assert_eq!(result.preview_text.as_deref(), Some(ttl));
    assert!(!ttl.contains("owl:Class . <http://ex.org/z"));
    let preview = result.preview_text.as_deref().unwrap_or("");
    assert!(
        !preview.contains("a owl:Class . <http://ex.org/z"),
        "predicate breakout must not be written: {preview}"
    );
}

#[test]
fn adversarial_curie_ontology_annotation_predicate_is_rejected() {
    let ttl = r#"@prefix ex: <http://example.org/org#> .
@prefix owl: <http://www.w3.org/2002/07/owl#> .

<http://example.org/org> a owl:Ontology .
"#;
    let evil = "evil:x> ; owl:imports <http://evil>";
    let result = apply_patches_to_text(
        ttl,
        &[PatchOp::AddOntologyAnnotation {
            ontology_iri: "http://example.org/org".to_string(),
            predicate: evil.to_string(),
            value: "note".to_string(),
        }],
        true,
        &org_ns(),
    )
    .expect("patch call succeeds with diagnostics");
    assert!(!result.diagnostics.is_empty());
    assert_eq!(result.preview_text.as_deref(), Some(ttl));
    let preview = result.preview_text.as_deref().unwrap_or("");
    assert!(
        !preview.contains("owl:imports <http://evil>"),
        "ontology annotation breakout must not be written: {preview}"
    );
}

#[test]
fn full_iri_annotation_predicate_still_works() {
    let ttl = r#"@prefix ex: <http://example.org/org#> .
@prefix owl: <http://www.w3.org/2002/07/owl#> .
@prefix skos: <http://www.w3.org/2004/02/skos/core#> .

ex:Cat a owl:Class .
"#;
    let mut ns = org_ns();
    ns.insert("skos", "http://www.w3.org/2004/02/skos/core#");
    let result = apply_patches_to_text(
        ttl,
        &[PatchOp::AddAnnotation {
            entity_iri: "http://example.org/org#Cat".to_string(),
            predicate: "http://www.w3.org/2004/02/skos/core#definition".to_string(),
            value: "A feline animal".to_string(),
        }],
        true,
        &ns,
    )
    .expect("add full-IRI annotation predicate");
    let preview = result.preview_text.expect("preview");
    assert!(
        preview.contains("skos:definition \"A feline animal\"")
            || preview.contains(
                "<http://www.w3.org/2004/02/skos/core#definition> \"A feline animal\""
            ),
        "full IRI predicates must still write safely: {preview}"
    );
}

#[test]
fn add_prefix_after_existing_prefixes() {
    let ttl = "@prefix owl: <http://www.w3.org/2002/07/owl#> .\n\n<http://example.org/test> a owl:Ontology .\n";
    let result = apply_patches_to_text(
        ttl,
        &[PatchOp::AddPrefix {
            prefix: "ex".to_string(),
            namespace_iri: "http://example.org/test#".to_string(),
        }],
        true,
        &Namespaces::new(),
    )
    .expect("add prefix");
    let preview = result.preview_text.expect("preview");
    assert!(preview.starts_with(
        "@prefix owl: <http://www.w3.org/2002/07/owl#> .\n@prefix ex: <http://example.org/test#> .\n"
    ));
}

#[test]
fn set_ontology_iri_rewrites_angle_bracket_subject() {
    let ttl = r#"@prefix owl: <http://www.w3.org/2002/07/owl#> .

<http://example.org/old> a owl:Ontology .
"#;
    let result = apply_patches_to_text(
        ttl,
        &[PatchOp::SetOntologyIri { ontology_iri: "http://example.org/new".to_string() }],
        true,
        &Namespaces::new(),
    )
    .expect("set ontology iri");
    let preview = result.preview_text.expect("preview");
    assert!(preview.contains("<http://example.org/new> a owl:Ontology"));
    assert!(!preview.contains("<http://example.org/old>"));
    assert_eq!(preview.matches("a owl:Ontology").count(), 1);
}

#[test]
fn set_ontology_iri_rewrites_curie_subject_in_place() {
    let ttl = r#"@prefix ex: <http://example.org/> .
@prefix owl: <http://www.w3.org/2002/07/owl#> .

ex:ont a owl:Ontology .
"#;
    let result = apply_patches_to_text(
        ttl,
        &[PatchOp::SetOntologyIri { ontology_iri: "http://example.org/new".to_string() }],
        true,
        &nsmap(&[("ex", "http://example.org/")]),
    )
    .expect("set ontology iri");
    let preview = result.preview_text.expect("preview");
    assert!(
        preview.contains("<http://example.org/new> a owl:Ontology"),
        "expected rewritten subject: {preview}"
    );
    assert!(
        !preview.contains("ex:ont a owl:Ontology"),
        "original CURIE declaration must be replaced: {preview}"
    );
    assert_eq!(
        preview.matches("a owl:Ontology").count(),
        1,
        "must not append a second ontology declaration: {preview}"
    );
}

#[test]
fn set_ontology_iri_rewrites_curie_in_multiline_ontology_block() {
    let ttl = r#"@prefix ex: <http://example.org/> .
@prefix owl: <http://www.w3.org/2002/07/owl#> .

ex:ont a owl:Ontology ;
    owl:versionIRI <http://example.org/ont/1.0> .
"#;
    let result = apply_patches_to_text(
        ttl,
        &[PatchOp::SetOntologyIri { ontology_iri: "http://example.org/new".to_string() }],
        true,
        &nsmap(&[("ex", "http://example.org/")]),
    )
    .expect("set ontology iri");
    let preview = result.preview_text.expect("preview");
    assert!(preview.contains("<http://example.org/new> a owl:Ontology ;"));
    assert!(preview.contains("owl:versionIRI <http://example.org/ont/1.0>"));
    assert!(!preview.contains("ex:ont a owl:Ontology"));
    assert_eq!(preview.matches("a owl:Ontology").count(), 1);
}

#[test]
fn set_ontology_iri_appends_only_when_no_declaration() {
    let ttl = r#"@prefix ex: <http://example.org/> .
@prefix owl: <http://www.w3.org/2002/07/owl#> .

ex:Foo a owl:Class .
"#;
    let result = apply_patches_to_text(
        ttl,
        &[PatchOp::SetOntologyIri { ontology_iri: "http://example.org/new".to_string() }],
        true,
        &Namespaces::new(),
    )
    .expect("set ontology iri");
    let preview = result.preview_text.expect("preview");
    assert!(preview.contains("<http://example.org/new> a owl:Ontology ."));
    assert!(preview.contains("ex:Foo a owl:Class"));
    assert_eq!(preview.matches("a owl:Ontology").count(), 1);
}

#[test]
fn set_version_iri_replaces_existing() {
    let ttl = r#"@prefix owl: <http://www.w3.org/2002/07/owl#> .

<http://example.org/ont> a owl:Ontology ;
    owl:versionIRI <http://example.org/ont/1> .
"#;
    let result = apply_patches_to_text(
        ttl,
        &[PatchOp::SetVersionIri {
            ontology_iri: "http://example.org/ont".to_string(),
            version_iri: "http://example.org/ont/2".to_string(),
        }],
        true,
        &Namespaces::new(),
    )
    .expect("set version iri");
    let preview = result.preview_text.expect("preview");
    assert!(
        preview.contains("owl:versionIRI <http://example.org/ont/2>"),
        "expected new version IRI: {preview}"
    );
    assert!(
        !preview.contains("http://example.org/ont/1"),
        "old version IRI must be removed: {preview}"
    );
    assert_eq!(
        preview.matches("owl:versionIRI").count(),
        1,
        "must keep exactly one versionIRI: {preview}"
    );
}

#[test]
fn set_version_iri_repeated_does_not_accumulate() {
    let ttl = r#"@prefix owl: <http://www.w3.org/2002/07/owl#> .

<http://example.org/ont> a owl:Ontology .
"#;
    let first = apply_patches_to_text(
        ttl,
        &[PatchOp::SetVersionIri {
            ontology_iri: "http://example.org/ont".to_string(),
            version_iri: "http://example.org/ont/1".to_string(),
        }],
        true,
        &Namespaces::new(),
    )
    .expect("first set");
    let after_first = first.preview_text.expect("preview");
    let second = apply_patches_to_text(
        &after_first,
        &[PatchOp::SetVersionIri {
            ontology_iri: "http://example.org/ont".to_string(),
            version_iri: "http://example.org/ont/2".to_string(),
        }],
        true,
        &Namespaces::new(),
    )
    .expect("second set");
    let preview = second.preview_text.expect("preview");
    assert!(preview.contains("owl:versionIRI <http://example.org/ont/2>"));
    assert!(!preview.contains("http://example.org/ont/1"));
    assert_eq!(preview.matches("owl:versionIRI").count(), 1);
}

#[test]
fn remove_prefix_leaves_other_prefixes() {
    let ttl = "@prefix ex: <http://example.org/test#> .\n@prefix owl: <http://www.w3.org/2002/07/owl#> .\n\nex:Thing a owl:Class .\n";
    let result = apply_patches_to_text(
        ttl,
        &[PatchOp::RemovePrefix { prefix: "ex".to_string() }],
        true,
        &Namespaces::new(),
    )
    .expect("remove prefix");
    let preview = result.preview_text.expect("preview");
    assert!(!preview.contains("@prefix ex:"));
    assert!(preview.contains("@prefix owl:"));
    assert!(preview.contains("ex:Thing a owl:Class"));
}

#[test]
fn set_prefix_updates_uppercase_at_prefix_in_place() {
    let ttl = "@PREFIX ex: <http://old.example/> .\n@prefix owl: <http://www.w3.org/2002/07/owl#> .\n\nex:Thing a owl:Class .\n";
    let result = apply_patches_to_text(
        ttl,
        &[PatchOp::SetPrefix {
            prefix: "ex".to_string(),
            namespace_iri: "http://new.example/".to_string(),
        }],
        true,
        &Namespaces::new(),
    )
    .expect("set prefix");
    let preview = result.preview_text.expect("preview");
    assert!(preview.contains("@PREFIX ex: <http://new.example/> ."));
    assert!(!preview.contains("http://old.example/"));
    assert_eq!(preview.matches("ex:").count(), 2); // declaration + CURIE use
    assert!(!preview.contains("@prefix ex:"));
}

#[test]
fn set_prefix_updates_sparql_style_prefix_in_place() {
    let ttl = "PREFIX ex: <http://old.example/>\n@prefix owl: <http://www.w3.org/2002/07/owl#> .\n\nex:Thing a owl:Class .\n";
    let result = apply_patches_to_text(
        ttl,
        &[PatchOp::SetPrefix {
            prefix: "ex".to_string(),
            namespace_iri: "http://new.example/".to_string(),
        }],
        true,
        &Namespaces::new(),
    )
    .expect("set prefix");
    let preview = result.preview_text.expect("preview");
    assert!(preview.contains("PREFIX ex: <http://new.example/>"));
    assert!(!preview.contains("http://old.example/"));
    assert!(!preview.contains("@prefix ex:"));
}

#[test]
fn remove_prefix_recognizes_uppercase_and_sparql_forms() {
    let ttl = "@PREFIX ex: <http://example.org/test#> .\nPREFIX owl: <http://www.w3.org/2002/07/owl#>\n\nex:Thing a owl:Class .\n";
    let result = apply_patches_to_text(
        ttl,
        &[
            PatchOp::RemovePrefix { prefix: "ex".to_string() },
            PatchOp::RemovePrefix { prefix: "owl".to_string() },
        ],
        true,
        &Namespaces::new(),
    )
    .expect("remove prefixes");
    let preview = result.preview_text.expect("preview");
    assert!(!preview.contains("@PREFIX ex:"));
    assert!(!preview.contains("PREFIX owl:"));
    assert!(preview.contains("ex:Thing a owl:Class"));
}

#[test]
fn add_prefix_detects_duplicate_uppercase_declaration() {
    let ttl = "@PREFIX ex: <http://example.org/test#> .\n\nex:Thing a owl:Class .\n";
    let result = apply_patches_to_text(
        ttl,
        &[PatchOp::AddPrefix {
            prefix: "ex".to_string(),
            namespace_iri: "http://other.example/".to_string(),
        }],
        true,
        &Namespaces::new(),
    )
    .expect("apply returns diagnostics on validation failure");
    assert!(!result.applied);
    assert!(result
        .diagnostics
        .iter()
        .any(|d| d.message.contains("duplicate prefix already present: ex")));
}

#[test]
fn remove_label_matches_language_tagged_literal() {
    let ttl = r#"@prefix ex: <http://example.org/> .
@prefix rdfs: <http://www.w3.org/2000/01/rdf-schema#> .
@prefix owl: <http://www.w3.org/2002/07/owl#> .

ex:Foo a owl:Class ;
    rdfs:label "Person"@en .
"#;
    let ns = nsmap(&[
        ("ex", "http://example.org/"),
        ("owl", "http://www.w3.org/2002/07/owl#"),
        ("rdfs", "http://www.w3.org/2000/01/rdf-schema#"),
    ]);
    let result = apply_patches_to_text(
        ttl,
        &[PatchOp::RemoveLabel {
            entity_iri: "http://example.org/Foo".into(),
            value: "Person".into(),
        }],
        true,
        &ns,
    )
    .expect("remove lang-tagged label");
    let preview = result.preview_text.expect("preview");
    assert!(!preview.contains("rdfs:label"));
    assert!(!preview.contains("\"Person\"@en"));
}

#[test]
fn add_label_ignores_a_substring_inside_comment() {
    let ttl = r#"@prefix ex: <http://example.org/> .
@prefix rdfs: <http://www.w3.org/2000/01/rdf-schema#> .
@prefix owl: <http://www.w3.org/2002/07/owl#> .

ex:Foo rdfs:comment "was a prototype" .
ex:Foo a owl:Class .
"#;
    let ns = nsmap(&[
        ("ex", "http://example.org/"),
        ("owl", "http://www.w3.org/2002/07/owl#"),
        ("rdfs", "http://www.w3.org/2000/01/rdf-schema#"),
    ]);
    let result = apply_patches_to_text(
        ttl,
        &[PatchOp::AddLabel { entity_iri: "http://example.org/Foo".into(), value: "L".into() }],
        true,
        &ns,
    )
    .expect("add label");
    let preview = result.preview_text.expect("preview");
    let class_stmt = preview
        .lines()
        .find(|l| l.contains("a owl:Class") || l.contains("rdfs:label \"L\""))
        .map(str::to_string)
        .unwrap_or_default();
    assert!(
        preview.contains("ex:Foo a owl:Class") && preview.contains("rdfs:label \"L\""),
        "label must attach to type statement: {preview}"
    );
    assert!(
        !preview.contains("was a prototype\" ;\n    rdfs:label")
            && !preview.contains("\"was a prototype\" ;\n    rdfs:label"),
        "label must not insert into comment statement: {preview}\nclass-ish: {class_stmt}"
    );
    // Stronger: comment line must not gain a label predicate.
    for line in preview.lines() {
        if line.contains("was a prototype") {
            assert!(!line.contains("rdfs:label"), "comment line must stay label-free: {line}");
        }
    }
}

#[test]
fn remove_import_matches_angle_bracket_when_prefix_exists() {
    let ttl = r#"@prefix ex: <http://example.org/> .
@prefix owl: <http://www.w3.org/2002/07/owl#> .
<http://example.org/ont> a owl:Ontology ;
    owl:imports <http://example.org/other> .
"#;
    let ns = nsmap(&[
        ("ex", "http://example.org/"),
        ("owl", "http://www.w3.org/2002/07/owl#"),
    ]);
    let result = apply_patches_to_text(
        ttl,
        &[PatchOp::RemoveImport {
            ontology_iri: "http://example.org/ont".into(),
            import_iri: "http://example.org/other".into(),
        }],
        true,
        &ns,
    )
    .expect("remove import");
    let preview = result.preview_text.expect("preview");
    assert!(!preview.contains("owl:imports"));
}

#[test]
fn set_ontology_iri_rewrites_rdf_type_declaration() {
    let ttl = r#"@prefix owl: <http://www.w3.org/2002/07/owl#> .
@prefix rdf: <http://www.w3.org/1999/02/22-rdf-syntax-ns#> .
<http://example.org/old> rdf:type owl:Ontology .
"#;
    let result = apply_patches_to_text(
        ttl,
        &[PatchOp::SetOntologyIri { ontology_iri: "http://example.org/new".into() }],
        true,
        &Namespaces::new(),
    )
    .expect("set ontology iri");
    let preview = result.preview_text.expect("preview");
    assert!(
        preview.contains("<http://example.org/new> rdf:type owl:Ontology"),
        "expected in-place rewrite: {preview}"
    );
    assert!(!preview.contains("<http://example.org/old>"));
    assert_eq!(
        preview.matches("owl:Ontology").count(),
        1,
        "must not append a second ontology declaration: {preview}"
    );
}

#[test]
fn remove_data_property_assertion_matches_typed_literal() {
    let ttl = r#"@prefix ex: <http://example.org/> .
@prefix owl: <http://www.w3.org/2002/07/owl#> .
@prefix xsd: <http://www.w3.org/2001/XMLSchema#> .
ex:ind a owl:NamedIndividual ;
    ex:age "42"^^xsd:integer .
"#;
    let ns = nsmap(&[
        ("ex", "http://example.org/"),
        ("owl", "http://www.w3.org/2002/07/owl#"),
        ("xsd", "http://www.w3.org/2001/XMLSchema#"),
    ]);
    let result = apply_patches_to_text(
        ttl,
        &[PatchOp::RemoveDataPropertyAssertion {
            entity_iri: "http://example.org/ind".into(),
            property_iri: "http://example.org/age".into(),
            value: "42".into(),
        }],
        true,
        &ns,
    )
    .expect("remove typed data assertion");
    let preview = result.preview_text.expect("preview");
    assert!(!preview.contains("ex:age"));
    assert!(!preview.contains("\"42\""));
}

#[test]
fn set_functional_ignores_characteristic_text_inside_comment() {
    let ttl = r#"@prefix ex: <http://example.org/> .
@prefix owl: <http://www.w3.org/2002/07/owl#> .
@prefix rdfs: <http://www.w3.org/2000/01/rdf-schema#> .

ex:p a owl:ObjectProperty ;
    rdfs:comment "Not a owl:FunctionalProperty despite the wording" .
"#;
    let ns = nsmap(&[
        ("ex", "http://example.org/"),
        ("owl", "http://www.w3.org/2002/07/owl#"),
        ("rdfs", "http://www.w3.org/2000/01/rdf-schema#"),
    ]);
    let result = apply_patches_to_text(
        ttl,
        &[PatchOp::SetFunctional { entity_iri: "http://example.org/p".into(), value: true }],
        true,
        &ns,
    )
    .expect("set functional");
    let preview = result.preview_text.expect("preview");
    assert!(
        preview.contains("a owl:FunctionalProperty")
            || preview.contains("owl:FunctionalProperty ;")
            || preview.contains("owl:FunctionalProperty\n"),
        "must insert a real FunctionalProperty type: {preview}"
    );
    // Ensure the characteristic is not only inside the comment string.
    let without_comment = preview
        .lines()
        .filter(|l| !l.contains("despite the wording"))
        .collect::<Vec<_>>()
        .join("\n");
    assert!(
        without_comment.contains("owl:FunctionalProperty"),
        "FunctionalProperty must appear outside the comment: {preview}"
    );
}

#[test]
fn property_chain_does_not_false_positive_on_short_prefix_curie() {
    let ttl = r#"@prefix ex: <http://example.org/> .
@prefix owl: <http://www.w3.org/2002/07/owl#> .
ex:Bar a owl:Class .
<http://example.org/foo/Bar> a owl:ObjectProperty .
"#;
    let ns = nsmap(&[
        ("ex", "http://example.org/"),
        ("owl", "http://www.w3.org/2002/07/owl#"),
    ]);
    let result = apply_patches_to_text(
        ttl,
        &[PatchOp::AddPropertyChain {
            entity_iri: "http://example.org/foo/Bar".into(),
            properties: vec!["http://example.org/foo/Bar".into()],
        }],
        true,
        &ns,
    )
    .expect("property chain on absolute IRI ObjectProperty");
    assert!(
        result.diagnostics.is_empty(),
        "must not treat colliding short-name Class as the chain member: {:?}",
        result.diagnostics
    );
    let preview = result.preview_text.expect("preview");
    assert!(preview.contains("owl:propertyChainAxiom"));
}

#[test]
fn complex_subclass_uses_document_prefixes_when_caller_map_empty() {
    let ttl = r#"@prefix ex: <http://example.org/> .
@prefix owl: <http://www.w3.org/2002/07/owl#> .
@prefix rdfs: <http://www.w3.org/2000/01/rdf-schema#> .
ex:A a owl:Class .
ex:B a owl:Class .
ex:p a owl:ObjectProperty .
"#;
    let empty = Namespaces::new();
    let result = apply_patches_to_text(
        ttl,
        &[PatchOp::AddComplexSubClassOf {
            entity_iri: "http://example.org/A".into(),
            manchester: "ex:p some ex:B".into(),
        }],
        true,
        &empty,
    )
    .expect("patch");
    assert!(
        result.diagnostics.is_empty(),
        "document @prefix must resolve Manchester CURIEs: {:?}",
        result.diagnostics
    );
    let preview = result.preview_text.expect("preview");
    assert!(preview.contains("owl:someValuesFrom") || preview.contains("ex:B"));
}

#[test]
fn add_has_key_writes_rdf_list() {
    let ttl = r#"@prefix ex: <http://example.org/> .
@prefix owl: <http://www.w3.org/2002/07/owl#> .
ex:Person a owl:Class .
ex:hasSSN a owl:ObjectProperty .
ex:hasName a owl:DatatypeProperty .
"#;
    let ns = nsmap(&[
        ("ex", "http://example.org/"),
        ("owl", "http://www.w3.org/2002/07/owl#"),
    ]);
    let result = apply_patches_to_text(
        ttl,
        &[PatchOp::AddHasKey {
            class_iri: "http://example.org/Person".into(),
            properties: vec![
                "http://example.org/hasSSN".into(),
                "http://example.org/hasName".into(),
            ],
        }],
        true,
        &ns,
    )
    .expect("has key");
    let preview = result.preview_text.expect("preview");
    assert!(preview.contains("owl:hasKey"));
    assert!(preview.contains("( ex:hasSSN ex:hasName )") || preview.contains("ex:hasSSN"));
}

#[test]
fn add_and_remove_disjoint_union() {
    let ttl = r#"@prefix ex: <http://example.org/> .
@prefix owl: <http://www.w3.org/2002/07/owl#> .
ex:Color a owl:Class .
ex:Red a owl:Class .
ex:Blue a owl:Class .
"#;
    let ns = nsmap(&[
        ("ex", "http://example.org/"),
        ("owl", "http://www.w3.org/2002/07/owl#"),
    ]);
    let add = apply_patches_to_text(
        ttl,
        &[PatchOp::AddDisjointUnion {
            class_iri: "http://example.org/Color".into(),
            members: vec!["http://example.org/Red".into(), "http://example.org/Blue".into()],
        }],
        true,
        &ns,
    )
    .expect("add disjoint union");
    let preview = add.preview_text.expect("preview");
    assert!(preview.contains("owl:disjointUnionOf"));
    let removed = apply_patches_to_text(
        &preview,
        &[PatchOp::RemoveDisjointUnion {
            class_iri: "http://example.org/Color".into(),
            members: vec!["http://example.org/Red".into(), "http://example.org/Blue".into()],
        }],
        true,
        &ns,
    )
    .expect("remove disjoint union");
    let out = removed.preview_text.expect("preview");
    assert!(!out.contains("owl:disjointUnionOf"));
}

#[test]
fn add_inverse_object_properties() {
    let ttl = r#"@prefix ex: <http://example.org/> .
@prefix owl: <http://www.w3.org/2002/07/owl#> .
ex:hasChild a owl:ObjectProperty .
ex:hasParent a owl:ObjectProperty .
"#;
    let ns = nsmap(&[
        ("ex", "http://example.org/"),
        ("owl", "http://www.w3.org/2002/07/owl#"),
    ]);
    let result = apply_patches_to_text(
        ttl,
        &[PatchOp::AddInverseObjectProperties {
            property_iri: "http://example.org/hasChild".into(),
            inverse_iri: "http://example.org/hasParent".into(),
        }],
        true,
        &ns,
    )
    .expect("inverse");
    let preview = result.preview_text.expect("preview");
    assert!(preview.contains("owl:inverseOf") && preview.contains("ex:hasParent"));
}

#[test]
fn add_negative_object_property_assertion() {
    let ttl = r#"@prefix ex: <http://example.org/> .
@prefix owl: <http://www.w3.org/2002/07/owl#> .
@prefix rdf: <http://www.w3.org/1999/02/22-rdf-syntax-ns#> .
ex:alice a owl:NamedIndividual .
ex:bob a owl:NamedIndividual .
ex:knows a owl:ObjectProperty .
"#;
    let ns = nsmap(&[
        ("ex", "http://example.org/"),
        ("owl", "http://www.w3.org/2002/07/owl#"),
        ("rdf", "http://www.w3.org/1999/02/22-rdf-syntax-ns#"),
    ]);
    let result = apply_patches_to_text(
        ttl,
        &[PatchOp::AddNegativeObjectPropertyAssertion {
            entity_iri: "http://example.org/alice".into(),
            property_iri: "http://example.org/knows".into(),
            target_iri: "http://example.org/bob".into(),
        }],
        true,
        &ns,
    )
    .expect("nopa");
    let preview = result.preview_text.expect("preview");
    assert!(preview.contains("owl:NegativePropertyAssertion"));
    assert!(preview.contains("owl:sourceIndividual") && preview.contains("ex:alice"));
    assert!(preview.contains("owl:targetIndividual") && preview.contains("ex:bob"));
    let removed = apply_patches_to_text(
        &preview,
        &[PatchOp::RemoveNegativeObjectPropertyAssertion {
            entity_iri: "http://example.org/alice".into(),
            property_iri: "http://example.org/knows".into(),
            target_iri: "http://example.org/bob".into(),
        }],
        true,
        &ns,
    )
    .expect("remove nopa");
    let out = removed.preview_text.expect("preview");
    assert!(!out.contains("owl:NegativePropertyAssertion"));
}

#[test]
fn add_same_individual_pairwise() {
    let ttl = r#"@prefix ex: <http://example.org/> .
@prefix owl: <http://www.w3.org/2002/07/owl#> .
ex:a a owl:NamedIndividual .
ex:b a owl:NamedIndividual .
ex:c a owl:NamedIndividual .
"#;
    let ns = nsmap(&[
        ("ex", "http://example.org/"),
        ("owl", "http://www.w3.org/2002/07/owl#"),
    ]);
    let result = apply_patches_to_text(
        ttl,
        &[PatchOp::AddSameIndividual {
            individuals: vec![
                "http://example.org/a".into(),
                "http://example.org/b".into(),
                "http://example.org/c".into(),
            ],
        }],
        true,
        &ns,
    )
    .expect("same individual");
    let preview = result.preview_text.expect("preview");
    assert!(preview.contains("owl:sameAs"));
    assert!(preview.contains("ex:b") && preview.contains("ex:c"));
}

#[test]
fn add_different_individuals_writes_all_different() {
    let ttl = r#"@prefix ex: <http://example.org/> .
@prefix owl: <http://www.w3.org/2002/07/owl#> .
ex:a a owl:NamedIndividual .
ex:b a owl:NamedIndividual .
ex:c a owl:NamedIndividual .
"#;
    let ns = nsmap(&[
        ("ex", "http://example.org/"),
        ("owl", "http://www.w3.org/2002/07/owl#"),
    ]);
    let result = apply_patches_to_text(
        ttl,
        &[PatchOp::AddDifferentIndividuals {
            individuals: vec![
                "http://example.org/a".into(),
                "http://example.org/b".into(),
                "http://example.org/c".into(),
            ],
        }],
        true,
        &ns,
    )
    .expect("add different");
    let preview = result.preview_text.expect("preview");
    assert!(
        preview.contains("owl:AllDifferent") && preview.contains("owl:distinctMembers"),
        "must emit AllDifferent, got: {preview}"
    );
    assert!(
        preview.contains("ex:a") && preview.contains("ex:b") && preview.contains("ex:c"),
        "must list all members: {preview}"
    );
    // Non-adjacent pair A≠C must appear in the same list (not windows-only triples).
    assert!(
        !preview.contains("owl:differentFrom"),
        "should not emit chain-only differentFrom: {preview}"
    );
}

#[test]
fn remove_different_individuals_rewrites_all_different_fixture_style() {
    let ttl = r#"@prefix ex: <http://example.org/abox#> .
@prefix owl: <http://www.w3.org/2002/07/owl#> .
ex:alice a owl:NamedIndividual .
ex:bob a owl:NamedIndividual .
ex:carol a owl:NamedIndividual .
[] a owl:AllDifferent ;
    owl:distinctMembers ( ex:alice ex:bob ex:carol ) .
"#;
    let ns = nsmap(&[
        ("ex", "http://example.org/abox#"),
        ("owl", "http://www.w3.org/2002/07/owl#"),
    ]);
    // Inspector-style remove of one projected pair strips those members; carol alone → drop axiom.
    let removed = apply_patches_to_text(
        ttl,
        &[PatchOp::RemoveDifferentIndividuals {
            individuals: vec![
                "http://example.org/abox#alice".into(),
                "http://example.org/abox#bob".into(),
            ],
        }],
        true,
        &ns,
    )
    .expect("remove pair from AllDifferent");
    let out = removed.preview_text.expect("preview");
    assert!(
        !out.contains("owl:AllDifferent"),
        "AllDifferent must be gone after removing two of three members: {out}"
    );

    // Rewrite path: remove only carol from a fresh copy → alice+bob remain.
    let rewritten = apply_patches_to_text(
        ttl,
        &[PatchOp::RemoveDifferentIndividuals {
            individuals: vec![
                "http://example.org/abox#alice".into(),
                "http://example.org/abox#carol".into(),
            ],
        }],
        true,
        &ns,
    )
    .expect("rewrite AllDifferent");
    // alice+carol remove leaves bob alone → axiom dropped ( <2 members ).
    let out2 = rewritten.preview_text.expect("preview");
    assert!(!out2.contains("owl:AllDifferent"), "expected drop: {out2}");

    let four = r#"@prefix ex: <http://example.org/abox#> .
@prefix owl: <http://www.w3.org/2002/07/owl#> .
ex:alice a owl:NamedIndividual .
ex:bob a owl:NamedIndividual .
ex:carol a owl:NamedIndividual .
ex:dave a owl:NamedIndividual .
[] a owl:AllDifferent ;
    owl:distinctMembers ( ex:alice ex:bob ex:carol ex:dave ) .
"#;
    let keep = apply_patches_to_text(
        four,
        &[PatchOp::RemoveDifferentIndividuals {
            individuals: vec![
                "http://example.org/abox#alice".into(),
                "http://example.org/abox#bob".into(),
            ],
        }],
        true,
        &ns,
    )
    .expect("rewrite leave two");
    let out3 = keep.preview_text.expect("preview");
    assert!(
        out3.contains("owl:AllDifferent")
            && out3.contains("owl:distinctMembers ( ex:carol ex:dave )"),
        "must rewrite membership: {out3}"
    );
    assert!(
        !out3.contains("distinctMembers ( ex:alice") && !out3.contains("ex:alice ex:bob"),
        "removed members must leave the list: {out3}"
    );
}

#[test]
fn remove_different_individuals_fails_closed_on_unexpanded_curie() {
    let ttl = r#"@prefix ex: <http://example.org/> .
@prefix owl: <http://www.w3.org/2002/07/owl#> .
ex:a a owl:NamedIndividual .
ex:b a owl:NamedIndividual .
ex:d a owl:NamedIndividual .
[] a owl:AllDifferent ;
    owl:distinctMembers ( ex:a ex:b other:c ex:d ) .
"#;
    let ns = nsmap(&[
        ("ex", "http://example.org/"),
        ("owl", "http://www.w3.org/2002/07/owl#"),
    ]);
    let result = apply_patches_to_text(
        ttl,
        &[PatchOp::RemoveDifferentIndividuals {
            individuals: vec!["http://example.org/a".into(), "http://example.org/b".into()],
        }],
        true,
        &ns,
    )
    .expect("preview path returns ApplyPatchResult");
    assert!(!result.applied, "undeclared other:c must not apply: {:?}", result.diagnostics);
    assert!(
        result.diagnostics.iter().any(|d| {
            d.message.contains("cannot be expanded") || d.message.contains("other:c")
        }),
        "expected expansion diagnostic: {:?}",
        result.diagnostics
    );
    let preview = result.preview_text.unwrap_or_default();
    assert!(
        preview.contains("other:c") && preview.contains("owl:AllDifferent"),
        "must not drop unexpanded members: {preview}"
    );
}

#[test]
fn create_datatype_and_definition() {
    let ttl = r#"@prefix ex: <http://example.org/> .
@prefix owl: <http://www.w3.org/2002/07/owl#> .
@prefix rdfs: <http://www.w3.org/2000/01/rdf-schema#> .
@prefix xsd: <http://www.w3.org/2001/XMLSchema#> .
"#;
    let ns = nsmap(&[
        ("ex", "http://example.org/"),
        ("owl", "http://www.w3.org/2002/07/owl#"),
        ("rdfs", "http://www.w3.org/2000/01/rdf-schema#"),
        ("xsd", "http://www.w3.org/2001/XMLSchema#"),
    ]);
    let result = apply_patches_to_text(
        ttl,
        &[PatchOp::AddDatatypeDefinition {
            datatype_iri: "http://example.org/SSN".into(),
            manchester: "xsd:string".into(),
        }],
        true,
        &ns,
    )
    .expect("datatype def");
    let preview = result.preview_text.expect("preview");
    assert!(preview.contains("rdfs:Datatype") || preview.contains("ex:SSN"));
    assert!(preview.contains("owl:equivalentClass") && preview.contains("xsd:string"));
}

#[test]
fn add_axiom_annotation_owl_axiom_block() {
    let ttl = r#"@prefix ex: <http://example.org/> .
@prefix owl: <http://www.w3.org/2002/07/owl#> .
@prefix rdfs: <http://www.w3.org/2000/01/rdf-schema#> .
@prefix rdf: <http://www.w3.org/1999/02/22-rdf-syntax-ns#> .
ex:A a owl:Class ;
    rdfs:subClassOf ex:B .
ex:B a owl:Class .
"#;
    let ns = nsmap(&[
        ("ex", "http://example.org/"),
        ("owl", "http://www.w3.org/2002/07/owl#"),
        ("rdfs", "http://www.w3.org/2000/01/rdf-schema#"),
        ("rdf", "http://www.w3.org/1999/02/22-rdf-syntax-ns#"),
    ]);
    let result = apply_patches_to_text(
        ttl,
        &[PatchOp::AddAxiomAnnotation {
            axiom_op: "sub_class_of".into(),
            subject_iri: "http://example.org/A".into(),
            related_iri: Some("http://example.org/B".into()),
            predicate: "rdfs:comment".into(),
            value: "explained".into(),
        }],
        true,
        &ns,
    )
    .expect("axiom ann");
    let preview = result.preview_text.expect("preview");
    assert!(preview.contains("owl:Axiom"));
    assert!(preview.contains("owl:annotatedSource") && preview.contains("owl:annotatedTarget"));
    assert!(preview.contains("explained"));
}

#[test]
fn remove_has_key_matches_reversed_property_list() {
    // #351 — HasKey property order is a set for authoring UX.
    let ttl = r#"@prefix ex: <http://example.org/> .
@prefix owl: <http://www.w3.org/2002/07/owl#> .
ex:Person a owl:Class ;
    owl:hasKey ( ex:p2 ex:p1 ) .
ex:p1 a owl:ObjectProperty .
ex:p2 a owl:ObjectProperty .
"#;
    let ns = nsmap(&[
        ("ex", "http://example.org/"),
        ("owl", "http://www.w3.org/2002/07/owl#"),
    ]);
    let removed = apply_patches_to_text(
        ttl,
        &[PatchOp::RemoveHasKey {
            class_iri: "http://example.org/Person".into(),
            properties: vec!["http://example.org/p1".into(), "http://example.org/p2".into()],
        }],
        true,
        &ns,
    )
    .expect("remove reversed hasKey");
    let out = removed.preview_text.expect("preview");
    assert!(!out.contains("owl:hasKey"), "expected hasKey removed: {out}");
}

#[test]
fn add_disjoint_object_properties_emits_full_pairwise_closure() {
    // #394 — n-ary DisjointObjectProperties needs all pairs, not windows(2).
    let ttl = r#"@prefix ex: <http://example.org/> .
@prefix owl: <http://www.w3.org/2002/07/owl#> .
ex:p1 a owl:ObjectProperty .
ex:p2 a owl:ObjectProperty .
ex:p3 a owl:ObjectProperty .
"#;
    let ns = nsmap(&[
        ("ex", "http://example.org/"),
        ("owl", "http://www.w3.org/2002/07/owl#"),
    ]);
    let result = apply_patches_to_text(
        ttl,
        &[PatchOp::AddDisjointObjectProperties {
            properties: vec![
                "http://example.org/p1".into(),
                "http://example.org/p2".into(),
                "http://example.org/p3".into(),
            ],
        }],
        true,
        &ns,
    )
    .expect("add disjoint props");
    let preview = result.preview_text.expect("preview");
    // Full pairwise for 3 properties = 3 triples (p1-p2, p1-p3, p2-p3).
    let count = preview.matches("owl:propertyDisjointWith").count();
    assert_eq!(count, 3, "expected 3 pairwise disjoint triples, got {count}: {preview}");
}

#[test]
fn remove_axiom_annotation_exact_value_not_substring() {
    // #349 — "x" must not delete the "xy" axiom annotation block.
    let ttl = r#"@prefix ex: <http://example.org/> .
@prefix owl: <http://www.w3.org/2002/07/owl#> .
@prefix rdfs: <http://www.w3.org/2000/01/rdf-schema#> .
@prefix rdf: <http://www.w3.org/1999/02/22-rdf-syntax-ns#> .
ex:A a owl:Class ;
    rdfs:subClassOf ex:B .
ex:B a owl:Class .
[
    a owl:Axiom ;
    owl:annotatedSource ex:A ;
    owl:annotatedProperty rdfs:subClassOf ;
    owl:annotatedTarget ex:B ;
    rdfs:comment "xy"
] .
[
    a owl:Axiom ;
    owl:annotatedSource ex:A ;
    owl:annotatedProperty rdfs:subClassOf ;
    owl:annotatedTarget ex:B ;
    rdfs:comment "x"
] .
"#;
    let ns = nsmap(&[
        ("ex", "http://example.org/"),
        ("owl", "http://www.w3.org/2002/07/owl#"),
        ("rdfs", "http://www.w3.org/2000/01/rdf-schema#"),
        ("rdf", "http://www.w3.org/1999/02/22-rdf-syntax-ns#"),
    ]);
    let result = apply_patches_to_text(
        ttl,
        &[PatchOp::RemoveAxiomAnnotation {
            axiom_op: "sub_class_of".into(),
            subject_iri: "http://example.org/A".into(),
            related_iri: Some("http://example.org/B".into()),
            predicate: "rdfs:comment".into(),
            value: "x".into(),
        }],
        true,
        &ns,
    )
    .expect("remove exact x");
    assert!(result.diagnostics.is_empty(), "unexpected diagnostics: {:?}", result.diagnostics);
    let preview = result.preview_text.expect("preview should change");
    assert!(preview.contains("\"xy\""), "must keep xy block: {preview}");
    assert!(!preview.contains("rdfs:comment \"x\""), "must remove exact x: {preview}");
}
