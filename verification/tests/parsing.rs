use strixonomy::namespaces::Namespaces;
use strixonomy::parsing::{
    entity_kind_for_type, expand_annotation_predicate, expand_obo_curie, kind_priority, obo_id_to_iri,
    turtle_declared_prefixes, xmlns_declared_prefixes,
};
use strixonomy::validators::EntityKind;

#[test]
fn rdf_types_give_entity_kinds() {
    assert_eq!(entity_kind_for_type("http://www.w3.org/2002/07/owl#Class"), EntityKind::Class);
    assert_eq!(entity_kind_for_type("http://www.w3.org/2000/01/rdf-schema#Class"), EntityKind::Class);
    assert_eq!(entity_kind_for_type("http://www.w3.org/2002/07/owl#NamedIndividual"), EntityKind::Individual);
    assert_eq!(entity_kind_for_type("http://www.w3.org/2000/01/rdf-schema#Datatype"), EntityKind::Datatype);
    assert_eq!(entity_kind_for_type("http://example.org/Thing"), EntityKind::Other);
    assert!(kind_priority(EntityKind::Class) > kind_priority(EntityKind::Individual));
    assert!(kind_priority(EntityKind::Ontology) > kind_priority(EntityKind::Other));
    assert_eq!(kind_priority(EntityKind::Other), 0);
}

#[test]
fn obo_curies_expand() {
    assert_eq!(expand_obo_curie("hasExactSynonym"), "http://www.geneontology.org/formats/oboInOwl#hasExactSynonym");
    assert_eq!(expand_obo_curie("IAO_0000115"), "http://purl.obolibrary.org/obo/IAO_0000115");
    assert_eq!(expand_obo_curie("id"), "http://www.geneontology.org/formats/oboInOwl#id");
    assert_eq!(
        expand_annotation_predicate("obo:IAO_0000115").as_deref(),
        Some("http://purl.obolibrary.org/obo/IAO_0000115")
    );
    assert_eq!(
        expand_annotation_predicate("http://example.org/p").as_deref(),
        Some("http://example.org/p")
    );
    assert_eq!(expand_annotation_predicate("dc:creator"), None);
    assert_eq!(expand_annotation_predicate("plain"), None);
}

#[test]
fn idspace_overrides_default_base() {
    let mut ns = Namespaces::new();
    ns.insert("GO", "http://purl.obolibrary.org/obo/GO_");
    assert_eq!(obo_id_to_iri("GO:0000001", &ns), "http://purl.obolibrary.org/obo/GO_0000001");
}

#[test]
fn idspace_standard_obo_foundry_base_normalizes_colon_to_underscore() {
    let mut ns = Namespaces::new();
    ns.insert("GO", "http://purl.obolibrary.org/obo/");
    assert_eq!(obo_id_to_iri("GO:0000001", &ns), "http://purl.obolibrary.org/obo/GO_0000001");
    assert_eq!(obo_id_to_iri("GO:0000002", &ns), "http://purl.obolibrary.org/obo/GO_0000002");
}

#[test]
fn obo_ids_without_idspace_use_the_default_base() {
    let ns = Namespaces::new();
    assert_eq!(obo_id_to_iri("CL:0000001", &ns), "http://purl.obolibrary.org/obo/CL_0000001");
    assert_eq!(obo_id_to_iri("https://x.org/a", &ns), "https://x.org/a");
}

#[test]
fn turtle_declared_prefixes_of_a_small_ontology() {
    let ttl = format!(
        "{}\n",
        r#"@prefix ex: <http://example.org/test#> .
@prefix owl: <http://www.w3.org/2002/07/owl#> .

<http://example.org/test> a owl:Ontology .
ex:Person a owl:Class .
"#
    );
    let ns = turtle_declared_prefixes(&ttl);
    assert_eq!(ns.get("ex"), Some("http://example.org/test#".to_string()));
}

#[test]
fn turtle_prefix_forms_and_redeclarations() {
    let ttl = "@prefix ex: <http://example.org/people#> .\n  PREFIX owl: <http://www.w3.org/2002/07/owl#>\n@PREFIX : <http://example.org/org#> .\nex:A a owl:Class .\n@prefix ex: <http://example.org/v2#> .\n";
    let ns = turtle_declared_prefixes(ttl);
    assert_eq!(ns.get("ex"), Some("http://example.org/v2#".to_string()));
    assert_eq!(ns.get("owl"), Some("http://www.w3.org/2002/07/owl#".to_string()));
    assert_eq!(ns.get(""), Some("http://example.org/org#".to_string()));
    assert_eq!(ns.len(), 3);
}

#[test]
fn extracts_xmlns_declarations() {
    let xml = r#"<rdf:RDF xmlns="http://example.org/base#" xmlns:rdf="http://www.w3.org/1999/02/22-rdf-syntax-ns#" xmlns:owl="http://www.w3.org/2002/07/owl#" xmlns:e="">"#;
    let ns = xmlns_declared_prefixes(xml);
    assert_eq!(ns.get(""), Some("http://example.org/base#".to_string()));
    assert_eq!(ns.get("rdf"), Some("http://www.w3.org/1999/02/22-rdf-syntax-ns#".to_string()));
    assert_eq!(ns.get("owl"), Some("http://www.w3.org/2002/07/owl#".to_string()));
    assert_eq!(ns.get("e"), None);
}

#[test]
fn parse_error_location_reads_line_and_column() {
    let loc = strixonomy::parsing::extract_parse_error_location("error at line 12 column 7: unexpected token")
        .expect("location");
    assert_eq!(loc.line, Some(12));
    assert_eq!(loc.column, Some(7));
    assert_eq!(loc.start_byte, None);
    let loc = strixonomy::parsing::extract_parse_error_location("Parse error on LINE 3: bad; col +4:").expect("location");
    assert_eq!(loc.line, Some(3));
    assert_eq!(loc.column, Some(4));
    let loc = strixonomy::parsing::extract_parse_error_location("line x line 9").expect("location");
    assert_eq!(loc.line, Some(9));
    assert_eq!(loc.column, None);
    assert!(strixonomy::parsing::extract_parse_error_location("no position given").is_none());
    assert!(strixonomy::parsing::extract_parse_error_location("line 99999999999999999999").is_none());
}
