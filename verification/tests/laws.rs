use std::cmp::Ordering;
use strixonomy::lifecycle::{activation_order, dependents_of, DiscoveredPlugin, LifecycleError};
use strixonomy::namespaces::Namespaces;
use strixonomy::patch::{apply_patches_to_text, PatchOp};
use strixonomy::render::{
    escape_manchester_rendering, expand_prefixed_iri, render_as_curie, split_iri,
    unescape_manchester_rendering,
};
use strixonomy::span::namespaces_for_text;
use strixonomy::sparql_update::is_sparql_update;
use strixonomy::util::cmp_annotation_property_iri;

fn plugin(id: &str, depends_on: &[&str]) -> DiscoveredPlugin {
    DiscoveredPlugin {
        id: id.to_string(),
        depends_on: depends_on.iter().map(|d| d.to_string()).collect(),
    }
}

const PEOPLE: &str = "@prefix ex: <http://example.org/people#> .\n\
@prefix owl: <http://www.w3.org/2002/07/owl#> .\n\
@prefix rdfs: <http://www.w3.org/2000/01/rdf-schema#> .\n\
\n\
ex:Person a owl:Class .\n";

fn people_ns() -> Namespaces {
    let mut ns = Namespaces::new();
    ns.insert("ex", "http://example.org/people#");
    ns.insert("owl", "http://www.w3.org/2002/07/owl#");
    ns.insert("rdfs", "http://www.w3.org/2000/01/rdf-schema#");
    ns
}

fn add_label(value: &str) -> PatchOp {
    PatchOp::AddLabel {
        entity_iri: "http://example.org/people#Person".to_string(),
        value: value.to_string(),
    }
}

#[test]
fn activation_order_places_every_plugin_after_its_dependencies() {
    let plugins = vec![
        plugin("report", &["graph", "lint"]),
        plugin("lint", &["core"]),
        plugin("graph", &["core"]),
        plugin("core", &[]),
    ];
    let order = activation_order(&plugins).expect("order");
    assert_eq!(order, vec!["core", "graph", "lint", "report"]);
    for p in &plugins {
        let at = order.iter().position(|x| *x == p.id).unwrap();
        for d in &p.depends_on {
            assert!(order.iter().position(|x| x == d).unwrap() < at);
        }
    }
}

#[test]
fn activation_order_rejects_self_dependency() {
    assert!(activation_order(&[plugin("a", &["a"])]).is_err());
}

#[test]
fn dependents_are_transitive_and_sorted() {
    let plugins = vec![
        plugin("core", &[]),
        plugin("lint", &["core"]),
        plugin("report", &["lint"]),
        plugin("other", &[]),
    ];
    assert_eq!(dependents_of(&plugins, "core"), vec!["lint", "report"]);
    assert_eq!(dependents_of(&plugins, "report"), Vec::<String>::new());
}

#[test]
fn escape_then_unescape_gives_back_the_text() {
    for s in ["", "Person", "has part", "a'b", "\\\"", "'quoted'", "x\\", "a\"b c", "[1, 2]"] {
        assert_eq!(unescape_manchester_rendering(&escape_manchester_rendering(s)), s);
    }
}

#[test]
fn split_iri_parts_rejoin() {
    for iri in ["http://example.org#Person", "http://example.org/obo/GO_1", "urn:x", "a/b#c/d"] {
        let (ns, local) = split_iri(iri);
        assert_eq!(format!("{ns}{local}"), iri);
    }
}

#[test]
fn annotation_order_is_antisymmetric_and_transitive() {
    let label = "http://www.w3.org/2000/01/rdf-schema#label";
    let comment = "http://www.w3.org/2000/01/rdf-schema#comment";
    let other = "http://example.org/zzz";
    assert_eq!(cmp_annotation_property_iri(label, comment), Ordering::Less);
    assert_eq!(cmp_annotation_property_iri(comment, label), Ordering::Greater);
    assert_eq!(cmp_annotation_property_iri(comment, other), Ordering::Less);
    assert_eq!(cmp_annotation_property_iri(label, other), Ordering::Less);
    assert_eq!(cmp_annotation_property_iri(other, other), Ordering::Equal);
    assert_eq!(cmp_annotation_property_iri("http://a/x", "http://a/y"), Ordering::Less);
}

#[test]
fn namespace_insert_then_get() {
    let mut ns = Namespaces::new();
    ns.insert("ex", "http://example.org/");
    ns.insert("owl", "http://www.w3.org/2002/07/owl#");
    ns.insert("ex", "http://example.com/");
    assert_eq!(ns.get("ex"), Some("http://example.com/".to_string()));
    assert_eq!(ns.get("owl"), Some("http://www.w3.org/2002/07/owl#".to_string()));
    assert_eq!(ns.get("rdfs"), None);
    assert_eq!(ns.len(), 2);
}

#[test]
fn preview_batch_is_never_applied_and_matches_application() {
    let ns = people_ns();
    let preview = apply_patches_to_text(PEOPLE, &[add_label("Human")], true, &ns).expect("preview");
    let applied = apply_patches_to_text(PEOPLE, &[add_label("Human")], false, &ns).expect("apply");
    assert!(!preview.applied);
    assert!(applied.applied);
    assert_eq!(preview.preview_text, applied.preview_text);
    assert!(preview.diagnostics.is_empty() && applied.diagnostics.is_empty());
    assert!(applied.document_path.is_none());
}

#[test]
fn failed_batch_reports_one_error_and_keeps_source() {
    let ns = people_ns();
    let bad = PatchOp::AddLabel {
        entity_iri: "http://example.org/people#Nobody".to_string(),
        value: "X".to_string(),
    };
    let r = apply_patches_to_text(PEOPLE, &[add_label("Human"), bad], false, &ns).expect("result");
    assert!(!r.applied);
    assert_eq!(r.preview_text.as_deref(), Some(PEOPLE));
    assert_eq!(r.diagnostics.len(), 1);
    assert_eq!(r.diagnostics[0].severity, "error");
}

#[test]
fn empty_batch_changes_nothing() {
    let r = apply_patches_to_text(PEOPLE, &[], false, &people_ns()).expect("result");
    assert!(!r.applied);
    assert!(r.preview_text.is_none());
    assert!(r.diagnostics.is_empty());
}

#[test]
fn batches_compose() {
    let ns = people_ns();
    let first = apply_patches_to_text(PEOPLE, &[add_label("Human")], true, &ns).expect("first");
    let mid = first.preview_text.expect("changed");
    let second = apply_patches_to_text(&mid, &[add_label("Person")], true, &ns).expect("second");
    let both =
        apply_patches_to_text(PEOPLE, &[add_label("Human"), add_label("Person")], true, &ns).expect("both");
    assert_eq!(second.preview_text, both.preview_text);
}

#[test]
fn sparql_update_verdict_ignores_case_and_leading_comments() {
    for q in [
        "insert data { <a> <b> <c> }",
        "prefix ex: <http://e/> select * where { ?s ?p ?o }",
        "with <g> delete { ?s ?p ?o } where { ?s ?p ?o }",
        "ask { ?s ?p ?o }",
    ] {
        let v = is_sparql_update(q);
        assert_eq!(is_sparql_update(&q.to_ascii_uppercase()), v);
        assert_eq!(is_sparql_update(&format!("  #note\n{q}")), v);
        assert_eq!(is_sparql_update(&format!("\n\t{q}")), v);
    }
}

#[test]
fn expanding_a_rendered_curie_gives_back_the_iri() {
    let mut ns = Namespaces::new();
    ns.insert("ex", "http://example.org/people#");
    let iri = "http://example.org/people#Person";
    let curie = render_as_curie(iri, &ns).expect("curie");
    let mut full = ns.duplicate();
    for (p, n) in [
        ("owl", "http://www.w3.org/2002/07/owl#"),
        ("rdfs", "http://www.w3.org/2000/01/rdf-schema#"),
        ("rdf", "http://www.w3.org/1999/02/22-rdf-syntax-ns#"),
        ("xsd", "http://www.w3.org/2001/XMLSchema#"),
    ] {
        if full.get(p).is_none() {
            full.insert(p, n);
        }
    }
    assert_eq!(expand_prefixed_iri(&curie, &full), Some(iri.to_string()));
    let thing = "http://www.w3.org/2002/07/owl#Thing";
    let c = render_as_curie(thing, &ns).unwrap();
    assert_eq!(expand_prefixed_iri(&c, &full), Some(thing.to_string()));
}

#[test]
fn text_prefixes_override_declared_ones() {
    let mut declared = Namespaces::new();
    declared.insert("ex", "http://old/#");
    declared.insert("keep", "http://keep/#");
    let ns = namespaces_for_text("@prefix ex: <http://new/#> .\n", &declared);
    assert_eq!(ns.get("ex"), Some("http://new/#".to_string()));
    assert_eq!(ns.get("keep"), Some("http://keep/#".to_string()));
}

#[test]
fn activation_errors_name_missing_dependency_and_cycle() {
    match activation_order(&[plugin("a", &["zz"])]) {
        Err(LifecycleError::MissingDependency(p, d)) => {
            assert_eq!(p, "a");
            assert_eq!(d, "zz");
        }
        other => panic!("unexpected: {:?}", other),
    }
    assert!(matches!(
        activation_order(&[plugin("a", &["b"]), plugin("b", &["a"])]),
        Err(LifecycleError::Cycle(_))
    ));
}

#[test]
fn extracted_links_do_not_overlap() {
    let links = strixonomy::links::extract_links("See DOI:10.1000/xyz and PMID:12345 then DOI:10.2/abc");
    assert!(links.len() >= 2);
    for w in links.windows(2) {
        assert!(w[0].end <= w[1].start);
    }
}

#[test]
fn extracted_links_lie_in_the_text() {
    let text = "Café — DOI:10.1000/xyz, ORCID:0000-0001 and Wikipedia:Owl";
    let links = strixonomy::links::extract_links(text);
    assert_eq!(links.len(), 3);
    let kinds = [
        "DOI", "PubMedId", "ORCID", "OMIMPS", "OMIM", "Orphanet", "ISBN-10",
        "WikipediaVersioned", "Wikipedia",
    ];
    for l in &links {
        assert!(l.start <= l.end && l.end <= text.len());
        assert_eq!(&text[l.start..l.end], l.matched_text);
        assert!(kinds.contains(&l.kind.as_str()));
    }
    assert_eq!(links[0].matched_text, "DOI:10.1000/xyz,");
}

#[test]
fn entity_statement_ranges_are_ordered_and_end_with_a_dot() {
    let text = "@prefix ex: <http://example.org/people#> .\nex:Emile ex:name \"Émile\" .\nex:Other a ex:Person .\n  ex:Emile ex:knows ex:Other ;\n    ex:age \"3.5\" .\n";
    let ns = people_ns();
    let iri = "http://example.org/people#Emile";
    let starts = strixonomy::span::all_subject_statements(text, iri, "Emile", &ns);
    let ranges = strixonomy::span::all_entity_statement_ranges(text, iri, "Emile", &ns);
    assert_eq!(starts.len(), 2);
    assert_eq!(ranges.len(), 2);
    for w in ranges.windows(2) {
        assert!(w[0].start < w[1].start);
    }
    for (r, s) in ranges.iter().zip(starts.iter()) {
        assert_eq!(r.start, s.start);
        assert_eq!(s.start, s.end);
        assert!(r.start < r.end && (r.end as usize) <= text.len());
        assert_eq!(text.as_bytes()[r.end as usize - 1], b'.');
    }
    assert_eq!(&text[ranges[0].start as usize..ranges[0].end as usize], "ex:Emile ex:name \"Émile\" .");
    assert_eq!(ranges[1].start as usize, text.find("  ex:Emile ex:knows").unwrap() + 2);
}

#[test]
fn adding_then_removing_a_swrl_rule_restores_the_text() {
    let ns = people_ns();
    let rule = "{ \"body\": [\"a\\tb\", \"q\\\"x\"], \"head\": [1.5, true] }";
    let added = apply_patches_to_text(
        PEOPLE,
        &[PatchOp::AddSwrlRule {
            ontology_iri: "http://example.org/people".to_string(),
            rule_json: rule.to_string(),
        }],
        true,
        &ns,
    )
    .expect("add")
    .preview_text
    .expect("changed");
    assert_ne!(added, PEOPLE);
    let removed = apply_patches_to_text(
        &added,
        &[PatchOp::RemoveSwrlRule {
            ontology_iri: "http://example.org/people".to_string(),
            rule_json: rule.to_string(),
        }],
        true,
        &ns,
    )
    .expect("remove")
    .preview_text
    .expect("changed");
    assert_eq!(removed, PEOPLE);
}
