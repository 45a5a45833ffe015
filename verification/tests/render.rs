use strixonomy::namespaces::Namespaces;
use strixonomy::render::{
    escape_manchester_rendering, expand_prefixed_iri, match_prefix, render_as_curie, render_entity_iri,
    split_iri,
    unescape_manchester_rendering,
};

const OWL_NS: &str = "http://www.w3.org/2002/07/owl#";

fn ns() -> Namespaces {
    let mut n = Namespaces::new();
    n.insert("ex", "http://example.org/#");
    n.insert("owl", OWL_NS);
    n
}

#[test]
fn split_hash_and_slash() {
    assert_eq!(
        split_iri("http://example.org#Person"),
        ("http://example.org#".into(), "Person".into())
    );
    assert_eq!(
        split_iri("http://example.org/obo/GO_1"),
        ("http://example.org/obo/".into(), "GO_1".into())
    );
}

#[test]
fn render_curie_and_builtin() {
    assert_eq!(render_entity_iri("http://example.org/#Person", &ns()), "ex:Person");
    assert_eq!(
        render_entity_iri("http://www.w3.org/2002/07/owl#Thing", &Namespaces::new()),
        "owl:Thing"
    );
}

#[test]
fn expand_and_match_prefix() {
    let namespaces = ns();
    assert_eq!(
        expand_prefixed_iri("ex:Person", &namespaces).as_deref(),
        Some("http://example.org/#Person")
    );
    let (p, base) = match_prefix("http://example.org/#Person", &namespaces).unwrap();
    assert_eq!(p, "ex");
    assert_eq!(base, "http://example.org/#");
}

#[test]
fn manchester_escape_roundtrip() {
    assert_eq!(escape_manchester_rendering("Person"), "Person");
    assert_eq!(escape_manchester_rendering("has part"), "'has part'");
    assert_eq!(unescape_manchester_rendering(&escape_manchester_rendering("a'b")), "a'b");
}

#[test]
fn builtin_prefix_wins_tie_with_workspace_prefix() {
    let mut ns = Namespaces::new();
    ns.insert("a", "http://www.w3.org/2002/07/owl#");
    assert_eq!(
        render_as_curie("http://www.w3.org/2002/07/owl#Thing", &ns),
        Some("owl:Thing".to_string())
    );
    assert_eq!(render_entity_iri("http://www.w3.org/2002/07/owl#Thing", &ns), "owl:Thing");
    let mut longer = Namespaces::new();
    longer.insert("t", "http://www.w3.org/2002/07/owl#Th");
    assert_eq!(
        render_as_curie("http://www.w3.org/2002/07/owl#Thing", &longer),
        Some("t:ing".to_string())
    );
    let mut overridden = Namespaces::new();
    overridden.insert("owl", "http://example.org/other#");
    overridden.insert("b", "http://www.w3.org/2002/07/owl#");
    assert_eq!(
        render_as_curie("http://www.w3.org/2002/07/owl#Thing", &overridden),
        Some("b:Thing".to_string())
    );
}
