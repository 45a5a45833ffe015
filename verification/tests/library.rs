use strixonomy::compare::{compare_bridges, BridgeSnapshot, SemanticDiff};
use strixonomy::error::OwlError;
use strixonomy::lexical::{lexical_literal, replace_lexical_value, replace_lexical_value_whole};
use strixonomy::lifecycle::LifecycleError;
use strixonomy::links::{extract_first_link_url, extract_links, extract_with_pattern};
use strixonomy::manchester::parse_class_expression;
use strixonomy::namespaces::Namespaces;
use strixonomy::parse::ParseError;
use strixonomy::patch::{apply_patches_to_text, PatchEntityKind, PatchOp};
use strixonomy::plugin::{
    append_capped, summarize_stdio, NamingValidatorPlugin, PluginDiscoveryError,
    PluginHostError, ShaclValidatorPlugin, SubprocessError,
};
use strixonomy::vocab::{Rdf, Rdfs, OWL};

const ONTOLOGY: &str = "@prefix owl: <http://www.w3.org/2002/07/owl#> .\n\
\n\
<http://example.org/people> a owl:Ontology .\n";

fn owl_ns() -> Namespaces {
    let mut ns = Namespaces::new();
    ns.insert("owl", "http://www.w3.org/2002/07/owl#");
    ns
}

#[test]
fn custom_pattern_link_is_the_first_match() {
    let link = extract_with_pattern("Ticket", r"T-(\d+)", "https://t.example/$1", "see T-7 and T-8").unwrap();
    assert_eq!(link.kind, "Ticket");
    assert_eq!(link.matched_text, "T-7");
    assert_eq!(link.url, "https://t.example/7");
    assert_eq!((link.start, link.end), (4, 7));
}

#[test]
fn custom_pattern_without_match_or_invalid_gives_none() {
    assert!(extract_with_pattern("Ticket", r"T-(\d+)", "$1", "nothing here").is_none());
    assert!(extract_with_pattern("Broken", r"(unclosed", "$1", "(unclosed").is_none());
}

#[test]
fn link_offsets_are_bytes() {
    let links = extract_links("é ORCID: 0000-0001");
    assert_eq!(links.len(), 1);
    assert_eq!(links[0].start, 3);
    assert_eq!(links[0].url, "https://orcid.org/0000-0001");
    assert_eq!(extract_first_link_url("nothing"), None);
}

#[test]
fn lexical_replacement_uses_capture_groups_and_keeps_datatype() {
    let lit = replace_lexical_value(
        "Jane Doe",
        None,
        Some("http://www.w3.org/2001/XMLSchema#string"),
        r"(\w+) (\w+)",
        "$2, $1",
    )
    .unwrap();
    assert_eq!(lit.lexical, "Doe, Jane");
    assert!(lit.lang.is_none());
    assert_eq!(lit.datatype.as_deref(), Some("http://www.w3.org/2001/XMLSchema#string"));
}

#[test]
fn lexical_replacement_drops_datatype_when_tagged() {
    let lit = lexical_literal("x", Some("fr"), Some("http://www.w3.org/2001/XMLSchema#string"));
    assert_eq!(lit.lang.as_deref(), Some("fr"));
    assert!(lit.datatype.is_none());
    assert!(replace_lexical_value("x", None, None, "(", "y").is_none());
}

#[test]
fn whole_lexical_replacement() {
    let lit = replace_lexical_value_whole("old\ntext", Some("en"), None, "new").unwrap();
    assert_eq!(lit.lexical, "new");
    assert_eq!(lit.lang.as_deref(), Some("en"));
}

#[test]
fn summary_replaces_invalid_utf8() {
    assert_eq!(summarize_stdio(&[0xff, b'o', b'k']), "\u{fffd}ok");
    assert_eq!(summarize_stdio(b"   "), "");
}

#[test]
fn append_capped_appends_or_refuses() {
    let mut buf = vec![1u8, 2];
    assert!(append_capped(&mut buf, &[3, 4, 5], 2, 4).is_ok());
    assert_eq!(buf, vec![1, 2, 3, 4]);
    assert_eq!(append_capped(&mut buf, &[6], 1, 4), Err(SubprocessError::OutputTooLarge(4)));
    assert_eq!(buf, vec![1, 2, 3, 4]);
}

#[test]
fn swrl_rule_is_stored_as_compact_json() {
    let r = apply_patches_to_text(
        ONTOLOGY,
        &[PatchOp::AddSwrlRule {
            ontology_iri: "http://example.org/people".to_string(),
            rule_json: "{ \"head\" : [ 1 ] }".to_string(),
        }],
        true,
        &owl_ns(),
    )
    .expect("patch");
    let preview = r.preview_text.expect("changed");
    assert!(preview.contains(
        "<http://example.org/people> <http://ontocode.dev/ns#swrlRule> \"{\\\"head\\\":[1]}\"^^<http://www.w3.org/2001/XMLSchema#string> ."
    ));
}

#[test]
fn swrl_rule_with_invalid_json_is_refused() {
    let r = apply_patches_to_text(
        ONTOLOGY,
        &[PatchOp::AddSwrlRule {
            ontology_iri: "http://example.org/people".to_string(),
            rule_json: "{ not json".to_string(),
        }],
        true,
        &owl_ns(),
    )
    .expect("patch");
    assert!(!r.applied);
    assert!(r.diagnostics[0].message.starts_with("patch validation failed: invalid SWRL rule JSON: "));
}

#[test]
fn swrl_rule_removal_compares_json_values() {
    let added = apply_patches_to_text(
        ONTOLOGY,
        &[PatchOp::AddSwrlRule {
            ontology_iri: "http://example.org/people".to_string(),
            rule_json: "{\"head\":[1]}".to_string(),
        }],
        true,
        &owl_ns(),
    )
    .expect("add")
    .preview_text
    .expect("changed");
    let removed = apply_patches_to_text(
        &added,
        &[PatchOp::RemoveSwrlRule {
            ontology_iri: "http://example.org/people".to_string(),
            rule_json: "{ \"head\": [ 1 ] }".to_string(),
        }],
        true,
        &owl_ns(),
    )
    .expect("remove");
    let text = removed.preview_text.expect("changed");
    assert!(!text.contains("swrlRule"));
}

#[test]
fn unsafe_iri_error_quotes_the_iri_as_debug_text() {
    let r = apply_patches_to_text(
        ONTOLOGY,
        &[PatchOp::CreateEntity { entity_iri: "http://e/x\ny".to_string(), kind: PatchEntityKind::Class }],
        true,
        &owl_ns(),
    )
    .expect("patch");
    assert!(r.diagnostics[0].message.contains("\"http://e/x\\ny\""));
}

#[test]
fn manchester_names_may_use_unicode_letters() {
    let mut ns = Namespaces::new();
    ns.insert("ex", "http://example.org/");
    let out = parse_class_expression("ex:Größe and ex:Ωmega", &ns).expect("parse");
    assert!(out.normalized.contains("ex:Größe"));
    assert!(out.normalized.contains("ex:Ωmega"));
}

#[test]
fn owl_error_messages() {
    assert_eq!(OwlError::PatchInvalid("x".into()).message(), "patch validation failed: x");
    assert_eq!(OwlError::EntityNotFound("e".into()).message(), "entity not found: e");
    assert_eq!(OwlError::EntityExists("e".into()).message(), "entity already exists: e");
    assert_eq!(OwlError::UnsupportedFormat("f".into()).message(), "unsupported format for write-back: f");
    assert_eq!(OwlError::LoadFailed("l".into()).message(), "Horned-OWL load failed: l");
    assert_eq!(OwlError::SerializeFailed("s".into()).message(), "Horned-OWL serialize failed: s");
    assert_eq!(OwlError::Io("denied".into()).message(), "IO error: denied");
    assert_eq!(OwlError::Store("s".into()).message(), "store error: s");
    assert_eq!(OwlError::ManchesterInvalid("m".into()).message(), "invalid Manchester expression: m");
}

#[test]
fn plugin_error_messages() {
    assert_eq!(
        LifecycleError::MissingDependency("b".into(), "a".into()).message(),
        "plugin b depends on missing plugin a"
    );
    assert_eq!(LifecycleError::Cycle("a, b".into()).message(), "plugin dependency cycle involving: a, b");
    assert_eq!(SubprocessError::TimedOut(5).message(), "plugin subprocess timed out after 5s");
    assert_eq!(SubprocessError::OutputTooLarge(32).message(), "plugin subprocess output exceeded 32 bytes");
    assert_eq!(SubprocessError::NotFound("p".into()).message(), "plugin binary not found: p");
    assert_eq!(
        SubprocessError::PathNotAllowed("p".into()).message(),
        "plugin binary path is not allowed: p"
    );
    assert_eq!(SubprocessError::RunFailed("r".into()).message(), "plugin subprocess failed: r");
    assert_eq!(SubprocessError::InvalidOutput("o".into()).message(), "plugin output is not valid JSON: o");
    assert_eq!(
        PluginDiscoveryError::Io { path: "/p".into(), source: "denied".into() }.message(),
        "IO error reading /p: denied"
    );
    assert_eq!(
        PluginDiscoveryError::InvalidManifest { path: "/m".into(), message: "bad".into() }.message(),
        "invalid manifest /m: bad"
    );
    assert_eq!(
        PluginHostError::Lifecycle(LifecycleError::Cycle("x".into())).message(),
        "plugin dependency cycle involving: x"
    );
    assert_eq!(PluginHostError::NotFound("x".into()).message(), "plugin not found: x");
    assert_eq!(PluginHostError::Disabled("x".into()).message(), "plugin is disabled: x");
    assert_eq!(PluginHostError::NotActive("x".into()).message(), "plugin is not active: x");
    assert_eq!(
        PluginHostError::MissingPermission("x".into(), "net".into()).message(),
        "plugin x is missing required permission: net"
    );
    assert_eq!(
        PluginHostError::UnsupportedAction("x".into(), "run".into()).message(),
        "plugin x does not support action run"
    );
    assert_eq!(PluginHostError::Export("e".into()).message(), "export failed: e");
    assert_eq!(
        PluginHostError::Subprocess(SubprocessError::TimedOut(1)).message(),
        "plugin subprocess timed out after 1s"
    );
}

#[test]
fn parse_error_messages() {
    assert_eq!(ParseError::Io("gone".into()).message(), "IO error: gone");
    assert_eq!(ParseError::Rdf("bad".into()).message(), "RDF parse error: bad");
    assert_eq!(ParseError::UnsupportedFormat("x".into()).message(), "unsupported format: x");
    assert_eq!(ParseError::LimitExceeded("big".into()).message(), "limit exceeded: big");
    assert_eq!(ParseError::InvalidUtf8("u".into()).message(), "invalid UTF-8: u");
}

#[test]
fn vocabulary_iris() {
    assert_eq!(OWL::class(), "http://www.w3.org/2002/07/owl#Class");
    assert_eq!(OWL::same_as(), "http://www.w3.org/2002/07/owl#sameAs");
    assert_eq!(Rdfs::sub_class_of(), "http://www.w3.org/2000/01/rdf-schema#subClassOf");
    assert_eq!(Rdfs::class(), "http://www.w3.org/2000/01/rdf-schema#Class");
    assert_eq!(Rdf::type_(), "http://www.w3.org/1999/02/22-rdf-syntax-ns#type");
}

#[test]
fn semantic_diff_emptiness() {
    let mut diff = SemanticDiff::default();
    assert!(diff.is_empty());
    diff.ontology_iri_mismatch = Some((None, Some("http://x".into())));
    assert!(!diff.is_empty());
    let other = SemanticDiff { extra_entities: vec!["http://y".into()], ..SemanticDiff::default() };
    assert!(!other.is_empty());
}

#[test]
fn shacl_shapes_directory_joins_the_workspace() {
    assert_eq!(ShaclValidatorPlugin::new("/ws", None).shapes_dir, "/ws/shapes");
    assert_eq!(ShaclValidatorPlugin::new("/ws/", Some("rules")).shapes_dir, "/ws/rules");
    assert_eq!(ShaclValidatorPlugin::new("/ws", Some("/etc/shapes")).shapes_dir, "/etc/shapes");
    assert_eq!(ShaclValidatorPlugin::new("", Some("s")).shapes_dir, "s");
}

#[test]
fn naming_validator_settings() {
    let d = NamingValidatorPlugin::default();
    assert!(d.require_label);
    assert!(d.iri_prefix.is_none());
    let c = NamingValidatorPlugin::from_config(false, Some("http://ex/".into()));
    assert!(!c.require_label);
    assert_eq!(c.iri_prefix.as_deref(), Some("http://ex/"));
}

use strixonomy::validators::{is_shape_file, CatalogEntity, DiagnosticSeverity, EntityKind};

fn entity(iri: &str, kind: EntityKind, labels: &[&str]) -> CatalogEntity {
    CatalogEntity {
        iri: iri.to_string(),
        kind,
        labels: labels.iter().map(|l| l.to_string()).collect(),
        file: "/ws/test.ttl".to_string(),
    }
}

#[test]
fn flags_class_without_label() {
    let plugin = NamingValidatorPlugin::default();
    let diags = plugin.validate(&[entity("http://example.org/A", EntityKind::Class, &[])]);
    assert!(!diags.is_empty());
    assert!(diags.iter().any(|d| d.code == "missing_label"));
    assert_eq!(diags[0].message, "Entity 'http://example.org/A' has no rdfs:label");
    assert_eq!(diags[0].severity, DiagnosticSeverity::Warning);
    assert_eq!(diags[0].file, "/ws/test.ttl");
    assert_eq!(diags[0].entity_iri.as_deref(), Some("http://example.org/A"));
}

#[test]
fn naming_validator_checks_kinds_labels_and_prefix() {
    let plugin = NamingValidatorPlugin::from_config(true, Some("http://example.org/".into()));
    let diags = plugin.validate(&[
        entity("http://example.org/A", EntityKind::Class, &["A"]),
        entity("http://example.org/T", EntityKind::Datatype, &[]),
        entity("http://other.org/p", EntityKind::ObjectProperty, &[]),
    ]);
    let codes: Vec<_> = diags.iter().map(|d| d.code.as_str()).collect();
    assert_eq!(codes, vec!["missing_label", "iri_prefix"]);
    assert_eq!(
        diags[1].message,
        "Entity IRI 'http://other.org/p' does not start with required prefix 'http://example.org/'"
    );
    let relaxed = NamingValidatorPlugin::from_config(false, None);
    assert!(relaxed.validate(&[entity("http://x/y", EntityKind::Class, &[])]).is_empty());
}

#[test]
fn shape_files_by_extension() {
    assert!(is_shape_file("shapes.ttl"));
    assert!(is_shape_file("a.b.shacl"));
    assert!(is_shape_file("x.rdf"));
    assert!(!is_shape_file(".ttl"));
    assert!(!is_shape_file("ttl"));
    assert!(!is_shape_file("shapes.ttl.bak"));
}

#[test]
fn shacl_validator_reports_the_shapes_directory() {
    let plugin = ShaclValidatorPlugin::new("/ws", None);
    let missing = plugin.validate("/ws", false, 0);
    assert_eq!(missing.len(), 1);
    assert_eq!(missing[0].code, "shapes_missing");
    assert_eq!(
        missing[0].message,
        "SHACL shapes directory '/ws/shapes' not found; add .ttl shape files to enable validation"
    );
    assert_eq!(plugin.validate("/ws", true, 0)[0].message, "No SHACL shape files in '/ws/shapes'");
    let found = plugin.validate("/ws", true, 3);
    assert_eq!(found[0].code, "shacl_pending");
    assert_eq!(
        found[0].message,
        "Found 3 SHACL shape file(s); full rudof validation ships in a future release"
    );
    assert_eq!(found[0].severity, DiagnosticSeverity::Info);
    assert_eq!(found[0].plugin_id, "strixonomy.shacl-validator");
}

fn snapshot(base: Option<&str>, entities: &[(&str, &[&str])], parents: &[(&str, &str)], imports: &[&str]) -> BridgeSnapshot {
    BridgeSnapshot {
        base_iri: base.map(|b| b.to_string()),
        entities: entities
            .iter()
            .map(|(i, ls)| (i.to_string(), ls.iter().map(|l| l.to_string()).collect()))
            .collect(),
        sub_class_of: parents.iter().map(|(a, b)| (a.to_string(), b.to_string())).collect(),
        imports: imports.iter().map(|i| i.to_string()).collect(),
    }
}

#[test]
fn compare_bridges_reports_each_facet() {
    let left = snapshot(
        Some("http://o/1"),
        &[("http://e/B", &["b"]), ("http://e/A", &["a", "x"]), ("http://e/C", &["c"])],
        &[("http://e/A", "http://e/B"), ("http://e/C", "http://e/B")],
        &["http://imp/1", "http://imp/2"],
    );
    let right = snapshot(
        Some("http://o/2"),
        &[("http://e/A", &["x", "a"]), ("http://e/C", &["other"]), ("http://e/D", &[])],
        &[("http://e/A", "http://e/B"), ("http://e/D", "http://e/C")],
        &["http://imp/2", "http://imp/3"],
    );
    let d = compare_bridges(&left, &right);
    assert_eq!(d.missing_entities, vec!["http://e/B".to_string()]);
    assert_eq!(d.extra_entities, vec!["http://e/D".to_string()]);
    assert_eq!(d.label_mismatches, vec!["http://e/C".to_string()]);
    assert_eq!(d.parent_mismatches, vec!["http://e/C".to_string(), "http://e/D".to_string()]);
    assert_eq!(d.import_mismatches, vec!["http://imp/1".to_string(), "http://imp/3".to_string()]);
    assert_eq!(
        d.ontology_iri_mismatch,
        Some((Some("http://o/1".to_string()), Some("http://o/2".to_string())))
    );
    assert!(!d.is_empty());
    let back = compare_bridges(&right, &left);
    assert_eq!(back.missing_entities, d.extra_entities);
    assert_eq!(back.extra_entities, d.missing_entities);
    assert!(compare_bridges(&left, &left).is_empty());
}
