use std::cmp::Ordering;
use strixonomy::lexical::replace_lexical_value;
use strixonomy::util::{
    abbreviate_string, cmp_annotation_property_iri, format_iso8601_utc, render_entity_markdown,
    ELLIPSIS,
};

#[test]
fn abbreviate_edges() {
    assert_eq!(abbreviate_string("", 5), "");
    assert_eq!(abbreviate_string("abc", 0), ELLIPSIS);
    assert_eq!(abbreviate_string("hello", 5), "hello");
    assert_eq!(abbreviate_string("hello", 3), format!("hel{ELLIPSIS}"));
}

#[test]
fn iso8601_format() {
    assert_eq!(format_iso8601_utc(2015, 11, 20, 12, 0, 0), "2015-11-20T12:00:00Z");
}

#[test]
fn lexical_replace_preserves_lang() {
    let lit = replace_lexical_value("hello world", Some("en"), None, "world", "there").unwrap();
    assert_eq!(lit.lexical, "hello there");
    assert_eq!(lit.lang.as_deref(), Some("en"));
    assert!(lit.datatype.is_none());
}

#[test]
fn markdown_unescapes_manchester() {
    assert_eq!(
        render_entity_markdown("'has part'", "http://ex.org#hp"),
        "[has part](http://ex.org#hp)"
    );
}

#[test]
fn annotation_order_labels_before_comments() {
    assert_eq!(
        cmp_annotation_property_iri(
            "http://www.w3.org/2000/01/rdf-schema#label",
            "http://www.w3.org/2000/01/rdf-schema#comment"
        ),
        Ordering::Less
    );
}
