use strixonomy::sparql_update::is_sparql_update;


#[test]
fn rejects_insert_after_prefix() {
    let q = "PREFIX ex: <http://example.org/>\nINSERT DATA { ex:s ex:p ex:o }";
    assert!(is_sparql_update(q));
}

#[test]
fn allows_select_after_prefix() {
    let q = "PREFIX ex: <http://example.org/>\nSELECT ?s WHERE { ?s ?p ?o }";
    assert!(!is_sparql_update(q));
}

#[test]
fn rejects_insert_after_comment() {
    let q = "# setup\nINSERT DATA { }";
    assert!(is_sparql_update(q));
}

#[test]
fn rejects_insert_after_base() {
    let q = "BASE <http://example.org/>\nINSERT DATA { <s> <p> <o> }";
    assert!(is_sparql_update(q));
}

#[test]
fn rejects_insert_on_same_line_as_prefix() {
    let q = "PREFIX ex: <http://example.org/> INSERT DATA { ex:s ex:p ex:o }";
    assert!(is_sparql_update(q));
}

#[test]
fn allows_select_after_base() {
    let q = "BASE <http://example.org/>\nSELECT ?s WHERE { ?s ?p ?o }";
    assert!(!is_sparql_update(q));
}

#[test]
fn rejects_insert_after_with() {
    let q = "WITH <http://example.org/graph>\nINSERT DATA { <http://ex/s> <http://ex/p> <http://ex/o> }";
    assert!(is_sparql_update(q));
}

#[test]
fn rejects_insert_after_using() {
    let q = "USING <http://example.org/g>\nINSERT DATA { <http://ex/s> <http://ex/p> <http://ex/o> }";
    assert!(is_sparql_update(q));
}

#[test]
fn rejects_insert_after_using_named() {
    let q = "USING NAMED <http://example.org/g>\nINSERT DATA { <http://ex/s> <http://ex/p> <http://ex/o> }";
    assert!(is_sparql_update(q));
}

#[test]
fn rejects_delete_after_prefix_and_using() {
    let q = "PREFIX ex: <http://example.org/>\nUSING <http://example.org/g>\nDELETE DATA { ex:s ex:p ex:o }";
    assert!(is_sparql_update(q));
}

#[test]
fn rejects_delete_after_prefix_and_with() {
    let q = "PREFIX ex: <http://example.org/>\nWITH <http://example.org/g>\nDELETE DATA { ex:s ex:p ex:o }";
    assert!(is_sparql_update(q));
}

#[test]
fn allows_select_when_with_is_not_prologue() {
    // "WITHIN" must not be treated as a WITH clause.
    let q = "SELECT ?within WHERE { ?s ?p ?within }";
    assert!(!is_sparql_update(q));
}

#[test]
fn allows_select_when_using_is_not_prologue() {
    // Variable/name starting with USING… must not trip the detector.
    let q = "SELECT ?usingNamed WHERE { ?s ?p ?usingNamed }";
    assert!(!is_sparql_update(q));
}
