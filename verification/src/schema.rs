//! Schema of the SQL virtual tables offered by the query workbench.
use vstd::prelude::*;
use crate::text::{chars_of, string_from};

verus! {

/// A column of a virtual table.
#[derive(Debug, Clone)]
pub struct SqlColumnSchema {
    pub name: String,
    pub column_type: String,
}

/// A virtual table and its columns.
#[derive(Debug, Clone)]
pub struct SqlTableSchema {
    pub name: String,
    pub columns: Vec<SqlColumnSchema>,
}

/// The tables and their column names, in order.
pub open spec fn sql_tables() -> Seq<(Seq<char>, Seq<Seq<char>>)> {
    seq![
        ("ontologies"@, seq!["id"@, "path"@, "format"@, "base_iri"@, "parse_status"@, "content_hash"@, "modified_time"@]),
        ("classes"@, seq!["iri"@, "short_name"@, "kind"@, "ontology_id"@, "labels"@, "comments"@, "deprecated"@, "obo_id"@]),
        ("object_properties"@, seq!["iri"@, "short_name"@, "kind"@, "ontology_id"@, "labels"@, "comments"@, "deprecated"@, "obo_id"@]),
        ("data_properties"@, seq!["iri"@, "short_name"@, "kind"@, "ontology_id"@, "labels"@, "comments"@, "deprecated"@, "obo_id"@]),
        ("annotation_properties"@, seq!["iri"@, "short_name"@, "kind"@, "ontology_id"@, "labels"@, "comments"@, "deprecated"@, "obo_id"@]),
        ("individuals"@, seq!["iri"@, "short_name"@, "kind"@, "ontology_id"@, "labels"@, "comments"@, "deprecated"@, "obo_id"@]),
        ("entities"@, seq!["iri"@, "short_name"@, "kind"@, "ontology_id"@, "labels"@, "comments"@, "deprecated"@, "obo_id"@]),
        ("properties"@, seq!["iri"@, "short_name"@, "kind"@, "ontology_id"@, "labels"@, "comments"@, "deprecated"@, "obo_id"@]),
        ("annotations"@, seq!["subject"@, "predicate"@, "object"@, "ontology_id"@]),
        ("axioms"@, seq!["id"@, "ontology_id"@, "subject"@, "predicate"@, "object"@, "axiom_kind"@]),
        ("restrictions"@, seq!["class_iri"@, "property_iri"@, "restriction_kind"@, "filler"@]),
        ("equivalent_class_axioms"@, seq!["class_iri"@, "expression"@]),
        ("disjoint_class_axioms"@, seq!["class_iri"@, "disjoint_with"@]),
        ("domain_axioms"@, seq!["property_iri"@, "domain"@]),
        ("range_axioms"@, seq!["property_iri"@, "range"@]),
        ("namespaces"@, seq!["prefix"@, "iri"@, "ontology_id"@]),
        ("imports"@, seq!["ontology_id"@, "import_iri"@]),
        ("diagnostics"@, seq!["code"@, "severity"@, "message"@, "file"@, "line"@, "column"@, "entity_iri"@]),
    ]
}

/// A table as its name and column names.
pub open spec fn table_view(t: SqlTableSchema) -> (Seq<char>, Seq<Seq<char>>) {
    (t.name@, t.columns@.map_values(|c: SqlColumnSchema| c.name@))
}

/// Every column of the table is typed `string`.
pub open spec fn all_string(t: SqlTableSchema) -> bool {
    forall|j: int| 0 <= j < t.columns@.len() ==> (#[trigger] t.columns@[j]).column_type@ == "string"@
}

fn table(name: &str, columns: Vec<&str>) -> (r: SqlTableSchema)
    ensures
        table_view(r) == (name@, columns@.map_values(|c: &str| c@)),
        all_string(r),
{
    let mut cols: Vec<SqlColumnSchema> = Vec::new();
    let mut i: usize = 0;
    while i < columns.len()
        invariant
            0 <= i <= columns.len(),
            cols@.len() == i,
            forall|j: int| 0 <= j < i ==> (#[trigger] cols@[j]).name@ == columns@[j]@,
            forall|j: int| 0 <= j < cols@.len() ==> (#[trigger] cols@[j]).column_type@ == "string"@,
        decreases columns.len() - i,
    {
        let c = SqlColumnSchema {
            name: string_from(chars_of(columns[i]).as_slice()),
            column_type: string_from(chars_of("string").as_slice()),
        };
        cols.push(c);
        i += 1;
    }
    assert(cols@.map_values(|c: SqlColumnSchema| c.name@) =~= columns@.map_values(|c: &str| c@));
    SqlTableSchema { name: string_from(chars_of(name).as_slice()), columns: cols }
}

/// `list_sql_tables`: the fixed table definitions; every column is typed `string`.
pub fn list_sql_tables() -> (r: Vec<SqlTableSchema>)
    ensures
        r@.map_values(|t: SqlTableSchema| table_view(t)) == sql_tables(),
        forall|i: int| 0 <= i < r@.len() ==> all_string(#[trigger] r@[i]),
{
    let mut out: Vec<SqlTableSchema> = Vec::new();
    out.push(table("ontologies", vec!["id", "path", "format", "base_iri", "parse_status", "content_hash", "modified_time"]));
    assert(out@.map_values(|t: SqlTableSchema| table_view(t)) =~~= sql_tables().take(1));
    out.push(table("classes", vec!["iri", "short_name", "kind", "ontology_id", "labels", "comments", "deprecated", "obo_id"]));
    assert(out@.map_values(|t: SqlTableSchema| table_view(t)) =~~= sql_tables().take(2));
    out.push(table("object_properties", vec!["iri", "short_name", "kind", "ontology_id", "labels", "comments", "deprecated", "obo_id"]));
    assert(out@.map_values(|t: SqlTableSchema| table_view(t)) =~~= sql_tables().take(3));
    out.push(table("data_properties", vec!["iri", "short_name", "kind", "ontology_id", "labels", "comments", "deprecated", "obo_id"]));
    assert(out@.map_values(|t: SqlTableSchema| table_view(t)) =~~= sql_tables().take(4));
    out.push(table("annotation_properties", vec!["iri", "short_name", "kind", "ontology_id", "labels", "comments", "deprecated", "obo_id"]));
    assert(out@.map_values(|t: SqlTableSchema| table_view(t)) =~~= sql_tables().take(5));
    out.push(table("individuals", vec!["iri", "short_name", "kind", "ontology_id", "labels", "comments", "deprecated", "obo_id"]));
    assert(out@.map_values(|t: SqlTableSchema| table_view(t)) =~~= sql_tables().take(6));
    out.push(table("entities", vec!["iri", "short_name", "kind", "ontology_id", "labels", "comments", "deprecated", "obo_id"]));
    assert(out@.map_values(|t: SqlTableSchema| table_view(t)) =~~= sql_tables().take(7));
    out.push(table("properties", vec!["iri", "short_name", "kind", "ontology_id", "labels", "comments", "deprecated", "obo_id"]));
    assert(out@.map_values(|t: SqlTableSchema| table_view(t)) =~~= sql_tables().take(8));
    out.push(table("annotations", vec!["subject", "predicate", "object", "ontology_id"]));
    assert(out@.map_values(|t: SqlTableSchema| table_view(t)) =~~= sql_tables().take(9));
    out.push(table("axioms", vec!["id", "ontology_id", "subject", "predicate", "object", "axiom_kind"]));
    assert(out@.map_values(|t: SqlTableSchema| table_view(t)) =~~= sql_tables().take(10));
    out.push(table("restrictions", vec!["class_iri", "property_iri", "restriction_kind", "filler"]));
    assert(out@.map_values(|t: SqlTableSchema| table_view(t)) =~~= sql_tables().take(11));
    out.push(table("equivalent_class_axioms", vec!["class_iri", "expression"]));
    assert(out@.map_values(|t: SqlTableSchema| table_view(t)) =~~= sql_tables().take(12));
    out.push(table("disjoint_class_axioms", vec!["class_iri", "disjoint_with"]));
    assert(out@.map_values(|t: SqlTableSchema| table_view(t)) =~~= sql_tables().take(13));
    out.push(table("domain_axioms", vec!["property_iri", "domain"]));
    assert(out@.map_values(|t: SqlTableSchema| table_view(t)) =~~= sql_tables().take(14));
    out.push(table("range_axioms", vec!["property_iri", "range"]));
    assert(out@.map_values(|t: SqlTableSchema| table_view(t)) =~~= sql_tables().take(15));
    out.push(table("namespaces", vec!["prefix", "iri", "ontology_id"]));
    assert(out@.map_values(|t: SqlTableSchema| table_view(t)) =~~= sql_tables().take(16));
    out.push(table("imports", vec!["ontology_id", "import_iri"]));
    assert(out@.map_values(|t: SqlTableSchema| table_view(t)) =~~= sql_tables().take(17));
    out.push(table("diagnostics", vec!["code", "severity", "message", "file", "line", "column", "entity_iri"]));
    assert(out@.map_values(|t: SqlTableSchema| table_view(t)) =~~= sql_tables().take(18));
    assert(sql_tables().take(18) =~= sql_tables());
    out
}

} // verus!
