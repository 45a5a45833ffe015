//! Authoring patches applied to Turtle text: the operations, their effect on the text, and
//! all-or-nothing application of a batch.
use vstd::prelude::*;
use crate::alldiff::{add_different_exec, add_different_spec, remove_different_exec, remove_different_spec};
use crate::edit::{
    add_literal_exec, add_literal_spec, add_object_exec, add_object_spec, contains_entity,
    contains_entity_exec, create_exec, create_spec, delete_exec, delete_spec,
    insert_multiline_exec, insert_multiline_spec, remove_all_exec, remove_all_spec,
    remove_iri_object_exec, remove_iri_object_spec, remove_literal_exec, remove_literal_spec,
    remove_object_exec, remove_object_spec,
};
use crate::drange::{data_range_chars, data_range_of};
use crate::manchester::{parse_expression_chars, parse_expression_spec};
use crate::mexpr::texts_of;
use crate::mturtle::{
    ce_turtle, turtle_value_chars, dr_turtle_exec, dr_turtle, fragment_of,
};
use crate::span::{namespaces_for, namespaces_for_chars};
use crate::text::{trim, trim_exec};
use crate::error::{err_of, make_err, outcome, ErrKind, OwlError, Outcome};
use crate::iri::{iri_to_turtle_term, safe_iri, turtle_term, unsafe_iri_detail};
use crate::lists::{
    declared_as, declared_as_exec, add_chain_exec, add_chain_spec, add_list_exec,
    add_list_spec, add_pairwise_exec, add_pairwise_spec, char_lists, remove_chain_exec,
    remove_chain_spec, remove_list_exec, remove_list_spec, remove_pairwise_exec,
    remove_pairwise_spec, windows_exec, windows_spec,
};
use crate::namespaces::Namespaces;
use crate::ops::{
    add_annotation_exec, add_annotation_spec, add_type_exec, add_type_spec,
    remove_annotation_exec, remove_annotation_spec, remove_type_iri_exec, remove_type_iri_spec,
    set_characteristic_exec, set_characteristic_spec,
};
use crate::prefixes::{
    add_prefix_exec, add_prefix_spec, remove_prefix_exec, remove_prefix_spec, set_ontology_iri_exec,
    set_ontology_iri_spec, set_prefix_exec, set_prefix_spec,
};
use crate::standalone::{
    add_axiom_annotation_exec, add_axiom_annotation_spec, add_npa_data_exec, add_npa_data_spec,
    add_npa_object_exec, add_npa_object_spec, remove_axiom_annotation_exec,
    remove_axiom_annotation_spec, remove_npa_exec, remove_npa_spec,
};
use crate::swrl::{
    add_swrl_exec, add_swrl_spec, json_compacted, json_values_equal, law_swrl_add_then_remove, no_rule_line,
    plain_ascii, remove_swrl_exec, remove_swrl_spec, swrl_pred, swrl_pred_term,
};
use crate::text::{chars_of, push_all, push_str, seq_eq, string_from};

verus! {

/// A single authoring patch operation on a Turtle document.
#[derive(Debug, Clone, PartialEq, Eq)]
pub enum PatchOp {
    AddPrefix { prefix: String, namespace_iri: String },
    RemovePrefix { prefix: String },
    SetPrefix { prefix: String, namespace_iri: String },
    SetOntologyIri { ontology_iri: String },
    SetVersionIri { ontology_iri: String, version_iri: String },
    AddOntologyAnnotation { ontology_iri: String, predicate: String, value: String },
    RemoveOntologyAnnotation { ontology_iri: String, predicate: String, value: String },
    CreateEntity { entity_iri: String, kind: PatchEntityKind },
    DeleteEntity { entity_iri: String },
    SetLabel { entity_iri: String, value: String },
    AddLabel { entity_iri: String, value: String },
    RemoveLabel { entity_iri: String, value: String },
    SetComment { entity_iri: String, value: String },
    AddComment { entity_iri: String, value: String },
    RemoveComment { entity_iri: String, value: String },
    AddSubClassOf { entity_iri: String, parent_iri: String },
    RemoveSubClassOf { entity_iri: String, parent_iri: String },
    AddComplexSubClassOf { entity_iri: String, manchester: String },
    RemoveComplexSubClassOf { entity_iri: String, manchester: String },
    AddEquivalentClass { entity_iri: String, manchester: String },
    RemoveEquivalentClass { entity_iri: String, manchester: String },
    SetEquivalentClass { entity_iri: String, manchester: String },
    SetDeprecated { entity_iri: String, value: bool },
    AddDisjointClass { entity_iri: String, other_iri: String },
    RemoveDisjointClass { entity_iri: String, other_iri: String },
    AddImport { ontology_iri: String, import_iri: String },
    RemoveImport { ontology_iri: String, import_iri: String },
    AddDomain { entity_iri: String, class_iri: String },
    RemoveDomain { entity_iri: String, class_iri: String },
    AddRange { entity_iri: String, range_iri: String },
    RemoveRange { entity_iri: String, range_iri: String },
    SetFunctional { entity_iri: String, value: bool },
    SetInverseFunctional { entity_iri: String, value: bool },
    SetTransitive { entity_iri: String, value: bool },
    SetSymmetric { entity_iri: String, value: bool },
    SetAsymmetric { entity_iri: String, value: bool },
    SetReflexive { entity_iri: String, value: bool },
    SetIrreflexive { entity_iri: String, value: bool },
    AddPropertyChain { entity_iri: String, properties: Vec<String> },
    RemovePropertyChain { entity_iri: String, properties: Vec<String> },
    AddClassAssertion { entity_iri: String, class_iri: String },
    RemoveClassAssertion { entity_iri: String, class_iri: String },
    AddObjectPropertyAssertion { entity_iri: String, property_iri: String, target_iri: String },
    RemoveObjectPropertyAssertion { entity_iri: String, property_iri: String, target_iri: String },
    AddDataPropertyAssertion { entity_iri: String, property_iri: String, value: String },
    RemoveDataPropertyAssertion { entity_iri: String, property_iri: String, value: String },
    AddAnnotation { entity_iri: String, predicate: String, value: String },
    RemoveAnnotation { entity_iri: String, predicate: String, value: String },
    AddHasKey { class_iri: String, properties: Vec<String> },
    RemoveHasKey { class_iri: String, properties: Vec<String> },
    AddDisjointUnion { class_iri: String, members: Vec<String> },
    RemoveDisjointUnion { class_iri: String, members: Vec<String> },
    AddInverseObjectProperties { property_iri: String, inverse_iri: String },
    RemoveInverseObjectProperties { property_iri: String, inverse_iri: String },
    AddEquivalentObjectProperties { properties: Vec<String> },
    RemoveEquivalentObjectProperties { properties: Vec<String> },
    AddDisjointObjectProperties { properties: Vec<String> },
    RemoveDisjointObjectProperties { properties: Vec<String> },
    AddEquivalentDataProperties { properties: Vec<String> },
    RemoveEquivalentDataProperties { properties: Vec<String> },
    AddDisjointDataProperties { properties: Vec<String> },
    RemoveDisjointDataProperties { properties: Vec<String> },
    AddSubObjectPropertyOf { property_iri: String, parent_iri: String },
    RemoveSubObjectPropertyOf { property_iri: String, parent_iri: String },
    AddSubDataPropertyOf { property_iri: String, parent_iri: String },
    RemoveSubDataPropertyOf { property_iri: String, parent_iri: String },
    AddNegativeObjectPropertyAssertion { entity_iri: String, property_iri: String, target_iri: String },
    RemoveNegativeObjectPropertyAssertion { entity_iri: String, property_iri: String, target_iri: String },
    AddNegativeDataPropertyAssertion { entity_iri: String, property_iri: String, value: String },
    RemoveNegativeDataPropertyAssertion { entity_iri: String, property_iri: String, value: String },
    AddSameIndividual { individuals: Vec<String> },
    RemoveSameIndividual { individuals: Vec<String> },
    AddDifferentIndividuals { individuals: Vec<String> },
    RemoveDifferentIndividuals { individuals: Vec<String> },
    AddDatatypeDefinition { datatype_iri: String, manchester: String },
    RemoveDatatypeDefinition { datatype_iri: String, manchester: String },
    AddAxiomAnnotation {
        axiom_op: String,
        subject_iri: String,
        related_iri: Option<String>,
        predicate: String,
        value: String,
    },
    RemoveAxiomAnnotation {
        axiom_op: String,
        subject_iri: String,
        related_iri: Option<String>,
        predicate: String,
        value: String,
    },
    AddSwrlRule { ontology_iri: String, rule_json: String },
    RemoveSwrlRule { ontology_iri: String, rule_json: String },
    ReplaceSwrlRule { ontology_iri: String, old_rule_json: String, new_rule_json: String },
}

/// Kind of entity created by `PatchOp::CreateEntity`.
#[derive(Debug, Clone, Copy, PartialEq, Eq, Structural)]
pub enum PatchEntityKind {
    Class,
    ObjectProperty,
    DataProperty,
    AnnotationProperty,
    Individual,
    Datatype,
}

/// A message about a patch batch.
#[derive(Debug, Clone)]
pub struct PatchDiagnostic {
    pub severity: String,
    pub message: String,
}

/// Outcome of applying a patch batch.
#[derive(Debug, Clone)]
pub struct ApplyPatchResult {
    pub applied: bool,
    pub preview_text: Option<String>,
    pub diagnostics: Vec<PatchDiagnostic>,
    pub document_path: Option<String>,
}

/// Type term declared for each entity kind.
pub open spec fn kind_term(k: PatchEntityKind) -> Seq<char> {
    match k {
        PatchEntityKind::Class => "owl:Class"@,
        PatchEntityKind::ObjectProperty => "owl:ObjectProperty"@,
        PatchEntityKind::DataProperty => "owl:DatatypeProperty"@,
        PatchEntityKind::AnnotationProperty => "owl:AnnotationProperty"@,
        PatchEntityKind::Individual => "owl:NamedIndividual"@,
        PatchEntityKind::Datatype => "rdfs:Datatype"@,
    }
}

fn kind_term_exec(k: PatchEntityKind) -> (r: Vec<char>)
    ensures
        r@ == kind_term(k),
{
    match k {
        PatchEntityKind::Class => chars_of("owl:Class"),
        PatchEntityKind::ObjectProperty => chars_of("owl:ObjectProperty"),
        PatchEntityKind::DataProperty => chars_of("owl:DatatypeProperty"),
        PatchEntityKind::AnnotationProperty => chars_of("owl:AnnotationProperty"),
        PatchEntityKind::Individual => chars_of("owl:NamedIndividual"),
        PatchEntityKind::Datatype => chars_of("rdfs:Datatype"),
    }
}

/// Turtle term of an IRI, or the error for an unsafe one.
pub open spec fn term_of(iri: Seq<char>, ns: Seq<(Seq<char>, Seq<char>)>) -> Result<
    Seq<char>,
    (ErrKind, Seq<char>),
> {
    if safe_iri(iri) {
        Ok(turtle_term(iri, ns))
    } else {
        Err((ErrKind::PatchInvalid, unsafe_iri_detail(iri)))
    }
}

/// Add `pred term(obj)` to `subj` once `obj` renders.
pub open spec fn add_iri_object(
    t: Seq<char>,
    subj: Seq<char>,
    pred: Seq<char>,
    obj: Seq<char>,
    ns: Seq<(Seq<char>, Seq<char>)>,
) -> Outcome {
    match term_of(obj, ns) {
        Err(e) => Err(e),
        Ok(o) => add_object_spec(t, subj, pred, o, ns),
    }
}

pub open spec fn strs(v: Vec<String>) -> Seq<Seq<char>> {
    v@.map_values(|s: String| s@)
}

pub open spec fn opt_str(o: Option<String>) -> Option<Seq<char>> {
    match o {
        Some(s) => Some(s@),
        None => None,
    }
}

/// The Turtle value of the Manchester expression `m`, read in the namespaces in effect for
/// the text.
pub open spec fn manchester_value(t: Seq<char>, m: Seq<char>, ns: Seq<(Seq<char>, Seq<char>)>) -> Outcome {
    let ns2 = namespaces_for(t, ns);
    match parse_expression_spec(m, ns2, Seq::empty()) {
        Err(d) => Err((ErrKind::ManchesterInvalid, d)),
        Ok(e) => match ce_turtle(e, ns2, 0) {
            Err(d) => Err((ErrKind::ManchesterInvalid, d)),
            Ok(v) => Ok(v),
        },
    }
}

/// Add `pred <expression>` to the primary block of `iri` (`add_complex_axiom`).
pub open spec fn add_complex_spec(
    t: Seq<char>,
    iri: Seq<char>,
    m: Seq<char>,
    pred: Seq<char>,
    ns: Seq<(Seq<char>, Seq<char>)>,
) -> Outcome {
    match manchester_value(t, m, ns) {
        Err(e) => Err(e),
        Ok(v) => insert_multiline_spec(t, iri, fragment_of(v, pred), ns),
    }
}

/// Remove `pred <expression>` from a statement of `iri` (`remove_complex_axiom`).
pub open spec fn remove_complex_spec(
    t: Seq<char>,
    iri: Seq<char>,
    m: Seq<char>,
    pred: Seq<char>,
    ns: Seq<(Seq<char>, Seq<char>)>,
) -> Outcome {
    match manchester_value(t, m, ns) {
        Err(e) => Err(e),
        Ok(v) => remove_object_spec(t, iri, pred, v, ns),
    }
}

/// The Turtle object of a datatype definition: the data range written as `m`, or else the
/// term of `m` as an IRI.
pub open spec fn datatype_object(t: Seq<char>, m: Seq<char>, ns: Seq<(Seq<char>, Seq<char>)>) -> Outcome {
    let ns2 = namespaces_for(t, ns);
    let tr = trim(m);
    match data_range_of(trim(tr), ns2) {
        Ok(d) => match dr_turtle(d, ns2) {
            Ok(x) => Ok(x),
            Err(_) => term_of(tr, ns),
        },
        Err(_) => term_of(tr, ns),
    }
}

/// The text with `iri` declared as a datatype (`add_datatype_definition`, first step).
pub open spec fn ensure_datatype(t: Seq<char>, iri: Seq<char>, ns: Seq<(Seq<char>, Seq<char>)>) -> Outcome {
    if !contains_entity(t, iri, ns) {
        create_spec(t, iri, "rdfs:Datatype"@, ns)
    } else if !declared_as(t, iri, "rdfs:Datatype"@, ns) {
        add_type_spec(t, iri, "rdfs:Datatype"@, ns)
    } else {
        Ok(t)
    }
}

/// `add_datatype_definition`.
pub open spec fn add_datatype_def_spec(
    t: Seq<char>,
    iri: Seq<char>,
    m: Seq<char>,
    ns: Seq<(Seq<char>, Seq<char>)>,
) -> Outcome {
    match ensure_datatype(t, iri, ns) {
        Err(e) => Err(e),
        Ok(t1) => match datatype_object(t1, m, ns) {
            Err(e) => Err(e),
            Ok(o) => add_object_spec(t1, iri, "owl:equivalentClass"@, o, ns),
        },
    }
}

/// `remove_datatype_definition`.
pub open spec fn remove_datatype_def_spec(
    t: Seq<char>,
    iri: Seq<char>,
    m: Seq<char>,
    ns: Seq<(Seq<char>, Seq<char>)>,
) -> Outcome {
    match datatype_object(t, m, ns) {
        Err(e) => Err(e),
        Ok(o) => remove_object_spec(t, iri, "owl:equivalentClass"@, o, ns),
    }
}

/// Effect of one operation on the text (`apply_one_patch`).
#[verifier::opaque]
pub open spec fn step_spec(t: Seq<char>, op: PatchOp, ns: Seq<(Seq<char>, Seq<char>)>) -> Outcome {
    match op {
        PatchOp::AddPrefix { prefix, namespace_iri } => add_prefix_spec(t, prefix@, namespace_iri@),
        PatchOp::RemovePrefix { prefix } => remove_prefix_spec(t, prefix@),
        PatchOp::SetPrefix { prefix, namespace_iri } => set_prefix_spec(t, prefix@, namespace_iri@),
        PatchOp::SetOntologyIri { ontology_iri } => set_ontology_iri_spec(t, ontology_iri@),
        PatchOp::SetVersionIri { ontology_iri, version_iri } => add_iri_object(
            remove_all_spec(t, ontology_iri@, "owl:versionIRI"@, ns),
            ontology_iri@,
            "owl:versionIRI"@,
            version_iri@,
            ns,
        ),
        PatchOp::AddOntologyAnnotation { ontology_iri, predicate, value } => add_annotation_spec(
            t,
            ontology_iri@,
            predicate@,
            value@,
            ns,
        ),
        PatchOp::RemoveOntologyAnnotation { ontology_iri, predicate, value } => remove_annotation_spec(
            t,
            ontology_iri@,
            predicate@,
            value@,
            ns,
        ),
        PatchOp::CreateEntity { entity_iri, kind } => create_spec(t, entity_iri@, kind_term(kind), ns),
        PatchOp::DeleteEntity { entity_iri } => delete_spec(t, entity_iri@, ns),
        PatchOp::SetLabel { entity_iri, value } => add_literal_spec(
            remove_all_spec(t, entity_iri@, "rdfs:label"@, ns),
            entity_iri@,
            "rdfs:label"@,
            value@,
            ns,
            true,
        ),
        PatchOp::AddLabel { entity_iri, value } => add_literal_spec(t, entity_iri@, "rdfs:label"@, value@, ns, true),
        PatchOp::RemoveLabel { entity_iri, value } => remove_literal_spec(t, entity_iri@, "rdfs:label"@, value@, ns),
        PatchOp::SetComment { entity_iri, value } => add_literal_spec(
            remove_all_spec(t, entity_iri@, "rdfs:comment"@, ns),
            entity_iri@,
            "rdfs:comment"@,
            value@,
            ns,
            true,
        ),
        PatchOp::AddComment { entity_iri, value } => add_literal_spec(t, entity_iri@, "rdfs:comment"@, value@, ns, true),
        PatchOp::RemoveComment { entity_iri, value } => remove_literal_spec(t, entity_iri@, "rdfs:comment"@, value@, ns),
        PatchOp::AddSubClassOf { entity_iri, parent_iri } => add_iri_object(t, entity_iri@, "rdfs:subClassOf"@, parent_iri@, ns),
        PatchOp::RemoveSubClassOf { entity_iri, parent_iri } => remove_iri_object_spec(t, entity_iri@, "rdfs:subClassOf"@, parent_iri@, ns),
        PatchOp::SetDeprecated { entity_iri, value } => if value {
            add_object_spec(t, entity_iri@, "owl:deprecated"@, "true"@, ns)
        } else {
            Ok(remove_all_spec(t, entity_iri@, "owl:deprecated"@, ns))
        },
        PatchOp::AddDisjointClass { entity_iri, other_iri } => add_iri_object(t, entity_iri@, "owl:disjointWith"@, other_iri@, ns),
        PatchOp::RemoveDisjointClass { entity_iri, other_iri } => remove_iri_object_spec(t, entity_iri@, "owl:disjointWith"@, other_iri@, ns),
        PatchOp::AddImport { ontology_iri, import_iri } => add_iri_object(t, ontology_iri@, "owl:imports"@, import_iri@, ns),
        PatchOp::RemoveImport { ontology_iri, import_iri } => remove_iri_object_spec(t, ontology_iri@, "owl:imports"@, import_iri@, ns),
        PatchOp::AddDomain { entity_iri, class_iri } => add_iri_object(t, entity_iri@, "rdfs:domain"@, class_iri@, ns),
        PatchOp::RemoveDomain { entity_iri, class_iri } => remove_iri_object_spec(t, entity_iri@, "rdfs:domain"@, class_iri@, ns),
        PatchOp::AddRange { entity_iri, range_iri } => add_iri_object(t, entity_iri@, "rdfs:range"@, range_iri@, ns),
        PatchOp::RemoveRange { entity_iri, range_iri } => remove_iri_object_spec(t, entity_iri@, "rdfs:range"@, range_iri@, ns),
        PatchOp::SetFunctional { entity_iri, value } => set_characteristic_spec(t, entity_iri@, "owl:FunctionalProperty"@, value, ns),
        PatchOp::SetInverseFunctional { entity_iri, value } => set_characteristic_spec(t, entity_iri@, "owl:InverseFunctionalProperty"@, value, ns),
        PatchOp::SetTransitive { entity_iri, value } => set_characteristic_spec(t, entity_iri@, "owl:TransitiveProperty"@, value, ns),
        PatchOp::SetSymmetric { entity_iri, value } => set_characteristic_spec(t, entity_iri@, "owl:SymmetricProperty"@, value, ns),
        PatchOp::SetAsymmetric { entity_iri, value } => set_characteristic_spec(t, entity_iri@, "owl:AsymmetricProperty"@, value, ns),
        PatchOp::SetReflexive { entity_iri, value } => set_characteristic_spec(t, entity_iri@, "owl:ReflexiveProperty"@, value, ns),
        PatchOp::SetIrreflexive { entity_iri, value } => set_characteristic_spec(t, entity_iri@, "owl:IrreflexiveProperty"@, value, ns),
        PatchOp::AddPropertyChain { entity_iri, properties } => add_chain_spec(t, entity_iri@, strs(properties), ns),
        PatchOp::RemovePropertyChain { entity_iri, properties } => remove_chain_spec(t, entity_iri@, strs(properties), ns),
        PatchOp::AddClassAssertion { entity_iri, class_iri } => match term_of(class_iri@, ns) {
            Err(e) => Err(e),
            Ok(c) => add_type_spec(t, entity_iri@, c, ns),
        },
        PatchOp::RemoveClassAssertion { entity_iri, class_iri } => remove_type_iri_spec(t, entity_iri@, class_iri@, ns),
        PatchOp::AddObjectPropertyAssertion { entity_iri, property_iri, target_iri } => match term_of(property_iri@, ns) {
            Err(e) => Err(e),
            Ok(p) => add_iri_object(t, entity_iri@, p, target_iri@, ns),
        },
        PatchOp::RemoveObjectPropertyAssertion { entity_iri, property_iri, target_iri } => match term_of(property_iri@, ns) {
            Err(e) => Err(e),
            Ok(p) => remove_iri_object_spec(t, entity_iri@, p, target_iri@, ns),
        },
        PatchOp::AddDataPropertyAssertion { entity_iri, property_iri, value } => match term_of(property_iri@, ns) {
            Err(e) => Err(e),
            Ok(p) => add_literal_spec(t, entity_iri@, p, value@, ns, false),
        },
        PatchOp::RemoveDataPropertyAssertion { entity_iri, property_iri, value } => match term_of(property_iri@, ns) {
            Err(e) => Err(e),
            Ok(p) => remove_literal_spec(t, entity_iri@, p, value@, ns),
        },
        PatchOp::AddAnnotation { entity_iri, predicate, value } => add_annotation_spec(t, entity_iri@, predicate@, value@, ns),
        PatchOp::RemoveAnnotation { entity_iri, predicate, value } => remove_annotation_spec(t, entity_iri@, predicate@, value@, ns),
        PatchOp::AddHasKey { class_iri, properties } => add_list_spec(t, class_iri@, "owl:hasKey"@, strs(properties), ns),
        PatchOp::RemoveHasKey { class_iri, properties } => remove_list_spec(t, class_iri@, "owl:hasKey"@, strs(properties), ns),
        PatchOp::AddDisjointUnion { class_iri, members } => add_list_spec(t, class_iri@, "owl:disjointUnionOf"@, strs(members), ns),
        PatchOp::RemoveDisjointUnion { class_iri, members } => remove_list_spec(t, class_iri@, "owl:disjointUnionOf"@, strs(members), ns),
        PatchOp::AddInverseObjectProperties { property_iri, inverse_iri } => add_iri_object(t, property_iri@, "owl:inverseOf"@, inverse_iri@, ns),
        PatchOp::RemoveInverseObjectProperties { property_iri, inverse_iri } => remove_iri_object_spec(t, property_iri@, "owl:inverseOf"@, inverse_iri@, ns),
        PatchOp::AddEquivalentObjectProperties { properties } => add_pairwise_spec(t, strs(properties), "owl:equivalentProperty"@, ns),
        PatchOp::RemoveEquivalentObjectProperties { properties } => remove_pairwise_spec(t, strs(properties), "owl:equivalentProperty"@, ns),
        PatchOp::AddDisjointObjectProperties { properties } => add_pairwise_spec(t, strs(properties), "owl:propertyDisjointWith"@, ns),
        PatchOp::RemoveDisjointObjectProperties { properties } => remove_pairwise_spec(t, strs(properties), "owl:propertyDisjointWith"@, ns),
        PatchOp::AddEquivalentDataProperties { properties } => add_pairwise_spec(t, strs(properties), "owl:equivalentProperty"@, ns),
        PatchOp::RemoveEquivalentDataProperties { properties } => remove_pairwise_spec(t, strs(properties), "owl:equivalentProperty"@, ns),
        PatchOp::AddDisjointDataProperties { properties } => add_pairwise_spec(t, strs(properties), "owl:propertyDisjointWith"@, ns),
        PatchOp::RemoveDisjointDataProperties { properties } => remove_pairwise_spec(t, strs(properties), "owl:propertyDisjointWith"@, ns),
        PatchOp::AddSubObjectPropertyOf { property_iri, parent_iri } => add_iri_object(t, property_iri@, "rdfs:subPropertyOf"@, parent_iri@, ns),
        PatchOp::RemoveSubObjectPropertyOf { property_iri, parent_iri } => remove_iri_object_spec(t, property_iri@, "rdfs:subPropertyOf"@, parent_iri@, ns),
        PatchOp::AddSubDataPropertyOf { property_iri, parent_iri } => add_iri_object(t, property_iri@, "rdfs:subPropertyOf"@, parent_iri@, ns),
        PatchOp::RemoveSubDataPropertyOf { property_iri, parent_iri } => remove_iri_object_spec(t, property_iri@, "rdfs:subPropertyOf"@, parent_iri@, ns),
        PatchOp::AddNegativeObjectPropertyAssertion { entity_iri, property_iri, target_iri } => add_npa_object_spec(t, entity_iri@, property_iri@, target_iri@, ns),
        PatchOp::RemoveNegativeObjectPropertyAssertion { entity_iri, property_iri, target_iri } => remove_npa_spec(t, entity_iri@, property_iri@, Some(target_iri@), Seq::empty(), ns),
        PatchOp::AddNegativeDataPropertyAssertion { entity_iri, property_iri, value } => add_npa_data_spec(t, entity_iri@, property_iri@, value@, ns),
        PatchOp::RemoveNegativeDataPropertyAssertion { entity_iri, property_iri, value } => remove_npa_spec(t, entity_iri@, property_iri@, None, value@, ns),
        PatchOp::AddSameIndividual { individuals } => windows_spec(t, strs(individuals), "owl:sameAs"@, ns, true),
        PatchOp::RemoveSameIndividual { individuals } => windows_spec(t, strs(individuals), "owl:sameAs"@, ns, false),
        PatchOp::AddDifferentIndividuals { individuals } => add_different_spec(t, strs(individuals), ns),
        PatchOp::RemoveDifferentIndividuals { individuals } => remove_different_spec(t, strs(individuals), ns),
        PatchOp::AddAxiomAnnotation { axiom_op, subject_iri, related_iri, predicate, value } => add_axiom_annotation_spec(t, axiom_op@, subject_iri@, opt_str(related_iri), predicate@, value@, ns),
        PatchOp::RemoveAxiomAnnotation { axiom_op, subject_iri, related_iri, predicate, value } => remove_axiom_annotation_spec(t, axiom_op@, subject_iri@, opt_str(related_iri), predicate@, value@, ns),
        PatchOp::AddSwrlRule { ontology_iri, rule_json } => add_swrl_spec(t, ontology_iri@, rule_json@),
        PatchOp::RemoveSwrlRule { ontology_iri, rule_json } => remove_swrl_spec(t, ontology_iri@, rule_json@),
        PatchOp::ReplaceSwrlRule { ontology_iri, old_rule_json, new_rule_json } => match remove_swrl_spec(t, ontology_iri@, old_rule_json@) {
            Err(e) => Err(e),
            Ok(t1) => add_swrl_spec(t1, ontology_iri@, new_rule_json@),
        },
        PatchOp::AddComplexSubClassOf { entity_iri, manchester } => add_complex_spec(t, entity_iri@, manchester@, "rdfs:subClassOf"@, ns),
        PatchOp::RemoveComplexSubClassOf { entity_iri, manchester } => remove_complex_spec(t, entity_iri@, manchester@, "rdfs:subClassOf"@, ns),
        PatchOp::AddEquivalentClass { entity_iri, manchester } => add_complex_spec(t, entity_iri@, manchester@, "owl:equivalentClass"@, ns),
        PatchOp::RemoveEquivalentClass { entity_iri, manchester } => remove_complex_spec(t, entity_iri@, manchester@, "owl:equivalentClass"@, ns),
        PatchOp::SetEquivalentClass { entity_iri, manchester } => add_complex_spec(
            remove_all_spec(t, entity_iri@, "owl:equivalentClass"@, ns),
            entity_iri@,
            manchester@,
            "owl:equivalentClass"@,
            ns,
        ),
        PatchOp::AddDatatypeDefinition { datatype_iri, manchester } => add_datatype_def_spec(t, datatype_iri@, manchester@, ns),
        PatchOp::RemoveDatatypeDefinition { datatype_iri, manchester } => remove_datatype_def_spec(t, datatype_iri@, manchester@, ns),
    }
}

fn add_iri_object_exec(t: &[char], subj: &[char], pred: &str, obj: &[char], ns: &Namespaces) -> (r: Result<Vec<char>, OwlError>)
    ensures
        outcome(r) == add_iri_object(t@, subj@, pred@, obj@, ns@),
{
    let o = match iri_to_turtle_term(obj, ns) {
        Err(e) => {
            return Err(e);
        },
        Ok(o) => o,
    };
    let p = chars_of(pred);
    add_object_exec(t, subj, p.as_slice(), o.as_slice(), ns)
}

fn remove_iri_object_str(t: &[char], subj: &[char], pred: &str, obj: &[char], ns: &Namespaces) -> (r: Result<Vec<char>, OwlError>)
    ensures
        outcome(r) == remove_iri_object_spec(t@, subj@, pred@, obj@, ns@),
{
    let p = chars_of(pred);
    remove_iri_object_exec(t, subj, p.as_slice(), obj, ns)
}

fn remove_all_str(t: &[char], subj: &[char], pred: &str, ns: &Namespaces) -> (r: Vec<char>)
    ensures
        r@ == remove_all_spec(t@, subj@, pred@, ns@),
{
    let p = chars_of(pred);
    remove_all_exec(t, subj, p.as_slice(), ns)
}

fn add_literal_str(t: &[char], subj: &[char], pred: &str, value: &[char], ns: &Namespaces, dup_err: bool) -> (r: Result<Vec<char>, OwlError>)
    ensures
        outcome(r) == add_literal_spec(t@, subj@, pred@, value@, ns@, dup_err),
{
    let p = chars_of(pred);
    add_literal_exec(t, subj, p.as_slice(), value, ns, dup_err)
}

fn remove_literal_str(t: &[char], subj: &[char], pred: &str, value: &[char], ns: &Namespaces) -> (r: Result<Vec<char>, OwlError>)
    ensures
        outcome(r) == remove_literal_spec(t@, subj@, pred@, value@, ns@),
{
    let p = chars_of(pred);
    remove_literal_exec(t, subj, p.as_slice(), value, ns)
}

fn opt_chars(o: &Option<String>) -> (r: Option<Vec<char>>)
    ensures
        match r {
            Some(v) => opt_str(*o) == Some(v@),
            None => opt_str(*o) is None,
        },
{
    match o {
        Some(s) => Some(chars_of(s.as_str())),
        None => None,
    }
}

fn manchester_value_exec(t: &[char], m: &str, ns: &Namespaces) -> (r: Result<Vec<char>, OwlError>)
    ensures
        outcome(r) == manchester_value(t@, m@, ns@),
{
    let ns2 = namespaces_for_chars(t, ns);
    let known: Vec<Vec<char>> = Vec::new();
    assert(texts_of(known@) =~= Seq::<Seq<char>>::empty());
    let mc = chars_of(m);
    let e = match parse_expression_chars(mc.as_slice(), &ns2, &known) {
        Err(d) => {
            return Err(make_err(ErrKind::ManchesterInvalid, d.as_slice()));
        },
        Ok(e) => e,
    };
    turtle_value_chars(&e, &ns2, 0)
}

fn add_complex_exec(t: &[char], iri: &[char], m: &str, pred: &str, ns: &Namespaces) -> (r: Result<Vec<char>, OwlError>)
    ensures
        outcome(r) == add_complex_spec(t@, iri@, m@, pred@, ns@),
{
    let v = match manchester_value_exec(t, m, ns) {
        Err(e) => {
            return Err(e);
        },
        Ok(v) => v,
    };
    let mut frag = chars_of("    ");
    push_str(&mut frag, pred);
    push_str(&mut frag, " ");
    push_all(&mut frag, v.as_slice());
    push_str(&mut frag, " ;\n");
    insert_multiline_exec(t, iri, frag.as_slice(), ns)
}

fn remove_complex_exec(t: &[char], iri: &[char], m: &str, pred: &str, ns: &Namespaces) -> (r: Result<Vec<char>, OwlError>)
    ensures
        outcome(r) == remove_complex_spec(t@, iri@, m@, pred@, ns@),
{
    let v = match manchester_value_exec(t, m, ns) {
        Err(e) => {
            return Err(e);
        },
        Ok(v) => v,
    };
    let p = chars_of(pred);
    remove_object_exec(t, iri, p.as_slice(), v.as_slice(), ns)
}

fn datatype_object_exec(t: &[char], m: &str, ns: &Namespaces) -> (r: Result<Vec<char>, OwlError>)
    ensures
        outcome(r) == datatype_object(t@, m@, ns@),
{
    let ns2 = namespaces_for_chars(t, ns);
    let mc = chars_of(m);
    let tr = trim_exec(mc.as_slice());
    let tr2 = trim_exec(tr.as_slice());
    match data_range_chars(tr2.as_slice(), &ns2) {
        Ok(d) => match dr_turtle_exec(&d, &ns2) {
            Ok(x) => {
                return Ok(x);
            },
            Err(_) => {},
        },
        Err(_) => {},
    }
    iri_to_turtle_term(tr.as_slice(), ns)
}

fn add_datatype_def_exec(t: &[char], iri: &[char], m: &str, ns: &Namespaces) -> (r: Result<Vec<char>, OwlError>)
    ensures
        outcome(r) == add_datatype_def_spec(t@, iri@, m@, ns@),
{
    let dt = chars_of("rdfs:Datatype");
    let t1: Vec<char> = if !contains_entity_exec(t, iri, ns) {
        match create_exec(t, iri, dt.as_slice(), ns) {
            Err(e) => {
                return Err(e);
            },
            Ok(x) => x,
        }
    } else if !declared_as_exec(t, iri, dt.as_slice(), ns) {
        match add_type_exec(t, iri, dt.as_slice(), ns) {
            Err(e) => {
                return Err(e);
            },
            Ok(x) => x,
        }
    } else {
        slice_all(t)
    };
    assert(ensure_datatype(t@, iri@, ns@) == Ok::<Seq<char>, (ErrKind, Seq<char>)>(t1@));
    let o = match datatype_object_exec(t1.as_slice(), m, ns) {
        Err(e) => {
            return Err(e);
        },
        Ok(o) => o,
    };
    let p = chars_of("owl:equivalentClass");
    add_object_exec(t1.as_slice(), iri, p.as_slice(), o.as_slice(), ns)
}

fn remove_datatype_def_exec(t: &[char], iri: &[char], m: &str, ns: &Namespaces) -> (r: Result<Vec<char>, OwlError>)
    ensures
        outcome(r) == remove_datatype_def_spec(t@, iri@, m@, ns@),
{
    let o = match datatype_object_exec(t, m, ns) {
        Err(e) => {
            return Err(e);
        },
        Ok(o) => o,
    };
    let p = chars_of("owl:equivalentClass");
    remove_object_exec(t, iri, p.as_slice(), o.as_slice(), ns)
}

fn slice_all(t: &[char]) -> (r: Vec<char>)
    ensures
        r@ == t@,
{
    let r = crate::text::slice_chars(t, 0, t.len());
    assert(r@ =~= t@);
    r
}

/// Apply one operation to the text (`apply_one_patch`).
/// The subject, predicate and object IRI of a patch that adds one IRI-valued triple with a
/// fixed predicate: `AddSubClassOf` (`rdfs:subClassOf`), `AddDisjointClass`
/// (`owl:disjointWith`), `AddImport` (`owl:imports`), `AddDomain` (`rdfs:domain`), `AddRange`
/// (`rdfs:range`), `AddInverseObjectProperties` (`owl:inverseOf`), `AddSubObjectPropertyOf`
/// and `AddSubDataPropertyOf` (`rdfs:subPropertyOf`).
pub open spec fn fixed_object_patch(op: PatchOp) -> Option<(Seq<char>, Seq<char>, Seq<char>)> {
    match op {
        PatchOp::AddSubClassOf { entity_iri, parent_iri } => Some((entity_iri@, "rdfs:subClassOf"@, parent_iri@)),
        PatchOp::AddDisjointClass { entity_iri, other_iri } => Some((entity_iri@, "owl:disjointWith"@, other_iri@)),
        PatchOp::AddImport { ontology_iri, import_iri } => Some((ontology_iri@, "owl:imports"@, import_iri@)),
        PatchOp::AddDomain { entity_iri, class_iri } => Some((entity_iri@, "rdfs:domain"@, class_iri@)),
        PatchOp::AddRange { entity_iri, range_iri } => Some((entity_iri@, "rdfs:range"@, range_iri@)),
        PatchOp::AddInverseObjectProperties { property_iri, inverse_iri } => Some(
            (property_iri@, "owl:inverseOf"@, inverse_iri@),
        ),
        PatchOp::AddSubObjectPropertyOf { property_iri, parent_iri } => Some(
            (property_iri@, "rdfs:subPropertyOf"@, parent_iri@),
        ),
        PatchOp::AddSubDataPropertyOf { property_iri, parent_iri } => Some(
            (property_iri@, "rdfs:subPropertyOf"@, parent_iri@),
        ),
        _ => None,
    }
}

/// `t2` is `t` with the triple `subj pred obj` added: the object's term is known, and either
/// the text is unchanged because the subject's statements already hold that predicate and
/// object, or the text now holds the line `pred term ;`.
pub open spec fn object_added(
    t: Seq<char>,
    t2: Seq<char>,
    subj: Seq<char>,
    pred: Seq<char>,
    obj: Seq<char>,
    ns: Seq<(Seq<char>, Seq<char>)>,
) -> bool {
    &&& term_of(obj, ns) is Ok
    &&& {
        let line = crate::edit::object_line(pred, term_of(obj, ns)->Ok_0);
        ||| t2 == t && (crate::edit::simple_insertion(line) matches Some((p, o)) && crate::edit::has_predicate_object(
            t,
            subj,
            p,
            o,
            ns,
        ))
        ||| crate::text::contains(t2, line)
    }
}

/// Adding the triple is owed: the object IRI can be written, and the subject is declared in
/// the text with a block to add to.
pub open spec fn object_add_owed(
    t: Seq<char>,
    subj: Seq<char>,
    obj: Seq<char>,
    ns: Seq<(Seq<char>, Seq<char>)>,
) -> bool {
    crate::iri::safe_iri(obj) && contains_entity(t, subj, ns) && crate::span::primary_block(
        t,
        subj,
        namespaces_for(t, ns),
    ) is Some
}

proof fn lemma_contains_middle(a: Seq<char>, x: Seq<char>, b: Seq<char>)
    ensures
        crate::text::contains(a + x + b, x),
{
    assert((a + x + b).subrange(a.len() as int, (a.len() + x.len()) as int) =~= x);
    assert(crate::text::occurs_at(a + x + b, a.len() as int, x));
}

proof fn lemma_add_iri_object(t: Seq<char>, subj: Seq<char>, pred: Seq<char>, obj: Seq<char>, ns: Seq<(Seq<char>, Seq<char>)>)
    ensures
        match add_iri_object(t, subj, pred, obj, ns) {
            Ok(t2) => object_added(t, t2, subj, pred, obj, ns),
            Err(_) => !object_add_owed(t, subj, obj, ns),
        },
{
    if crate::iri::safe_iri(obj) {
        let o = term_of(obj, ns)->Ok_0;
        let line = crate::edit::object_line(pred, o);
        if contains_entity(t, subj, ns) {
            match crate::edit::simple_insertion(line) {
                Some((p, q)) => {
                    if crate::edit::has_predicate_object(t, subj, p, q, ns) {
                    } else {
                        lemma_multiline_adds(t, subj, line, ns);
                    }
                },
                None => {
                    lemma_multiline_adds(t, subj, line, ns);
                },
            }
        }
    }
}

proof fn lemma_block_keeps_insertion(block: Seq<char>, ins: Seq<char>)
    ensures
        crate::text::contains(crate::edit::insert_in_block(block, ins), ins),
{
    let tr = crate::text::trim_end(block);
    if tr.len() > 0 && tr.last() == '.' {
        let pos = crate::text::last_index(tr, '.');
        lemma_contains_middle(crate::text::trim_end(block.take(pos)) + " ;\n"@, ins, "."@);
    } else if !(tr.len() > 0 && tr.last() == ';') {
        lemma_contains_middle(block + " ;\n"@, ins, Seq::<char>::empty());
        assert(block + " ;\n"@ + ins + Seq::<char>::empty() =~= block + " ;\n"@ + ins);
    } else {
        lemma_contains_middle(block, ins, Seq::<char>::empty());
        assert(block + ins + Seq::<char>::empty() =~= block + ins);
    }
}

proof fn lemma_first_typed_nonneg(t: Seq<char>, starts: Seq<int>)
    ensures
        crate::span::first_typed(t, starts) matches Some(s) ==> 0 <= s,
    decreases starts.len(),
{
    if starts.len() > 0 {
        lemma_first_typed_nonneg(t, starts.drop_first());
    }
}

proof fn lemma_primary_block_nonneg(t: Seq<char>, iri: Seq<char>, ns: Seq<(Seq<char>, Seq<char>)>)
    ensures
        crate::span::primary_block(t, iri, ns) matches Some((s, e)) ==> 0 <= s,
{
    let nd = crate::span::needles_for(iri, ns);
    let starts = crate::span::subject_starts(t, nd);
    crate::span::lemma_needles_nonempty(iri, ns);
    crate::span::lemma_subject_starts_range(t, 0, nd);
    lemma_first_typed_nonneg(t, starts);
    if starts.len() > 0 {
        assert(0 <= starts[0]);
    }
}

proof fn lemma_replacement_keeps(t: Seq<char>, s0: int, e0: int, rep: Seq<char>, ins: Seq<char>)
    requires
        0 <= s0,
        crate::text::contains(rep, ins),
    ensures
        crate::text::contains(crate::edit::replace_range(t, s0, e0, rep), ins),
{
    let s1 = if s0 < t.len() { s0 } else { t.len() as int };
    let e1 = if e0 < s1 { s1 } else if e0 < t.len() { e0 } else { t.len() as int };
    let k = choose|k: int| crate::text::occurs_at(rep, k, ins);
    let t2 = crate::edit::replace_range(t, s0, e0, rep);
    assert(t2 =~= t.take(s1) + rep + t.skip(e1));
    assert(t2.subrange(s1 + k, s1 + k + ins.len()) =~= rep.subrange(k, k + ins.len()));
    assert(crate::text::occurs_at(t2, s1 + k, ins));
}

#[verifier::spinoff_prover]
#[verifier::rlimit(50)]
proof fn lemma_multiline_adds(t: Seq<char>, subj: Seq<char>, ins: Seq<char>, ns: Seq<(Seq<char>, Seq<char>)>)
    ensures
        match insert_multiline_spec(t, subj, ins, ns) {
            Ok(t2) => crate::text::contains(t2, ins),
            Err(_) => crate::span::primary_block(t, subj, namespaces_for(t, ns)) is None,
        },
{
    match crate::span::primary_block(t, subj, namespaces_for(t, ns)) {
        None => {},
        Some((s0, e0)) => {
            lemma_primary_block_nonneg(t, subj, namespaces_for(t, ns));
            let block = t.subrange(s0, e0);
            lemma_block_keeps_insertion(block, ins);
            lemma_replacement_keeps(t, s0, e0, crate::edit::insert_in_block(block, ins), ins);
        },
    }
}

/// Law: a patch that adds an IRI-valued triple with a fixed predicate (`fixed_object_patch`:
/// `AddDomain` with `rdfs:domain`, `AddRange` with `rdfs:range`, and so on) adds exactly that
/// triple when it succeeds (`object_added`: the line `predicate term ;` is in the new text, or
/// the text is unchanged because the subject already states it), and it succeeds whenever the
/// object IRI can be written and the subject has a block in the text.
#[verifier::spinoff_prover]
#[verifier::rlimit(50)]
pub proof fn law_add_object_patches(t: Seq<char>, op: PatchOp, ns: Seq<(Seq<char>, Seq<char>)>)
    requires
        fixed_object_patch(op) is Some,
    ensures
        match step_spec(t, op, ns) {
            Ok(t2) => object_added(
                t,
                t2,
                fixed_object_patch(op)->Some_0.0,
                fixed_object_patch(op)->Some_0.1,
                fixed_object_patch(op)->Some_0.2,
                ns,
            ),
            Err(_) => !object_add_owed(t, fixed_object_patch(op)->Some_0.0, fixed_object_patch(op)->Some_0.2, ns),
        },
{
    reveal(step_spec);
    let (sj, pd, ob) = fixed_object_patch(op)->Some_0;
    lemma_add_iri_object(t, sj, pd, ob, ns);
    assert(step_spec(t, op, ns) == add_iri_object(t, sj, pd, ob, ns));
}

/// The subject, annotation predicate and value of a patch that adds one plain literal:
/// `AddLabel` and `SetLabel` (`rdfs:label`), `AddComment` and `SetComment` (`rdfs:comment`).
pub open spec fn fixed_literal_patch(op: PatchOp) -> Option<(Seq<char>, Seq<char>, Seq<char>)> {
    match op {
        PatchOp::AddLabel { entity_iri, value } => Some((entity_iri@, "rdfs:label"@, value@)),
        PatchOp::SetLabel { entity_iri, value } => Some((entity_iri@, "rdfs:label"@, value@)),
        PatchOp::AddComment { entity_iri, value } => Some((entity_iri@, "rdfs:comment"@, value@)),
        PatchOp::SetComment { entity_iri, value } => Some((entity_iri@, "rdfs:comment"@, value@)),
        _ => None,
    }
}

proof fn lemma_add_literal(t: Seq<char>, subj: Seq<char>, pred: Seq<char>, value: Seq<char>, ns: Seq<(Seq<char>, Seq<char>)>)
    ensures
        add_literal_spec(t, subj, pred, value, ns, true) matches Ok(t2) ==> crate::text::contains(
            t2,
            crate::edit::literal_line(pred, value),
        ),
{
    let line = crate::edit::literal_line(pred, value);
    if contains_entity(t, subj, ns) {
        lemma_multiline_adds(t, subj, line, ns);
    }
}

/// Law: a patch that adds a label or a comment (`fixed_literal_patch`), when it succeeds,
/// leaves the line `predicate "escaped value" ;` with its own predicate (`rdfs:label` or
/// `rdfs:comment`) in the new text.
#[verifier::spinoff_prover]
#[verifier::rlimit(50)]
pub proof fn law_add_literal_patches(t: Seq<char>, op: PatchOp, ns: Seq<(Seq<char>, Seq<char>)>)
    requires
        fixed_literal_patch(op) is Some,
    ensures
        step_spec(t, op, ns) matches Ok(t2) ==> crate::text::contains(
            t2,
            crate::edit::literal_line(fixed_literal_patch(op)->Some_0.1, fixed_literal_patch(op)->Some_0.2),
        ),
{
    reveal(step_spec);
    let (sj, pd, v) = fixed_literal_patch(op)->Some_0;
    match op {
        PatchOp::AddLabel { .. } => {
            lemma_add_literal(t, sj, pd, v, ns);
        },
        PatchOp::AddComment { .. } => {
            lemma_add_literal(t, sj, pd, v, ns);
        },
        PatchOp::SetLabel { .. } => {
            lemma_add_literal(remove_all_spec(t, sj, pd, ns), sj, pd, v, ns);
        },
        PatchOp::SetComment { .. } => {
            lemma_add_literal(remove_all_spec(t, sj, pd, ns), sj, pd, v, ns);
        },
        _ => {},
    }
}

/// The subject and predicate of a patch that removes one triple with a fixed predicate:
/// `RemoveSubClassOf`, `RemoveDisjointClass`, `RemoveImport`, `RemoveDomain`, `RemoveRange`,
/// `RemoveInverseObjectProperties`, `RemoveSubObjectPropertyOf`, `RemoveSubDataPropertyOf`,
/// `RemoveLabel` and `RemoveComment`.
pub open spec fn fixed_removal_patch(op: PatchOp) -> Option<(Seq<char>, Seq<char>)> {
    match op {
        PatchOp::RemoveSubClassOf { entity_iri, .. } => Some((entity_iri@, "rdfs:subClassOf"@)),
        PatchOp::RemoveDisjointClass { entity_iri, .. } => Some((entity_iri@, "owl:disjointWith"@)),
        PatchOp::RemoveImport { ontology_iri, .. } => Some((ontology_iri@, "owl:imports"@)),
        PatchOp::RemoveDomain { entity_iri, .. } => Some((entity_iri@, "rdfs:domain"@)),
        PatchOp::RemoveRange { entity_iri, .. } => Some((entity_iri@, "rdfs:range"@)),
        PatchOp::RemoveInverseObjectProperties { property_iri, .. } => Some((property_iri@, "owl:inverseOf"@)),
        PatchOp::RemoveSubObjectPropertyOf { property_iri, .. } => Some((property_iri@, "rdfs:subPropertyOf"@)),
        PatchOp::RemoveSubDataPropertyOf { property_iri, .. } => Some((property_iri@, "rdfs:subPropertyOf"@)),
        PatchOp::RemoveLabel { entity_iri, .. } => Some((entity_iri@, "rdfs:label"@)),
        PatchOp::RemoveComment { entity_iri, .. } => Some((entity_iri@, "rdfs:comment"@)),
        _ => None,
    }
}

/// One of the statements of `subj` in `t` holds `pred`.
pub open spec fn statement_mentions(t: Seq<char>, subj: Seq<char>, pred: Seq<char>, ns: Seq<(Seq<char>, Seq<char>)>) -> bool {
    let ranges = crate::span::entity_ranges(t, subj, namespaces_for(t, ns));
    exists|k: int|
        0 <= k < ranges.len() && crate::text::contains(#[trigger] t.subrange(ranges[k].0, ranges[k].1), pred)
}

proof fn lemma_match_from_mentions(b: Seq<char>, pred: Seq<char>, mode: u8, target: Seq<char>, from: int)
    ensures
        crate::block::match_from(b, pred, mode, target, from) is Some ==> crate::text::contains(b, pred),
    decreases b.len() - from,
{
    if from >= 0 {
        if let Some(p) = crate::lex::find_predicate_token(b, from, pred) {
            crate::lex::lemma_pred_token_range(b, from, crate::lex::Lex::Code, 0, pred);
            assert(crate::text::occurs_at(b, p, pred));
        }
    }
}

proof fn lemma_target_removal_mentions(b: Seq<char>, pred: Seq<char>, mode: u8, targets: Seq<Seq<char>>)
    ensures
        crate::edit::first_target_removal(b, pred, mode, targets) is Some ==> crate::text::contains(b, pred),
    decreases targets.len(),
{
    if targets.len() > 0 {
        lemma_match_from_mentions(b, pred, mode, targets[0], 0);
        lemma_target_removal_mentions(b, pred, mode, targets.drop_first());
    }
}

proof fn lemma_first_removal_mentions(
    t: Seq<char>,
    ranges: Seq<(int, int)>,
    pred: Seq<char>,
    mode: u8,
    targets: Seq<Seq<char>>,
)
    ensures
        crate::edit::first_removal(t, ranges, pred, mode, targets) is Some ==> exists|k: int|
            0 <= k < ranges.len() && crate::text::contains(#[trigger] t.subrange(ranges[k].0, ranges[k].1), pred),
    decreases ranges.len(),
{
    if ranges.len() > 0 {
        lemma_target_removal_mentions(t.subrange(ranges[0].0, ranges[0].1), pred, mode, targets);
        lemma_first_removal_mentions(t, ranges.drop_first(), pred, mode, targets);
        if crate::edit::first_removal(t, ranges.drop_first(), pred, mode, targets) is Some
            && crate::edit::first_target_removal(t.subrange(ranges[0].0, ranges[0].1), pred, mode, targets) is None {
            let k = choose|k: int|
                0 <= k < ranges.drop_first().len() && crate::text::contains(
                    #[trigger] t.subrange(ranges.drop_first()[k].0, ranges.drop_first()[k].1),
                    pred,
                );
            assert(ranges.drop_first()[k] == ranges[k + 1]);
            assert(crate::text::contains(t.subrange(ranges[k + 1].0, ranges[k + 1].1), pred));
        }
    }
}

/// Law: a patch that removes a triple with a fixed predicate (`fixed_removal_patch`:
/// `RemoveDomain` with `rdfs:domain`, `RemoveRange` with `rdfs:range`, `RemoveLabel` with
/// `rdfs:label`, and so on) succeeds only when one of the subject's statements holds that
/// predicate.
#[verifier::spinoff_prover]
#[verifier::rlimit(50)]
pub proof fn law_remove_patches_need_their_predicate(t: Seq<char>, op: PatchOp, ns: Seq<(Seq<char>, Seq<char>)>)
    requires
        fixed_removal_patch(op) is Some,
    ensures
        step_spec(t, op, ns) is Ok ==> statement_mentions(
            t,
            fixed_removal_patch(op)->Some_0.0,
            fixed_removal_patch(op)->Some_0.1,
            ns,
        ),
{
    reveal(step_spec);
    let (sj, pd) = fixed_removal_patch(op)->Some_0;
    let ranges = crate::span::entity_ranges(t, sj, namespaces_for(t, ns));
    let tg = match op {
        PatchOp::RemoveLabel { value, .. } => seq![crate::literal::normalize_ws(crate::edit::bare_value(value@))],
        PatchOp::RemoveComment { value, .. } => seq![crate::literal::normalize_ws(crate::edit::bare_value(value@))],
        PatchOp::RemoveSubClassOf { parent_iri, .. } => crate::edit::form_targets(
            crate::edit::term_forms(parent_iri@, namespaces_for(t, ns)),
        ),
        PatchOp::RemoveDisjointClass { other_iri, .. } => crate::edit::form_targets(
            crate::edit::term_forms(other_iri@, namespaces_for(t, ns)),
        ),
        PatchOp::RemoveImport { import_iri, .. } => crate::edit::form_targets(
            crate::edit::term_forms(import_iri@, namespaces_for(t, ns)),
        ),
        PatchOp::RemoveDomain { class_iri, .. } => crate::edit::form_targets(
            crate::edit::term_forms(class_iri@, namespaces_for(t, ns)),
        ),
        PatchOp::RemoveRange { range_iri, .. } => crate::edit::form_targets(
            crate::edit::term_forms(range_iri@, namespaces_for(t, ns)),
        ),
        PatchOp::RemoveInverseObjectProperties { inverse_iri, .. } => crate::edit::form_targets(
            crate::edit::term_forms(inverse_iri@, namespaces_for(t, ns)),
        ),
        PatchOp::RemoveSubObjectPropertyOf { parent_iri, .. } => crate::edit::form_targets(
            crate::edit::term_forms(parent_iri@, namespaces_for(t, ns)),
        ),
        PatchOp::RemoveSubDataPropertyOf { parent_iri, .. } => crate::edit::form_targets(
            crate::edit::term_forms(parent_iri@, namespaces_for(t, ns)),
        ),
        _ => Seq::empty(),
    };
    let mode: u8 = match op {
        PatchOp::RemoveLabel { .. } => 1u8,
        PatchOp::RemoveComment { .. } => 1u8,
        _ => 0u8,
    };
    lemma_first_removal_mentions(t, ranges, pd, mode, tg);
}

/// Law: applying `AddSwrlRule` and then `RemoveSwrlRule` with the same ontology IRI and rule
/// (`apply_one_patch`, one after the other) gives back the document byte for byte, under the
/// conditions of `law_swrl_add_then_remove`.
pub proof fn law_swrl_patch_round_trip(
    t: Seq<char>,
    ontology_iri: String,
    rule_json: String,
    ns: Seq<(Seq<char>, Seq<char>)>,
)
    requires
        t.len() > 0,
        t.last() == '\n',
        forall|k: int| 0 <= k < t.len() ==> t[k] != '\r',
        no_rule_line(t, ontology_iri@),
        crate::iri::safe_iri(ontology_iri@),
        ontology_iri@ != swrl_pred(),
        json_compacted(rule_json@) is Ok,
        plain_ascii(json_compacted(rule_json@)->Ok_0),
        !crate::text::contains(crate::literal::escape_turtle(json_compacted(rule_json@)->Ok_0), swrl_pred_term()),
        json_values_equal(rule_json@, json_compacted(rule_json@)->Ok_0) != Some(false),
    ensures
        match step_spec(t, PatchOp::AddSwrlRule { ontology_iri, rule_json }, ns) {
            Ok(t2) => step_spec(t2, PatchOp::RemoveSwrlRule { ontology_iri, rule_json }, ns) == Ok::<
                Seq<char>,
                (ErrKind, Seq<char>),
            >(t),
            Err(_) => false,
        },
{
    reveal(step_spec);
    law_swrl_add_then_remove(t, ontology_iri@, rule_json@);
}

pub fn apply_one_patch(text: &[char], patch: &PatchOp, namespaces: &Namespaces) -> (r: Result<Vec<char>, OwlError>)
    ensures
        outcome(r) == step_spec(text@, *patch, namespaces@),
{
    reveal(step_spec);
    let t = text;
    let ns = namespaces;
    match patch {
        PatchOp::AddPrefix { prefix, namespace_iri } => {
            let p = chars_of(prefix.as_str());
            let n = chars_of(namespace_iri.as_str());
            add_prefix_exec(t, p.as_slice(), n.as_slice())
        },
        PatchOp::RemovePrefix { prefix } => {
            let p = chars_of(prefix.as_str());
            remove_prefix_exec(t, p.as_slice())
        },
        PatchOp::SetPrefix { prefix, namespace_iri } => {
            let p = chars_of(prefix.as_str());
            let n = chars_of(namespace_iri.as_str());
            set_prefix_exec(t, p.as_slice(), n.as_slice())
        },
        PatchOp::SetOntologyIri { ontology_iri } => {
            let o = chars_of(ontology_iri.as_str());
            set_ontology_iri_exec(t, o.as_slice())
        },
        PatchOp::SetVersionIri { ontology_iri, version_iri } => {
            let o = chars_of(ontology_iri.as_str());
            let v = chars_of(version_iri.as_str());
            let t1 = remove_all_str(t, o.as_slice(), "owl:versionIRI", ns);
            add_iri_object_exec(t1.as_slice(), o.as_slice(), "owl:versionIRI", v.as_slice(), ns)
        },
        PatchOp::AddOntologyAnnotation { ontology_iri, predicate, value } => {
            let o = chars_of(ontology_iri.as_str());
            let p = chars_of(predicate.as_str());
            let v = chars_of(value.as_str());
            add_annotation_exec(t, o.as_slice(), p.as_slice(), v.as_slice(), ns)
        },
        PatchOp::RemoveOntologyAnnotation { ontology_iri, predicate, value } => {
            let o = chars_of(ontology_iri.as_str());
            let p = chars_of(predicate.as_str());
            let v = chars_of(value.as_str());
            remove_annotation_exec(t, o.as_slice(), p.as_slice(), v.as_slice(), ns)
        },
        PatchOp::CreateEntity { entity_iri, kind } => {
            let e = chars_of(entity_iri.as_str());
            let k = kind_term_exec(*kind);
            create_exec(t, e.as_slice(), k.as_slice(), ns)
        },
        PatchOp::DeleteEntity { entity_iri } => {
            let e = chars_of(entity_iri.as_str());
            delete_exec(t, e.as_slice(), ns)
        },
        PatchOp::SetLabel { entity_iri, value } => {
            let e = chars_of(entity_iri.as_str());
            let v = chars_of(value.as_str());
            let t1 = remove_all_str(t, e.as_slice(), "rdfs:label", ns);
            add_literal_str(t1.as_slice(), e.as_slice(), "rdfs:label", v.as_slice(), ns, true)
        },
        PatchOp::AddLabel { entity_iri, value } => {
            let e = chars_of(entity_iri.as_str());
            let v = chars_of(value.as_str());
            add_literal_str(t, e.as_slice(), "rdfs:label", v.as_slice(), ns, true)
        },
        PatchOp::RemoveLabel { entity_iri, value } => {
            let e = chars_of(entity_iri.as_str());
            let v = chars_of(value.as_str());
            remove_literal_str(t, e.as_slice(), "rdfs:label", v.as_slice(), ns)
        },
        PatchOp::SetComment { entity_iri, value } => {
            let e = chars_of(entity_iri.as_str());
            let v = chars_of(value.as_str());
            let t1 = remove_all_str(t, e.as_slice(), "rdfs:comment", ns);
            add_literal_str(t1.as_slice(), e.as_slice(), "rdfs:comment", v.as_slice(), ns, true)
        },
        PatchOp::AddComment { entity_iri, value } => {
            let e = chars_of(entity_iri.as_str());
            let v = chars_of(value.as_str());
            add_literal_str(t, e.as_slice(), "rdfs:comment", v.as_slice(), ns, true)
        },
        PatchOp::RemoveComment { entity_iri, value } => {
            let e = chars_of(entity_iri.as_str());
            let v = chars_of(value.as_str());
            remove_literal_str(t, e.as_slice(), "rdfs:comment", v.as_slice(), ns)
        },
        PatchOp::AddSubClassOf { entity_iri, parent_iri } => {
            let e = chars_of(entity_iri.as_str());
            let p = chars_of(parent_iri.as_str());
            add_iri_object_exec(t, e.as_slice(), "rdfs:subClassOf", p.as_slice(), ns)
        },
        PatchOp::RemoveSubClassOf { entity_iri, parent_iri } => {
            let e = chars_of(entity_iri.as_str());
            let p = chars_of(parent_iri.as_str());
            remove_iri_object_str(t, e.as_slice(), "rdfs:subClassOf", p.as_slice(), ns)
        },
        PatchOp::SetDeprecated { entity_iri, value } => {
            let e = chars_of(entity_iri.as_str());
            if *value {
                let p = chars_of("owl:deprecated");
                let o = chars_of("true");
                add_object_exec(t, e.as_slice(), p.as_slice(), o.as_slice(), ns)
            } else {
                Ok(remove_all_str(t, e.as_slice(), "owl:deprecated", ns))
            }
        },
        PatchOp::AddDisjointClass { entity_iri, other_iri } => {
            let e = chars_of(entity_iri.as_str());
            let o = chars_of(other_iri.as_str());
            add_iri_object_exec(t, e.as_slice(), "owl:disjointWith", o.as_slice(), ns)
        },
        PatchOp::RemoveDisjointClass { entity_iri, other_iri } => {
            let e = chars_of(entity_iri.as_str());
            let o = chars_of(other_iri.as_str());
            remove_iri_object_str(t, e.as_slice(), "owl:disjointWith", o.as_slice(), ns)
        },
        PatchOp::AddImport { ontology_iri, import_iri } => {
            let e = chars_of(ontology_iri.as_str());
            let o = chars_of(import_iri.as_str());
            add_iri_object_exec(t, e.as_slice(), "owl:imports", o.as_slice(), ns)
        },
        PatchOp::RemoveImport { ontology_iri, import_iri } => {
            let e = chars_of(ontology_iri.as_str());
            let o = chars_of(import_iri.as_str());
            remove_iri_object_str(t, e.as_slice(), "owl:imports", o.as_slice(), ns)
        },
        PatchOp::AddDomain { entity_iri, class_iri } => {
            let e = chars_of(entity_iri.as_str());
            let o = chars_of(class_iri.as_str());
            add_iri_object_exec(t, e.as_slice(), "rdfs:domain", o.as_slice(), ns)
        },
        PatchOp::RemoveDomain { entity_iri, class_iri } => {
            let e = chars_of(entity_iri.as_str());
            let o = chars_of(class_iri.as_str());
            remove_iri_object_str(t, e.as_slice(), "rdfs:domain", o.as_slice(), ns)
        },
        PatchOp::AddRange { entity_iri, range_iri } => {
            let e = chars_of(entity_iri.as_str());
            let o = chars_of(range_iri.as_str());
            add_iri_object_exec(t, e.as_slice(), "rdfs:range", o.as_slice(), ns)
        },
        PatchOp::RemoveRange { entity_iri, range_iri } => {
            let e = chars_of(entity_iri.as_str());
            let o = chars_of(range_iri.as_str());
            remove_iri_object_str(t, e.as_slice(), "rdfs:range", o.as_slice(), ns)
        },
        PatchOp::SetFunctional { entity_iri, value } => {
            let e = chars_of(entity_iri.as_str());
            set_characteristic_exec(t, e.as_slice(), "owl:FunctionalProperty", *value, ns)
        },
        PatchOp::SetInverseFunctional { entity_iri, value } => {
            let e = chars_of(entity_iri.as_str());
            set_characteristic_exec(t, e.as_slice(), "owl:InverseFunctionalProperty", *value, ns)
        },
        PatchOp::SetTransitive { entity_iri, value } => {
            let e = chars_of(entity_iri.as_str());
            set_characteristic_exec(t, e.as_slice(), "owl:TransitiveProperty", *value, ns)
        },
        PatchOp::SetSymmetric { entity_iri, value } => {
            let e = chars_of(entity_iri.as_str());
            set_characteristic_exec(t, e.as_slice(), "owl:SymmetricProperty", *value, ns)
        },
        PatchOp::SetAsymmetric { entity_iri, value } => {
            let e = chars_of(entity_iri.as_str());
            set_characteristic_exec(t, e.as_slice(), "owl:AsymmetricProperty", *value, ns)
        },
        PatchOp::SetReflexive { entity_iri, value } => {
            let e = chars_of(entity_iri.as_str());
            set_characteristic_exec(t, e.as_slice(), "owl:ReflexiveProperty", *value, ns)
        },
        PatchOp::SetIrreflexive { entity_iri, value } => {
            let e = chars_of(entity_iri.as_str());
            set_characteristic_exec(t, e.as_slice(), "owl:IrreflexiveProperty", *value, ns)
        },
        PatchOp::AddPropertyChain { entity_iri, properties } => {
            let e = chars_of(entity_iri.as_str());
            let ps = char_lists(properties);
            add_chain_exec(t, e.as_slice(), &ps, ns)
        },
        PatchOp::RemovePropertyChain { entity_iri, properties } => {
            let e = chars_of(entity_iri.as_str());
            let ps = char_lists(properties);
            remove_chain_exec(t, e.as_slice(), &ps, ns)
        },
        PatchOp::AddClassAssertion { entity_iri, class_iri } => {
            let e = chars_of(entity_iri.as_str());
            let c = chars_of(class_iri.as_str());
            match iri_to_turtle_term(c.as_slice(), ns) {
                Err(x) => Err(x),
                Ok(ct) => add_type_exec(t, e.as_slice(), ct.as_slice(), ns),
            }
        },
        PatchOp::RemoveClassAssertion { entity_iri, class_iri } => {
            let e = chars_of(entity_iri.as_str());
            let c = chars_of(class_iri.as_str());
            remove_type_iri_exec(t, e.as_slice(), c.as_slice(), ns)
        },
        PatchOp::AddObjectPropertyAssertion { entity_iri, property_iri, target_iri } => {
            let e = chars_of(entity_iri.as_str());
            let p = chars_of(property_iri.as_str());
            let g = chars_of(target_iri.as_str());
            match iri_to_turtle_term(p.as_slice(), ns) {
                Err(x) => Err(x),
                Ok(pt) => {
                    let gt = match iri_to_turtle_term(g.as_slice(), ns) {
                        Err(x) => {
                            return Err(x);
                        },
                        Ok(gt) => gt,
                    };
                    add_object_exec(t, e.as_slice(), pt.as_slice(), gt.as_slice(), ns)
                },
            }
        },
        PatchOp::RemoveObjectPropertyAssertion { entity_iri, property_iri, target_iri } => {
            let e = chars_of(entity_iri.as_str());
            let p = chars_of(property_iri.as_str());
            let g = chars_of(target_iri.as_str());
            match iri_to_turtle_term(p.as_slice(), ns) {
                Err(x) => Err(x),
                Ok(pt) => remove_iri_object_exec(t, e.as_slice(), pt.as_slice(), g.as_slice(), ns),
            }
        },
        PatchOp::AddDataPropertyAssertion { entity_iri, property_iri, value } => {
            let e = chars_of(entity_iri.as_str());
            let p = chars_of(property_iri.as_str());
            let v = chars_of(value.as_str());
            match iri_to_turtle_term(p.as_slice(), ns) {
                Err(x) => Err(x),
                Ok(pt) => add_literal_exec(t, e.as_slice(), pt.as_slice(), v.as_slice(), ns, false),
            }
        },
        PatchOp::RemoveDataPropertyAssertion { entity_iri, property_iri, value } => {
            let e = chars_of(entity_iri.as_str());
            let p = chars_of(property_iri.as_str());
            let v = chars_of(value.as_str());
            match iri_to_turtle_term(p.as_slice(), ns) {
                Err(x) => Err(x),
                Ok(pt) => remove_literal_exec(t, e.as_slice(), pt.as_slice(), v.as_slice(), ns),
            }
        },
        PatchOp::AddAnnotation { entity_iri, predicate, value } => {
            let e = chars_of(entity_iri.as_str());
            let p = chars_of(predicate.as_str());
            let v = chars_of(value.as_str());
            add_annotation_exec(t, e.as_slice(), p.as_slice(), v.as_slice(), ns)
        },
        PatchOp::RemoveAnnotation { entity_iri, predicate, value } => {
            let e = chars_of(entity_iri.as_str());
            let p = chars_of(predicate.as_str());
            let v = chars_of(value.as_str());
            remove_annotation_exec(t, e.as_slice(), p.as_slice(), v.as_slice(), ns)
        },
        PatchOp::AddHasKey { class_iri, properties } => {
            let c = chars_of(class_iri.as_str());
            let ps = char_lists(properties);
            add_list_exec(t, c.as_slice(), "owl:hasKey", &ps, ns)
        },
        PatchOp::RemoveHasKey { class_iri, properties } => {
            let c = chars_of(class_iri.as_str());
            let ps = char_lists(properties);
            remove_list_exec(t, c.as_slice(), "owl:hasKey", &ps, ns)
        },
        PatchOp::AddDisjointUnion { class_iri, members } => {
            let c = chars_of(class_iri.as_str());
            let ps = char_lists(members);
            add_list_exec(t, c.as_slice(), "owl:disjointUnionOf", &ps, ns)
        },
        PatchOp::RemoveDisjointUnion { class_iri, members } => {
            let c = chars_of(class_iri.as_str());
            let ps = char_lists(members);
            remove_list_exec(t, c.as_slice(), "owl:disjointUnionOf", &ps, ns)
        },
        PatchOp::AddInverseObjectProperties { property_iri, inverse_iri } => {
            let p = chars_of(property_iri.as_str());
            let i = chars_of(inverse_iri.as_str());
            add_iri_object_exec(t, p.as_slice(), "owl:inverseOf", i.as_slice(), ns)
        },
        PatchOp::RemoveInverseObjectProperties { property_iri, inverse_iri } => {
            let p = chars_of(property_iri.as_str());
            let i = chars_of(inverse_iri.as_str());
            remove_iri_object_str(t, p.as_slice(), "owl:inverseOf", i.as_slice(), ns)
        },
        PatchOp::AddEquivalentObjectProperties { properties } => {
            let ps = char_lists(properties);
            add_pairwise_exec(t, &ps, "owl:equivalentProperty", ns)
        },
        PatchOp::RemoveEquivalentObjectProperties { properties } => {
            let ps = char_lists(properties);
            remove_pairwise_exec(t, &ps, "owl:equivalentProperty", ns)
        },
        PatchOp::AddDisjointObjectProperties { properties } => {
            let ps = char_lists(properties);
            add_pairwise_exec(t, &ps, "owl:propertyDisjointWith", ns)
        },
        PatchOp::RemoveDisjointObjectProperties { properties } => {
            let ps = char_lists(properties);
            remove_pairwise_exec(t, &ps, "owl:propertyDisjointWith", ns)
        },
        PatchOp::AddEquivalentDataProperties { properties } => {
            let ps = char_lists(properties);
            add_pairwise_exec(t, &ps, "owl:equivalentProperty", ns)
        },
        PatchOp::RemoveEquivalentDataProperties { properties } => {
            let ps = char_lists(properties);
            remove_pairwise_exec(t, &ps, "owl:equivalentProperty", ns)
        },
        PatchOp::AddDisjointDataProperties { properties } => {
            let ps = char_lists(properties);
            add_pairwise_exec(t, &ps, "owl:propertyDisjointWith", ns)
        },
        PatchOp::RemoveDisjointDataProperties { properties } => {
            let ps = char_lists(properties);
            remove_pairwise_exec(t, &ps, "owl:propertyDisjointWith", ns)
        },
        PatchOp::AddSubObjectPropertyOf { property_iri, parent_iri } => {
            let p = chars_of(property_iri.as_str());
            let q = chars_of(parent_iri.as_str());
            add_iri_object_exec(t, p.as_slice(), "rdfs:subPropertyOf", q.as_slice(), ns)
        },
        PatchOp::RemoveSubObjectPropertyOf { property_iri, parent_iri } => {
            let p = chars_of(property_iri.as_str());
            let q = chars_of(parent_iri.as_str());
            remove_iri_object_str(t, p.as_slice(), "rdfs:subPropertyOf", q.as_slice(), ns)
        },
        PatchOp::AddSubDataPropertyOf { property_iri, parent_iri } => {
            let p = chars_of(property_iri.as_str());
            let q = chars_of(parent_iri.as_str());
            add_iri_object_exec(t, p.as_slice(), "rdfs:subPropertyOf", q.as_slice(), ns)
        },
        PatchOp::RemoveSubDataPropertyOf { property_iri, parent_iri } => {
            let p = chars_of(property_iri.as_str());
            let q = chars_of(parent_iri.as_str());
            remove_iri_object_str(t, p.as_slice(), "rdfs:subPropertyOf", q.as_slice(), ns)
        },
        PatchOp::AddNegativeObjectPropertyAssertion { entity_iri, property_iri, target_iri } => {
            let e = chars_of(entity_iri.as_str());
            let p = chars_of(property_iri.as_str());
            let g = chars_of(target_iri.as_str());
            add_npa_object_exec(t, e.as_slice(), p.as_slice(), g.as_slice(), ns)
        },
        PatchOp::RemoveNegativeObjectPropertyAssertion { entity_iri, property_iri, target_iri } => {
            let e = chars_of(entity_iri.as_str());
            let p = chars_of(property_iri.as_str());
            let g = chars_of(target_iri.as_str());
            let empty: Vec<char> = Vec::new();
            assert(empty@ =~= Seq::<char>::empty());
            remove_npa_exec(t, e.as_slice(), p.as_slice(), Some(g.as_slice()), empty.as_slice(), ns)
        },
        PatchOp::AddNegativeDataPropertyAssertion { entity_iri, property_iri, value } => {
            let e = chars_of(entity_iri.as_str());
            let p = chars_of(property_iri.as_str());
            let v = chars_of(value.as_str());
            add_npa_data_exec(t, e.as_slice(), p.as_slice(), v.as_slice(), ns)
        },
        PatchOp::RemoveNegativeDataPropertyAssertion { entity_iri, property_iri, value } => {
            let e = chars_of(entity_iri.as_str());
            let p = chars_of(property_iri.as_str());
            let v = chars_of(value.as_str());
            remove_npa_exec(t, e.as_slice(), p.as_slice(), None, v.as_slice(), ns)
        },
        PatchOp::AddSameIndividual { individuals } => {
            let ps = char_lists(individuals);
            windows_exec(t, &ps, "owl:sameAs", ns, true)
        },
        PatchOp::RemoveSameIndividual { individuals } => {
            let ps = char_lists(individuals);
            windows_exec(t, &ps, "owl:sameAs", ns, false)
        },
        PatchOp::AddDifferentIndividuals { individuals } => {
            let ps = char_lists(individuals);
            add_different_exec(t, &ps, ns)
        },
        PatchOp::RemoveDifferentIndividuals { individuals } => {
            let ps = char_lists(individuals);
            remove_different_exec(t, &ps, ns)
        },
        PatchOp::AddAxiomAnnotation { axiom_op, subject_iri, related_iri, predicate, value } => {
            let o = chars_of(axiom_op.as_str());
            let s = chars_of(subject_iri.as_str());
            let rel = opt_chars(related_iri);
            let p = chars_of(predicate.as_str());
            let v = chars_of(value.as_str());
            let relr: Option<&[char]> = match &rel {
                Some(x) => Some(x.as_slice()),
                None => None,
            };
            add_axiom_annotation_exec(t, o.as_slice(), s.as_slice(), relr, p.as_slice(), v.as_slice(), ns)
        },
        PatchOp::RemoveAxiomAnnotation { axiom_op, subject_iri, related_iri, predicate, value } => {
            let o = chars_of(axiom_op.as_str());
            let s = chars_of(subject_iri.as_str());
            let rel = opt_chars(related_iri);
            let p = chars_of(predicate.as_str());
            let v = chars_of(value.as_str());
            let relr: Option<&[char]> = match &rel {
                Some(x) => Some(x.as_slice()),
                None => None,
            };
            remove_axiom_annotation_exec(t, o.as_slice(), s.as_slice(), relr, p.as_slice(), v.as_slice(), ns)
        },
        PatchOp::AddSwrlRule { ontology_iri, rule_json } => {
            let o = chars_of(ontology_iri.as_str());
            let r = chars_of(rule_json.as_str());
            add_swrl_exec(t, o.as_slice(), r.as_slice())
        },
        PatchOp::RemoveSwrlRule { ontology_iri, rule_json } => {
            let o = chars_of(ontology_iri.as_str());
            let r = chars_of(rule_json.as_str());
            remove_swrl_exec(t, o.as_slice(), r.as_slice())
        },
        PatchOp::ReplaceSwrlRule { ontology_iri, old_rule_json, new_rule_json } => {
            let o = chars_of(ontology_iri.as_str());
            let a = chars_of(old_rule_json.as_str());
            let b = chars_of(new_rule_json.as_str());
            match remove_swrl_exec(t, o.as_slice(), a.as_slice()) {
                Err(x) => Err(x),
                Ok(t1) => add_swrl_exec(t1.as_slice(), o.as_slice(), b.as_slice()),
            }
        },
        PatchOp::AddComplexSubClassOf { entity_iri, manchester } => {
            let e = chars_of(entity_iri.as_str());
            add_complex_exec(t, e.as_slice(), manchester.as_str(), "rdfs:subClassOf", ns)
        },
        PatchOp::RemoveComplexSubClassOf { entity_iri, manchester } => {
            let e = chars_of(entity_iri.as_str());
            remove_complex_exec(t, e.as_slice(), manchester.as_str(), "rdfs:subClassOf", ns)
        },
        PatchOp::AddEquivalentClass { entity_iri, manchester } => {
            let e = chars_of(entity_iri.as_str());
            add_complex_exec(t, e.as_slice(), manchester.as_str(), "owl:equivalentClass", ns)
        },
        PatchOp::RemoveEquivalentClass { entity_iri, manchester } => {
            let e = chars_of(entity_iri.as_str());
            remove_complex_exec(t, e.as_slice(), manchester.as_str(), "owl:equivalentClass", ns)
        },
        PatchOp::SetEquivalentClass { entity_iri, manchester } => {
            let e = chars_of(entity_iri.as_str());
            let t1 = remove_all_str(t, e.as_slice(), "owl:equivalentClass", ns);
            add_complex_exec(t1.as_slice(), e.as_slice(), manchester.as_str(), "owl:equivalentClass", ns)
        },
        PatchOp::AddDatatypeDefinition { datatype_iri, manchester } => {
            let d = chars_of(datatype_iri.as_str());
            add_datatype_def_exec(t, d.as_slice(), manchester.as_str(), ns)
        },
        PatchOp::RemoveDatatypeDefinition { datatype_iri, manchester } => {
            let d = chars_of(datatype_iri.as_str());
            remove_datatype_def_exec(t, d.as_slice(), manchester.as_str(), ns)
        },
    }
}

/// The text after the first `k` operations of a batch, or the first failure.
pub open spec fn run_upto(t: Seq<char>, ps: Seq<PatchOp>, k: int, ns: Seq<(Seq<char>, Seq<char>)>) -> Outcome
    decreases k,
{
    if k <= 0 || k > ps.len() {
        Ok(t)
    } else {
        match run_upto(t, ps, k - 1, ns) {
            Err(e) => Err(e),
            Ok(w) => step_spec(w, ps[k - 1], ns),
        }
    }
}

/// The text after a whole batch, or the first failure.
pub open spec fn run(t: Seq<char>, ps: Seq<PatchOp>, ns: Seq<(Seq<char>, Seq<char>)>) -> Outcome {
    run_upto(t, ps, ps.len() as int, ns)
}

/// Heading of an error of kind `k`.
pub open spec fn kind_heading(k: ErrKind) -> Seq<char> {
    match k {
        ErrKind::UnsupportedFormat => "unsupported format for write-back: "@,
        ErrKind::PatchInvalid => "patch validation failed: "@,
        ErrKind::EntityNotFound => "entity not found: "@,
        ErrKind::EntityExists => "entity already exists: "@,
        ErrKind::LoadFailed => "Horned-OWL load failed: "@,
        ErrKind::SerializeFailed => "Horned-OWL serialize failed: "@,
        ErrKind::Io => "IO error: "@,
        ErrKind::Store => "store error: "@,
        ErrKind::ManchesterInvalid => "invalid Manchester expression: "@,
    }
}

/// What a batch reports: whether it was applied, the preview text, and the diagnostics as
/// (severity, message) pairs.
pub struct BatchReport {
    pub applied: bool,
    pub preview: Option<Seq<char>>,
    pub diagnostics: Seq<(Seq<char>, Seq<char>)>,
}

/// `apply_patches_to_text`: a failing batch reports its first error and previews the source
/// unchanged; a successful one previews the new text when it differs from the source, and is
/// applied when it changed something and was not a preview.
pub open spec fn batch_report(
    source: Seq<char>,
    ps: Seq<PatchOp>,
    preview_only: bool,
    ns: Seq<(Seq<char>, Seq<char>)>,
) -> BatchReport {
    match run(source, ps, ns) {
        Err((k, d)) => BatchReport {
            applied: false,
            preview: Some(source),
            diagnostics: seq![("error"@, kind_heading(k) + d)],
        },
        Ok(w) => BatchReport {
            applied: w != source && !preview_only,
            preview: if w != source { Some(w) } else { None },
            diagnostics: Seq::empty(),
        },
    }
}

/// A result as a report.
pub open spec fn report_of(r: ApplyPatchResult) -> BatchReport {
    BatchReport {
        applied: r.applied,
        preview: match r.preview_text {
            Some(p) => Some(p@),
            None => None,
        },
        diagnostics: r.diagnostics@.map_values(|d: PatchDiagnostic| (d.severity@, d.message@)),
    }
}

fn error_diagnostic(e: &OwlError) -> (r: PatchDiagnostic)
    ensures
        r.severity@ == "error"@,
        r.message@ == kind_heading(err_of(*e).0) + err_of(*e).1,
{
    let m = e.message();
    PatchDiagnostic { severity: string_from(chars_of("error").as_slice()), message: m }
}

/// Apply a batch of operations to in-memory Turtle text (`apply_patches_to_text`). The batch is
/// all-or-nothing: the first failing operation stops it and nothing of it is kept.
pub fn apply_patches_to_text(
    source: &str,
    patches: &[PatchOp],
    preview_only: bool,
    namespaces: &Namespaces,
) -> (r: Result<ApplyPatchResult, OwlError>)
    ensures
        r matches Ok(res) && report_of(res) == batch_report(source@, patches@, preview_only, namespaces@)
            && res.document_path is None,
{
    let src = chars_of(source);
    let mut working = chars_of(source);
    let mut k: usize = 0;
    while k < patches.len()
        invariant
            src@ == source@,
            0 <= k <= patches.len(),
            run_upto(source@, patches@, k as int, namespaces@) == Ok::<Seq<char>, (ErrKind, Seq<char>)>(
                working@,
            ),
        decreases patches.len() - k,
    {
        match apply_one_patch(working.as_slice(), &patches[k], namespaces) {
            Ok(w) => {
                working = w;
            },
            Err(e) => {
                proof {
                    lemma_run_err(source@, patches@, k + 1, patches.len() as int, namespaces@);
                }
                let d = error_diagnostic(&e);
                let mut diagnostics: Vec<PatchDiagnostic> = Vec::new();
                diagnostics.push(d);
                let res = ApplyPatchResult {
                    applied: false,
                    preview_text: Some(string_from(src.as_slice())),
                    diagnostics,
                    document_path: None,
                };
                assert(report_of(res).diagnostics =~= seq![("error"@, kind_heading(err_of(e).0) + err_of(e).1)]);
                return Ok(res);
            },
        }
        k += 1;
    }
    let changed = !seq_eq(working.as_slice(), src.as_slice());
    let diagnostics: Vec<PatchDiagnostic> = Vec::new();
    let res = ApplyPatchResult {
        applied: changed && !preview_only,
        preview_text: if changed { Some(string_from(working.as_slice())) } else { None },
        diagnostics,
        document_path: None,
    };
    assert(report_of(res).diagnostics =~= Seq::<(Seq<char>, Seq<char>)>::empty());
    Ok(res)
}

pub proof fn lemma_run_err(t: Seq<char>, ps: Seq<PatchOp>, k: int, m: int, ns: Seq<(Seq<char>, Seq<char>)>)
    requires
        0 <= k <= m <= ps.len(),
        run_upto(t, ps, k, ns) is Err,
    ensures
        run_upto(t, ps, m, ns) == run_upto(t, ps, k, ns),
    decreases m - k,
{
    if m > k {
        lemma_run_err(t, ps, k, m - 1, ns);
    }
}

/// A preview-only batch is never applied.
pub proof fn law_preview_is_never_applied(
    source: Seq<char>,
    ps: Seq<PatchOp>,
    ns: Seq<(Seq<char>, Seq<char>)>,
)
    ensures
        !batch_report(source, ps, true, ns).applied,
{
}

/// Whether a batch is a preview changes only whether it is applied: the preview text and the
/// diagnostics are the same.
pub proof fn law_preview_matches_application(
    source: Seq<char>,
    ps: Seq<PatchOp>,
    ns: Seq<(Seq<char>, Seq<char>)>,
)
    ensures
        batch_report(source, ps, true, ns).preview == batch_report(source, ps, false, ns).preview,
        batch_report(source, ps, true, ns).diagnostics == batch_report(
            source,
            ps,
            false,
            ns,
        ).diagnostics,
{
}

/// A batch with a failing operation is all-or-nothing: it is not applied, its preview is the
/// source unchanged, and it reports exactly one error.
pub proof fn law_failed_batch_keeps_source(
    source: Seq<char>,
    ps: Seq<PatchOp>,
    preview_only: bool,
    ns: Seq<(Seq<char>, Seq<char>)>,
)
    requires
        run(source, ps, ns) is Err,
    ensures
        !batch_report(source, ps, preview_only, ns).applied,
        batch_report(source, ps, preview_only, ns).preview == Some(source),
        batch_report(source, ps, preview_only, ns).diagnostics.len() == 1,
        batch_report(source, ps, preview_only, ns).diagnostics[0].0 == "error"@,
{
}

/// A batch is applied exactly when all its operations succeed, the text changed, and it is
/// not a preview; a successful batch reports no diagnostics.
pub proof fn law_applied_iff_changed(
    source: Seq<char>,
    ps: Seq<PatchOp>,
    preview_only: bool,
    ns: Seq<(Seq<char>, Seq<char>)>,
)
    ensures
        batch_report(source, ps, preview_only, ns).applied <==> (run(source, ps, ns) matches Ok(w)
            && w != source && !preview_only),
        run(source, ps, ns) is Ok ==> batch_report(source, ps, preview_only, ns).diagnostics.len()
            == 0,
{
}

/// An empty batch changes nothing and reports nothing.
pub proof fn law_empty_batch(source: Seq<char>, preview_only: bool, ns: Seq<(Seq<char>, Seq<char>)>)
    ensures
        batch_report(source, Seq::empty(), preview_only, ns) == (BatchReport {
            applied: false,
            preview: None,
            diagnostics: Seq::empty(),
        }),
{
    assert(batch_report(source, Seq::empty(), preview_only, ns).diagnostics =~= Seq::empty());
}

/// Running two batches one after the other is running their concatenation.
pub proof fn law_batches_compose(
    t: Seq<char>,
    a: Seq<PatchOp>,
    b: Seq<PatchOp>,
    ns: Seq<(Seq<char>, Seq<char>)>,
)
    ensures
        run(t, a + b, ns) == match run(t, a, ns) {
            Err(e) => Err(e),
            Ok(w) => run(w, b, ns),
        },
{
    lemma_run_concat(t, a, b, b.len() as int, ns);
    if run(t, a, ns) is Err {
        lemma_run_prefix(t, a, b, a.len() as int, ns);
        lemma_run_err(t, a + b, a.len() as int, (a + b).len() as int, ns);
    }
}

proof fn lemma_run_prefix(t: Seq<char>, a: Seq<PatchOp>, b: Seq<PatchOp>, k: int, ns: Seq<(Seq<char>, Seq<char>)>)
    requires
        0 <= k <= a.len(),
    ensures
        run_upto(t, a + b, k, ns) == run_upto(t, a, k, ns),
    decreases k,
{
    if k > 0 {
        lemma_run_prefix(t, a, b, k - 1, ns);
        assert((a + b)[k - 1] == a[k - 1]);
    }
}

proof fn lemma_run_concat(t: Seq<char>, a: Seq<PatchOp>, b: Seq<PatchOp>, k: int, ns: Seq<(Seq<char>, Seq<char>)>)
    requires
        0 <= k <= b.len(),
    ensures
        run(t, a, ns) matches Ok(w) ==> run_upto(t, a + b, a.len() + k, ns) == run_upto(w, b, k, ns),
    decreases k,
{
    if k == 0 {
        lemma_run_prefix(t, a, b, a.len() as int, ns);
    } else {
        lemma_run_concat(t, a, b, k - 1, ns);
        assert((a + b)[a.len() + k - 1] == b[k - 1]);
    }
}

} // verus!
