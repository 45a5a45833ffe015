//! IRIs of the OWL, RDF Schema and RDF vocabulary terms the parser recognises.
use vstd::prelude::*;

verus! {

/// Terms of the OWL vocabulary.
pub struct OWL;

impl OWL {
    pub fn class() -> (r: &'static str)
        ensures
            r@ == "http://www.w3.org/2002/07/owl#Class"@,
    {
        "http://www.w3.org/2002/07/owl#Class"
    }

    pub fn object_property() -> (r: &'static str)
        ensures
            r@ == "http://www.w3.org/2002/07/owl#ObjectProperty"@,
    {
        "http://www.w3.org/2002/07/owl#ObjectProperty"
    }

    pub fn datatype_property() -> (r: &'static str)
        ensures
            r@ == "http://www.w3.org/2002/07/owl#DatatypeProperty"@,
    {
        "http://www.w3.org/2002/07/owl#DatatypeProperty"
    }

    pub fn annotation_property() -> (r: &'static str)
        ensures
            r@ == "http://www.w3.org/2002/07/owl#AnnotationProperty"@,
    {
        "http://www.w3.org/2002/07/owl#AnnotationProperty"
    }

    pub fn ontology() -> (r: &'static str)
        ensures
            r@ == "http://www.w3.org/2002/07/owl#Ontology"@,
    {
        "http://www.w3.org/2002/07/owl#Ontology"
    }

    pub fn named_individual() -> (r: &'static str)
        ensures
            r@ == "http://www.w3.org/2002/07/owl#NamedIndividual"@,
    {
        "http://www.w3.org/2002/07/owl#NamedIndividual"
    }

    pub fn imports() -> (r: &'static str)
        ensures
            r@ == "http://www.w3.org/2002/07/owl#imports"@,
    {
        "http://www.w3.org/2002/07/owl#imports"
    }

    pub fn version_iri() -> (r: &'static str)
        ensures
            r@ == "http://www.w3.org/2002/07/owl#versionIRI"@,
    {
        "http://www.w3.org/2002/07/owl#versionIRI"
    }

    pub fn deprecated() -> (r: &'static str)
        ensures
            r@ == "http://www.w3.org/2002/07/owl#deprecated"@,
    {
        "http://www.w3.org/2002/07/owl#deprecated"
    }

    pub fn same_as() -> (r: &'static str)
        ensures
            r@ == "http://www.w3.org/2002/07/owl#sameAs"@,
    {
        "http://www.w3.org/2002/07/owl#sameAs"
    }
}

/// Terms of the RDF Schema vocabulary.
pub struct Rdfs;

impl Rdfs {
    pub fn label() -> (r: &'static str)
        ensures
            r@ == "http://www.w3.org/2000/01/rdf-schema#label"@,
    {
        "http://www.w3.org/2000/01/rdf-schema#label"
    }

    pub fn comment() -> (r: &'static str)
        ensures
            r@ == "http://www.w3.org/2000/01/rdf-schema#comment"@,
    {
        "http://www.w3.org/2000/01/rdf-schema#comment"
    }

    pub fn class() -> (r: &'static str)
        ensures
            r@ == "http://www.w3.org/2000/01/rdf-schema#Class"@,
    {
        "http://www.w3.org/2000/01/rdf-schema#Class"
    }

    pub fn sub_class_of() -> (r: &'static str)
        ensures
            r@ == "http://www.w3.org/2000/01/rdf-schema#subClassOf"@,
    {
        "http://www.w3.org/2000/01/rdf-schema#subClassOf"
    }

    pub fn datatype() -> (r: &'static str)
        ensures
            r@ == "http://www.w3.org/2000/01/rdf-schema#Datatype"@,
    {
        "http://www.w3.org/2000/01/rdf-schema#Datatype"
    }
}

/// Terms of the RDF vocabulary.
pub struct Rdf;

impl Rdf {
    pub fn type_() -> (r: &'static str)
        ensures
            r@ == "http://www.w3.org/1999/02/22-rdf-syntax-ns#type"@,
    {
        "http://www.w3.org/1999/02/22-rdf-syntax-ns#type"
    }
}

} // verus!
