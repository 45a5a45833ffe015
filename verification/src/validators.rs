//! The built-in validator plugins: naming conventions over catalog entities, and the state
//! of the SHACL shapes directory.
use vstd::prelude::*;
use crate::plugin::{NamingValidatorPlugin, ShaclValidatorPlugin};
use crate::text::{
    chars_of, decimal, decimal_exec, last_index, lemma_last_index_bounds, last_index_exec, push_all,
    push_str, seq_eq, slice_chars, starts_with, starts_with_exec, string_from,
};

verus! {

/// Identifier of the naming-convention validator.
pub const NAMING_PLUGIN_ID: &'static str = "strixonomy.naming-validator";

/// Kind of an ontology entity.
#[derive(Debug, Clone, Copy, PartialEq, Eq, Structural)]
pub enum EntityKind {
    Class,
    ObjectProperty,
    DataProperty,
    AnnotationProperty,
    Individual,
    Datatype,
    Ontology,
    Other,
}

/// Severity of a diagnostic.
#[derive(Debug, Clone, Copy, PartialEq, Eq, Structural)]
pub enum DiagnosticSeverity {
    Error,
    Warning,
    Info,
}

/// An entity of the ontology catalog, as the validators read it: its IRI, kind, labels, and
/// the file of the document that declares it.
#[derive(Debug, Clone)]
pub struct CatalogEntity {
    pub iri: String,
    pub kind: EntityKind,
    pub labels: Vec<String>,
    pub file: String,
}

/// A diagnostic raised by a plugin.
#[derive(Debug, Clone)]
pub struct PluginFinding {
    pub plugin_id: String,
    pub code: String,
    pub severity: DiagnosticSeverity,
    pub message: String,
    pub file: String,
    pub entity_iri: Option<String>,
}

/// A finding as values: plugin, code, severity, message, file and entity IRI.
pub type FindingV = (Seq<char>, Seq<char>, DiagnosticSeverity, Seq<char>, Seq<char>, Option<Seq<char>>);

pub open spec fn finding_v(f: PluginFinding) -> FindingV {
    (
        f.plugin_id@,
        f.code@,
        f.severity,
        f.message@,
        f.file@,
        match f.entity_iri {
            Some(s) => Some(s@),
            None => None,
        },
    )
}

pub open spec fn findings_v(v: Seq<PluginFinding>) -> Seq<FindingV> {
    v.map_values(|f: PluginFinding| finding_v(f))
}

/// Kinds of entity that are expected to carry a label.
pub open spec fn needs_label(k: EntityKind) -> bool {
    k == EntityKind::Class || k == EntityKind::ObjectProperty || k == EntityKind::DataProperty || k
        == EntityKind::Individual
}

/// The naming findings for one entity: a missing label (when labels are required), then an
/// IRI outside the required prefix (when a prefix is configured).
pub open spec fn entity_findings(
    require_label: bool,
    prefix: Option<Seq<char>>,
    e: CatalogEntity,
) -> Seq<FindingV> {
    let id = "strixonomy.naming-validator"@;
    let missing = if require_label && needs_label(e.kind) && e.labels@.len() == 0 {
        seq![
            (id, "missing_label"@, DiagnosticSeverity::Warning, "Entity '"@ + e.iri@ + "' has no rdfs:label"@, e.file@, Some(e.iri@)),
        ]
    } else {
        Seq::empty()
    };
    let outside = match prefix {
        Some(p) => if !starts_with(e.iri@, p) {
            seq![
                (
                    id,
                    "iri_prefix"@,
                    DiagnosticSeverity::Warning,
                    "Entity IRI '"@ + e.iri@ + "' does not start with required prefix '"@ + p + "'"@,
                    e.file@,
                    Some(e.iri@),
                ),
            ]
        } else {
            Seq::empty()
        },
        None => Seq::empty(),
    };
    missing + outside
}

/// The naming findings for the first `n` entities, entity by entity.
pub open spec fn naming_findings(
    require_label: bool,
    prefix: Option<Seq<char>>,
    es: Seq<CatalogEntity>,
    n: int,
) -> Seq<FindingV>
    decreases n,
{
    if n <= 0 || n > es.len() {
        Seq::empty()
    } else {
        naming_findings(require_label, prefix, es, n - 1) + entity_findings(require_label, prefix, es[n - 1])
    }
}

fn text(s: &str) -> (r: String)
    ensures
        r@ == s@,
{
    string_from(chars_of(s).as_slice())
}

fn copy_string(s: &String) -> (r: String)
    ensures
        r@ == s@,
{
    string_from(chars_of(s.as_str()).as_slice())
}

impl NamingValidatorPlugin {
    /// The configured prefix as a text.
    pub open spec fn prefix_v(&self) -> Option<Seq<char>> {
        match self.iri_prefix {
            Some(p) => Some(p@),
            None => None,
        }
    }

    /// `validate`: for each entity in turn, a warning when it should carry a label and has
    /// none (if labels are required), and a warning when its IRI does not start with the
    /// configured prefix.
    pub fn validate(&self, entities: &[CatalogEntity]) -> (r: Vec<PluginFinding>)
        ensures
            findings_v(r@) == naming_findings(self.require_label, self.prefix_v(), entities@, entities@.len() as int),
    {
        let mut out: Vec<PluginFinding> = Vec::new();
        let mut i: usize = 0;
        assert(findings_v(out@) =~= Seq::<FindingV>::empty());
        while i < entities.len()
            invariant
                0 <= i <= entities.len(),
                findings_v(out@) == naming_findings(self.require_label, self.prefix_v(), entities@, i as int),
            decreases entities.len() - i,
        {
            let e = &entities[i];
            let ghost before = findings_v(out@);
            let labels_expected = match e.kind {
                EntityKind::Class | EntityKind::ObjectProperty | EntityKind::DataProperty
                | EntityKind::Individual => true,
                _ => false,
            };
            let ghost ef = entity_findings(self.require_label, self.prefix_v(), entities@[i as int]);
            let ghost first = if self.require_label && needs_label(e.kind) && e.labels@.len() == 0 {
                ef.take(1)
            } else {
                Seq::<FindingV>::empty()
            };
            if self.require_label && labels_expected && e.labels.len() == 0 {
                let mut m = chars_of("Entity '");
                push_str(&mut m, e.iri.as_str());
                push_str(&mut m, "' has no rdfs:label");
                out.push(PluginFinding {
                    plugin_id: text(NAMING_PLUGIN_ID),
                    code: text("missing_label"),
                    severity: DiagnosticSeverity::Warning,
                    message: string_from(m.as_slice()),
                    file: copy_string(&e.file),
                    entity_iri: Some(copy_string(&e.iri)),
                });
                proof {
                    reveal_strlit("strixonomy.naming-validator");
                    reveal_strlit("missing_label");
                }
                assert(findings_v(out@) =~= before.push(findings_v(out@).last()));
            }
            assert(findings_v(out@) =~= before + first);
            match &self.iri_prefix {
                Some(p) => {
                    let iv = chars_of(e.iri.as_str());
                    let pv = chars_of(p.as_str());
                    if !starts_with_exec(iv.as_slice(), pv.as_slice()) {
                        let mut m = chars_of("Entity IRI '");
                        push_str(&mut m, e.iri.as_str());
                        push_str(&mut m, "' does not start with required prefix '");
                        push_str(&mut m, p.as_str());
                        push_str(&mut m, "'");
                        let ghost mid = findings_v(out@);
                        out.push(PluginFinding {
                            plugin_id: text(NAMING_PLUGIN_ID),
                            code: text("iri_prefix"),
                            severity: DiagnosticSeverity::Warning,
                            message: string_from(m.as_slice()),
                            file: copy_string(&e.file),
                            entity_iri: Some(copy_string(&e.iri)),
                        });
                        proof {
                            reveal_strlit("strixonomy.naming-validator");
                            reveal_strlit("iri_prefix");
                        }
                        assert(findings_v(out@) =~= mid.push(findings_v(out@).last()));
                    }
                },
                None => {},
            }
            assert(findings_v(out@) =~= before + ef);
            i += 1;
        }
        out
    }
}

/// `Path::extension` of a file name: the text after the last `.`, unless there is no `.` or
/// the only one starts the name.
pub open spec fn extension(name: Seq<char>) -> Option<Seq<char>> {
    let i = last_index(name, '.');
    if i <= 0 {
        None
    } else {
        Some(name.skip(i + 1))
    }
}

/// A file whose extension is `ttl`, `rdf` or `shacl` holds SHACL shapes.
pub open spec fn shape_file(name: Seq<char>) -> bool {
    match extension(name) {
        Some(e) => e == "ttl"@ || e == "rdf"@ || e == "shacl"@,
        None => false,
    }
}

/// Whether the file named `file_name` is read as a SHACL shapes file.
pub fn is_shape_file(file_name: &str) -> (r: bool)
    ensures
        r == shape_file(file_name@),
{
    let v = chars_of(file_name);
    proof {
        lemma_last_index_bounds(v@, '.');
    }
    match last_index_exec(v.as_slice(), '.') {
        None => false,
        Some(i) => {
            if i == 0 {
                return false;
            }
            let e = slice_chars(v.as_slice(), i + 1, v.len());
            assert(e@ =~= v@.skip(i + 1));
            let ttl = chars_of("ttl");
            let rdf = chars_of("rdf");
            let shacl = chars_of("shacl");
            seq_eq(e.as_slice(), ttl.as_slice()) || seq_eq(e.as_slice(), rdf.as_slice()) || seq_eq(
                e.as_slice(),
                shacl.as_slice(),
            )
        },
    }
}

/// The single finding of the SHACL validator: shapes directory missing, empty, or holding
/// `count` shape files (validation itself is not performed yet).
pub open spec fn shacl_finding(dir: Seq<char>, workspace: Seq<char>, exists: bool, count: nat) -> FindingV {
    let id = "strixonomy.shacl-validator"@;
    if !exists {
        (
            id,
            "shapes_missing"@,
            DiagnosticSeverity::Info,
            "SHACL shapes directory '"@ + dir + "' not found; add .ttl shape files to enable validation"@,
            workspace,
            None,
        )
    } else if count == 0 {
        (id, "shapes_empty"@, DiagnosticSeverity::Info, "No SHACL shape files in '"@ + dir + "'"@, workspace, None)
    } else {
        (
            id,
            "shacl_pending"@,
            DiagnosticSeverity::Info,
            "Found "@ + decimal(count) + " SHACL shape file(s); full rudof validation ships in a future release"@,
            workspace,
            None,
        )
    }
}

impl ShaclValidatorPlugin {
    /// `validate`, given whether the shapes directory exists and how many of its files are
    /// shape files (`is_shape_file`): one informational finding about the shapes directory.
    pub fn validate(&self, workspace: &str, shapes_dir_exists: bool, shape_files: u64) -> (r: Vec<PluginFinding>)
        ensures
            findings_v(r@) == seq![shacl_finding(self.shapes_dir@, workspace@, shapes_dir_exists, shape_files as nat)],
    {
        let f = if !shapes_dir_exists {
            let mut m = chars_of("SHACL shapes directory '");
            push_str(&mut m, self.shapes_dir.as_str());
            push_str(&mut m, "' not found; add .ttl shape files to enable validation");
            PluginFinding {
                plugin_id: text(crate::plugin::SHACL_PLUGIN_ID),
                code: text("shapes_missing"),
                severity: DiagnosticSeverity::Info,
                message: string_from(m.as_slice()),
                file: text(workspace),
                entity_iri: None,
            }
        } else if shape_files == 0 {
            let mut m = chars_of("No SHACL shape files in '");
            push_str(&mut m, self.shapes_dir.as_str());
            push_str(&mut m, "'");
            PluginFinding {
                plugin_id: text(crate::plugin::SHACL_PLUGIN_ID),
                code: text("shapes_empty"),
                severity: DiagnosticSeverity::Info,
                message: string_from(m.as_slice()),
                file: text(workspace),
                entity_iri: None,
            }
        } else {
            let mut m = chars_of("Found ");
            push_all(&mut m, decimal_exec(shape_files).as_slice());
            push_str(&mut m, " SHACL shape file(s); full rudof validation ships in a future release");
            PluginFinding {
                plugin_id: text(crate::plugin::SHACL_PLUGIN_ID),
                code: text("shacl_pending"),
                severity: DiagnosticSeverity::Info,
                message: string_from(m.as_slice()),
                file: text(workspace),
                entity_iri: None,
            }
        };
        proof {
            reveal_strlit("strixonomy.shacl-validator");
        }
        let mut out: Vec<PluginFinding> = Vec::new();
        out.push(f);
        assert(findings_v(out@) =~= seq![finding_v(f)]);
        out
    }
}

/// Severity named by a plugin's wire diagnostic: `error`, `warning`, anything else `Info`.
pub open spec fn severity_named(s: Seq<char>) -> DiagnosticSeverity {
    if s == "error"@ {
        DiagnosticSeverity::Error
    } else if s == "warning"@ {
        DiagnosticSeverity::Warning
    } else {
        DiagnosticSeverity::Info
    }
}

/// The severity of a wire diagnostic.
pub fn wire_severity(s: &str) -> (r: DiagnosticSeverity)
    ensures
        r == severity_named(s@),
{
    let v = chars_of(s);
    if seq_eq(v.as_slice(), chars_of("error").as_slice()) {
        DiagnosticSeverity::Error
    } else if seq_eq(v.as_slice(), chars_of("warning").as_slice()) {
        DiagnosticSeverity::Warning
    } else {
        DiagnosticSeverity::Info
    }
}

/// `plugin_diagnostic`: a finding of plugin `plugin_id` with the given code, severity,
/// message, file and entity.
pub fn plugin_diagnostic(
    plugin_id: &str,
    code: &str,
    severity: DiagnosticSeverity,
    message: &str,
    file: &str,
    entity_iri: Option<&str>,
) -> (r: PluginFinding)
    ensures
        finding_v(r) == (
            plugin_id@,
            code@,
            severity,
            message@,
            file@,
            match entity_iri {
                Some(e) => Some(e@),
                None => None,
            },
        ),
{
    PluginFinding {
        plugin_id: text(plugin_id),
        code: text(code),
        severity,
        message: text(message),
        file: text(file),
        entity_iri: match entity_iri {
            Some(e) => Some(text(e)),
            None => None,
        },
    }
}

} // verus!
