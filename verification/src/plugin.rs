//! Plugin host support: plugin descriptions, provider results, errors, and the handling of
//! captured subprocess output.
use vstd::prelude::*;
use crate::lifecycle::{lifecycle_message, LifecycleError};
use crate::text::{char_at_byte, char_at_byte_exec, chars_of, decimal, decimal_exec, push_all, push_str, slice_chars, string_from, trim, trim_exec};

verus! {

/// The naming-convention validator: whether labels are required, and the IRI prefix
/// entities must use.
#[derive(Debug, Clone)]
pub struct NamingValidatorPlugin {
    pub require_label: bool,
    pub iri_prefix: Option<String>,
}

impl NamingValidatorPlugin {
    /// `from_config`: the validator with the given settings.
    pub fn from_config(require_label: bool, iri_prefix: Option<String>) -> (r: Self)
        ensures
            r.require_label == require_label,
            r.iri_prefix == iri_prefix,
    {
        NamingValidatorPlugin { require_label, iri_prefix }
    }
}

impl Default for NamingValidatorPlugin {
    fn default() -> (r: Self)
        ensures
            r.require_label,
            r.iri_prefix is None,
    {
        NamingValidatorPlugin { require_label: true, iri_prefix: None }
    }
}

/// The Markdown documentation exporter.
#[derive(Debug, Clone, Copy)]
pub struct MarkdownExportPlugin;

/// Identifier of the SHACL validator plugin.
pub const SHACL_PLUGIN_ID: &'static str = "strixonomy.shacl-validator";

/// `path` appended to `base` as a path: an absolute `path` replaces `base`; otherwise a
/// separator goes between them unless `base` is empty or already ends in one.
pub open spec fn path_join(base: Seq<char>, path: Seq<char>) -> Seq<char> {
    if path.len() > 0 && path[0] == '/' {
        path
    } else if base.len() > 0 && base.last() != '/' {
        base + "/"@ + path
    } else {
        base + path
    }
}

/// The SHACL validator: the directory its shape files are read from.
#[derive(Debug, Clone)]
pub struct ShaclValidatorPlugin {
    pub shapes_dir: String,
}

impl ShaclValidatorPlugin {
    /// `new`: shapes are read from `shapes_dir` (by default `shapes`) under `workspace`.
    pub fn new(workspace: &str, shapes_dir: Option<&str>) -> (r: Self)
        ensures
            r.shapes_dir@ == path_join(
                workspace@,
                match shapes_dir {
                    Some(d) => d@,
                    None => "shapes"@,
                },
            ),
    {
        let rel: &str = match shapes_dir {
            Some(d) => d,
            None => "shapes",
        };
        let base = chars_of(workspace);
        let tail = chars_of(rel);
        let mut out: Vec<char>;
        if tail.len() > 0 && tail[0] == '/' {
            out = tail;
        } else {
            out = base;
            if out.len() > 0 && out[out.len() - 1] != '/' {
                out.push('/');
            }
            push_all(&mut out, tail.as_slice());
        }
        proof {
            reveal_strlit("/");
        }
        ShaclValidatorPlugin { shapes_dir: string_from(out.as_slice()) }
    }
}

/// A workflow step to run.
#[derive(Debug, Clone)]
pub struct WorkflowRequest {
    pub step: String,
    pub dry_run: bool,
}

/// What a reasoner provider reports.
#[derive(Debug, Clone, Default)]
pub struct ReasonerProviderResult {
    pub profile: String,
    pub unsatisfiable: Vec<String>,
    pub logs: Option<String>,
}

/// Tabular rows from a query provider.
#[derive(Debug, Clone, Default)]
pub struct QueryProviderResult {
    pub columns: Vec<String>,
    pub rows: Vec<Vec<String>>,
    pub truncated: bool,
}

/// A refactor preview: affected IRIs and hints.
#[derive(Debug, Clone, Default)]
pub struct RefactorProviderResult {
    pub affected_iris: Vec<String>,
    pub hints: Vec<String>,
}

/// A diagnostic as a subprocess plugin writes it.
#[derive(Debug, Clone)]
pub struct PluginDiagnosticWire {
    pub code: String,
    pub severity: String,
    pub message: String,
    pub file: String,
    pub line: Option<u64>,
    pub column: Option<u64>,
    pub entity_iri: Option<String>,
}

/// Failure to discover plugin manifests.
#[derive(Debug, Clone)]
pub enum PluginDiscoveryError {
    Io { path: String, source: String },
    InvalidManifest { path: String, message: String },
}

/// The displayed message of a discovery error.
pub open spec fn discovery_message(e: PluginDiscoveryError) -> Seq<char> {
    match e {
        PluginDiscoveryError::Io { path, source } => "IO error reading "@ + path@ + ": "@ + source@,
        PluginDiscoveryError::InvalidManifest { path, message } => "invalid manifest "@ + path@ + ": "@
            + message@,
    }
}

impl PluginDiscoveryError {
    /// The displayed message.
    pub fn message(&self) -> (r: String)
        ensures
            r@ == discovery_message(*self),
    {
        let mut out: Vec<char>;
        match self {
            PluginDiscoveryError::Io { path, source } => {
                out = chars_of("IO error reading ");
                push_str(&mut out, path.as_str());
                push_str(&mut out, ": ");
                push_str(&mut out, source.as_str());
            },
            PluginDiscoveryError::InvalidManifest { path, message } => {
                out = chars_of("invalid manifest ");
                push_str(&mut out, path.as_str());
                push_str(&mut out, ": ");
                push_str(&mut out, message.as_str());
            },
        }
        string_from(out.as_slice())
    }
}

/// Failure of a plugin subprocess.
#[derive(Debug, Clone, PartialEq, Eq)]
pub enum SubprocessError {
    NotFound(String),
    PathNotAllowed(String),
    RunFailed(String),
    TimedOut(u64),
    OutputTooLarge(usize),
    InvalidOutput(String),
}

/// The displayed message of a subprocess error.
pub open spec fn subprocess_message(e: SubprocessError) -> Seq<char> {
    match e {
        SubprocessError::NotFound(s) => "plugin binary not found: "@ + s@,
        SubprocessError::PathNotAllowed(s) => "plugin binary path is not allowed: "@ + s@,
        SubprocessError::RunFailed(s) => "plugin subprocess failed: "@ + s@,
        SubprocessError::TimedOut(n) => "plugin subprocess timed out after "@ + decimal(n as nat) + "s"@,
        SubprocessError::OutputTooLarge(n) => "plugin subprocess output exceeded "@ + decimal(n as nat)
            + " bytes"@,
        SubprocessError::InvalidOutput(s) => "plugin output is not valid JSON: "@ + s@,
    }
}

impl SubprocessError {
    /// The displayed message.
    pub fn message(&self) -> (r: String)
        ensures
            r@ == subprocess_message(*self),
    {
        let mut out: Vec<char>;
        match self {
            SubprocessError::NotFound(s) => {
                out = chars_of("plugin binary not found: ");
                push_str(&mut out, s.as_str());
            },
            SubprocessError::PathNotAllowed(s) => {
                out = chars_of("plugin binary path is not allowed: ");
                push_str(&mut out, s.as_str());
            },
            SubprocessError::RunFailed(s) => {
                out = chars_of("plugin subprocess failed: ");
                push_str(&mut out, s.as_str());
            },
            SubprocessError::TimedOut(n) => {
                out = chars_of("plugin subprocess timed out after ");
                push_all(&mut out, decimal_exec(*n).as_slice());
                push_str(&mut out, "s");
            },
            SubprocessError::OutputTooLarge(n) => {
                out = chars_of("plugin subprocess output exceeded ");
                push_all(&mut out, decimal_exec(*n as u64).as_slice());
                push_str(&mut out, " bytes");
            },
            SubprocessError::InvalidOutput(s) => {
                out = chars_of("plugin output is not valid JSON: ");
                push_str(&mut out, s.as_str());
            },
        }
        string_from(out.as_slice())
    }
}

/// Failure of the plugin host.
#[derive(Debug, Clone)]
pub enum PluginHostError {
    Discovery(PluginDiscoveryError),
    Subprocess(SubprocessError),
    Lifecycle(LifecycleError),
    NotFound(String),
    Disabled(String),
    NotActive(String),
    MissingPermission(String, String),
    UnsupportedAction(String, String),
    Export(String),
}

/// The displayed message of a host error; wrapped errors show their own message.
pub open spec fn host_message(e: PluginHostError) -> Seq<char> {
    match e {
        PluginHostError::Discovery(d) => discovery_message(d),
        PluginHostError::Subprocess(s) => subprocess_message(s),
        PluginHostError::Lifecycle(l) => lifecycle_message(l),
        PluginHostError::NotFound(s) => "plugin not found: "@ + s@,
        PluginHostError::Disabled(s) => "plugin is disabled: "@ + s@,
        PluginHostError::NotActive(s) => "plugin is not active: "@ + s@,
        PluginHostError::MissingPermission(a, b) => "plugin "@ + a@ + " is missing required permission: "@ + b@,
        PluginHostError::UnsupportedAction(a, b) => "plugin "@ + a@ + " does not support action "@ + b@,
        PluginHostError::Export(s) => "export failed: "@ + s@,
    }
}

impl PluginHostError {
    /// The displayed message.
    pub fn message(&self) -> (r: String)
        ensures
            r@ == host_message(*self),
    {
        match self {
            PluginHostError::Discovery(d) => d.message(),
            PluginHostError::Subprocess(s) => s.message(),
            PluginHostError::Lifecycle(l) => l.message(),
            PluginHostError::NotFound(s) => {
                let mut out = chars_of("plugin not found: ");
                push_str(&mut out, s.as_str());
                string_from(out.as_slice())
            },
            PluginHostError::Disabled(s) => {
                let mut out = chars_of("plugin is disabled: ");
                push_str(&mut out, s.as_str());
                string_from(out.as_slice())
            },
            PluginHostError::NotActive(s) => {
                let mut out = chars_of("plugin is not active: ");
                push_str(&mut out, s.as_str());
                string_from(out.as_slice())
            },
            PluginHostError::MissingPermission(a, b) => {
                let mut out = chars_of("plugin ");
                push_str(&mut out, a.as_str());
                push_str(&mut out, " is missing required permission: ");
                push_str(&mut out, b.as_str());
                string_from(out.as_slice())
            },
            PluginHostError::UnsupportedAction(a, b) => {
                let mut out = chars_of("plugin ");
                push_str(&mut out, a.as_str());
                push_str(&mut out, " does not support action ");
                push_str(&mut out, b.as_str());
                string_from(out.as_slice())
            },
            PluginHostError::Export(s) => {
                let mut out = chars_of("export failed: ");
                push_str(&mut out, s.as_str());
                string_from(out.as_slice())
            },
        }
    }
}

/// What the host asks of a subprocess plugin: the action, the workspace directory, the
/// workflow step and extra arguments.
#[derive(Debug, Clone, Copy)]
pub struct SubprocessRequest<'a> {
    pub action: &'a str,
    pub workspace: &'a str,
    pub step: Option<&'a str>,
    pub extra_args: &'a [String],
}

/// Longest captured output quoted in an error message, in bytes.
pub const ERROR_SNIPPET_MAX: usize = 512;

/// Text of `bytes` with invalid UTF-8 replaced (`String::from_utf8_lossy`).
pub uninterp spec fn lossy_text(bytes: Seq<u8>) -> Seq<char>;

/// Calls `String::from_utf8_lossy`. Claimed: the result is a function of the bytes, and for
/// valid UTF-8 it is the text they encode, as the documentation states.
#[verifier::external_body]
fn utf8_lossy(bytes: &[u8]) -> (r: Vec<char>)
    ensures
        r@ == lossy_text(bytes@),
        forall|t: Seq<char>| vstd::utf8::encode_utf8(t) == bytes@ ==> r@ == t,
{
    String::from_utf8_lossy(bytes).chars().collect()
}

/// `summarize_stdio` over the decoded text: trimmed; beyond `ERROR_SNIPPET_MAX` bytes, cut at
/// the last character boundary within the limit and marked as truncated.
pub open spec fn summary_of(text: Seq<char>) -> Seq<char> {
    let t = trim(text);
    if t.len() == 0 {
        Seq::empty()
    } else if vstd::utf8::encode_utf8(t).len() <= 512 {
        t
    } else {
        t.take(char_at_byte(t, 512)) + "… (truncated)"@
    }
}

/// `summarize_stdio`: captured output shortened for error messages.
pub fn summarize_stdio(bytes: &[u8]) -> (r: String)
    ensures
        r@ == summary_of(lossy_text(bytes@)),
        forall|t: Seq<char>| vstd::utf8::encode_utf8(t) == bytes@ ==> r@ == summary_of(t),
{
    let text = utf8_lossy(bytes);
    let t = trim_exec(text.as_slice());
    if t.len() == 0 {
        return string_from(t.as_slice());
    }
    let ts = string_from(t.as_slice());
    let n = ts.as_str().as_bytes().len();
    assert(n == vstd::utf8::encode_utf8(t@).len());
    if n <= ERROR_SNIPPET_MAX {
        return ts;
    }
    let end = char_at_byte_exec(t.as_slice(), ERROR_SNIPPET_MAX);
    let mut out = slice_chars(t.as_slice(), 0, end);
    push_str(&mut out, "… (truncated)");
    string_from(out.as_slice())
}

/// One read of `read_capped`: appends the `n` bytes read (the first `n` of `chunk`) to `buf`,
/// or refuses them with `OutputTooLarge(cap)`, leaving `buf` unchanged, when `buf` would then
/// exceed `cap` bytes.
pub fn append_capped(buf: &mut Vec<u8>, chunk: &[u8], n: usize, cap: usize) -> (r: Result<(), SubprocessError>)
    requires
        n <= chunk@.len(),
    ensures
        old(buf)@.len() + n <= cap <==> r is Ok,
        r is Ok ==> final(buf)@ == old(buf)@ + chunk@.subrange(0, n as int),
        r is Err ==> r == Err::<(), SubprocessError>(SubprocessError::OutputTooLarge(cap))
            && final(buf)@ == old(buf)@,
{
    if buf.len() > cap || n > cap - buf.len() {
        return Err(SubprocessError::OutputTooLarge(cap));
    }
    let mut i: usize = 0;
    while i < n
        invariant
            i <= n,
            n <= chunk@.len(),
            buf@ == old(buf)@ + chunk@.subrange(0, i as int),
        decreases n - i,
    {
        buf.push(chunk[i]);
        assert(chunk@.subrange(0, i + 1) =~= chunk@.subrange(0, i as int).push(chunk@[i as int]));
        i += 1;
    }
    Ok(())
}

} // verus!
