//! The decisions around running a subprocess plugin: which binary paths are allowed, the
//! command line it gets, how a failed run is reported, and how an action is dispatched.
use vstd::prelude::*;
use crate::plugin::{summarize_stdio, summary_of, lossy_text, PluginHostError, SubprocessError, SubprocessRequest};
use crate::text::{chars_of, decimal, decimal_exec, push_all, push_str, seq_eq, string_from};

verus! {

/// A `/`-separated segment of `p` that is exactly `..` starts at `i`.
pub open spec fn parent_component_at(p: Seq<char>, i: int) -> bool {
    0 <= i && i + 2 <= p.len() && (i == 0 || p[i - 1] == '/') && p[i] == '.' && p[i + 1] == '.'
        && (i + 2 == p.len() || p[i + 2] == '/')
}

/// `p` has a `..` component.
pub open spec fn has_parent_component(p: Seq<char>) -> bool {
    exists|i: int| #[trigger] parent_component_at(p, i)
}

/// `validate_binary_path`: a plugin binary path may not climb out with a `..` component.
pub fn validate_binary_path(path: &str) -> (r: Result<(), SubprocessError>)
    ensures
        match r {
            Ok(()) => !has_parent_component(path@),
            Err(e) => has_parent_component(path@) && (e matches SubprocessError::PathNotAllowed(s) && s@ == path@),
        },
{
    let p = chars_of(path);
    let n = p.len();
    let mut i: usize = 0;
    while i < n
        invariant
            p@ == path@,
            n == p@.len(),
            0 <= i <= n,
            forall|k: int| 0 <= k < i ==> !#[trigger] parent_component_at(p@, k),
        decreases n - i,
    {
        if n - i >= 2 && (i == 0 || p[i - 1] == '/') && p[i] == '.' && p[i + 1] == '.' && (n - i == 2
            || p[i + 2] == '/') {
            assert(parent_component_at(p@, i as int));
            return Err(SubprocessError::PathNotAllowed(string_from(p.as_slice())));
        }
        i += 1;
    }
    assert forall|k: int| !#[trigger] parent_component_at(p@, k) by {
        if 0 <= k < n {
        }
    }
    Ok(())
}

/// The arguments a plugin binary is started with: the action, `--workspace` and the
/// workspace, `--step` and the step when there is one, then the extra arguments.
pub open spec fn args_of(action: Seq<char>, workspace: Seq<char>, step: Option<Seq<char>>, extra: Seq<Seq<char>>) -> Seq<Seq<char>> {
    seq![action, "--workspace"@, workspace] + match step {
        Some(s) => seq!["--step"@, s],
        None => Seq::empty(),
    } + extra
}

fn text(s: &str) -> (r: String)
    ensures
        r@ == s@,
{
    string_from(chars_of(s).as_slice())
}

/// The command-line arguments of a subprocess request.
pub fn subprocess_args(request: &SubprocessRequest) -> (r: Vec<String>)
    ensures
        r@.map_values(|s: String| s@) == args_of(
            request.action@,
            request.workspace@,
            match request.step {
                Some(s) => Some(s@),
                None => None,
            },
            request.extra_args@.map_values(|s: String| s@),
        ),
{
    let mut out: Vec<String> = Vec::new();
    out.push(text(request.action));
    out.push(text("--workspace"));
    out.push(text(request.workspace));
    match request.step {
        Some(s) => {
            out.push(text("--step"));
            out.push(text(s));
        },
        None => {},
    }
    let ghost head = out@.map_values(|s: String| s@);
    let ghost extra = request.extra_args@.map_values(|s: String| s@);
    let mut i: usize = 0;
    while i < request.extra_args.len()
        invariant
            0 <= i <= request.extra_args.len(),
            extra == request.extra_args@.map_values(|s: String| s@),
            out@.map_values(|s: String| s@) == head + extra.take(i as int),
        decreases request.extra_args.len() - i,
    {
        let ghost before = out@.map_values(|s: String| s@);
        out.push(text(request.extra_args[i].as_str()));
        assert(out@.map_values(|s: String| s@) =~= before.push(extra[i as int]));
        assert(extra.take(i + 1) =~= extra.take(i as int).push(extra[i as int]));
        i += 1;
    }
    assert(extra.take(request.extra_args.len() as int) =~= extra);
    assert(out@.map_values(|s: String| s@) =~= args_of(
        request.action@,
        request.workspace@,
        match request.step {
            Some(s) => Some(s@),
            None => None,
        },
        extra,
    ));
    out
}

/// Decimal text of a signed number.
pub open spec fn signed_decimal(n: int) -> Seq<char> {
    if n < 0 {
        "-"@ + decimal((-n) as nat)
    } else {
        decimal(n as nat)
    }
}

/// The failure reported for a plugin that exited unsuccessfully with exit code `code`
/// (`-1` when it was killed by a signal): the code, then the summary of its standard error
/// when that is not empty.
pub open spec fn exit_failure_message(code: Option<i32>, stderr: Seq<u8>) -> Seq<char> {
    let c = match code {
        Some(x) => x as int,
        None => -1,
    };
    let snippet = summary_of(lossy_text(stderr));
    if snippet.len() == 0 {
        "exit "@ + signed_decimal(c)
    } else {
        "exit "@ + signed_decimal(c) + ": "@ + snippet
    }
}

/// `RunFailed` for a plugin that exited unsuccessfully.
pub fn exit_failure(code: Option<i32>, stderr: &[u8]) -> (r: SubprocessError)
    ensures
        r matches SubprocessError::RunFailed(m) && m@ == exit_failure_message(code, stderr@),
{
    let c: i64 = match code {
        Some(x) => x as i64,
        None => -1,
    };
    let mut out = chars_of("exit ");
    if c < 0 {
        push_str(&mut out, "-");
        push_all(&mut out, decimal_exec((-c) as u64).as_slice());
    } else {
        push_all(&mut out, decimal_exec(c as u64).as_slice());
    }
    let snippet = summarize_stdio(stderr);
    let sv = chars_of(snippet.as_str());
    if sv.len() > 0 {
        push_str(&mut out, ": ");
        push_all(&mut out, sv.as_slice());
    }
    proof {
        reveal_strlit("-");
    }
    SubprocessError::RunFailed(string_from(out.as_slice()))
}

/// What the host does for a plugin action.
#[derive(Debug, Clone, PartialEq, Eq)]
pub enum PluginAction {
    Validate,
    Export,
    Workflow(String),
    UiView,
    Reasoner,
    Query(String),
    Refactor,
    Graph,
}

/// An action as values: its variant number and its text argument.
pub open spec fn action_v(a: PluginAction) -> (int, Seq<char>) {
    match a {
        PluginAction::Validate => (0, Seq::empty()),
        PluginAction::Export => (1, Seq::empty()),
        PluginAction::Workflow(s) => (2, s@),
        PluginAction::UiView => (3, Seq::empty()),
        PluginAction::Reasoner => (4, Seq::empty()),
        PluginAction::Query(q) => (5, q@),
        PluginAction::Refactor => (6, Seq::empty()),
        PluginAction::Graph => (7, Seq::empty()),
    }
}

/// The dispatch of a plugin action: the action to perform (with the workflow step, by
/// default `qc`, and the query, by default `SELECT * FROM classes`), or why the action is
/// refused: the actions that read the catalog need one, and unknown actions are unsupported.
pub open spec fn route(action: Seq<char>, has_catalog: bool, step: Option<Seq<char>>, query: Option<Seq<char>>) -> Result<
    (int, Seq<char>),
    Seq<char>,
> {
    if action == "validate"@ {
        if has_catalog { Ok((0, Seq::empty())) } else { Err("validate (no catalog)"@) }
    } else if action == "export"@ {
        if has_catalog { Ok((1, Seq::empty())) } else { Err("export (no catalog)"@) }
    } else if action == "workflow"@ {
        Ok((2, match step { Some(s) => s, None => "qc"@ }))
    } else if action == "ui_view"@ {
        Ok((3, Seq::empty()))
    } else if action == "reasoner.classify"@ || action == "reasoner"@ {
        if has_catalog { Ok((4, Seq::empty())) } else { Err("reasoner.classify (no catalog)"@) }
    } else if action == "query.run"@ || action == "query"@ {
        if has_catalog {
            Ok((5, match query { Some(q) => q, None => "SELECT * FROM classes"@ }))
        } else {
            Err("query.run (no catalog)"@)
        }
    } else if action == "refactor.preview"@ || action == "refactor"@ {
        if has_catalog { Ok((6, Seq::empty())) } else { Err("refactor.preview (no catalog)"@) }
    } else if action == "graph.build"@ || action == "graph"@ {
        if has_catalog { Ok((7, Seq::empty())) } else { Err("graph.build (no catalog)"@) }
    } else {
        Err(action)
    }
}

fn same(a: &[char], lit: &str) -> (r: bool)
    ensures
        r == (a@ == lit@),
{
    let l = chars_of(lit);
    seq_eq(a, l.as_slice())
}

fn refuse(plugin_id: &str, why: &str) -> (e: PluginHostError)
    ensures
        e matches PluginHostError::UnsupportedAction(p, w) && p@ == plugin_id@ && w@ == why@,
{
    PluginHostError::UnsupportedAction(text(plugin_id), text(why))
}

/// `route_plugin_action`: what running `action` of `plugin_id` does; a
/// refusal is `UnsupportedAction` naming the plugin and the reason.
pub fn route_plugin_action(
    plugin_id: &str,
    action: &str,
    has_catalog: bool,
    step: Option<&str>,
    query: Option<&str>,
) -> (r: Result<PluginAction, PluginHostError>)
    ensures
        match route(
            action@,
            has_catalog,
            match step { Some(s) => Some(s@), None => None },
            match query { Some(q) => Some(q@), None => None },
        ) {
            Ok(v) => r matches Ok(a) && action_v(a) == v,
            Err(why) => r matches Err(PluginHostError::UnsupportedAction(p, w)) && p@ == plugin_id@ && w@ == why,
        },
{
    let a = chars_of(action);
    if same(a.as_slice(), "validate") {
        if has_catalog { Ok(PluginAction::Validate) } else { Err(refuse(plugin_id, "validate (no catalog)")) }
    } else if same(a.as_slice(), "export") {
        if has_catalog { Ok(PluginAction::Export) } else { Err(refuse(plugin_id, "export (no catalog)")) }
    } else if same(a.as_slice(), "workflow") {
        Ok(PluginAction::Workflow(text(match step { Some(s) => s, None => "qc" })))
    } else if same(a.as_slice(), "ui_view") {
        Ok(PluginAction::UiView)
    } else if same(a.as_slice(), "reasoner.classify") || same(a.as_slice(), "reasoner") {
        if has_catalog { Ok(PluginAction::Reasoner) } else { Err(refuse(plugin_id, "reasoner.classify (no catalog)")) }
    } else if same(a.as_slice(), "query.run") || same(a.as_slice(), "query") {
        if has_catalog {
            Ok(PluginAction::Query(text(match query { Some(q) => q, None => "SELECT * FROM classes" })))
        } else {
            Err(refuse(plugin_id, "query.run (no catalog)"))
        }
    } else if same(a.as_slice(), "refactor.preview") || same(a.as_slice(), "refactor") {
        if has_catalog { Ok(PluginAction::Refactor) } else { Err(refuse(plugin_id, "refactor.preview (no catalog)")) }
    } else if same(a.as_slice(), "graph.build") || same(a.as_slice(), "graph") {
        if has_catalog { Ok(PluginAction::Graph) } else { Err(refuse(plugin_id, "graph.build (no catalog)")) }
    } else {
        Err(PluginHostError::UnsupportedAction(text(plugin_id), text(action)))
    }
}

/// The extra arguments of a `ui_view` run: `--view` and the view id, which is required.
pub fn ui_view_args(plugin_id: &str, view_id: Option<&str>) -> (r: Result<Vec<String>, PluginHostError>)
    ensures
        match view_id {
            Some(v) => r matches Ok(args) && args@.map_values(|s: String| s@) == seq!["--view"@, v@],
            None => r matches Err(PluginHostError::UnsupportedAction(p, w)) && p@ == plugin_id@ && w@
                == "ui_view (missing view_id)"@,
        },
{
    match view_id {
        Some(v) => {
            let mut out: Vec<String> = Vec::new();
            out.push(text("--view"));
            out.push(text(v));
            assert(out@.map_values(|s: String| s@) =~= seq!["--view"@, v@]);
            Ok(out)
        },
        None => Err(PluginHostError::UnsupportedAction(text(plugin_id), text("ui_view (missing view_id)"))),
    }
}


/// A permission that a plugin's manifest grants.
#[derive(Debug, Clone, Copy, PartialEq, Eq, Structural)]
pub enum PluginPermission {
    WorkspaceRead,
    WorkspaceWrite,
    ExternalProcess,
}

/// How a permission is written in a plugin manifest.
pub open spec fn permission_name(p: PluginPermission) -> Seq<char> {
    match p {
        PluginPermission::WorkspaceRead => "workspace.read"@,
        PluginPermission::WorkspaceWrite => "workspace.write"@,
        PluginPermission::ExternalProcess => "external_process"@,
    }
}

impl PluginPermission {
    /// The permission as written in a plugin manifest.
    pub fn as_str(&self) -> (r: &'static str)
        ensures
            r@ == permission_name(*self),
    {
        match self {
            PluginPermission::WorkspaceRead => "workspace.read",
            PluginPermission::WorkspaceWrite => "workspace.write",
            PluginPermission::ExternalProcess => "external_process",
        }
    }
}

/// `ensure_permission`: the plugin's manifest must grant `required`; otherwise the error
/// names the plugin and the permission.
pub fn ensure_permission(permissions: &[PluginPermission], plugin_id: &str, required: PluginPermission) -> (r:
    Result<(), PluginHostError>)
    ensures
        permissions@.contains(required) ==> r is Ok,
        !permissions@.contains(required) ==> (r matches Err(PluginHostError::MissingPermission(p, n)) && p@
            == plugin_id@ && n@ == permission_name(required)),
{
    let mut i: usize = 0;
    while i < permissions.len()
        invariant
            0 <= i <= permissions@.len(),
            forall|k: int| 0 <= k < i ==> permissions@[k] != required,
        decreases permissions.len() - i,
    {
        if permissions[i] == required {
            assert(permissions@[i as int] == required);
            return Ok(());
        }
        i += 1;
    }
    Err(PluginHostError::MissingPermission(text(plugin_id), text(required.as_str())))
}

/// What a `ui_view` run of `plugin_id` is refused for, if anything: the plugin must be granted
/// reading and writing the workspace and running an external process, checked in that order,
/// and a view id is required.
pub open spec fn ui_view_refusal(permissions: Seq<PluginPermission>, view_id: Option<Seq<char>>) -> Option<
    Result<PluginPermission, Seq<char>>,
> {
    if !permissions.contains(PluginPermission::WorkspaceRead) {
        Some(Ok(PluginPermission::WorkspaceRead))
    } else if !permissions.contains(PluginPermission::WorkspaceWrite) {
        Some(Ok(PluginPermission::WorkspaceWrite))
    } else if !permissions.contains(PluginPermission::ExternalProcess) {
        Some(Ok(PluginPermission::ExternalProcess))
    } else if view_id is None {
        Some(Err("ui_view (missing view_id)"@))
    } else {
        None
    }
}

/// The checks of a `ui_view` action before its run: the permissions (see `ui_view_refusal`),
/// then the extra arguments `--view` and the view id.
pub fn ui_view_request(permissions: &[PluginPermission], plugin_id: &str, view_id: Option<&str>) -> (r: Result<
    Vec<String>,
    PluginHostError,
>)
    ensures
        match ui_view_refusal(permissions@, match view_id {
            Some(v) => Some(v@),
            None => None,
        }) {
            Some(Ok(p)) => r matches Err(PluginHostError::MissingPermission(a, b)) && a@ == plugin_id@ && b@
                == permission_name(p),
            Some(Err(w)) => r matches Err(PluginHostError::UnsupportedAction(a, b)) && a@ == plugin_id@ && b@
                == w,
            None => r matches Ok(args) && args@.map_values(|s: String| s@) == seq!["--view"@, view_id->Some_0@],
        },
{
    match ensure_permission(permissions, plugin_id, PluginPermission::WorkspaceRead) {
        Err(e) => {
            return Err(e);
        },
        Ok(()) => {},
    }
    match ensure_permission(permissions, plugin_id, PluginPermission::WorkspaceWrite) {
        Err(e) => {
            return Err(e);
        },
        Ok(()) => {},
    }
    match ensure_permission(permissions, plugin_id, PluginPermission::ExternalProcess) {
        Err(e) => {
            return Err(e);
        },
        Ok(()) => {},
    }
    ui_view_args(plugin_id, view_id)
}

} // verus!
