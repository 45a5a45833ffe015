use strixonomy::plugin::{PluginHostError, SubprocessError, SubprocessRequest};
use strixonomy::process::{
    ensure_permission, exit_failure, route_plugin_action, subprocess_args, ui_view_args,
    ui_view_request, validate_binary_path, PluginAction, PluginPermission,
};
use strixonomy::validators::{plugin_diagnostic, wire_severity, DiagnosticSeverity};

#[test]
fn binary_paths_may_not_climb_out() {
    assert!(validate_binary_path("bin/plugin").is_ok());
    assert!(validate_binary_path("./bin/..plugin").is_ok());
    assert!(validate_binary_path("/opt/a..b/plugin").is_ok());
    assert_eq!(
        validate_binary_path("../plugin"),
        Err(SubprocessError::PathNotAllowed("../plugin".into()))
    );
    assert!(validate_binary_path("bin/../../etc").is_err());
    assert!(validate_binary_path("bin/..").is_err());
}

#[test]
fn subprocess_command_line() {
    let extra = vec!["--view".to_string(), "graph".to_string()];
    let with_step = SubprocessRequest { action: "workflow", workspace: "/ws", step: Some("qc"), extra_args: &extra };
    assert_eq!(
        subprocess_args(&with_step),
        vec!["workflow", "--workspace", "/ws", "--step", "qc", "--view", "graph"]
    );
    let plain = SubprocessRequest { action: "validate", workspace: "/ws", step: None, extra_args: &[] };
    assert_eq!(subprocess_args(&plain), vec!["validate", "--workspace", "/ws"]);
}

#[test]
fn failed_exit_is_reported_with_stderr_summary() {
    assert_eq!(exit_failure(Some(3), b"  boom \n"), SubprocessError::RunFailed("exit 3: boom".into()));
    assert_eq!(exit_failure(None, b""), SubprocessError::RunFailed("exit -1".into()));
    assert_eq!(exit_failure(Some(-9), b"   "), SubprocessError::RunFailed("exit -9".into()));
}

#[test]
fn actions_are_dispatched_with_defaults() {
    assert_eq!(route_plugin_action("p", "validate", true, None, None).unwrap(), PluginAction::Validate);
    assert_eq!(
        route_plugin_action("p", "workflow", false, None, None).unwrap(),
        PluginAction::Workflow("qc".into())
    );
    assert_eq!(
        route_plugin_action("p", "query", true, None, None).unwrap(),
        PluginAction::Query("SELECT * FROM classes".into())
    );
    assert_eq!(
        route_plugin_action("p", "query.run", true, None, Some("SELECT 1")).unwrap(),
        PluginAction::Query("SELECT 1".into())
    );
    assert_eq!(route_plugin_action("p", "graph.build", true, None, None).unwrap(), PluginAction::Graph);
    assert_eq!(route_plugin_action("p", "ui_view", false, None, None).unwrap(), PluginAction::UiView);
}

#[test]
fn actions_without_catalog_or_unknown_are_refused() {
    match route_plugin_action("p", "reasoner", false, None, None) {
        Err(PluginHostError::UnsupportedAction(id, why)) => {
            assert_eq!(id, "p");
            assert_eq!(why, "reasoner.classify (no catalog)");
        }
        other => panic!("unexpected {other:?}"),
    }
    match route_plugin_action("p", "fly", true, None, None) {
        Err(PluginHostError::UnsupportedAction(_, why)) => assert_eq!(why, "fly"),
        other => panic!("unexpected {other:?}"),
    }
    assert_eq!(ui_view_args("p", Some("tree")).unwrap(), vec!["--view", "tree"]);
    assert!(matches!(ui_view_args("p", None), Err(PluginHostError::UnsupportedAction(_, _))));
}

#[test]
fn wire_severities_and_diagnostics() {
    assert_eq!(wire_severity("error"), DiagnosticSeverity::Error);
    assert_eq!(wire_severity("warning"), DiagnosticSeverity::Warning);
    assert_eq!(wire_severity("Error"), DiagnosticSeverity::Info);
    let d = plugin_diagnostic("p", "path_jail", DiagnosticSeverity::Error, "outside", "/ws", None);
    assert_eq!((d.plugin_id.as_str(), d.code.as_str(), d.message.as_str()), ("p", "path_jail", "outside"));
    assert_eq!(d.file, "/ws");
    assert!(d.entity_iri.is_none());
}

#[test]
fn ui_view_needs_read_write_and_process_permissions_then_a_view() {
    let all = [PluginPermission::WorkspaceRead, PluginPermission::WorkspaceWrite, PluginPermission::ExternalProcess];
    assert!(ensure_permission(&all, "p", PluginPermission::WorkspaceWrite).is_ok());
    match ui_view_request(&all[..1], "p", Some("v")) {
        Err(PluginHostError::MissingPermission(p, n)) => {
            assert_eq!(p, "p");
            assert_eq!(n, "workspace.write");
        }
        other => panic!("unexpected: {:?}", other),
    }
    match ui_view_request(&all[..2], "p", Some("v")) {
        Err(PluginHostError::MissingPermission(_, n)) => assert_eq!(n, "external_process"),
        other => panic!("unexpected: {:?}", other),
    }
    match ui_view_request(&all, "p", None) {
        Err(PluginHostError::UnsupportedAction(_, w)) => assert_eq!(w, "ui_view (missing view_id)"),
        other => panic!("unexpected: {:?}", other),
    }
    assert_eq!(ui_view_request(&all, "p", Some("tree")).unwrap(), vec!["--view".to_string(), "tree".to_string()]);
}
