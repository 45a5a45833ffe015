use strixonomy::host::{HostedPlugin, PluginActivation, PluginHost, PluginLifecycleState};
use strixonomy::lifecycle::{DiscoveredPlugin, LifecycleError};
use strixonomy::plugin::PluginHostError;

fn hosted(id: &str, depends_on: &[&str], activation: PluginActivation) -> HostedPlugin {
    HostedPlugin {
        plugin: DiscoveredPlugin {
            id: id.to_string(),
            depends_on: depends_on.iter().map(|d| d.to_string()).collect(),
        },
        hosted: true,
        activation,
    }
}

fn a_and_b() -> Vec<HostedPlugin> {
    vec![
        hosted("a", &[], PluginActivation::OnStartup),
        hosted("b", &["a"], PluginActivation::OnStartup),
    ]
}

#[test]
fn activate_all_orders_dependencies() {
    let mut host = PluginHost::new(&a_and_b(), Vec::new());
    let order = host.activate_all().expect("activate");
    assert_eq!(order, vec!["a".to_string(), "b".to_string()]);
    assert_eq!(host.state_of("a"), PluginLifecycleState::Active);
    assert_eq!(host.state_of("b"), PluginLifecycleState::Active);
}

#[test]
fn disable_cascades_dependents() {
    let mut host = PluginHost::new(&a_and_b(), Vec::new());
    host.activate_all().unwrap();
    host.disable_plugin("a").unwrap();
    assert_eq!(host.state_of("a"), PluginLifecycleState::Disabled);
    assert_eq!(host.state_of("b"), PluginLifecycleState::Disabled);
    assert!(host.is_disabled("a"));
    assert!(host.is_disabled("b"));
}

#[test]
fn activation_order_ignores_listing_order() {
    let plugins = vec![
        hosted("b", &["a"], PluginActivation::OnStartup),
        hosted("a", &[], PluginActivation::OnStartup),
    ];
    let mut host = PluginHost::new(&plugins, Vec::new());
    let order = host.activate_all().unwrap();
    assert_eq!(order, vec!["a".to_string(), "b".to_string()]);
}

#[test]
fn activate_pulls_in_dependencies() {
    let mut host = PluginHost::new(&a_and_b(), Vec::new());
    assert_eq!(host.state_of("a"), PluginLifecycleState::Discovered);
    host.activate("b").unwrap();
    assert_eq!(host.state_of("a"), PluginLifecycleState::Active);
    assert_eq!(host.state_of("b"), PluginLifecycleState::Active);
    assert_eq!(host.activation_events(), &vec!["a".to_string(), "b".to_string()]);
}

#[test]
fn activate_unknown_is_not_found() {
    let mut host = PluginHost::new(&a_and_b(), Vec::new());
    let err = host.activate("zzz").unwrap_err();
    assert!(matches!(err, PluginHostError::NotFound(ref s) if s == "zzz"));
}

#[test]
fn activate_disabled_is_refused() {
    let mut host = PluginHost::new(&a_and_b(), vec!["b".to_string()]);
    let err = host.activate("b").unwrap_err();
    assert!(matches!(err, PluginHostError::Disabled(ref s) if s == "b"));
    assert_eq!(host.state_of("b"), PluginLifecycleState::Discovered);
}

#[test]
fn activate_with_disabled_dependency_is_missing_dependency() {
    let mut host = PluginHost::new(&a_and_b(), vec!["a".to_string()]);
    let err = host.activate("b").unwrap_err();
    match err {
        PluginHostError::Lifecycle(LifecycleError::MissingDependency(p, d)) => {
            assert_eq!(p, "b");
            assert_eq!(d, "a (disabled)");
        }
        other => panic!("unexpected error: {:?}", other),
    }
    assert_eq!(host.state_of("b"), PluginLifecycleState::Discovered);
}

#[test]
fn activate_reserved_kind_is_unsupported() {
    let mut plugins = a_and_b();
    plugins[0].hosted = false;
    let mut host = PluginHost::new(&plugins, Vec::new());
    let err = host.activate("a").unwrap_err();
    match err {
        PluginHostError::UnsupportedAction(id, what) => {
            assert_eq!(id, "a");
            assert_eq!(what, "activate (reserved kind)");
        }
        other => panic!("unexpected error: {:?}", other),
    }
}

#[test]
fn deactivate_cascades_to_active_dependents() {
    let mut host = PluginHost::new(&a_and_b(), Vec::new());
    host.activate_all().unwrap();
    host.deactivate("a").unwrap();
    assert_eq!(host.state_of("a"), PluginLifecycleState::Registered);
    assert_eq!(host.state_of("b"), PluginLifecycleState::Registered);
    assert!(host.activation_events().is_empty());
}

#[test]
fn enable_after_disable_reactivates_startup_plugin() {
    let mut host = PluginHost::new(&a_and_b(), Vec::new());
    host.activate_all().unwrap();
    host.disable_plugin("a").unwrap();
    host.enable_plugin("a").unwrap();
    assert!(!host.is_disabled("a"));
    assert_eq!(host.state_of("a"), PluginLifecycleState::Active);
    assert!(host.is_disabled("b"));
}

#[test]
fn enable_on_command_plugin_only_registers() {
    let plugins = vec![hosted("c", &[], PluginActivation::OnCommand)];
    let mut host = PluginHost::new(&plugins, vec!["c".to_string()]);
    host.enable_plugin("c").unwrap();
    assert!(!host.is_disabled("c"));
    assert_eq!(host.state_of("c"), PluginLifecycleState::Registered);
}

#[test]
fn activate_all_registers_on_command_and_marks_disabled() {
    let plugins = vec![
        hosted("a", &[], PluginActivation::OnStartup),
        hosted("c", &[], PluginActivation::OnCommand),
        hosted("d", &[], PluginActivation::OnWorkspaceOpen),
    ];
    let mut host = PluginHost::new(&plugins, vec!["d".to_string()]);
    let order = host.activate_all().unwrap();
    assert_eq!(order, vec!["a".to_string()]);
    assert_eq!(host.state_of("c"), PluginLifecycleState::Registered);
    assert_eq!(host.state_of("d"), PluginLifecycleState::Disabled);
}

#[test]
fn activate_all_reports_cycle() {
    let plugins = vec![
        hosted("a", &["b"], PluginActivation::OnStartup),
        hosted("b", &["a"], PluginActivation::OnStartup),
    ];
    let mut host = PluginHost::new(&plugins, Vec::new());
    let err = host.activate_all().unwrap_err();
    assert!(matches!(err, PluginHostError::Lifecycle(LifecycleError::Cycle(_))));
}

#[test]
fn list_plugins_reports_state_and_enablement() {
    let plugins = vec![
        hosted("a", &[], PluginActivation::OnStartup),
        hosted("b", &["a"], PluginActivation::OnCommand),
        hosted("c", &[], PluginActivation::OnWorkspaceOpen),
    ];
    let mut host = PluginHost::new(&plugins, vec!["c".to_string()]);
    host.activate("a").expect("activate");
    let list = host.list_plugins();
    assert_eq!(list.len(), 3);
    assert_eq!(list[0].id, "a");
    assert_eq!(list[0].state, PluginLifecycleState::Active);
    assert!(list[0].enabled && !list[0].disabled);
    assert_eq!(list[1].id, "b");
    assert_eq!(list[1].depends_on, vec!["a".to_string()]);
    assert_eq!(list[1].activation, PluginActivation::OnCommand);
    assert_eq!(list[1].state, PluginLifecycleState::Discovered);
    assert!(!list[1].enabled && !list[1].disabled);
    assert!(list[2].disabled && !list[2].enabled);
    let info = host.plugin_info("b").expect("info");
    assert_eq!(info.id, "b");
    match host.plugin_info("zzz") {
        Err(PluginHostError::NotFound(id)) => assert_eq!(id, "zzz"),
        other => panic!("expected NotFound, got {other:?}"),
    }
}
