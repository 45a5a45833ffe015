use strixonomy::lifecycle::{activation_order, dependents_of, DiscoveredPlugin, LifecycleError};

fn plugin(id: &str, depends_on: &[&str]) -> DiscoveredPlugin {
    DiscoveredPlugin {
        id: id.to_string(),
        depends_on: depends_on.iter().map(|d| d.to_string()).collect(),
    }
}

#[test]
fn orders_dependencies() {
    let a = plugin("a", &[]);
    let b = plugin("b", &["a"]);
    let order = activation_order(&[b, a]).expect("order");
    assert_eq!(order, vec!["a".to_string(), "b".to_string()]);
}

#[test]
fn detects_cycle() {
    let a = plugin("a", &["b"]);
    let b = plugin("b", &["a"]);
    assert!(matches!(activation_order(&[a, b]), Err(LifecycleError::Cycle(_))));
}

#[test]
fn missing_dependency_errors() {
    let b = plugin("b", &["missing"]);
    assert!(matches!(activation_order(&[b]), Err(LifecycleError::MissingDependency(_, _))));
}
