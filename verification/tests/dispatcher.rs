use sludge::dependency_graph::DependencyError;
use sludge::dispatcher::{DispatchError, Dispatcher};

#[test]
fn dispatcher_runs_systems_after_their_dependencies() {
    let mut d = Dispatcher::new();
    assert_eq!(d.register("render", "render", &[]), Ok(()));
    assert_eq!(d.register("physics", "physics", &[]), Ok(()));
    assert_eq!(d.register("collide", "collide", &["physics"]), Ok(()));
    assert_eq!(d.register("draw", "draw", &["render", "collide"]), Ok(()));
    assert_eq!(d.update().err(), Some(DispatchError::NotRefreshed));
    assert_eq!(d.refresh(), Ok(true));
    let order: Vec<&str> = d.update().unwrap().into_iter().map(|(name, _)| name).collect();
    let pos = |n: &str| order.iter().position(|x| *x == n).unwrap();
    assert_eq!(order.len(), 4);
    assert!(pos("physics") < pos("collide"));
    assert!(pos("collide") < pos("draw"));
    assert!(pos("render") < pos("draw"));
    assert_eq!(d.refresh(), Ok(false));
}

#[test]
fn dispatcher_refuses_duplicates_and_unknown_dependencies() {
    let mut d = Dispatcher::new();
    assert_eq!(d.register(1, "a", &[]), Ok(()));
    assert_eq!(d.register(2, "a", &[]), Err(DispatchError::AlreadyExists));
    assert_eq!(
        d.register(3, "b", &["missing"]),
        Err(DispatchError::Dependency(DependencyError::NoSuchDependency("missing".to_string())))
    );
}

#[test]
fn dispatcher_reports_cycles() {
    let mut d = Dispatcher::new();
    assert_eq!(d.register((), "self", &["self"]), Ok(()));
    assert_eq!(
        d.refresh(),
        Err(DispatchError::Dependency(DependencyError::Cycle("self".to_string())))
    );
    assert_eq!(d.update().err(), Some(DispatchError::NotRefreshed));
}
