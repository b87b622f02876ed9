use tnn::errors::ExtensionInstallationError;
use tnn::extension::{Dependency, Extension};
use tnn::repository::{Activation, ExtensionRepository, RepositoryError};

fn ext(name: &str, version: &str, dependencies: Vec<Dependency>) -> Extension {
    Extension { name: name.to_string(), version: version.to_string(), dependencies }
}

fn req(name: &str, matcher: &str) -> Dependency {
    Dependency::Required(name.to_string(), matcher.to_string())
}

fn opt(name: &str, matcher: &str) -> Dependency {
    Dependency::Optional(name.to_string(), matcher.to_string())
}

fn activate(r: Result<Activation, RepositoryError>) -> Option<String> {
    match r {
        Ok(Activation::Activate(n)) => Some(n),
        Ok(Activation::Idle) => None,
        Err(_) => panic!("unexpected error"),
    }
}

#[test]
fn extension_without_dependencies_is_activated_at_once() {
    let mut repo = ExtensionRepository::new();
    assert_eq!(activate(repo.add(ext("core", "1.0.0", vec![]))), Some("core".to_string()));
    assert!(!repo.is_idle());
    assert_eq!(activate(repo.activation_succeeded()), None);
    assert!(repo.is_idle());
    assert_eq!(repo.get_extension_version_for(&"core".to_string()), Some("1.0.0".to_string()));
    assert_eq!(repo.get_extension_version_for(&"other".to_string()), None);
    assert!(repo.problems().is_empty());
}

#[test]
fn dependent_waits_for_its_dependency() {
    let mut repo = ExtensionRepository::new();
    // `app` needs `core`, which is not there yet.
    assert_eq!(activate(repo.add(ext("app", "0.1.0", vec![req("core", "^1")]))), None);
    let problems = repo.problems();
    assert_eq!(problems.len(), 1);
    assert_eq!(problems[0].extension, "app");
    assert_eq!(problems[0].version, "0.1.0");
    assert_eq!(problems[0].missing, vec!["core".to_string()]);
    assert_eq!(problems[0].message(), "Extension 'app@0.1.0' was not activated, missing 'core'");
    // Adding `core` activates it, then `app`.
    assert_eq!(activate(repo.add(ext("core", "1.4.0", vec![]))), Some("core".to_string()));
    assert_eq!(activate(repo.activation_succeeded()), Some("app".to_string()));
    assert_eq!(activate(repo.activation_succeeded()), None);
    assert!(repo.problems().is_empty());
}

#[test]
fn waiters_are_activated_in_order() {
    let mut repo = ExtensionRepository::new();
    assert_eq!(activate(repo.add(ext("b", "1.0.0", vec![req("a", "*")]))), None);
    assert_eq!(activate(repo.add(ext("c", "1.0.0", vec![req("a", "*")]))), None);
    assert_eq!(activate(repo.add(ext("a", "1.0.0", vec![]))), Some("a".to_string()));
    assert_eq!(activate(repo.activation_succeeded()), Some("b".to_string()));
    assert_eq!(activate(repo.activation_succeeded()), Some("c".to_string()));
    assert_eq!(activate(repo.activation_succeeded()), None);
}

#[test]
fn required_version_mismatch_blocks_activation() {
    let mut repo = ExtensionRepository::new();
    assert_eq!(activate(repo.add(ext("core", "2.0.0", vec![]))), Some("core".to_string()));
    assert_eq!(activate(repo.activation_succeeded()), None);
    // A required dependency of a rejected version: not activated.
    assert_eq!(activate(repo.add(ext("old", "1.0.0", vec![req("core", "^1")]))), None);
    // An optional one: activated all the same.
    assert_eq!(
        activate(repo.add(ext("lenient", "1.0.0", vec![opt("core", "^1")]))),
        Some("lenient".to_string())
    );
    assert_eq!(activate(repo.activation_succeeded()), None);
}

#[test]
fn optional_dependency_still_awaited() {
    let mut repo = ExtensionRepository::new();
    assert_eq!(activate(repo.add(ext("x", "1.0.0", vec![opt("y", "*")]))), None);
    let problems = repo.problems();
    assert_eq!(problems.len(), 1);
    assert!(problems[0].missing.is_empty());
    assert_eq!(problems[0].message(), "Extension 'x@1.0.0' was not activated, missing ''");
}

#[test]
fn adding_twice() {
    let mut repo = ExtensionRepository::new();
    assert_eq!(activate(repo.add(ext("a", "1.0.0", vec![]))), Some("a".to_string()));
    repo.activation_succeeded().ok().unwrap();
    // Same version: nothing happens.
    assert_eq!(activate(repo.add(ext("a", "1.0.0", vec![]))), None);
    // Another version: refused.
    match repo.add(ext("a", "2.0.0", vec![])) {
        Err(RepositoryError::Installation(ExtensionInstallationError::ExtensionAlreadyAdded(n, added, adding))) => {
            assert_eq!((n.as_str(), added.as_str(), adding.as_str()), ("a", "1.0.0", "2.0.0"));
        }
        _ => panic!("expected ExtensionAlreadyAdded"),
    }
    assert_eq!(repo.get_extension_version_for(&"a".to_string()), Some("1.0.0".to_string()));
}

#[test]
fn duplicate_dependency_is_refused() {
    let mut repo = ExtensionRepository::new();
    match repo.add(ext("a", "1.0.0", vec![req("b", "*"), opt("b", "*")])) {
        Err(RepositoryError::Installation(ExtensionInstallationError::DuplicateDependency(n, v, d))) => {
            assert_eq!((n.as_str(), v.as_str(), d.as_str()), ("a", "1.0.0", "b"));
        }
        _ => panic!("expected DuplicateDependency"),
    }
    // Nothing is stored: the corrected manifest can be added.
    assert_eq!(repo.get_extension_version_for(&"a".to_string()), None);
    assert_eq!(activate(repo.add(ext("a", "1.0.0", vec![]))), Some("a".to_string()));
}

#[test]
fn unparsable_requirement_of_active_dependency() {
    let mut repo = ExtensionRepository::new();
    repo.add(ext("a", "1.0.0", vec![])).ok().unwrap();
    repo.activation_succeeded().ok().unwrap();
    match repo.add(ext("b", "1.0.0", vec![req("a", "not a requirement")])) {
        Err(RepositoryError::Version(message)) => assert!(!message.is_empty()),
        _ => panic!("expected a version error"),
    }
}

#[test]
fn locked_repository_refuses() {
    let mut repo = ExtensionRepository::new();
    repo.lock();
    assert!(repo.is_locked());
    repo.lock();
    assert!(repo.is_locked());
    match repo.add(ext("a", "1.0.0", vec![])) {
        Err(RepositoryError::Installation(ExtensionInstallationError::Locked)) => {}
        _ => panic!("expected Locked"),
    }
    assert_eq!(repo.get_extension_version_for(&"a".to_string()), None);
    match repo.inject(ext("a", "1.0.0", vec![])) {
        Err(RepositoryError::Installation(ExtensionInstallationError::Locked)) => {}
        _ => panic!("expected Locked"),
    }
}

#[test]
fn failed_activation_abandons_due_ones() {
    let mut repo = ExtensionRepository::new();
    repo.add(ext("b", "1.0.0", vec![req("a", "*")])).ok().unwrap();
    assert_eq!(activate(repo.add(ext("a", "1.0.0", vec![]))), Some("a".to_string()));
    repo.activation_failed();
    assert!(repo.is_idle());
    assert_eq!(repo.problems().len(), 1);
}

#[test]
fn waiter_with_rejected_version_is_not_activated() {
    let mut repo = ExtensionRepository::new();
    assert_eq!(activate(repo.add(ext("b", "1.0.0", vec![req("a", "^2")]))), None);
    assert_eq!(activate(repo.add(ext("c", "1.0.0", vec![req("a", "^1")]))), None);
    assert_eq!(activate(repo.add(ext("a", "1.5.0", vec![]))), Some("a".to_string()));
    // `b` does not accept 1.5.0; `c` does.
    assert_eq!(activate(repo.activation_succeeded()), Some("c".to_string()));
    assert_eq!(activate(repo.activation_succeeded()), None);
    assert!(repo.problems().is_empty());
}

#[test]
fn waiter_with_unparsable_requirement_stops_completion() {
    let mut repo = ExtensionRepository::new();
    assert_eq!(activate(repo.add(ext("b", "1.0.0", vec![req("a", "not a requirement")]))), None);
    assert_eq!(activate(repo.add(ext("a", "1.0.0", vec![]))), Some("a".to_string()));
    match repo.activation_succeeded() {
        Err(RepositoryError::Version(message)) => assert!(!message.is_empty()),
        _ => panic!("expected a version error"),
    }
    assert!(repo.is_idle());
}

#[test]
fn inject_needs_active_accepted_dependencies() {
    let mut repo = ExtensionRepository::new();
    match repo.inject(ext("app", "1.0.0", vec![req("core", "^1")])) {
        Err(RepositoryError::Installation(ExtensionInstallationError::MissingDependency(a, b, c, d))) => {
            assert_eq!((a.as_str(), b.as_str(), c.as_str(), d.as_str()), ("app", "1.0.0", "core", "^1"));
        }
        _ => panic!("expected MissingDependency"),
    }
    assert_eq!(repo.get_extension_version_for(&"app".to_string()), None);
    assert_eq!(activate(repo.add(ext("core", "2.0.0", vec![]))), Some("core".to_string()));
    assert_eq!(activate(repo.activation_succeeded()), None);
    match repo.inject(ext("app", "1.0.0", vec![opt("core", "^1")])) {
        Err(RepositoryError::Installation(ExtensionInstallationError::VersionMismatch(a, b, c, d, e))) => {
            assert_eq!(
                (a.as_str(), b.as_str(), c.as_str(), d.as_str(), e.as_str()),
                ("app", "1.0.0", "core", "2.0.0", "^1")
            );
        }
        _ => panic!("expected VersionMismatch"),
    }
    assert_eq!(repo.get_extension_version_for(&"app".to_string()), None);
    assert_eq!(
        activate(repo.inject(ext("app", "1.0.0", vec![req("core", "^2")]))),
        Some("app".to_string())
    );
    assert_eq!(activate(repo.activation_succeeded()), None);
    assert_eq!(repo.get_extension_version_for(&"app".to_string()), Some("1.0.0".to_string()));
}

#[test]
fn refusals_hold_while_activating() {
    let mut repo = ExtensionRepository::new();
    repo.add(ext("b", "1.0.0", vec![req("a", "*")])).ok().unwrap();
    assert_eq!(activate(repo.add(ext("a", "1.0.0", vec![]))), Some("a".to_string()));
    assert!(!repo.is_idle());
    // The same name and version again: nothing changes, even now.
    assert_eq!(activate(repo.add(ext("a", "1.0.0", vec![]))), None);
    assert!(!repo.is_idle());
    repo.lock();
    match repo.add(ext("c", "1.0.0", vec![])) {
        Err(RepositoryError::Installation(ExtensionInstallationError::Locked)) => {}
        _ => panic!("expected Locked"),
    }
    assert_eq!(activate(repo.activation_succeeded()), Some("b".to_string()));
    assert_eq!(activate(repo.activation_succeeded()), None);
    assert!(repo.is_locked());
    assert_eq!(repo.get_extension_version_for(&"c".to_string()), None);
}

/// Runs the host's loop over a sequence of additions, every initialisation
/// succeeding, and returns the names activated, sorted.
fn activated_after(extensions: Vec<Extension>) -> Vec<String> {
    let mut repo = ExtensionRepository::new();
    let mut activated: Vec<String> = Vec::new();
    for extension in extensions {
        let mut next = activate(repo.add(extension));
        while let Some(name) = next {
            activated.push(name);
            next = activate(repo.activation_succeeded());
        }
    }
    activated.sort();
    activated
}

fn order_sample() -> Vec<Extension> {
    vec![
        ext("a", "1.0.0", vec![]),
        ext("b", "1.2.0", vec![req("a", "^1")]),
        ext("c", "0.3.0", vec![opt("b", "^1"), req("a", "*")]),
        ext("d", "2.0.0", vec![req("missing", "*")]),
        ext("e", "1.0.0", vec![req("f", "*")]),
        ext("f", "1.0.0", vec![opt("e", "*")]),
    ]
}

#[test]
fn activation_does_not_depend_on_order() {
    let expected = vec!["a".to_string(), "b".to_string(), "c".to_string()];
    assert_eq!(activated_after(order_sample()), expected);
    let mut reversed = order_sample();
    reversed.reverse();
    assert_eq!(activated_after(reversed), expected);
    let mut rotated = order_sample();
    rotated.rotate_left(2);
    assert_eq!(activated_after(rotated), expected);
}
