use auto_secret::controller::{error_policy, Action, ControllerError, RETRY_DELAY_SECONDS};
use auto_secret::reconciler::{applied, fetched};
use auto_secret::resource::{AutoSecret, AutoSecretSpec, ObjectMeta};
use auto_secret::secret::Secret;
use auto_secret::secret_types::AutoSecretType;
use auto_secret::string_map::StringMap;

fn resource(name: Option<&str>, namespace: Option<&str>) -> AutoSecret {
    let mut secrets = StringMap::new();
    secrets.insert("a".to_string(), AutoSecretType::Uuid);
    AutoSecret {
        metadata: ObjectMeta {
            name: name.map(|s| s.to_string()),
            namespace: namespace.map(|s| s.to_string()),
        },
        spec: AutoSecretSpec { secrets },
    }
}

#[test]
fn actions() {
    assert_eq!(Action::await_change().requeue_after, None);
    assert_eq!(Action::requeue(0).requeue_after, Some(0));
    assert_eq!(Action::requeue(90).requeue_after, Some(90));
    assert_ne!(Action::await_change(), Action::requeue(0));
}

#[test]
fn every_failure_is_retried_after_fifteen_seconds() {
    assert_eq!(RETRY_DELAY_SECONDS, 15);
    let failures = [
        ControllerError::SecretGetFailed("timeout".to_string()),
        ControllerError::SecretApplyFailed("conflict".to_string()),
        ControllerError::MissingObjectKey(".metadata.name"),
    ];
    for failure in &failures {
        assert_eq!(error_policy(failure), Action::requeue(15));
        assert_eq!(error_policy(failure).requeue_after, Some(15));
    }
}

#[test]
fn failures_as_text() {
    assert_eq!(
        ControllerError::SecretGetFailed("timeout".to_string()).to_text(),
        "Failed to get secret: timeout"
    );
    assert_eq!(
        ControllerError::SecretApplyFailed("conflict".to_string()).to_text(),
        "Failed to apply secret: conflict"
    );
    assert_eq!(
        ControllerError::MissingObjectKey(".metadata.namespace").to_text(),
        "MissingObjectKey: .metadata.namespace"
    );
}

#[test]
fn name_and_namespace_of_an_object() {
    let object = resource(Some("demo"), Some("default"));
    assert_eq!(object.name().unwrap(), "demo");
    assert_eq!(object.namespace().unwrap(), "default");
    assert_eq!(object.secrets().len(), 1);
    assert_eq!(object.secrets().get("a"), Some(&AutoSecretType::Uuid));
}

#[test]
fn missing_name_is_reported() {
    let object = resource(None, Some("default"));
    assert!(matches!(object.name(), Err(ControllerError::MissingObjectKey(".metadata.name"))));
    assert_eq!(object.namespace().unwrap(), "default");
}

#[test]
fn missing_namespace_is_reported() {
    let object = resource(Some("demo"), None);
    assert!(matches!(
        object.namespace(),
        Err(ControllerError::MissingObjectKey(".metadata.namespace"))
    ));
    assert_eq!(object.name().unwrap(), "demo");
}

#[test]
fn a_failed_read_carries_its_cause() {
    match fetched(Err("connection refused".to_string())) {
        Err(ControllerError::SecretGetFailed(cause)) => assert_eq!(cause, "connection refused"),
        other => panic!("unexpected {:?}", other),
    }
}

#[test]
fn a_read_hands_on_what_it_found() {
    assert!(matches!(fetched(Ok(None)), Ok(None)));
    let stored = Secret::new("default".to_string(), "demo".to_string(), Vec::new());
    match fetched(Ok(Some(stored))) {
        Ok(Some(secret)) => assert_eq!(secret.name, "demo"),
        other => panic!("unexpected {:?}", other),
    }
}

#[test]
fn a_write_that_succeeded_waits_for_the_next_change() {
    match applied(Ok(())) {
        Ok(action) => assert_eq!(action, Action::await_change()),
        Err(e) => panic!("unexpected {:?}", e),
    }
}

#[test]
fn a_failed_write_carries_its_cause() {
    match applied(Err("forbidden".to_string())) {
        Err(ControllerError::SecretApplyFailed(cause)) => assert_eq!(cause, "forbidden"),
        other => panic!("unexpected {:?}", other),
    }
}
