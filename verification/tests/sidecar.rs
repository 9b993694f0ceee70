use ethera::primitives::Address;
use ethera::sidecar::client::{
    endpoint_url, CheckTx, ConfirmAction, ConfirmEvent, ConfirmWorker, SidecarClient,
};
use ethera::sidecar::config::SidecarConfig;
use ethera::sidecar::types::SidecarError;

fn config(endpoint: &str, max_retries: u32, permissions_enabled: bool) -> SidecarConfig {
    SidecarConfig {
        endpoint: endpoint.to_string(),
        max_retries,
        permissions_enabled,
        ..SidecarConfig::default()
    }
}

fn ids(list: &[&str]) -> Vec<String> {
    list.iter().map(|id| id.to_string()).collect()
}

fn posted(worker: &ConfirmWorker) -> Vec<String> {
    match worker.action() {
        ConfirmAction::Post { url, request } => {
            assert_eq!(url, "http://localhost:8082/ethera/confirm");
            request.instance_ids
        }
        other => panic!("expected a post, got {other:?}"),
    }
}

#[test]
fn default_config_is_disabled() {
    let config = SidecarConfig::default();
    assert!(!config.is_enabled());
    assert_eq!(config.request_timeout_ms, 200);
    assert_eq!(config.max_retries, 5);
    assert!(!config.permissions_enabled);
    let set = SidecarConfig { endpoint: "http://localhost:8082".to_string(), ..config };
    assert!(set.is_enabled());
}

#[test]
fn trailing_slashes_of_the_endpoint_are_dropped() {
    assert_eq!(endpoint_url("http://a", "/x"), "http://a/x");
    assert_eq!(endpoint_url("http://a/", "/x"), "http://a/x");
    assert_eq!(endpoint_url("http://a/b//", "/x"), "http://a/b/x");
    assert_eq!(endpoint_url("///", "/x"), "/x");
}

#[test]
fn client_without_endpoint_confirms_nothing() {
    let client = SidecarClient::new(config("", 5, true));
    assert!(!client.is_enabled());
    assert_eq!(client.confirm_included(ids(&["a"])), None);
    assert!(SidecarClient::for_permissions(&config("", 5, true)).is_none());
}

#[test]
fn client_with_endpoint_confirms_instances() {
    let client = SidecarClient::new(config("http://localhost:8082", 5, true));
    assert!(client.is_enabled());
    assert_eq!(client.confirm_included(ids(&["a", "b"])), Some(ids(&["a", "b"])));
    assert_eq!(client.confirm_included(Vec::new()), None);
    match client.check_tx(Address::new([1; 20]), true, true) {
        CheckTx::Decided(response) => {
            assert!(response.allowed);
            assert_eq!(response.reason, None);
            assert_eq!(response.config_version, None);
        }
        other => panic!("expected a verdict, got {other:?}"),
    }
}

#[test]
fn permission_client_asks_the_sidecar() {
    assert!(SidecarClient::for_permissions(&config("http://a/", 5, false)).is_none());
    let client = SidecarClient::for_permissions(&config("http://a/", 5, true)).unwrap();
    assert!(!client.is_enabled());
    assert_eq!(client.confirm_included(ids(&["a"])), None);
    match client.check_tx(Address::new([0xAB; 20]), true, false) {
        CheckTx::Ask { url, request } => {
            assert_eq!(url, "http://a/permissions/check-tx");
            assert_eq!(request.from, "0xabababababababababababababababababababab");
            assert!(request.is_create);
            assert!(!request.has_value);
        }
        other => panic!("expected a question, got {other:?}"),
    }
}

#[test]
fn worker_batches_what_is_queued() {
    let mut worker = ConfirmWorker::new(&config("http://localhost:8082/", 5, false));
    assert!(matches!(worker.action(), ConfirmAction::Receive));
    worker.step(ConfirmEvent::Received(ids(&["a"])));
    assert!(matches!(worker.action(), ConfirmAction::TryReceive));
    worker.step(ConfirmEvent::Received(ids(&["b", "c"])));
    worker.step(ConfirmEvent::Drained);
    assert_eq!(posted(&worker), ids(&["a", "b", "c"]));
    worker.step(ConfirmEvent::Posted);
    assert!(matches!(worker.action(), ConfirmAction::Receive));
    worker.step(ConfirmEvent::Received(ids(&["d"])));
    worker.step(ConfirmEvent::Closed);
    assert_eq!(posted(&worker), ids(&["d"]));
    worker.step(ConfirmEvent::Posted);
    worker.step(ConfirmEvent::Closed);
    assert!(matches!(worker.action(), ConfirmAction::Stop));
}

#[test]
fn worker_retries_and_keeps_a_failed_batch() {
    let mut worker = ConfirmWorker::new(&config("http://localhost:8082", 2, false));
    worker.step(ConfirmEvent::Received(ids(&["a"])));
    worker.step(ConfirmEvent::Drained);
    for _ in 0..2 {
        assert_eq!(posted(&worker), ids(&["a"]));
        worker.step(ConfirmEvent::Failed);
        assert!(matches!(worker.action(), ConfirmAction::Pause(25)));
        worker.step(ConfirmEvent::Paused);
    }
    assert_eq!(posted(&worker), ids(&["a"]));
    worker.step(ConfirmEvent::Failed);
    assert!(matches!(worker.action(), ConfirmAction::Receive));
    worker.step(ConfirmEvent::Received(ids(&["b"])));
    worker.step(ConfirmEvent::Drained);
    assert_eq!(posted(&worker), ids(&["a", "b"]));
}

#[test]
fn worker_without_retries_posts_once() {
    let mut worker = ConfirmWorker::new(&config("http://localhost:8082", 0, false));
    worker.step(ConfirmEvent::Received(ids(&["a"])));
    worker.step(ConfirmEvent::Drained);
    worker.step(ConfirmEvent::Failed);
    assert!(matches!(worker.action(), ConfirmAction::Receive));
}

#[test]
fn worker_ignores_events_out_of_phase() {
    let mut worker = ConfirmWorker::new(&config("http://localhost:8082", 1, false));
    worker.step(ConfirmEvent::Posted);
    worker.step(ConfirmEvent::Failed);
    worker.step(ConfirmEvent::Paused);
    worker.step(ConfirmEvent::Drained);
    assert!(matches!(worker.action(), ConfirmAction::Receive));
}

#[test]
fn sidecar_error_has_a_message() {
    assert_eq!(
        SidecarError::Http("refused".to_string()).message(),
        "HTTP request failed: refused"
    );
}

#[test]
fn kept_batch_has_one_last_round_when_the_queue_closes() {
    let mut worker = ConfirmWorker::new(&config("http://localhost:8082", 1, false));
    worker.step(ConfirmEvent::Received(ids(&["a"])));
    worker.step(ConfirmEvent::Drained);
    for _ in 0..2 {
        assert_eq!(posted(&worker), ids(&["a"]));
        worker.step(ConfirmEvent::Failed);
        assert!(matches!(worker.action(), ConfirmAction::Pause(25)));
        worker.step(ConfirmEvent::Paused);
        assert_eq!(posted(&worker), ids(&["a"]));
        worker.step(ConfirmEvent::Failed);
        assert!(matches!(worker.action(), ConfirmAction::Receive));
        worker.step(ConfirmEvent::Closed);
    }
    assert!(matches!(worker.action(), ConfirmAction::Stop));
}

#[test]
fn last_round_may_succeed() {
    let mut worker = ConfirmWorker::new(&config("http://localhost:8082", 0, false));
    worker.step(ConfirmEvent::Received(ids(&["a"])));
    worker.step(ConfirmEvent::Drained);
    worker.step(ConfirmEvent::Failed);
    worker.step(ConfirmEvent::Closed);
    assert_eq!(posted(&worker), ids(&["a"]));
    worker.step(ConfirmEvent::Posted);
    worker.step(ConfirmEvent::Closed);
    assert!(matches!(worker.action(), ConfirmAction::Stop));
}
