use log_analyzer::socket::{Dispatch, Hub, HubMsg, LogState, REPLAY_LIMIT};

#[test]
fn new_state_is_empty() {
    let s = LogState::new();
    assert!(s.log_cache.is_empty());
    assert!(s.metric_cache.is_empty());
    assert!(s.replay().is_empty());
}

#[test]
fn replay_cache_keeps_latest_500() {
    let mut s = LogState::new();
    for i in 0..1200 {
        s.record_log(format!("log {}", i));
    }
    assert_eq!(s.log_cache.len(), REPLAY_LIMIT);
    assert_eq!(s.log_cache.front().unwrap(), "log 700");
    assert_eq!(s.log_cache.back().unwrap(), "log 1199");
    assert!(s.metric_cache.is_empty());
}

#[test]
fn replay_sends_logs_then_metrics() {
    let mut s = LogState::new();
    s.record_metric("m1".to_string());
    s.record_log("l1".to_string());
    s.record_log("l2".to_string());
    s.record_metric("m2".to_string());
    assert_eq!(s.replay(), vec!["l1", "l2", "m1", "m2"]);
}

#[test]
fn hub_replays_to_new_client_and_broadcasts() {
    let mut hub = Hub::new();
    match hub.handle(HubMsg::LogData("a".to_string())) {
        Dispatch::Broadcast(t) => assert_eq!(t, "a"),
        _ => panic!("expected a broadcast"),
    }
    match hub.handle(HubMsg::MetricData("m".to_string())) {
        Dispatch::Broadcast(t) => assert_eq!(t, "m"),
        _ => panic!("expected a broadcast"),
    }
    match hub.handle(HubMsg::NewClient(7)) {
        Dispatch::Replay { client, messages } => {
            assert_eq!(client, 7);
            assert_eq!(messages, vec!["a", "m"]);
        }
        _ => panic!("expected a replay"),
    }
    assert_eq!(hub.clients(), &vec![7]);
    hub.handle(HubMsg::NewClient(9));
    assert_eq!(hub.clients(), &vec![7, 9]);
}

#[test]
fn prune_drops_failed_clients() {
    let mut hub = Hub::new();
    for id in [1, 2, 3, 4] {
        hub.handle(HubMsg::NewClient(id));
    }
    hub.prune(&vec![true, false, true, false]);
    assert_eq!(hub.clients(), &vec![1, 3]);
    hub.prune(&vec![true, true]);
    assert_eq!(hub.clients(), &vec![1, 3]);
    hub.prune(&vec![false, false]);
    assert!(hub.clients().is_empty());
}
