//! The store client core against the verified store model: writes, reads,
//! lease scoping, and the watch/reconcile tick.

use confsync::etcd_conf::{ConfClient, Operation, TickStatus, VarPathSpec};
use confsync::store_model::{ModelWatcher, StoreModel};

fn set(key: &str, value: &str, with_lease: bool) -> Operation {
    Operation::SetKey { key: key.to_string(), value: value.to_string(), with_lease }
}

fn pair(k: &str, v: &str) -> (String, String) {
    (k.to_string(), v.to_string())
}

#[test]
fn test_monitor() {
    let mut store = StoreModel::new();
    let mut client = ConfClient::new(5);
    let mut watcher = ModelWatcher::watch(&store, "local/node".to_string());

    client
        .kv_operations(
            &mut store,
            vec![
                set("local/node", "value", false),
                set("local/node/leased", "leased_value", true),
            ],
        )
        .unwrap();

    let res = client
        .fetch_vars(&store, &vec![VarPathSpec::SingleVar("local/node/leased".into())])
        .unwrap();
    assert_eq!(res, vec![pair("local/node/leased", "leased_value")]);

    let res = client
        .fetch_vars(
            &store,
            &vec![
                VarPathSpec::Prefix("local/node".into()),
                VarPathSpec::SingleVar("local/node/leased".into()),
            ],
        )
        .unwrap();
    assert_eq!(
        res,
        vec![
            pair("local/node", "value"),
            pair("local/node/leased", "leased_value"),
            pair("local/node/leased", "leased_value"),
        ]
    );

    // one tick applies the pending mutation; the next tick surfaces it
    let mut counter = 0;
    let mut watch_result = Operation::default();
    client.monitor_start(&mut store);
    match client
        .monitor_tick(
            &mut store,
            &mut watcher,
            vec![set("local/node/leased", "new_leased", true)],
        )
        .unwrap()
    {
        TickStatus::Running { notifications } => {
            for n in notifications {
                counter += 1;
                watch_result = n;
            }
        }
        TickStatus::Stopped => panic!("Unexpected termination occurred"),
    }
    match client.monitor_tick(&mut store, &mut watcher, vec![]).unwrap() {
        TickStatus::Running { notifications } => {
            for n in notifications {
                counter += 1;
                watch_result = n;
            }
        }
        TickStatus::Stopped => panic!("Unexpected termination occurred"),
    }
    assert_eq!(watch_result, set("local/node/leased", "new_leased", true));
    assert_eq!(counter, 3);
}

#[test]
fn round_trip_set_then_get() {
    let mut store = StoreModel::new();
    let mut client = ConfClient::new(5);
    client
        .kv_operations(&mut store, vec![set("k", "v", false)])
        .unwrap();
    assert_eq!(store.get("k").unwrap(), pair("k", "v"));
}

#[test]
fn leased_write_is_lease_attached() {
    let mut store = StoreModel::new();
    let mut client = ConfClient::new(5);
    client
        .kv_operations(&mut store, vec![set("k", "v", true), set("p", "w", false)])
        .unwrap();
    let lease = client.get_lease_id().unwrap();
    assert!(lease != 0);
    assert_eq!(store.lease_of("k"), Some(lease));
    assert_eq!(store.lease_of("p"), Some(0));
    assert_eq!(store.lease_of("absent"), None);
}

#[test]
fn lease_scoped_key_vanishes_on_revocation() {
    let mut store = StoreModel::new();
    let mut client = ConfClient::new(5);
    client
        .kv_operations(
            &mut store,
            vec![set("k", "v", true), set("plain", "stays", false)],
        )
        .unwrap();
    assert_eq!(store.get("k").unwrap(), pair("k", "v"));
    let lease = client.get_lease_id().unwrap();
    assert!(lease != 0);
    store.lease_revoke(lease).unwrap();
    assert!(store.get("k").is_err());
    assert_eq!(store.get("plain").unwrap(), pair("plain", "stays"));
}

#[test]
fn absent_single_var_fails_with_not_found() {
    let mut store = StoreModel::new();
    store.put("other".to_string(), "x".to_string(), 0).unwrap();
    let spec = VarPathSpec::SingleVar("missing".to_string());
    match spec.get(&store) {
        Err(confsync::errors::ConfigError::KeyDoesNotExist(k)) => assert_eq!(k, "missing"),
        other => panic!("expected the not-found error, got {:?}", other),
    }
}

#[test]
fn prefix_read_is_sorted_and_empty_without_matches() {
    let mut store = StoreModel::new();
    store.put("a/c".to_string(), "3".to_string(), 0).unwrap();
    store.put("a/a".to_string(), "1".to_string(), 0).unwrap();
    store.put("b/z".to_string(), "9".to_string(), 0).unwrap();
    store.put("a/b".to_string(), "2".to_string(), 0).unwrap();
    assert_eq!(
        store.get_prefix("a/"),
        vec![pair("a/a", "1"), pair("a/b", "2"), pair("a/c", "3")]
    );
    assert_eq!(store.get_prefix("nothing/"), vec![]);
}

#[test]
fn fetch_vars_concatenates_in_input_order() {
    let mut store = StoreModel::new();
    let mut client = ConfClient::new(5);
    client
        .kv_operations(
            &mut store,
            vec![set("a/x", "1", false), set("a/y", "2", false)],
        )
        .unwrap();
    let res = client
        .fetch_vars(
            &store,
            &vec![
                VarPathSpec::Prefix("a".to_string()),
                VarPathSpec::SingleVar("a/x".to_string()),
            ],
        )
        .unwrap();
    assert_eq!(res, vec![pair("a/x", "1"), pair("a/y", "2"), pair("a/x", "1")]);
}

#[test]
fn fetch_vars_fails_whole_call_on_absent_var() {
    let mut store = StoreModel::new();
    let client = ConfClient::new(5);
    store.put("a/x".to_string(), "1".to_string(), 0).unwrap();
    let res = client.fetch_vars(
        &store,
        &vec![
            VarPathSpec::Prefix("a".to_string()),
            VarPathSpec::SingleVar("gone".to_string()),
        ],
    );
    match res {
        Err(confsync::errors::ConfigError::KeyDoesNotExist(k)) => assert_eq!(k, "gone"),
        other => panic!("expected the not-found error, got {:?}", other),
    }
}

#[test]
fn keep_alive_failure_stops_monitor_with_error() {
    let mut store = StoreModel::new();
    let mut client = ConfClient::new(5);
    let mut watcher = ModelWatcher::watch(&store, "p".to_string());
    client.monitor_start(&mut store);
    let lease = client.get_lease_id().unwrap();
    store.lease_revoke(lease).unwrap();
    match client.monitor_tick(&mut store, &mut watcher, vec![]) {
        Err(confsync::errors::ConfigError::LeaseNotFound(l)) => assert_eq!(l, lease),
        other => panic!("expected the lease error, got {:?}", other),
    }
}

#[test]
fn cancelled_watch_stops_monitor_cleanly() {
    let mut store = StoreModel::new();
    let mut client = ConfClient::new(5);
    let mut watcher = ModelWatcher::watch(&store, "p".to_string());
    client.monitor_start(&mut store);
    watcher.cancel();
    match client.monitor_tick(&mut store, &mut watcher, vec![]) {
        Ok(TickStatus::Stopped) => {}
        other => panic!("expected a clean stop, got {:?}", other.is_ok()),
    }
}

#[test]
fn deletions_reach_the_sink_as_del_key() {
    let mut store = StoreModel::new();
    let mut client = ConfClient::new(5);
    client
        .kv_operations(&mut store, vec![set("p/k", "v", false)])
        .unwrap();
    let mut watcher = ModelWatcher::watch(&store, "p".to_string());
    client.monitor_start(&mut store);
    client
        .monitor_tick(
            &mut store,
            &mut watcher,
            vec![Operation::DelKey { key: "p/k".to_string() }],
        )
        .unwrap();
    match client.monitor_tick(&mut store, &mut watcher, vec![]).unwrap() {
        TickStatus::Running { notifications } => {
            assert_eq!(notifications, vec![Operation::DelKey { key: "p/k".to_string() }]);
        }
        TickStatus::Stopped => panic!("Unexpected termination occurred"),
    }
    assert!(store.get("p/k").is_err());
}

#[test]
fn delete_prefix_removes_all_matches() {
    let mut store = StoreModel::new();
    let mut client = ConfClient::new(5);
    client
        .kv_operations(
            &mut store,
            vec![
                set("a/x", "1", false),
                set("a/y", "2", false),
                set("b/z", "3", false),
                Operation::DelPrefix { prefix: "a/".to_string() },
            ],
        )
        .unwrap();
    assert_eq!(store.get_prefix("a/"), vec![]);
    assert_eq!(store.get("b/z").unwrap(), pair("b/z", "3"));
}

#[test]
fn default_operation_is_the_no_op() {
    assert_eq!(Operation::default(), Operation::Nope);
}

#[test]
fn lease_is_granted_lazily_and_only_once() {
    let mut store = StoreModel::new();
    let mut client = ConfClient::new(5);
    assert!(client.get_lease_id().is_none());
    client
        .kv_operations(&mut store, vec![set("k", "v", true)])
        .unwrap();
    let first = client.get_lease_id().unwrap();
    client
        .kv_operations(&mut store, vec![set("k2", "v2", true)])
        .unwrap();
    assert_eq!(client.get_lease_id().unwrap(), first);
}

#[test]
fn apply_stops_at_first_failure_without_rollback() {
    let mut store = StoreModel::new();
    let mut client = ConfClient::new(5);
    client.monitor_start(&mut store);
    let lease = client.get_lease_id().unwrap();
    store.lease_revoke(lease).unwrap();
    let res = client.kv_operations(
        &mut store,
        vec![
            set("first", "applied", false),
            set("second", "leased", true),
            set("third", "never", false),
        ],
    );
    assert!(res.is_err());
    assert_eq!(store.get("first").unwrap(), pair("first", "applied"));
    assert!(store.get("second").is_err());
    assert!(store.get("third").is_err());
}
