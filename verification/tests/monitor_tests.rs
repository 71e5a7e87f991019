use tailscale_top::api::{Device, LocalPeerInfo, PeerTraffic};
use tailscale_top::app::{apply_node_metrics, connection_events, metrics_targets, tailnet_from_name, App, LOG_CAPACITY};
use tailscale_top::sorting::{sorted_nodes, sorted_nodes_by_keys, NodeInfo, SortMode};
use tailscale_top::strmap::StrMap;

fn node(name: &str, ip: &str, online: bool, tx: Option<u64>, rx: Option<u64>) -> NodeInfo {
    NodeInfo {
        name: name.to_string(),
        ip: ip.to_string(),
        os: "Linux".to_string(),
        online,
        has_webclient: false,
        tx_bytes: tx,
        rx_bytes: rx,
    }
}

fn device(name: &str, hostname: &str, ip: &str) -> Device {
    Device {
        id: String::new(),
        name: name.to_string(),
        hostname: hostname.to_string(),
        os: "linux".to_string(),
        addresses: vec![ip.to_string()],
        last_seen: String::new(),
        client_connectivity: None,
    }
}

fn names(nodes: &[NodeInfo]) -> Vec<&str> {
    nodes.iter().map(|n| n.name.as_str()).collect()
}

fn is_clock(t: &str) -> bool {
    let b = t.as_bytes();
    b.len() == 8
        && b[2] == b':'
        && b[5] == b':'
        && [0, 1, 3, 4, 6, 7].iter().all(|&i| b[i].is_ascii_digit())
}

#[test]
fn new_app_is_loading_and_empty() {
    let app = App::new(5);
    assert!(app.loading);
    assert!(app.nodes.is_empty());
    assert_eq!(app.sort_mode, SortMode::Name);
    assert_eq!(app.refresh_interval_secs, 5);
    assert_eq!((app.total_nodes, app.online_nodes), (0, 0));
    assert!(app.error.is_none());
    assert!(app.log_entries.is_empty());
    assert!(app.tailnet_name.is_empty());
}

#[test]
fn log_keeps_last_entries() {
    let mut app = App::new(5);
    for i in 0..(LOG_CAPACITY + 20) {
        app.add_log_at(format!("m{i}"), "12:00:00".to_string());
    }
    assert_eq!(app.log_entries.len(), LOG_CAPACITY);
    assert_eq!(app.log_entries[0].message, "m20");
    assert_eq!(app.log_entries[LOG_CAPACITY - 1].message, format!("m{}", LOG_CAPACITY + 19));
}

#[test]
fn log_trims_an_oversized_log_to_capacity() {
    let mut app = App::new(5);
    for i in 0..(LOG_CAPACITY + 3) {
        app.log_entries.push(tailscale_top::app::LogEntry { timestamp: String::new(), message: format!("{i}") });
    }
    app.add_log_at("last".to_string(), "00:00:01".to_string());
    assert_eq!(app.log_entries.len(), LOG_CAPACITY);
    assert_eq!(app.log_entries.last().unwrap().message, "last");
    assert_eq!(app.log_entries[0].message, "4");
}

#[test]
fn add_log_stamps_clock_time() {
    let mut app = App::new(5);
    app.add_log("hello".to_string());
    assert_eq!(app.log_entries.len(), 1);
    assert_eq!(app.log_entries[0].message, "hello");
    assert!(is_clock(&app.log_entries[0].timestamp), "{}", app.log_entries[0].timestamp);
}

#[test]
fn tailnet_name_from_fqdn() {
    assert_eq!(tailnet_from_name("laptop.tail1234.ts.net."), Some("tail1234.ts.net".to_string()));
    assert_eq!(tailnet_from_name("laptop.tail1234.ts.net"), Some("tail1234.ts.net".to_string()));
    assert_eq!(tailnet_from_name("laptop.tail"), Some("tail".to_string()));
    assert_eq!(tailnet_from_name("laptop."), Some("".to_string()));
    assert_eq!(tailnet_from_name("laptop.."), Some("".to_string()));
    assert_eq!(tailnet_from_name("laptop...x"), Some("..x".to_string()));
    assert_eq!(tailnet_from_name("laptop"), None);
}

#[test]
fn prepare_nodes_builds_rows() {
    let mut app = App::new(5);
    app.error = Some("old".to_string());
    let mut local: StrMap<LocalPeerInfo> = StrMap::new();
    local.insert("100.64.0.1".to_string(), LocalPeerInfo { online: true, tx_bytes: 7, rx_bytes: 8 });
    let devices = vec![
        device("alpha.tail9.ts.net.", "alpha", "100.64.0.1"),
        device("beta.tail9.ts.net.", "localhost", "100.64.0.2"),
    ];
    let nodes = app.prepare_nodes(&devices, &local);
    assert!(app.error.is_none());
    assert_eq!(app.tailnet_name, "tail9.ts.net");
    assert_eq!(nodes.len(), 2);
    assert_eq!(nodes[0].name, "alpha");
    assert_eq!(nodes[0].ip, "100.64.0.1");
    assert_eq!(nodes[0].os, "Linux");
    assert!(nodes[0].online);
    assert_eq!((nodes[0].tx_bytes, nodes[0].rx_bytes), (Some(7), Some(8)));
    assert_eq!(nodes[1].name, "beta");
    assert!(!nodes[1].online);
    assert_eq!((nodes[1].tx_bytes, nodes[1].rx_bytes), (None, None));
    assert!(!nodes[0].has_webclient && !nodes[1].has_webclient);
}

#[test]
fn prepare_nodes_keeps_tailnet_without_fqdn() {
    let mut app = App::new(5);
    app.tailnet_name = "kept".to_string();
    let local: StrMap<LocalPeerInfo> = StrMap::new();
    let nodes = app.prepare_nodes(&vec![device("plain", "plain", "100.64.0.1")], &local);
    assert_eq!(app.tailnet_name, "kept");
    assert_eq!(nodes.len(), 1);
    let nodes = app.prepare_nodes(&vec![], &local);
    assert_eq!(app.tailnet_name, "kept");
    assert!(nodes.is_empty());
}

#[test]
fn metrics_go_to_online_nodes() {
    let nodes = vec![
        node("a", "1.1.1.1", true, None, None),
        node("b", "1.1.1.2", false, None, None),
        node("c", "1.1.1.3", true, None, None),
    ];
    assert_eq!(metrics_targets(&nodes), vec![0, 2]);
}

#[test]
fn metrics_results_update_nodes() {
    let mut nodes = vec![
        node("a", "1.1.1.1", true, Some(1), Some(2)),
        node("b", "1.1.1.2", true, Some(3), Some(4)),
        node("c", "1.1.1.3", true, Some(5), Some(6)),
    ];
    let results = vec![
        (0usize, Some(PeerTraffic { tx_bytes: 100, rx_bytes: 0 })),
        (1usize, Some(PeerTraffic { tx_bytes: 0, rx_bytes: 0 })),
        (2usize, None),
    ];
    apply_node_metrics(&mut nodes, &results);
    assert!(nodes[0].has_webclient);
    assert_eq!((nodes[0].tx_bytes, nodes[0].rx_bytes), (Some(100), Some(0)));
    assert!(nodes[1].has_webclient);
    assert_eq!((nodes[1].tx_bytes, nodes[1].rx_bytes), (Some(3), Some(4)));
    assert!(!nodes[2].has_webclient);
    assert_eq!((nodes[2].tx_bytes, nodes[2].rx_bytes), (Some(5), Some(6)));
}

#[test]
fn connection_events_cover_each_change() {
    let mut prev: StrMap<bool> = StrMap::new();
    prev.insert("1.1.1.1".to_string(), false);
    prev.insert("1.1.1.2".to_string(), true);
    prev.insert("1.1.1.3".to_string(), true);
    let nodes = vec![
        node("a", "1.1.1.1", true, None, None),
        node("b", "1.1.1.2", false, None, None),
        node("c", "1.1.1.3", true, None, None),
        node("d", "1.1.1.4", true, None, None),
        node("e", "1.1.1.5", false, None, None),
    ];
    let ev = connection_events(&prev, &nodes);
    assert_eq!(
        ev,
        vec![
            "CONNECT    a (1.1.1.1) came online".to_string(),
            "DISCONNECT b (1.1.1.2) went offline".to_string(),
            "DISCOVERED d (1.1.1.4) \u{2014} online".to_string(),
            "DISCOVERED e (1.1.1.5) \u{2014} offline".to_string(),
        ]
    );
}

#[test]
fn install_nodes_logs_counts_and_sorts() {
    let mut app = App::new(5);
    app.install_nodes(vec![
        node("Zed", "1.1.1.1", true, None, None),
        node("alpha", "1.1.1.2", false, None, None),
    ]);
    assert!(!app.loading);
    assert_eq!(app.total_nodes, 2);
    assert_eq!(app.online_nodes, 1);
    assert_eq!(names(&app.nodes), vec!["alpha", "Zed"]);
    let msgs: Vec<&str> = app.log_entries.iter().map(|e| e.message.as_str()).collect();
    assert_eq!(msgs, vec!["DISCOVERED Zed (1.1.1.1) \u{2014} online", "DISCOVERED alpha (1.1.1.2) \u{2014} offline"]);
    assert!(app.log_entries.iter().all(|e| is_clock(&e.timestamp)));

    // a second refresh logs only what changed
    app.install_nodes(vec![
        node("Zed", "1.1.1.1", false, None, None),
        node("alpha", "1.1.1.2", false, None, None),
    ]);
    assert_eq!(app.log_entries.len(), 3);
    assert_eq!(app.log_entries[2].message, "DISCONNECT Zed (1.1.1.1) went offline");
    assert_eq!(app.online_nodes, 0);

    // no change, no event
    app.install_nodes(vec![
        node("Zed", "1.1.1.1", false, None, None),
        node("alpha", "1.1.1.2", false, None, None),
    ]);
    assert_eq!(app.log_entries.len(), 3);
}

#[test]
fn sort_by_name_ignores_case_and_is_stable() {
    let nodes = vec![
        node("beta", "1", true, None, None),
        node("Alpha", "2", true, None, None),
        node("alpha", "3", true, None, None),
        node("Beta", "4", true, None, None),
        node("ALPHA", "5", true, None, None),
    ];
    let sorted = sorted_nodes(&nodes, SortMode::Name);
    let ips: Vec<&str> = sorted.iter().map(|n| n.ip.as_str()).collect();
    assert_eq!(ips, vec!["2", "3", "5", "1", "4"]);
}

#[test]
fn sort_by_traffic_descends_with_missing_as_zero() {
    let nodes = vec![
        node("a", "1", true, None, Some(5)),
        node("b", "2", true, Some(10), None),
        node("c", "3", true, Some(0), Some(50)),
        node("d", "4", true, Some(10), Some(5)),
    ];
    let tx = sorted_nodes(&nodes, SortMode::TxDesc);
    assert_eq!(names(&tx), vec!["b", "d", "a", "c"]);
    let rx = sorted_nodes(&nodes, SortMode::RxDesc);
    assert_eq!(names(&rx), vec!["c", "a", "d", "b"]);
}

#[test]
fn sorting_twice_changes_nothing() {
    let nodes = vec![
        node("m", "1", true, Some(3), None),
        node("B", "2", true, Some(3), None),
        node("a", "3", true, Some(9), None),
    ];
    for mode in [SortMode::Name, SortMode::TxDesc, SortMode::RxDesc] {
        let once = sorted_nodes(&nodes, mode);
        let twice = sorted_nodes(&once, mode);
        assert_eq!(names(&once), names(&twice));
    }
}

#[test]
fn set_sort_mode_reorders() {
    let mut app = App::new(5);
    app.nodes = vec![node("a", "1", true, Some(1), None), node("b", "2", true, Some(2), None)];
    app.set_sort_mode(SortMode::TxDesc);
    assert_eq!(app.sort_mode, SortMode::TxDesc);
    assert_eq!(names(&app.nodes), vec!["b", "a"]);
    app.set_sort_mode(SortMode::Name);
    assert_eq!(names(&app.nodes), vec!["a", "b"]);
}

#[test]
fn refresh_failure_is_logged() {
    let mut app = App::new(5);
    app.refresh_failed("timed out");
    assert!(!app.loading);
    assert_eq!(app.error.as_deref(), Some("API error: timed out"));
    assert_eq!(app.log_entries.len(), 1);
    assert_eq!(app.log_entries[0].message, "API error: timed out");
}

#[test]
fn sorting_keeps_the_counted_nodes() {
    let mut app = App::new(5);
    app.install_nodes(vec![
        node("c", "1.1.1.3", true, Some(1), Some(9)),
        node("a", "1.1.1.1", false, Some(7), None),
        node("b", "1.1.1.2", true, None, Some(3)),
    ]);
    for mode in [SortMode::TxDesc, SortMode::RxDesc, SortMode::Name] {
        app.set_sort_mode(mode);
        assert_eq!(app.nodes.len(), app.total_nodes);
        assert_eq!(app.nodes.iter().filter(|n| n.online).count(), app.online_nodes);
    }
    assert_eq!(names(&app.nodes), vec!["a", "b", "c"]);
}

fn messages(app: &App, start: usize) -> Vec<String> {
    app.log_entries[start..].iter().map(|e| e.message.clone()).collect()
}

#[test]
fn take_unprinted_hands_out_each_entry_once() {
    let mut app = App::new(5);
    assert_eq!(app.take_unprinted(), 0);
    app.add_log_at("a".to_string(), "12:00:00".to_string());
    app.add_log_at("b".to_string(), "12:00:01".to_string());
    let start = app.take_unprinted();
    assert_eq!(messages(&app, start), vec!["a", "b"]);
    assert_eq!(app.unprinted, 0);
    // nothing new: nothing handed out
    let start = app.take_unprinted();
    assert!(messages(&app, start).is_empty());
    app.add_log_at("c".to_string(), "12:00:02".to_string());
    let start = app.take_unprinted();
    assert_eq!(messages(&app, start), vec!["c"]);
}

#[test]
fn take_unprinted_keeps_streaming_past_capacity() {
    let mut app = App::new(5);
    for i in 0..(LOG_CAPACITY + 100) {
        app.add_log_at(format!("m{i}"), "12:00:00".to_string());
    }
    // more than the log holds: the newest LOG_CAPACITY entries
    let start = app.take_unprinted();
    assert_eq!(start, 0);
    assert_eq!(messages(&app, start).len(), LOG_CAPACITY);
    assert_eq!(messages(&app, start)[0], "m100");
    // with the log full, new entries are still handed out
    app.add_log_at("x".to_string(), "12:00:00".to_string());
    app.add_log_at("y".to_string(), "12:00:00".to_string());
    let start = app.take_unprinted();
    assert_eq!(start, LOG_CAPACITY - 2);
    assert_eq!(messages(&app, start), vec!["x", "y"]);
}

#[test]
fn install_nodes_leaves_its_events_unprinted() {
    let mut app = App::new(5);
    app.add_log_at("old".to_string(), "12:00:00".to_string());
    app.take_unprinted();
    app.install_nodes(vec![node("n", "1.1.1.1", true, None, None), node("m", "1.1.1.2", false, None, None)]);
    assert_eq!(app.unprinted, 2);
    let start = app.take_unprinted();
    assert_eq!(
        messages(&app, start),
        vec!["DISCOVERED n (1.1.1.1) \u{2014} online", "DISCOVERED m (1.1.1.2) \u{2014} offline"]
    );
    app.refresh_failed("boom");
    let start = app.take_unprinted();
    assert_eq!(messages(&app, start), vec!["API error: boom"]);
}

#[test]
fn sort_by_given_keys() {
    let nodes = vec![
        node("b", "1", true, None, None),
        node("C", "2", true, None, None),
        node("a", "3", true, None, None),
    ];
    let keys: Vec<String> = vec!["b".to_string(), "c".to_string(), "a".to_string()];
    assert_eq!(names(&sorted_nodes_by_keys(&nodes, &keys, SortMode::Name)), vec!["a", "b", "C"]);
    // the keys decide the name order, not the names
    let keys: Vec<String> = vec!["z".to_string(), "y".to_string(), "x".to_string()];
    assert_eq!(names(&sorted_nodes_by_keys(&nodes, &keys, SortMode::Name)), vec!["a", "C", "b"]);
    // equal keys keep their order
    let keys: Vec<String> = vec!["k".to_string(), "k".to_string(), "a".to_string()];
    assert_eq!(names(&sorted_nodes_by_keys(&nodes, &keys, SortMode::Name)), vec!["a", "b", "C"]);
}
