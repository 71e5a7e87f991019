use tailscale_top::app::App;
use tailscale_top::sorting::{NodeInfo, SortMode};
use tailscale_top::view::{
    header_status, node_row, poll_timeout_nanos, refresh_due, sort_indicator, traffic_cell, KeyInput, KeyOutcome,
};

#[test]
fn header_while_loading() {
    let app = App::new(5);
    assert_eq!(header_status(&app), " Loading...");
}

#[test]
fn header_with_error() {
    let mut app = App::new(5);
    app.loading = false;
    app.error = Some("API error: boom".to_string());
    assert_eq!(header_status(&app), " Error: API error: boom");
}

#[test]
fn header_summary() {
    let mut app = App::new(30);
    app.loading = false;
    app.online_nodes = 3;
    app.total_nodes = 12;
    assert_eq!(header_status(&app), " Tailnet: loading...    Nodes: 3/12 online    [30s]");
    app.tailnet_name = "tail9.ts.net".to_string();
    assert_eq!(header_status(&app), " Tailnet: tail9.ts.net    Nodes: 3/12 online    [30s]");
}

#[test]
fn traffic_cells() {
    assert_eq!(traffic_cell(true, Some(2048)), "2.0 KB");
    assert_eq!(traffic_cell(true, Some(0)), "0 B");
    assert_eq!(traffic_cell(true, None), "no wc");
    assert_eq!(traffic_cell(false, Some(2048)), "-");
    assert_eq!(traffic_cell(false, None), "-");
}

#[test]
fn node_rows() {
    let n = NodeInfo {
        name: "a".to_string(),
        ip: "100.64.0.1".to_string(),
        os: "Linux".to_string(),
        online: true,
        has_webclient: true,
        tx_bytes: Some(1536),
        rx_bytes: None,
    };
    let r = node_row(&n);
    assert_eq!((r.name.as_str(), r.ip.as_str(), r.os.as_str()), ("a", "100.64.0.1", "Linux"));
    assert_eq!((r.tx.as_str(), r.rx.as_str()), ("1.5 KB", "no wc"));
    assert_eq!(r.status, "\u{25CF}");
    let off = NodeInfo { online: false, ..n };
    let r = node_row(&off);
    assert_eq!((r.tx.as_str(), r.rx.as_str(), r.status.as_str()), ("-", "-", "\u{25CB}"));
}

#[test]
fn sort_indicators() {
    let i = sort_indicator(SortMode::TxDesc, SortMode::TxDesc);
    assert_eq!((i.key_text.as_str(), i.label_text.as_str(), i.active), ("[2]", "TX\u{2193} ", true));
    let i = sort_indicator(SortMode::TxDesc, SortMode::Name);
    assert_eq!((i.key_text.as_str(), i.label_text.as_str(), i.active), ("[1]", "Name ", false));
    let i = sort_indicator(SortMode::Name, SortMode::RxDesc);
    assert_eq!((i.key_text.as_str(), i.label_text.as_str(), i.active), ("[3]", "RX\u{2193} ", false));
}

#[test]
fn keys_drive_the_monitor() {
    let mut app = App::new(5);
    app.loading = false;
    assert_eq!(app.handle_key(KeyInput::Char('q'), false), KeyOutcome::Skip);
    assert_eq!(app.handle_key(KeyInput::Char('q'), true), KeyOutcome::Quit);
    assert_eq!(app.handle_key(KeyInput::Esc, true), KeyOutcome::Quit);
    assert_eq!(app.handle_key(KeyInput::Char('t'), true), KeyOutcome::Continue);
    assert_eq!(app.sort_mode, SortMode::TxDesc);
    assert_eq!(app.handle_key(KeyInput::Char('3'), true), KeyOutcome::Continue);
    assert_eq!(app.sort_mode, SortMode::RxDesc);
    assert_eq!(app.handle_key(KeyInput::Char('n'), true), KeyOutcome::Continue);
    assert_eq!(app.sort_mode, SortMode::Name);
    assert_eq!(app.handle_key(KeyInput::Char('2'), false), KeyOutcome::Skip);
    assert_eq!(app.sort_mode, SortMode::Name);
    assert!(!app.loading);
    assert_eq!(app.handle_key(KeyInput::Char('r'), true), KeyOutcome::Refresh);
    assert!(app.loading);
    assert_eq!(app.handle_key(KeyInput::Other, true), KeyOutcome::Continue);
    assert_eq!(app.handle_key(KeyInput::Char('z'), true), KeyOutcome::Continue);
}

#[test]
fn refresh_timing() {
    assert_eq!(poll_timeout_nanos(5, 0), 250_000_000);
    assert_eq!(poll_timeout_nanos(5, 4_900_000_000), 100_000_000);
    assert_eq!(poll_timeout_nanos(5, 6_000_000_000), 0);
    assert_eq!(poll_timeout_nanos(0, 0), 0);
    assert!(!refresh_due(5, 4_999_999_999));
    assert!(refresh_due(5, 5_000_000_000));
    assert!(refresh_due(0, 0));
}

#[test]
fn wait_ends_at_the_refresh_time() {
    let interval = 5u64;
    let mut elapsed: u128 = 4_600_000_000;
    let mut waits = Vec::new();
    while !refresh_due(interval, elapsed) {
        let w = poll_timeout_nanos(interval, elapsed);
        assert!(w > 0 && w <= 250_000_000);
        waits.push(w);
        elapsed += w;
    }
    assert_eq!(waits, vec![250_000_000, 150_000_000]);
    assert_eq!(elapsed, 5_000_000_000);
    assert_eq!(poll_timeout_nanos(interval, elapsed), 0);
}
