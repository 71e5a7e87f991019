use tailscale_top::json::JsonValue;
use tailscale_top::status::{extract_first_ip, local_status_from_output, parse_local_status};

fn s(x: &str) -> JsonValue {
    JsonValue::String(x.to_string())
}

fn obj(members: Vec<(&str, JsonValue)>) -> JsonValue {
    JsonValue::Object(members.into_iter().map(|(k, v)| (k.to_string(), v)).collect())
}

fn node(ips: &[&str], online: Option<bool>, tx: Option<u64>, rx: Option<u64>) -> JsonValue {
    let mut m = vec![("TailscaleIPs", JsonValue::Array(ips.iter().map(|i| s(i)).collect()))];
    if let Some(b) = online {
        m.push(("Online", JsonValue::Bool(b)));
    }
    if let Some(t) = tx {
        m.push(("TxBytes", JsonValue::Number(Some(t))));
    }
    if let Some(r) = rx {
        m.push(("RxBytes", JsonValue::Number(Some(r))));
    }
    obj(m)
}

#[test]
fn first_ip_of_node() {
    assert_eq!(extract_first_ip(&node(&["100.64.0.1", "fd7a::1"], None, None, None)), Some("100.64.0.1".to_string()));
    assert_eq!(extract_first_ip(&node(&[], None, None, None)), None);
    assert_eq!(extract_first_ip(&node(&[""], None, None, None)), None);
    assert_eq!(extract_first_ip(&obj(vec![("TailscaleIPs", JsonValue::Array(vec![JsonValue::Number(Some(3))]))])), None);
    assert_eq!(extract_first_ip(&obj(vec![])), None);
    assert_eq!(extract_first_ip(&JsonValue::Null), None);
}

#[test]
fn status_reads_self_and_peers() {
    let doc = obj(vec![
        ("Self", node(&["100.64.0.1"], Some(false), Some(9), Some(9))),
        ("Peer", obj(vec![
            ("nodekey:a", node(&["100.64.0.2"], Some(true), Some(100), Some(200))),
            ("nodekey:b", node(&["100.64.0.3"], None, None, None)),
            ("nodekey:c", node(&[], Some(true), Some(1), Some(1))),
        ])),
    ]);
    let m = parse_local_status(&doc);
    let me = m.get("100.64.0.1").unwrap();
    assert!(me.online);
    assert_eq!((me.tx_bytes, me.rx_bytes), (0, 0));
    let a = m.get("100.64.0.2").unwrap();
    assert!(a.online);
    assert_eq!((a.tx_bytes, a.rx_bytes), (100, 200));
    let b = m.get("100.64.0.3").unwrap();
    assert!(!b.online);
    assert_eq!((b.tx_bytes, b.rx_bytes), (0, 0));
    assert!(m.get("100.64.0.9").is_none());
}

#[test]
fn status_later_peer_replaces_earlier() {
    let doc = obj(vec![(
        "Peer",
        obj(vec![
            ("a", node(&["100.64.0.2"], Some(true), Some(1), Some(2))),
            ("b", node(&["100.64.0.2"], Some(false), Some(3), Some(4))),
        ]),
    )]);
    let m = parse_local_status(&doc);
    let p = m.get("100.64.0.2").unwrap();
    assert!(!p.online);
    assert_eq!((p.tx_bytes, p.rx_bytes), (3, 4));
}

#[test]
fn status_of_unexpected_documents_is_empty() {
    for doc in [JsonValue::Null, JsonValue::Array(vec![]), obj(vec![("Peer", JsonValue::Array(vec![]))])] {
        let m = parse_local_status(&doc);
        assert!(m.get("100.64.0.1").is_none());
    }
}

#[test]
fn status_ignores_wrong_member_types() {
    let peer = obj(vec![
        ("TailscaleIPs", JsonValue::Array(vec![s("100.64.0.5")])),
        ("Online", s("yes")),
        ("TxBytes", JsonValue::Number(None)),
        ("RxBytes", s("12")),
    ]);
    let m = parse_local_status(&obj(vec![("Peer", obj(vec![("p", peer)]))]));
    let p = m.get("100.64.0.5").unwrap();
    assert!(!p.online);
    assert_eq!((p.tx_bytes, p.rx_bytes), (0, 0));
}

#[test]
fn json_get_finds_members() {
    let doc = obj(vec![("a", JsonValue::Bool(true)), ("b", JsonValue::Null)]);
    assert!(matches!(doc.get("a"), Some(JsonValue::Bool(true))));
    assert!(matches!(doc.get("b"), Some(JsonValue::Null)));
    assert!(doc.get("c").is_none());
    assert!(JsonValue::Null.get("a").is_none());
}

#[test]
fn status_from_command_output() {
    let out = br#"{"Self":{"TailscaleIPs":["100.64.0.1","fd7a::1"],"Online":false},
        "Peer":{"nodekey:a":{"TailscaleIPs":["100.64.0.2"],"Online":true,"TxBytes":100,"RxBytes":200},
                "nodekey:b":{"TailscaleIPs":["100.64.0.3"],"TxBytes":-4}}}"#;
    let m = local_status_from_output(out);
    let me = m.get("100.64.0.1").unwrap();
    assert!(me.online);
    assert_eq!((me.tx_bytes, me.rx_bytes), (0, 0));
    let a = m.get("100.64.0.2").unwrap();
    assert!(a.online);
    assert_eq!((a.tx_bytes, a.rx_bytes), (100, 200));
    let b = m.get("100.64.0.3").unwrap();
    assert!(!b.online);
    assert_eq!((b.tx_bytes, b.rx_bytes), (0, 0));
}

#[test]
fn status_from_output_that_is_not_json_is_empty() {
    for out in [&b"not json"[..], &b""[..], &b"{\"Self\":"[..]] {
        let m = local_status_from_output(out);
        assert!(m.get("100.64.0.1").is_none());
    }
    // valid JSON of another shape gives no entries either
    let m = local_status_from_output(b"[1, 2, 3]");
    assert!(m.get("1").is_none());
}
