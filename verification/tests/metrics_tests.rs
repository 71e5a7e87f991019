use tailscale_top::metrics::{counters_fit, metrics_url, scan_prometheus_counters, traffic_from_counters};

#[test]
fn scan_finds_both_counters() {
    let body = "# HELP tailscaled_inbound_bytes_total Counts bytes\n\
                # TYPE tailscaled_inbound_bytes_total counter\n\
                tailscaled_inbound_bytes_total{path=\"direct_ipv4\"} 12345\n\
                tailscaled_inbound_bytes_total{path=\"derp\"} 55\n\
                tailscaled_outbound_bytes_total{path=\"direct_ipv4\"} 678\n\
                other_metric 9\n";
    let s = scan_prometheus_counters(body);
    assert_eq!(s.inbound, vec!["12345".to_string(), "55".to_string()]);
    assert_eq!(s.outbound, vec!["678".to_string()]);
}

#[test]
fn scan_skips_comments_and_empty_values() {
    let body = "#tailscaled_inbound_bytes_total 5\ntailscaled_inbound_bytes_total\ntailscaled_outbound_bytes_total   \r\n";
    let s = scan_prometheus_counters(body);
    // a bare name has no value
    assert!(s.inbound.is_empty());
    assert!(s.outbound.is_empty());
}

#[test]
fn scan_handles_crlf_and_last_line() {
    let body = "tailscaled_inbound_bytes_total{} 1.5e3\r\ntailscaled_outbound_bytes_total{} 42";
    let s = scan_prometheus_counters(body);
    assert_eq!(s.inbound, vec!["1.5e3".to_string()]);
    assert_eq!(s.outbound, vec!["42".to_string()]);
}

#[test]
fn scan_uses_unicode_whitespace() {
    let body = "tailscaled_inbound_bytes_total\u{3000}7\u{2003}\n";
    let s = scan_prometheus_counters(body);
    assert_eq!(s.inbound, vec!["7".to_string()]);
    assert!(s.outbound.is_empty());
}

#[test]
fn scan_of_empty_page() {
    let s = scan_prometheus_counters("");
    assert!(s.inbound.is_empty() && s.outbound.is_empty());
}

#[test]
fn counters_sum_into_traffic() {
    let rx = vec![10u64, 20, 30];
    let tx = vec![5u64];
    assert!(counters_fit(&rx) && counters_fit(&tx));
    let t = traffic_from_counters(&rx, &tx);
    assert_eq!(t.rx_bytes, 60);
    assert_eq!(t.tx_bytes, 5);
    let t = traffic_from_counters(&vec![], &vec![]);
    assert_eq!((t.rx_bytes, t.tx_bytes), (0, 0));
}

#[test]
fn counters_overflow_detected() {
    assert!(counters_fit(&vec![u64::MAX]));
    assert!(counters_fit(&vec![u64::MAX - 1, 1]));
    assert!(!counters_fit(&vec![u64::MAX, 1]));
    assert!(counters_fit(&vec![]));
}

#[test]
fn metrics_url_of_node() {
    assert_eq!(metrics_url("100.64.0.7"), "http://100.64.0.7:5252/metrics");
}

#[test]
fn joined_pages_hold_both_pages_counters() {
    let a = "tailscaled_inbound_bytes_total{} 10\r\ntailscaled_outbound_bytes_total{} 3\r";
    let b = "# comment\ntailscaled_inbound_bytes_total{} 20\n";
    let joined = format!("{a}\n{b}");
    let (sa, sb, sj) = (scan_prometheus_counters(a), scan_prometheus_counters(b), scan_prometheus_counters(&joined));
    assert_eq!(sj.inbound, [sa.inbound.clone(), sb.inbound.clone()].concat());
    assert_eq!(sj.outbound, [sa.outbound.clone(), sb.outbound.clone()].concat());
    assert_eq!(sj.inbound, vec!["10".to_string(), "20".to_string()]);
    assert_eq!(sj.outbound, vec!["3".to_string()]);
    // an empty first page adds nothing
    let s = scan_prometheus_counters(&format!("\n{b}"));
    assert_eq!(s.inbound, sb.inbound);
}

#[test]
fn traffic_of_joined_counters_adds_up() {
    let (rx_a, rx_b) = (vec![10u64, 5], vec![20u64]);
    let (tx_a, tx_b) = (vec![3u64], vec![]);
    let a = traffic_from_counters(&rx_a, &tx_a);
    let b = traffic_from_counters(&rx_b, &tx_b);
    let j = traffic_from_counters(&[rx_a, rx_b].concat(), &[tx_a, tx_b].concat());
    assert_eq!(j.rx_bytes, a.rx_bytes + b.rx_bytes);
    assert_eq!(j.tx_bytes, a.tx_bytes + b.tx_bytes);
    assert_eq!((j.rx_bytes, j.tx_bytes), (35, 3));
}

#[test]
fn scan_ignores_sample_timestamps() {
    let body = "tailscaled_inbound_bytes_total{path=\"derp\"} 100 1700000000000\n\
                tailscaled_outbound_bytes_total 7 1700000000000\n";
    let s = scan_prometheus_counters(body);
    assert_eq!(s.inbound, vec!["100".to_string()]);
    assert_eq!(s.outbound, vec!["7".to_string()]);
    let rx: Vec<u64> = s.inbound.iter().map(|v| v.parse().unwrap()).collect();
    let tx: Vec<u64> = s.outbound.iter().map(|v| v.parse().unwrap()).collect();
    let t = traffic_from_counters(&rx, &tx);
    assert_eq!((t.rx_bytes, t.tx_bytes), (100, 7));
}

#[test]
fn scan_reads_past_quoted_label_values() {
    let body = "tailscaled_inbound_bytes_total{a=\"x y\",b=\"}\\\" z\"} 42 99\n\
                tailscaled_inbound_bytes_total{a=\"open 5\n\
                tailscaled_outbound_bytes_total{}\t8\n";
    let s = scan_prometheus_counters(body);
    // the second line's label set never closes: it has no value
    assert_eq!(s.inbound, vec!["42".to_string()]);
    assert_eq!(s.outbound, vec!["8".to_string()]);
}
