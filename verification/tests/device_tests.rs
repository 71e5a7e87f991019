use tailscale_top::api::{os_label, os_labels_are_stable, Device, LocalPeerInfo, PeerTraffic};

fn device(name: &str, hostname: &str, os: &str, addresses: &[&str]) -> Device {
    Device {
        id: "n1".to_string(),
        name: name.to_string(),
        hostname: hostname.to_string(),
        os: os.to_string(),
        addresses: addresses.iter().map(|a| a.to_string()).collect(),
        last_seen: String::new(),
        client_connectivity: None,
    }
}

#[test]
fn short_name_takes_first_hostname_label() {
    let d = device("laptop.tail1234.ts.net", "laptop.local", "linux", &[]);
    assert_eq!(d.short_name(), "laptop");
    let d = device("x.tail.ts.net", "server", "linux", &[]);
    assert_eq!(d.short_name(), "server");
}

#[test]
fn short_name_falls_back_to_fqdn() {
    let d = device("phone.tail1234.ts.net.", "localhost", "iOS", &[]);
    assert_eq!(d.short_name(), "phone");
    let d = device("box.tail.ts.net", "", "linux", &[]);
    assert_eq!(d.short_name(), "box");
    let d = device("box.tail.ts.net", ".hidden", "linux", &[]);
    assert_eq!(d.short_name(), "box");
    let d = device("", "", "linux", &[]);
    assert_eq!(d.short_name(), "");
    // only an exact `localhost` label falls back
    let d = device("box.tail.ts.net", "Localhost.lan", "linux", &[]);
    assert_eq!(d.short_name(), "Localhost");
}

#[test]
fn short_name_has_no_dot() {
    for (name, host) in [("a.b.c", "x.y"), ("a.b", ""), ("a", "localhost.z"), ("", "..")] {
        let d = device(name, host, "", &[]);
        assert!(!d.short_name().contains('.'));
    }
}

#[test]
fn ipv4_picks_first_dotted_address() {
    let d = device("a", "a", "linux", &["fd7a:115c:a1e0::1", "100.64.0.1", "100.64.0.2"]);
    assert_eq!(d.ipv4(), "100.64.0.1");
}

#[test]
fn ipv4_missing_gives_dash() {
    let d = device("a", "a", "linux", &["fd7a:115c:a1e0::1"]);
    assert_eq!(d.ipv4(), "-");
    let d = device("a", "a", "linux", &[]);
    assert_eq!(d.ipv4(), "-");
}

#[test]
fn short_os_canonical_names() {
    let cases = [
        ("macOS", "macOS"),
        ("MacOS 14.2", "macOS"),
        ("iOS", "iOS"),
        ("IOS", "iOS"),
        ("android", "Android"),
        ("ANDROID", "Android"),
        ("windows", "Windows"),
        ("Windows 11", "Windows"),
        ("linux", "Linux"),
        ("LINUX", "Linux"),
        ("freebsd", "freebsd"),
        ("", ""),
        ("Plan9", "Plan9"),
    ];
    for (os, want) in cases {
        let d = device("a", "a", os, &[]);
        assert_eq!(d.short_os(), want, "os = {os}");
    }
}

#[test]
fn short_os_checks_in_order() {
    // "macos" is checked before "ios": only a string holding "macos" is macOS
    let d = device("a", "a", "macios", &[]);
    assert_eq!(d.short_os(), "iOS");
    let d = device("a", "a", "ios-on-macos", &[]);
    assert_eq!(d.short_os(), "macOS");
}

#[test]
fn traffic_defaults_are_zero() {
    let t = PeerTraffic::default();
    assert_eq!((t.tx_bytes, t.rx_bytes), (0, 0));
    let l = LocalPeerInfo::default();
    assert!(!l.online);
    assert_eq!((l.tx_bytes, l.rx_bytes), (0, 0));
}

#[test]
fn os_label_reads_the_lowercase_form() {
    assert_eq!(os_label("macos", "MACOS"), "macOS");
    assert_eq!(os_label("windows 11", "Windows 11"), "Windows");
    assert_eq!(os_label("ios", "IOS"), "iOS");
    assert_eq!(os_label("android", "ANDROID"), "Android");
    assert_eq!(os_label("linux", "LINUX"), "Linux");
    // no label: the OS string as given, not its lowercase form
    assert_eq!(os_label("plan9", "Plan9"), "Plan9");
    // the lowercase form decides, whatever the OS string holds
    assert_eq!(os_label("linux", "anything"), "Linux");
    assert_eq!(os_label("other", "linux"), "linux");
}

#[test]
fn short_os_of_its_own_label_is_the_same() {
    for os in ["MacOS 14", "iPhone iOS", "ANDROID", "Windows 11", "linux", "Plan9", ""] {
        let first = device("a", "a", os, &[]).short_os().to_string();
        let again = device("a", "a", &first, &[]).short_os().to_string();
        assert_eq!(first, again, "os = {os}");
    }
}

#[test]
fn canonical_labels_lowercase_to_themselves() {
    assert!(os_labels_are_stable());
}
