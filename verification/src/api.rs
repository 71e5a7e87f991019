use vstd::prelude::*;
use vstd::string::*;
use crate::text::{before_char, chars_contain, chars_of, find_char, has_substring, lowercase, same_text, text_has_char, to_lowercase};

verus! {

/// The body of the devices listing of the Tailscale API.
#[derive(Debug, Clone)]
pub struct DevicesResponse {
    pub devices: Vec<Device>,
}

/// A device of the tailnet, as the Tailscale API describes it.
#[derive(Debug, Clone)]
pub struct Device {
    pub id: String,
    pub name: String,
    pub hostname: String,
    pub os: String,
    pub addresses: Vec<String>,
    pub last_seen: String,
    pub client_connectivity: Option<ClientConnectivity>,
}

/// The connectivity details the API reports for a device.
#[derive(Debug, Clone)]
pub struct ClientConnectivity {
    pub mapping_varies_by_dest_ip: Option<bool>,
}

/// Bytes sent and received, from a node's metrics.
#[derive(Debug, Clone)]
pub struct PeerTraffic {
    pub tx_bytes: u64,
    pub rx_bytes: u64,
}

/// Combined local status info for a peer (from `tailscale status --json`).
#[derive(Debug, Clone)]
pub struct LocalPeerInfo {
    pub online: bool,
    pub tx_bytes: u64,
    pub rx_bytes: u64,
}

impl Default for PeerTraffic {
    fn default() -> (r: PeerTraffic)
        ensures
            r.tx_bytes == 0,
            r.rx_bytes == 0,
    {
        PeerTraffic { tx_bytes: 0, rx_bytes: 0 }
    }
}

impl Default for LocalPeerInfo {
    fn default() -> (r: LocalPeerInfo)
        ensures
            !r.online,
            r.tx_bytes == 0,
            r.rx_bytes == 0,
    {
        LocalPeerInfo { online: false, tx_bytes: 0, rx_bytes: 0 }
    }
}

/// The short name shown for a device: the first label of its hostname, or,
/// when that is empty or `localhost`, the first label of its FQDN name.
pub open spec fn short_name_text(hostname: Seq<char>, name: Seq<char>) -> Seq<char> {
    let h = before_char(hostname, '.');
    if h.len() == 0 || h == "localhost"@ {
        before_char(name, '.')
    } else {
        h
    }
}

/// The first address that contains a `.`, or `-` when there is none.
pub open spec fn ipv4_text(addresses: Seq<Seq<char>>) -> Seq<char>
    decreases addresses.len(),
{
    if addresses.len() == 0 {
        "-"@
    } else if addresses[0].contains('.') {
        addresses[0]
    } else {
        ipv4_text(addresses.drop_first())
    }
}

/// The operating system label for an OS string `os` whose lowercase form
/// is `lower`: a canonical name when `lower` mentions a known system
/// (checked in this order: macos, ios, android, windows, linux), else `os`
/// as given.
pub open spec fn os_label_text(lower: Seq<char>, os: Seq<char>) -> Seq<char> {
    if has_substring(lower, "macos"@) {
        "macOS"@
    } else if has_substring(lower, "ios"@) {
        "iOS"@
    } else if has_substring(lower, "android"@) {
        "Android"@
    } else if has_substring(lower, "windows"@) {
        "Windows"@
    } else if has_substring(lower, "linux"@) {
        "Linux"@
    } else {
        os
    }
}

/// The operating system label shown for a device (see `os_label_text`),
/// from its OS string lowercased.
pub open spec fn short_os_text(os: Seq<char>) -> Seq<char> {
    os_label_text(lowercase(os), os)
}

/// The views of a list of strings.
pub open spec fn texts(v: Seq<String>) -> Seq<Seq<char>> {
    v.map_values(|s: String| s@)
}

/// The first `.`-separated label of `s`.
fn first_label(s: &str) -> (r: &str)
    ensures
        r@ == before_char(s@, '.'),
{
    let cs = chars_of(s);
    let i = find_char(&cs, 0, '.');
    proof {
        assert(cs@.skip(0) == cs@);
    }
    s.substring_char(0, i)
}

fn text_contains(hay: &str, needle: &str) -> (r: bool)
    ensures
        r == has_substring(hay@, needle@),
{
    chars_contain(&chars_of(hay), &chars_of(needle))
}

impl Device {
    /// The device's short name: its hostname's first label, falling back to
    /// its FQDN name's first label when that is empty or `localhost`.
    pub fn short_name(&self) -> (r: &str)
        ensures
            r@ == short_name_text(self.hostname@, self.name@),
    {
        let h = first_label(self.hostname.as_str());
        if h.unicode_len() == 0 || same_text(h, "localhost") {
            first_label(self.name.as_str())
        } else {
            h
        }
    }

    /// The device's first address that contains a `.` (its IPv4 address),
    /// or `-` when it has none.
    pub fn ipv4(&self) -> (r: &str)
        ensures
            r@ == ipv4_text(texts(self.addresses@)),
    {
        let ghost all = texts(self.addresses@);
        assert(all.skip(0) == all);
        let mut i: usize = 0;
        while i < self.addresses.len()
            invariant
                all == texts(self.addresses@),
                i <= self.addresses@.len(),
                ipv4_text(all) == ipv4_text(all.skip(i as int)),
            decreases self.addresses@.len() - i,
        {
            let a = self.addresses[i].as_str();
            assert(all.skip(i as int)[0] == a@);
            if text_has_char(a, '.') {
                return a;
            }
            assert(all.skip(i as int).drop_first() == all.skip(i + 1));
            i = i + 1;
        }
        assert(all.skip(i as int).len() == 0);
        "-"
    }

    /// The device's operating system label (see `short_os_text`).
    pub fn short_os(&self) -> (r: &str)
        ensures
            r@ == short_os_text(self.os@),
    {
        let lower = to_lowercase(self.os.as_str());
        os_label(lower.as_str(), self.os.as_str())
    }
}

/// The operating system label for the OS string `os`, given its lowercase
/// form `lower` (see `os_label_text`).
pub fn os_label<'a>(lower: &str, os: &'a str) -> (r: &'a str)
    ensures
        r@ == os_label_text(lower@, os@),
{
    if text_contains(lower, "macos") {
        "macOS"
    } else if text_contains(lower, "ios") {
        "iOS"
    } else if text_contains(lower, "android") {
        "Android"
    } else if text_contains(lower, "windows") {
        "Windows"
    } else if text_contains(lower, "linux") {
        "Linux"
    } else {
        os
    }
}

} // verus!

verus! {

/// The short name of a device has no `.`, and it is the start of its
/// hostname or of its FQDN name.
pub proof fn lemma_short_name_is_a_label(hostname: Seq<char>, name: Seq<char>)
    ensures
        !short_name_text(hostname, name).contains('.'),
        hostname.take(short_name_text(hostname, name).len() as int) == short_name_text(hostname, name)
            || name.take(short_name_text(hostname, name).len() as int) == short_name_text(hostname, name),
{
    crate::text::lemma_first_index_bounds(hostname, '.');
    crate::text::lemma_first_index_bounds(name, '.');
    let r = short_name_text(hostname, name);
    let h = before_char(hostname, '.');
    let nm = before_char(name, '.');
    if r == h {
        assert(hostname.take(r.len() as int) =~= r);
        assert forall|i: int| 0 <= i < r.len() implies r[i] != '.' by {
            assert(r[i] == hostname[i]);
        }
    } else {
        assert(r == nm);
        assert(name.take(r.len() as int) =~= r);
        assert forall|i: int| 0 <= i < r.len() implies r[i] != '.' by {
            assert(r[i] == name[i]);
        }
    }
}

/// When the hostname's first label is non-empty and not `localhost`, the
/// short name is that whole label: it starts the hostname, holds no `.`,
/// and ends where the hostname ends or at its first `.` (so
/// "Johns-MacBook-Pro" stays whole).
pub proof fn lemma_short_name_is_whole_host_label(hostname: Seq<char>, name: Seq<char>)
    requires
        hostname.len() > 0,
        hostname[0] != '.',
        before_char(hostname, '.') != "localhost"@,
    ensures
        ({
            let r = short_name_text(hostname, name);
            &&& r.len() > 0
            &&& hostname.take(r.len() as int) == r
            &&& !r.contains('.')
            &&& (r.len() == hostname.len() || hostname[r.len() as int] == '.')
        }),
{
    crate::text::lemma_first_index_bounds(hostname, '.');
    let h = before_char(hostname, '.');
    assert(h.len() > 0);
    assert(short_name_text(hostname, name) == h);
    assert(hostname.take(h.len() as int) =~= h);
    assert forall|i: int| 0 <= i < h.len() implies h[i] != '.' by {
        assert(h[i] == hostname[i]);
    }
}

/// The IPv4 shown for a device is `-` or one of its addresses that
/// contains a `.`.
pub proof fn lemma_ipv4_is_dotted_address(addresses: Seq<Seq<char>>)
    ensures
        ipv4_text(addresses) == "-"@ || (addresses.contains(ipv4_text(addresses)) && ipv4_text(addresses).contains('.')),
    decreases addresses.len(),
{
    if addresses.len() > 0 && !addresses[0].contains('.') {
        let rest = addresses.drop_first();
        lemma_ipv4_is_dotted_address(rest);
        if ipv4_text(rest) != "-"@ {
            let k = choose|k: int| 0 <= k < rest.len() && rest[k] == ipv4_text(rest);
            assert(addresses[k + 1] == ipv4_text(addresses));
        }
    } else if addresses.len() > 0 {
        assert(addresses[0] == ipv4_text(addresses));
    }
}

/// The OS label of a device is one of the canonical names or its OS string
/// as given.
pub proof fn lemma_short_os_choices(os: Seq<char>)
    ensures
        ({
            let r = short_os_text(os);
            r == "macOS"@ || r == "iOS"@ || r == "Android"@ || r == "Windows"@ || r == "Linux"@ || r == os
        }),
{
}

} // verus!

verus! {

proof fn lemma_label_matches(label: Seq<char>)
    ensures
        has_substring(label, label),
{
    assert(label.subrange(0int, 0int + label.len()) =~= label);
}

proof fn lemma_not_within(hay: Seq<char>, needle: Seq<char>)
    requires
        forall|i: int| 0 <= i && i + needle.len() <= hay.len() ==> #[trigger] hay[i] != needle[0] || hay[i + 1] != needle[1]
            || hay[i + 2] != needle[2],
        needle.len() >= 3,
    ensures
        !has_substring(hay, needle),
{
    assert forall|i: int| 0 <= i && i + needle.len() <= hay.len() implies #[trigger] hay.subrange(i, i + needle.len()) != needle by {
        let sub = hay.subrange(i, i + needle.len());
        assert(sub[0] == hay[i] && sub[1] == hay[i + 1] && sub[2] == hay[i + 2]);
    }
}

/// Taking the OS label of a label gives that label again, provided
/// `lowercase` maps each canonical label to its ASCII lowercase form.
pub proof fn lemma_short_os_idempotent(os: Seq<char>)
    requires
        lowercase("macOS"@) == "macos"@,
        lowercase("iOS"@) == "ios"@,
        lowercase("Android"@) == "android"@,
        lowercase("Windows"@) == "windows"@,
        lowercase("Linux"@) == "linux"@,
    ensures
        short_os_text(short_os_text(os)) == short_os_text(os),
{
    let lo = lowercase(os);
    if has_substring(lo, "macos"@) {
        assert(os_label_text("macos"@, "macOS"@) == "macOS"@) by {
            lemma_label_matches("macos"@);
        }
    } else if has_substring(lo, "ios"@) {
        assert(os_label_text("ios"@, "iOS"@) == "iOS"@) by {
            reveal_strlit("ios");
            reveal_strlit("macos");
            lemma_label_matches("ios"@);
        }
    } else if has_substring(lo, "android"@) {
        assert(os_label_text("android"@, "Android"@) == "Android"@) by {
            reveal_strlit("android");
            reveal_strlit("macos");
            reveal_strlit("ios");
            lemma_not_within("android"@, "macos"@);
            lemma_not_within("android"@, "ios"@);
            lemma_label_matches("android"@);
        }
    } else if has_substring(lo, "windows"@) {
        assert(os_label_text("windows"@, "Windows"@) == "Windows"@) by {
            reveal_strlit("windows");
            reveal_strlit("macos");
            reveal_strlit("ios");
            reveal_strlit("android");
            lemma_not_within("windows"@, "macos"@);
            lemma_not_within("windows"@, "ios"@);
            lemma_not_within("windows"@, "android"@);
            lemma_label_matches("windows"@);
        }
    } else if has_substring(lo, "linux"@) {
        assert(os_label_text("linux"@, "Linux"@) == "Linux"@) by {
            reveal_strlit("linux");
            reveal_strlit("macos");
            reveal_strlit("ios");
            reveal_strlit("android");
            reveal_strlit("windows");
            lemma_not_within("linux"@, "macos"@);
            lemma_not_within("linux"@, "ios"@);
            lemma_not_within("linux"@, "android"@);
            lemma_not_within("linux"@, "windows"@);
            lemma_label_matches("linux"@);
        }
    }
}

/// Whether the label that `short_os` gives is a fixed point of it: lowercases
/// the five canonical labels with `to_lowercase` and checks that each gives
/// its ASCII lowercase form. When they do (the result is `true`), the OS
/// label of any OS label is that label again.
pub fn os_labels_are_stable() -> (r: bool)
    ensures
        r == (lowercase("macOS"@) == "macos"@ && lowercase("iOS"@) == "ios"@
            && lowercase("Android"@) == "android"@ && lowercase("Windows"@) == "windows"@
            && lowercase("Linux"@) == "linux"@),
        r ==> forall|os: Seq<char>| #[trigger] short_os_text(short_os_text(os)) == short_os_text(os),
{
    let mac = to_lowercase("macOS");
    let ios = to_lowercase("iOS");
    let android = to_lowercase("Android");
    let windows = to_lowercase("Windows");
    let linux = to_lowercase("Linux");
    let r = same_text(mac.as_str(), "macos") && same_text(ios.as_str(), "ios")
        && same_text(android.as_str(), "android") && same_text(windows.as_str(), "windows")
        && same_text(linux.as_str(), "linux");
    if r {
        assert forall|os: Seq<char>| #[trigger] short_os_text(short_os_text(os)) == short_os_text(os) by {
            lemma_short_os_idempotent(os);
        }
    }
    r
}

} // verus!
