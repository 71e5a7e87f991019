use vstd::prelude::*;
use vstd::string::*;
use crate::api::{Device, LocalPeerInfo, PeerTraffic, ipv4_text, short_name_text, short_os_text, texts};
use crate::sorting::{is_stable_sort, sorted_nodes, online_count, lemma_sort_keeps_online_count};
use crate::strmap::StrMap;
use crate::text::{first_index_of, find_char, chars_of, string_from_range};
pub use crate::sorting::{NodeInfo, SortMode};
pub use crate::units::format_bytes;

verus! {

/// How many log entries the monitor keeps.
pub const LOG_CAPACITY: usize = 500;

/// A line of the event log.
#[derive(Debug, Clone)]
pub struct LogEntry {
    pub timestamp: String,
    pub message: String,
}

/// A time of day written `HH:MM:SS`: hour 00–23, minute 00–59, second
/// 00–60 (a leap second), each zero-padded to two digits.
pub open spec fn is_clock_text(t: Seq<char>) -> bool {
    &&& t.len() == 8
    &&& t[2] == ':' && t[5] == ':'
    &&& forall|i: int| 0 <= i < 8 && i != 2 && i != 5 ==> 48 <= (#[trigger] t[i] as int) <= 57
    &&& (t[0] as int - 48) * 10 + (t[1] as int - 48) <= 23
    &&& (t[3] as int - 48) * 10 + (t[4] as int - 48) <= 59
    &&& (t[6] as int - 48) * 10 + (t[7] as int - 48) <= 60
}

/// The local time of day, `HH:MM:SS`.
///
/// Trusted: wraps `chrono::Local::now().format("%H:%M:%S").to_string()`.
/// chrono documents `%H` as the hour 00–23, `%M` as the minute 00–59 and
/// `%S` as the second 00–60, each zero-padded to two digits; which time it
/// reads is not stated.
#[verifier::external_body]
fn now_str() -> (r: String)
    ensures
        is_clock_text(r@),
{
    chrono::Local::now().format("%H:%M:%S").to_string()
}

/// The log after appending `e`, keeping the last `LOG_CAPACITY` entries.
pub open spec fn log_after(log: Seq<LogEntry>, e: LogEntry) -> Seq<LogEntry> {
    let l = log.push(e);
    if l.len() > LOG_CAPACITY {
        l.skip(l.len() - LOG_CAPACITY)
    } else {
        l
    }
}

/// The log, and the number of its newest entries not yet printed, after
/// appending `e`: the log keeps its last `LOG_CAPACITY` entries, and the
/// new entry is one more unprinted, as far as the log still holds them.
pub open spec fn log_state_after(log: Seq<LogEntry>, unprinted: nat, e: LogEntry) -> (Seq<LogEntry>, nat) {
    let l = log_after(log, e);
    (l, if unprinted + 1 <= l.len() { unprinted + 1 } else { l.len() })
}

/// The log and its unprinted count after appending `new` one by one.
pub open spec fn log_state_after_all(log: Seq<LogEntry>, unprinted: nat, new: Seq<LogEntry>) -> (Seq<LogEntry>, nat)
    decreases new.len(),
{
    if new.len() == 0 {
        (log, unprinted)
    } else {
        let prev = log_state_after_all(log, unprinted, new.drop_last());
        log_state_after(prev.0, prev.1, new.last())
    }
}

/// `entries` carry the messages `msgs`, in order, each stamped with a clock
/// time.
pub open spec fn stamped_messages(entries: Seq<LogEntry>, msgs: Seq<Seq<char>>) -> bool {
    &&& entries.len() == msgs.len()
    &&& forall|i: int| 0 <= i < entries.len() ==> (#[trigger] entries[i]).message@ == msgs[i]
        && is_clock_text(entries[i].timestamp@)
}

/// The tailnet name in a device's FQDN: what follows its first `.`, one
/// trailing `.` dropped; nothing when the name has no `.`.
pub open spec fn tailnet_of(name: Seq<char>) -> Option<Seq<char>> {
    let i = first_index_of(name, '.');
    if i < name.len() {
        let t = name.skip(i as int + 1);
        Some(if t.len() > 0 && t.last() == '.' { t.drop_last() } else { t })
    } else {
        None
    }
}

/// The local status entry for `ip`, if any.
pub open spec fn local_entry(local: Map<Seq<char>, LocalPeerInfo>, ip: Seq<char>) -> Option<LocalPeerInfo> {
    if local.contains_key(ip) { Some(local[ip]) } else { None }
}

/// `n` is the table row built for device `d` from the local status.
pub open spec fn node_for_device(n: NodeInfo, d: Device, local: Map<Seq<char>, LocalPeerInfo>) -> bool {
    let ip = ipv4_text(texts(d.addresses@));
    let entry = local_entry(local, ip);
    &&& n.name@ == short_name_text(d.hostname@, d.name@)
    &&& n.ip@ == ip
    &&& n.os@ == short_os_text(d.os@)
    &&& n.online == (entry matches Some(l) && l.online)
    &&& !n.has_webclient
    &&& n.tx_bytes == (match entry { Some(l) => Some(l.tx_bytes), None => None })
    &&& n.rx_bytes == (match entry { Some(l) => Some(l.rx_bytes), None => None })
}

/// The indices of the online nodes, in order.
pub open spec fn online_indices(nodes: Seq<NodeInfo>) -> Seq<usize>
    decreases nodes.len(),
{
    if nodes.len() == 0 {
        seq![]
    } else {
        let rest = online_indices(nodes.drop_last());
        if nodes.last().online { rest.push((nodes.len() - 1) as usize) } else { rest }
    }
}

/// A node after its metrics page answered: it has the web client, and
/// nonzero traffic from the page replaces the local counters.
pub open spec fn with_metrics(n: NodeInfo, t: PeerTraffic) -> NodeInfo {
    let replace = t.tx_bytes > 0 || t.rx_bytes > 0;
    NodeInfo {
        name: n.name,
        ip: n.ip,
        os: n.os,
        online: n.online,
        has_webclient: true,
        tx_bytes: if replace { Some(t.tx_bytes) } else { n.tx_bytes },
        rx_bytes: if replace { Some(t.rx_bytes) } else { n.rx_bytes },
    }
}

/// The nodes after applying the metrics results in order.
pub open spec fn apply_results(nodes: Seq<NodeInfo>, results: Seq<(usize, Option<PeerTraffic>)>) -> Seq<NodeInfo>
    decreases results.len(),
{
    if results.len() == 0 {
        nodes
    } else {
        let prev = apply_results(nodes, results.drop_last());
        let i = results.last().0 as int;
        match results.last().1 {
            Some(t) => prev.update(i, with_metrics(prev[i], t)),
            None => prev,
        }
    }
}

/// The event logged for a node that was last seen with status `was`.
pub open spec fn event_message(was: Option<bool>, n: NodeInfo) -> Option<Seq<char>> {
    let who = n.name@ + " ("@ + n.ip@;
    match (was, n.online) {
        (Some(false), true) => Some("CONNECT    "@ + who + ") came online"@),
        (Some(true), false) => Some("DISCONNECT "@ + who + ") went offline"@),
        (None, true) => Some("DISCOVERED "@ + who + ") \u{2014} online"@),
        (None, false) => Some("DISCOVERED "@ + who + ") \u{2014} offline"@),
        _ => None,
    }
}

/// The status `previous` holds for `ip`, if any.
pub open spec fn previous_status(previous: Map<Seq<char>, bool>, ip: Seq<char>) -> Option<bool> {
    if previous.contains_key(ip) { Some(previous[ip]) } else { None }
}

/// The connection events of a refresh, node by node.
pub open spec fn event_messages(previous: Map<Seq<char>, bool>, nodes: Seq<NodeInfo>) -> Seq<Seq<char>>
    decreases nodes.len(),
{
    if nodes.len() == 0 {
        seq![]
    } else {
        let rest = event_messages(previous, nodes.drop_last());
        let n = nodes.last();
        match event_message(previous_status(previous, n.ip@), n) {
            Some(m) => rest.push(m),
            None => rest,
        }
    }
}

/// The online status by IP that a list of nodes gives (a later node with
/// the same IP replacing an earlier one).
pub open spec fn online_by_ip(nodes: Seq<NodeInfo>) -> Map<Seq<char>, bool>
    decreases nodes.len(),
{
    if nodes.len() == 0 {
        Map::empty()
    } else {
        online_by_ip(nodes.drop_last()).insert(nodes.last().ip@, nodes.last().online)
    }
}

} // verus!

verus! {

/// The monitor's state: the node table, its order, the tailnet summary and
/// the event log.
pub struct App {
    pub nodes: Vec<NodeInfo>,
    pub sort_mode: SortMode,
    pub tailnet_name: String,
    pub total_nodes: usize,
    pub online_nodes: usize,
    pub refresh_interval_secs: u64,
    pub loading: bool,
    pub error: Option<String>,
    pub log_entries: Vec<LogEntry>,
    /// How many of the newest log entries have not been printed yet (log
    /// mode prints them).
    pub unprinted: usize,
    /// The online status by IP that the last refresh saw.
    pub previous_online: StrMap<bool>,
}

impl App {
    /// A monitor with no nodes yet, loading, ordered by name.
    pub fn new(refresh_interval_secs: u64) -> (r: App)
        ensures
            r.nodes@.len() == 0,
            r.sort_mode == SortMode::Name,
            r.tailnet_name@.len() == 0,
            r.total_nodes == 0,
            r.online_nodes == 0,
            r.refresh_interval_secs == refresh_interval_secs,
            r.loading,
            r.error is None,
            r.log_entries@.len() == 0,
            r.unprinted == 0,
            r.previous_online@ == Map::<Seq<char>, bool>::empty(),
    {
        App {
            nodes: Vec::new(),
            sort_mode: SortMode::Name,
            tailnet_name: String::new(),
            total_nodes: 0,
            online_nodes: 0,
            refresh_interval_secs,
            loading: true,
            error: None,
            log_entries: Vec::new(),
            unprinted: 0,
            previous_online: StrMap::new(),
        }
    }

    /// Appends a log entry with the given time, keeping the last
    /// `LOG_CAPACITY` entries; the entry counts as not yet printed.
    pub fn add_log_at(&mut self, message: String, timestamp: String)
        ensures
            (final(self).log_entries@, final(self).unprinted as nat)
                == log_state_after(old(self).log_entries@, old(self).unprinted as nat, LogEntry { timestamp, message }),
            final(self).nodes == old(self).nodes,
            final(self).sort_mode == old(self).sort_mode,
            final(self).tailnet_name == old(self).tailnet_name,
            final(self).total_nodes == old(self).total_nodes,
            final(self).online_nodes == old(self).online_nodes,
            final(self).refresh_interval_secs == old(self).refresh_interval_secs,
            final(self).loading == old(self).loading,
            final(self).error == old(self).error,
            final(self).previous_online@ == old(self).previous_online@,
    {
        self.log_entries.push(LogEntry { timestamp, message });
        let n = self.log_entries.len();
        if n > LOG_CAPACITY {
            let kept = self.log_entries.split_off(n - LOG_CAPACITY);
            self.log_entries = kept;
        }
        let len = self.log_entries.len();
        self.unprinted = if self.unprinted < len { self.unprinted + 1 } else { len };
    }

    /// Appends a log entry stamped with the current local time, keeping the
    /// last `LOG_CAPACITY` entries.
    pub fn add_log(&mut self, message: String)
        ensures
            exists|t: String| is_clock_text(t@)
                && (final(self).log_entries@, final(self).unprinted as nat)
                    == log_state_after(old(self).log_entries@, old(self).unprinted as nat, LogEntry { timestamp: t, message }),
            final(self).nodes == old(self).nodes,
            final(self).sort_mode == old(self).sort_mode,
            final(self).tailnet_name == old(self).tailnet_name,
            final(self).total_nodes == old(self).total_nodes,
            final(self).online_nodes == old(self).online_nodes,
            final(self).refresh_interval_secs == old(self).refresh_interval_secs,
            final(self).loading == old(self).loading,
            final(self).error == old(self).error,
            final(self).previous_online@ == old(self).previous_online@,
    {
        let t = now_str();
        let ghost tv = t;
        self.add_log_at(message, t);
        assert(is_clock_text(tv@));
    }
}

} // verus!

verus! {

/// The table row for device `d`, with its local status.
fn node_for(d: &Device, local: &StrMap<LocalPeerInfo>) -> (n: NodeInfo)
    ensures
        node_for_device(n, *d, local@),
{
    let ip = d.ipv4();
    let entry = local.get(ip);
    NodeInfo {
        name: String::from_str(d.short_name()),
        ip: String::from_str(ip),
        os: String::from_str(d.short_os()),
        online: match entry {
            Some(l) => l.online,
            None => false,
        },
        has_webclient: false,
        tx_bytes: match entry {
            Some(l) => Some(l.tx_bytes),
            None => None,
        },
        rx_bytes: match entry {
            Some(l) => Some(l.rx_bytes),
            None => None,
        },
    }
}

/// The tailnet name in a device's FQDN (see `tailnet_of`).
pub fn tailnet_from_name(name: &str) -> (r: Option<String>)
    ensures
        match r {
            Some(t) => tailnet_of(name@) == Some(t@),
            None => tailnet_of(name@) is None,
        },
{
    let cs = chars_of(name);
    let i = find_char(&cs, 0, '.');
    proof {
        assert(cs@.skip(0) == cs@);
    }
    if i < cs.len() {
        let n = cs.len();
        let end = if n > i + 1 && cs[n - 1] == '.' { n - 1 } else { n };
        let t = string_from_range(&cs, i + 1, end);
        proof {
            let u = cs@.skip(i + 1);
            if n > i + 1 && cs@[n - 1] == '.' {
                assert(u.drop_last() =~= cs@.subrange(i + 1, end as int));
            } else {
                assert(u =~= cs@.subrange(i + 1, end as int));
            }
        }
        Some(t)
    } else {
        None
    }
}

/// The indices of the online nodes, in order: the nodes whose metrics
/// pages are tried.
pub fn metrics_targets(nodes: &Vec<NodeInfo>) -> (r: Vec<usize>)
    ensures
        r@ == online_indices(nodes@),
        forall|i: int| 0 <= i < nodes@.len() ==> (nodes@[i].online <==> #[trigger] r@.contains(i as usize)),
{
    let mut r: Vec<usize> = Vec::new();
    let mut i: usize = 0;
    while i < nodes.len()
        invariant
            i <= nodes@.len(),
            r@ == online_indices(nodes@.take(i as int)),
        decreases nodes@.len() - i,
    {
        assert(nodes@.take(i + 1).drop_last() == nodes@.take(i as int));
        if nodes[i].online {
            r.push(i);
        }
        i = i + 1;
    }
    assert(nodes@.take(i as int) == nodes@);
    proof {
        lemma_targets_are_online_nodes(nodes@);
    }
    r
}

/// Applies the metrics results of a refresh, in order: each node whose page
/// answered gets the web client flag, and nonzero traffic from the page
/// replaces its counters.
pub fn apply_node_metrics(nodes: &mut Vec<NodeInfo>, results: &Vec<(usize, Option<PeerTraffic>)>)
    requires
        forall|k: int| 0 <= k < results@.len() ==> (#[trigger] results@[k]).0 < old(nodes)@.len(),
    ensures
        final(nodes)@ == apply_results(old(nodes)@, results@),
{
    let ghost start = nodes@;
    let mut k: usize = 0;
    while k < results.len()
        invariant
            forall|m: int| 0 <= m < results@.len() ==> (#[trigger] results@[m]).0 < start.len(),
            k <= results@.len(),
            nodes@ == apply_results(start, results@.take(k as int)),
            nodes@.len() == start.len(),
        decreases results@.len() - k,
    {
        assert(results@.take(k + 1).drop_last() == results@.take(k as int));
        let i = results[k].0;
        match &results[k].1 {
            Some(t) => {
                let replace = t.tx_bytes > 0 || t.rx_bytes > 0;
                let updated = NodeInfo {
                    name: nodes[i].name.clone(),
                    ip: nodes[i].ip.clone(),
                    os: nodes[i].os.clone(),
                    online: nodes[i].online,
                    has_webclient: true,
                    tx_bytes: if replace { Some(t.tx_bytes) } else { nodes[i].tx_bytes },
                    rx_bytes: if replace { Some(t.rx_bytes) } else { nodes[i].rx_bytes },
                };
                nodes.set(i, updated);
            },
            None => {},
        }
        k = k + 1;
    }
    assert(results@.take(k as int) == results@);
}

/// The log message for a node last seen with status `was`.
fn event_text(was: Option<bool>, n: &NodeInfo) -> (r: Option<String>)
    ensures
        match r {
            Some(s) => event_message(was, *n) == Some(s@),
            None => event_message(was, *n) is None,
        },
{
    let (head, tail) = match (was, n.online) {
        (Some(false), true) => ("CONNECT    ", ") came online"),
        (Some(true), false) => ("DISCONNECT ", ") went offline"),
        (None, true) => ("DISCOVERED ", ") \u{2014} online"),
        (None, false) => ("DISCOVERED ", ") \u{2014} offline"),
        _ => {
            return None;
        },
    };
    let mut s = String::from_str(head);
    s.append(n.name.as_str());
    s.append(" (");
    s.append(n.ip.as_str());
    s.append(tail);
    assert(s@ =~= head@ + (n.name@ + " ("@ + n.ip@) + tail@);
    Some(s)
}

/// The connection events that a refresh with `nodes` logs, given the status
/// the previous refresh saw: a node that came online or went offline, or a
/// node seen for the first time.
pub fn connection_events(previous: &StrMap<bool>, nodes: &Vec<NodeInfo>) -> (r: Vec<String>)
    ensures
        texts(r@) == event_messages(previous@, nodes@),
{
    let mut r: Vec<String> = Vec::new();
    let mut i: usize = 0;
    while i < nodes.len()
        invariant
            i <= nodes@.len(),
            texts(r@) == event_messages(previous@, nodes@.take(i as int)),
        decreases nodes@.len() - i,
    {
        let ghost before = r@;
        assert(nodes@.take(i + 1).drop_last() == nodes@.take(i as int));
        assert(nodes@.take(i + 1).last() == nodes@[i as int]);
        let n = &nodes[i];
        let was = match previous.get(n.ip.as_str()) {
            Some(b) => Some(*b),
            None => None,
        };
        match event_text(was, n) {
            Some(m) => {
                r.push(m);
                assert(texts(r@) =~= texts(before).push(m@));
            },
            None => {},
        }
        i = i + 1;
    }
    assert(nodes@.take(i as int) == nodes@);
    r
}

fn online_map(nodes: &Vec<NodeInfo>) -> (r: StrMap<bool>)
    ensures
        r@ == online_by_ip(nodes@),
{
    let mut r: StrMap<bool> = StrMap::new();
    let mut i: usize = 0;
    while i < nodes.len()
        invariant
            i <= nodes@.len(),
            r@ == online_by_ip(nodes@.take(i as int)),
        decreases nodes@.len() - i,
    {
        assert(nodes@.take(i + 1).drop_last() == nodes@.take(i as int));
        r.insert(nodes[i].ip.clone(), nodes[i].online);
        i = i + 1;
    }
    assert(nodes@.take(i as int) == nodes@);
    r
}

fn count_online(nodes: &Vec<NodeInfo>) -> (r: usize)
    ensures
        r == online_count(nodes@),
{
    let mut c: usize = 0;
    let mut i: usize = 0;
    while i < nodes.len()
        invariant
            i <= nodes@.len(),
            c == online_count(nodes@.take(i as int)),
            c <= i,
        decreases nodes@.len() - i,
    {
        assert(nodes@.take(i + 1).drop_last() == nodes@.take(i as int));
        if nodes[i].online {
            c = c + 1;
        }
        i = i + 1;
    }
    assert(nodes@.take(i as int) == nodes@);
    c
}

impl App {
    /// Starts rebuilding the table from a fresh device list: clears the
    /// error, takes the tailnet name from the first device's FQDN (keeping
    /// the old one when it has none), and builds one row per device from
    /// the local status.
    pub fn prepare_nodes(&mut self, devices: &Vec<Device>, local: &StrMap<LocalPeerInfo>) -> (nodes: Vec<NodeInfo>)
        ensures
            final(self).error is None,
            (devices@.len() > 0 && tailnet_of(devices@[0].name@) is Some)
                ==> final(self).tailnet_name@ == tailnet_of(devices@[0].name@).unwrap(),
            !(devices@.len() > 0 && tailnet_of(devices@[0].name@) is Some)
                ==> final(self).tailnet_name == old(self).tailnet_name,
            nodes@.len() == devices@.len(),
            forall|i: int| 0 <= i < devices@.len() ==> node_for_device(#[trigger] nodes@[i], devices@[i], local@),
            forall|i: int| 0 <= i < nodes@.len() ==> ((#[trigger] nodes@[i]).online
                <==> (local@.contains_key(nodes@[i].ip@) && local@[nodes@[i].ip@].online)),
            final(self).nodes == old(self).nodes,
            final(self).sort_mode == old(self).sort_mode,
            final(self).total_nodes == old(self).total_nodes,
            final(self).online_nodes == old(self).online_nodes,
            final(self).refresh_interval_secs == old(self).refresh_interval_secs,
            final(self).loading == old(self).loading,
            final(self).log_entries == old(self).log_entries,
            final(self).unprinted == old(self).unprinted,
            final(self).previous_online@ == old(self).previous_online@,
    {
        self.error = None;
        if devices.len() > 0 {
            match tailnet_from_name(devices[0].name.as_str()) {
                Some(t) => {
                    self.tailnet_name = t;
                },
                None => {},
            }
        }
        let mut nodes: Vec<NodeInfo> = Vec::new();
        let mut i: usize = 0;
        while i < devices.len()
            invariant
                i <= devices@.len(),
                nodes@.len() == i,
                forall|k: int| 0 <= k < i ==> node_for_device(#[trigger] nodes@[k], devices@[k], local@),
            decreases devices@.len() - i,
        {
            nodes.push(node_for(&devices[i], local));
            i = i + 1;
        }
        proof {
            assert forall|i: int| 0 <= i < nodes@.len() implies ((#[trigger] nodes@[i]).online
                <==> (local@.contains_key(nodes@[i].ip@) && local@[nodes@[i].ip@].online)) by {
                lemma_row_follows_local_status(nodes@[i], devices@[i], local@);
            }
        }
        nodes
    }

    /// Finishes a refresh with the built rows: logs the connection events
    /// against the previous refresh, remembers each node's status, counts
    /// the nodes, and orders them by the current sort mode.
    pub fn install_nodes(&mut self, nodes: Vec<NodeInfo>)
        ensures
            exists|new: Seq<LogEntry>|
                stamped_messages(new, event_messages(old(self).previous_online@, nodes@))
                && log_state_after_all(old(self).log_entries@, old(self).unprinted as nat, new)
                    == (final(self).log_entries@, final(self).unprinted as nat),
            final(self).previous_online@ == online_by_ip(nodes@),
            is_stable_sort(final(self).nodes@, nodes@, old(self).sort_mode),
            final(self).total_nodes == nodes@.len(),
            final(self).online_nodes == online_count(nodes@),
            final(self).total_nodes == final(self).nodes@.len(),
            final(self).online_nodes == online_count(final(self).nodes@),
            !final(self).loading,
            final(self).sort_mode == old(self).sort_mode,
            final(self).tailnet_name == old(self).tailnet_name,
            final(self).refresh_interval_secs == old(self).refresh_interval_secs,
            final(self).error == old(self).error,
    {
        let events = connection_events(&self.previous_online, &nodes);
        let ghost msgs = texts(events@);
        let ghost start_log = self.log_entries@;
        let ghost start_unprinted = self.unprinted as nat;
        let ghost mut new: Seq<LogEntry> = Seq::empty();
        let mut k: usize = 0;
        while k < events.len()
            invariant
                k <= events@.len(),
                msgs == texts(events@),
                stamped_messages(new, msgs.take(k as int)),
                log_state_after_all(start_log, start_unprinted, new) == (self.log_entries@, self.unprinted as nat),
                self.sort_mode == old(self).sort_mode,
                self.tailnet_name == old(self).tailnet_name,
                self.refresh_interval_secs == old(self).refresh_interval_secs,
                self.error == old(self).error,
            decreases events@.len() - k,
        {
            let m = events[k].clone();
            let ghost before = (self.log_entries@, self.unprinted as nat);
            self.add_log(m);
            proof {
                let t = choose|t: String| is_clock_text(t@)
                    && (self.log_entries@, self.unprinted as nat)
                        == log_state_after(before.0, before.1, LogEntry { timestamp: t, message: m });
                let e = LogEntry { timestamp: t, message: m };
                let new2 = new.push(e);
                assert(new2.drop_last() == new);
                assert(msgs.take(k + 1) == msgs.take(k as int).push(m@));
                assert(stamped_messages(new2, msgs.take(k + 1))) by {
                    assert forall|i: int| 0 <= i < new2.len() implies (#[trigger] new2[i]).message@ == msgs.take(k + 1)[i]
                        && is_clock_text(new2[i].timestamp@) by {
                        if i < new.len() {
                            assert(new2[i] == new[i]);
                        }
                    }
                }
                new = new2;
            }
            k = k + 1;
        }
        assert(msgs.take(k as int) == msgs);
        self.previous_online = online_map(&nodes);
        self.total_nodes = nodes.len();
        self.online_nodes = count_online(&nodes);
        self.nodes = sorted_nodes(&nodes, self.sort_mode);
        proof {
            lemma_sort_keeps_online_count(self.nodes@, nodes@, self.sort_mode);
        }
        self.loading = false;
    }

    /// Records a failed device fetch: logs `API error: ` and the error's
    /// text, keeps it as the current error, and ends loading.
    pub fn refresh_failed(&mut self, error_text: &str)
        ensures
            final(self).error matches Some(e) && e@ == "API error: "@ + error_text@,
            exists|new: Seq<LogEntry>|
                stamped_messages(new, seq!["API error: "@ + error_text@])
                && log_state_after_all(old(self).log_entries@, old(self).unprinted as nat, new)
                    == (final(self).log_entries@, final(self).unprinted as nat),
            !final(self).loading,
            final(self).nodes == old(self).nodes,
            final(self).sort_mode == old(self).sort_mode,
            final(self).tailnet_name == old(self).tailnet_name,
            final(self).total_nodes == old(self).total_nodes,
            final(self).online_nodes == old(self).online_nodes,
            final(self).refresh_interval_secs == old(self).refresh_interval_secs,
            final(self).previous_online@ == old(self).previous_online@,
    {
        let mut msg = String::from_str("API error: ");
        msg.append(error_text);
        let ghost before = (self.log_entries@, self.unprinted as nat);
        let logged = msg.clone();
        self.add_log(logged);
        proof {
            let t = choose|t: String| is_clock_text(t@)
                && (self.log_entries@, self.unprinted as nat)
                    == log_state_after(before.0, before.1, LogEntry { timestamp: t, message: logged });
            let new = seq![LogEntry { timestamp: t, message: logged }];
            assert(new.drop_last() == Seq::<LogEntry>::empty());
            assert(new.last() == LogEntry { timestamp: t, message: logged });
            assert(log_state_after_all(before.0, before.1, Seq::<LogEntry>::empty()) == before);
            assert(log_state_after_all(before.0, before.1, new)
                == (self.log_entries@, self.unprinted as nat));
            assert(logged@ == msg@);
            assert(msg@ == "API error: "@ + error_text@);
            assert(stamped_messages(new, seq![msg@]));
            assert(seq![msg@] == seq!["API error: "@ + error_text@]);
        }
        self.error = Some(msg);
        self.loading = false;
    }

    /// Marks the unprinted log entries printed, and gives the index of the
    /// first of them: the entries from there to the end of the log are the
    /// ones logged since the last call that the log still holds.
    pub fn take_unprinted(&mut self) -> (start: usize)
        ensures
            start == old(self).log_entries@.len()
                - if old(self).unprinted <= old(self).log_entries@.len() { old(self).unprinted as int } else { old(self).log_entries@.len() as int },
            old(self).unprinted <= old(self).log_entries@.len()
                ==> old(self).log_entries@.skip(start as int) == pending(old(self).log_entries@, old(self).unprinted as nat),
            final(self).unprinted == 0,
            final(self).log_entries == old(self).log_entries,
            final(self).nodes == old(self).nodes,
            final(self).sort_mode == old(self).sort_mode,
            final(self).tailnet_name == old(self).tailnet_name,
            final(self).total_nodes == old(self).total_nodes,
            final(self).online_nodes == old(self).online_nodes,
            final(self).refresh_interval_secs == old(self).refresh_interval_secs,
            final(self).loading == old(self).loading,
            final(self).error == old(self).error,
            final(self).previous_online@ == old(self).previous_online@,
    {
        let len = self.log_entries.len();
        let start = if self.unprinted <= len { len - self.unprinted } else { 0 };
        self.unprinted = 0;
        start
    }

    /// Changes the order of the table and reorders it.
    pub fn set_sort_mode(&mut self, mode: SortMode)
        ensures
            final(self).sort_mode == mode,
            is_stable_sort(final(self).nodes@, old(self).nodes@, mode),
            final(self).nodes@.len() == old(self).nodes@.len(),
            online_count(final(self).nodes@) == online_count(old(self).nodes@),
            final(self).tailnet_name == old(self).tailnet_name,
            final(self).total_nodes == old(self).total_nodes,
            final(self).online_nodes == old(self).online_nodes,
            final(self).refresh_interval_secs == old(self).refresh_interval_secs,
            final(self).loading == old(self).loading,
            final(self).error == old(self).error,
            final(self).log_entries == old(self).log_entries,
            final(self).unprinted == old(self).unprinted,
            final(self).previous_online@ == old(self).previous_online@,
    {
        self.sort_mode = mode;
        self.sort_nodes();
        proof {
            lemma_sort_keeps_online_count(self.nodes@, old(self).nodes@, mode);
        }
    }

    fn sort_nodes(&mut self)
        ensures
            is_stable_sort(final(self).nodes@, old(self).nodes@, old(self).sort_mode),
            final(self).sort_mode == old(self).sort_mode,
            final(self).tailnet_name == old(self).tailnet_name,
            final(self).total_nodes == old(self).total_nodes,
            final(self).online_nodes == old(self).online_nodes,
            final(self).refresh_interval_secs == old(self).refresh_interval_secs,
            final(self).loading == old(self).loading,
            final(self).error == old(self).error,
            final(self).log_entries == old(self).log_entries,
            final(self).unprinted == old(self).unprinted,
            final(self).previous_online@ == old(self).previous_online@,
    {
        self.nodes = sorted_nodes(&self.nodes, self.sort_mode);
    }
}

} // verus!

verus! {

/// Appending to the log keeps at most `LOG_CAPACITY` entries (once the log
/// holds no more than that), keeps them in order, and puts the new entry
/// last.
pub proof fn lemma_log_after_bounded(log: Seq<LogEntry>, e: LogEntry)
    ensures
        log.len() < LOG_CAPACITY ==> log_after(log, e) == log.push(e),
        log.len() <= LOG_CAPACITY ==> log_after(log, e).len() <= LOG_CAPACITY,
        log_after(log, e).len() >= 1,
        log_after(log, e).last() == e,
        log_after(log, e).drop_last() == log.skip(log.len() - (log_after(log, e).len() - 1)),
{
    let l = log.push(e);
    if l.len() > LOG_CAPACITY {
        let r = l.skip(l.len() - LOG_CAPACITY);
        assert(r.last() == e);
        assert(r.drop_last() =~= log.skip(log.len() - (r.len() - 1)));
    } else {
        assert(l.drop_last() =~= log.skip(0));
    }
}

} // verus!

verus! {

/// A node logs an event exactly when its status differs from the one last
/// seen (or it was not seen before).
pub proof fn lemma_event_iff_change(was: Option<bool>, n: NodeInfo)
    ensures
        event_message(was, n) is None <==> was == Some(n.online),
{
}

/// No two nodes share an IP.
pub open spec fn ips_distinct(nodes: Seq<NodeInfo>) -> bool {
    forall|i: int, j: int| 0 <= i < nodes.len() && 0 <= j < nodes.len() && i != j
        ==> (#[trigger] nodes[i]).ip@ != (#[trigger] nodes[j]).ip@
}

proof fn lemma_online_by_ip_lookup(nodes: Seq<NodeInfo>, i: int)
    requires
        ips_distinct(nodes),
        0 <= i < nodes.len(),
    ensures
        previous_status(online_by_ip(nodes), nodes[i].ip@) == Some(nodes[i].online),
    decreases nodes.len(),
{
    if i < nodes.len() - 1 {
        let init = nodes.drop_last();
        assert(init[i] == nodes[i]);
        assert forall|a: int, b: int| 0 <= a < init.len() && 0 <= b < init.len() && a != b
            implies (#[trigger] init[a]).ip@ != (#[trigger] init[b]).ip@ by {
            assert(init[a] == nodes[a] && init[b] == nodes[b]);
        }
        lemma_online_by_ip_lookup(init, i);
        assert(nodes[nodes.len() - 1].ip@ != nodes[i].ip@);
    }
}

proof fn lemma_quiet_prefix(previous: Map<Seq<char>, bool>, nodes: Seq<NodeInfo>, k: int)
    requires
        0 <= k <= nodes.len(),
        forall|i: int| 0 <= i < nodes.len() ==> previous_status(previous, (#[trigger] nodes[i]).ip@) == Some(nodes[i].online),
    ensures
        event_messages(previous, nodes.take(k)) == Seq::<Seq<char>>::empty(),
    decreases k,
{
    if k > 0 {
        let t = nodes.take(k);
        assert(t.drop_last() == nodes.take(k - 1));
        assert(t.last() == nodes[k - 1]);
        lemma_quiet_prefix(previous, nodes, k - 1);
    }
}

/// Refreshing again with the same nodes logs nothing: against the status
/// a refresh remembers, the same nodes (with distinct IPs) give no event.
pub proof fn lemma_repeat_refresh_is_quiet(nodes: Seq<NodeInfo>)
    requires
        ips_distinct(nodes),
    ensures
        event_messages(online_by_ip(nodes), nodes) == Seq::<Seq<char>>::empty(),
{
    assert forall|i: int| 0 <= i < nodes.len() implies
        previous_status(online_by_ip(nodes), (#[trigger] nodes[i]).ip@) == Some(nodes[i].online) by {
        lemma_online_by_ip_lookup(nodes, i);
    }
    lemma_quiet_prefix(online_by_ip(nodes), nodes, nodes.len() as int);
    assert(nodes.take(nodes.len() as int) == nodes);
}

} // verus!

verus! {

/// The newest `n` entries of `s` (all of them when it has no more).
pub open spec fn newest(s: Seq<LogEntry>, n: nat) -> Seq<LogEntry> {
    if s.len() <= n { s } else { s.skip(s.len() - n) }
}

/// The entries not yet printed: the newest `unprinted` of the log.
pub open spec fn pending(log: Seq<LogEntry>, unprinted: nat) -> Seq<LogEntry> {
    log.skip(log.len() - unprinted)
}

proof fn lemma_log_step(log: Seq<LogEntry>, u: nat, e: LogEntry)
    requires
        u <= log.len() <= LOG_CAPACITY,
    ensures
        log_state_after(log, u, e).1 <= log_state_after(log, u, e).0.len() <= LOG_CAPACITY,
        pending(log_state_after(log, u, e).0, log_state_after(log, u, e).1)
            == newest(pending(log, u).push(e), LOG_CAPACITY as nat),
{
    let l = log_state_after(log, u, e).0;
    let u2 = log_state_after(log, u, e).1;
    let p = pending(log, u);
    if log.len() < LOG_CAPACITY {
        assert(l == log.push(e));
        assert(pending(l, u2) =~= p.push(e));
    } else if u < LOG_CAPACITY {
        assert(l =~= log.push(e).skip(1));
        assert(u2 == u + 1);
        assert(pending(l, u2) =~= p.push(e));
    } else {
        assert(l =~= log.push(e).skip(1));
        assert(p =~= log);
        assert(pending(l, u2) =~= newest(p.push(e), LOG_CAPACITY as nat));
    }
}

proof fn lemma_newest_push(s: Seq<LogEntry>, e: LogEntry, n: nat)
    ensures
        newest(newest(s, n).push(e), n) == newest(s.push(e), n),
{
    assert(newest(newest(s, n).push(e), n) =~= newest(s.push(e), n));
}

/// What log mode prints after a batch of new entries: every entry logged
/// since the last print, in order, the pending ones first — as long as the
/// log still holds them, that is the newest `LOG_CAPACITY` of them. So each
/// entry is printed once, however long the monitor runs.
pub proof fn lemma_pending_after_all(log: Seq<LogEntry>, u: nat, new: Seq<LogEntry>)
    requires
        u <= log.len() <= LOG_CAPACITY,
    ensures
        log_state_after_all(log, u, new).1 <= log_state_after_all(log, u, new).0.len() <= LOG_CAPACITY,
        pending(log_state_after_all(log, u, new).0, log_state_after_all(log, u, new).1)
            == newest(pending(log, u) + new, LOG_CAPACITY as nat),
    decreases new.len(),
{
    if new.len() == 0 {
        assert(pending(log, u) + new =~= pending(log, u));
    } else {
        let prev = log_state_after_all(log, u, new.drop_last());
        lemma_pending_after_all(log, u, new.drop_last());
        lemma_log_step(prev.0, prev.1, new.last());
        lemma_newest_push(pending(log, u) + new.drop_last(), new.last(), LOG_CAPACITY as nat);
        assert((pending(log, u) + new.drop_last()).push(new.last()) =~= pending(log, u) + new);
    }
}

} // verus!

verus! {

/// A table row is online exactly when the local status has an entry for
/// the device's IPv4 and that entry is online: a peer that the status
/// lists as offline gives an offline row. The row carries the entry's
/// counters whenever there is an entry, and none otherwise.
pub proof fn lemma_row_follows_local_status(n: NodeInfo, d: Device, local: Map<Seq<char>, LocalPeerInfo>)
    requires
        node_for_device(n, d, local),
    ensures
        n.online <==> (local.contains_key(n.ip@) && local[n.ip@].online),
        local.contains_key(n.ip@) && !local[n.ip@].online ==> !n.online,
        local.contains_key(n.ip@) ==> n.tx_bytes == Some(local[n.ip@].tx_bytes) && n.rx_bytes == Some(local[n.ip@].rx_bytes),
        !local.contains_key(n.ip@) ==> !n.online && n.tx_bytes is None && n.rx_bytes is None,
{
}

/// The metrics targets are every online node, in order: an index is a
/// target exactly when its node is online, whatever its counters, and the
/// targets rise strictly.
pub proof fn lemma_targets_are_online_nodes(nodes: Seq<NodeInfo>)
    requires
        nodes.len() <= usize::MAX,
    ensures
        forall|i: int| 0 <= i < nodes.len() ==> (nodes[i].online <==> #[trigger] online_indices(nodes).contains(i as usize)),
        forall|k: int| 0 <= k < online_indices(nodes).len() ==>
            (#[trigger] online_indices(nodes)[k]) < nodes.len() && nodes[online_indices(nodes)[k] as int].online,
        forall|k: int, m: int| 0 <= k < m < online_indices(nodes).len() ==>
            #[trigger] online_indices(nodes)[k] < #[trigger] online_indices(nodes)[m],
    decreases nodes.len(),
{
    if nodes.len() > 0 {
        let init = nodes.drop_last();
        lemma_targets_are_online_nodes(init);
        let rest = online_indices(init);
        let r = online_indices(nodes);
        let last = (nodes.len() - 1) as usize;
        assert(last as int == nodes.len() - 1);
        if nodes.last().online {
            assert(r == rest.push(last));
        } else {
            assert(r == rest);
        }
        assert forall|i: int| 0 <= i < nodes.len() implies (nodes[i].online <==> #[trigger] r.contains(i as usize)) by {
            if i < nodes.len() - 1 {
                assert(init[i] == nodes[i]);
                if rest.contains(i as usize) {
                    let k = choose|k: int| 0 <= k < rest.len() && rest[k] == i as usize;
                    assert(r[k] == rest[k]);
                }
                if r.contains(i as usize) {
                    let k = choose|k: int| 0 <= k < r.len() && r[k] == i as usize;
                    if nodes.last().online && k == rest.len() {
                        assert(r[k] == last);
                    } else {
                        assert(r[k] == rest[k]);
                        assert(rest.contains(i as usize));
                    }
                }
            } else {
                assert(i as usize == last);
                if nodes.last().online {
                    assert(r[rest.len() as int] == last);
                } else if r.contains(i as usize) {
                    let k = choose|k: int| 0 <= k < r.len() && r[k] == i as usize;
                    assert(r[k] == rest[k]);
                    assert(rest[k] < init.len());
                }
            }
        }
        assert forall|k: int| 0 <= k < r.len() implies
            (#[trigger] r[k]) < nodes.len() && nodes[r[k] as int].online by {
            if k < rest.len() {
                assert(r[k] == rest[k]);
                assert(init[rest[k] as int] == nodes[rest[k] as int]);
            } else {
                assert(r[k] == last);
            }
        }
        assert forall|k: int, m: int| 0 <= k < m < r.len() implies #[trigger] r[k] < #[trigger] r[m] by {
            assert(r[k] == rest[k]);
            if m < rest.len() {
                assert(r[m] == rest[m]);
            } else {
                assert(r[m] == last);
                assert(rest[k] < init.len());
            }
        }
    }
}

} // verus!
