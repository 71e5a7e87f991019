use vstd::prelude::*;
use vstd::string::*;
use crate::app::App;
use crate::sorting::{NodeInfo, SortMode, is_stable_sort};
use crate::text::{decimal, push_decimal};
use crate::units::{bytes_text, format_bytes};

verus! {

/// A key the user pressed, as the monitor distinguishes keys.
#[derive(Debug, Clone, Copy, PartialEq, Eq, Structural)]
pub enum KeyInput {
    Char(char),
    Esc,
    Other,
}

/// What the event loop does after a key event.
#[derive(Debug, Clone, Copy, PartialEq, Eq, Structural)]
pub enum KeyOutcome {
    /// Not a key press: go straight to the next event.
    Skip,
    /// Leave the monitor.
    Quit,
    /// Redraw (now loading) and refresh at once.
    Refresh,
    /// Go on with the loop.
    Continue,
}

/// The sort mode a key selects.
pub open spec fn key_sort_mode(key: KeyInput) -> Option<SortMode> {
    match key {
        KeyInput::Char(c) => if c == '1' || c == 'n' {
            Some(SortMode::Name)
        } else if c == '2' || c == 't' {
            Some(SortMode::TxDesc)
        } else if c == '3' || c == 'x' {
            Some(SortMode::RxDesc)
        } else {
            None
        },
        _ => None,
    }
}

/// What the event loop does for a key event.
pub open spec fn key_outcome(key: KeyInput, pressed: bool) -> KeyOutcome {
    if !pressed {
        KeyOutcome::Skip
    } else {
        match key {
            KeyInput::Esc => KeyOutcome::Quit,
            KeyInput::Char(c) => if c == 'q' {
                KeyOutcome::Quit
            } else if c == 'r' {
                KeyOutcome::Refresh
            } else {
                KeyOutcome::Continue
            },
            KeyInput::Other => KeyOutcome::Continue,
        }
    }
}

/// The refresh interval in nanoseconds.
pub open spec fn interval_nanos(secs: u64) -> nat {
    secs as nat * 1_000_000_000
}

/// How long to wait for a key: what is left of the refresh interval, at
/// most a quarter of a second, in nanoseconds.
pub open spec fn poll_wait(secs: u64, elapsed_nanos: u128) -> nat {
    let left = if elapsed_nanos < interval_nanos(secs) { (interval_nanos(secs) - elapsed_nanos) as nat } else { 0nat };
    if left < 250_000_000 { left } else { 250_000_000 }
}

/// How long the event loop waits for a key before checking the refresh
/// timer, in nanoseconds.
pub fn poll_timeout_nanos(interval_secs: u64, elapsed_nanos: u128) -> (r: u128)
    ensures
        r == poll_wait(interval_secs, elapsed_nanos),
{
    let interval = interval_secs as u128 * 1_000_000_000;
    let left = if elapsed_nanos < interval { interval - elapsed_nanos } else { 0 };
    if left < 250_000_000 { left } else { 250_000_000 }
}

/// The wait for a key never runs past the next refresh: it is at most a
/// quarter of a second, it ends no later than the refresh time while a
/// refresh is not due, and it is cut short only there. So a loop that waits
/// and then checks `refresh_due` refreshes at the refresh time, not later.
pub proof fn lemma_wait_meets_refresh(secs: u64, elapsed_nanos: u128)
    ensures
        poll_wait(secs, elapsed_nanos) <= 250_000_000,
        elapsed_nanos < interval_nanos(secs) ==> 0 < poll_wait(secs, elapsed_nanos)
            && elapsed_nanos + poll_wait(secs, elapsed_nanos) <= interval_nanos(secs),
        elapsed_nanos < interval_nanos(secs) ==> (poll_wait(secs, elapsed_nanos) == 250_000_000
            || elapsed_nanos + poll_wait(secs, elapsed_nanos) == interval_nanos(secs)),
        elapsed_nanos >= interval_nanos(secs) ==> poll_wait(secs, elapsed_nanos) == 0,
{
}

/// Whether the refresh interval has passed.
pub fn refresh_due(interval_secs: u64, elapsed_nanos: u128) -> (r: bool)
    ensures
        r == (elapsed_nanos >= interval_nanos(interval_secs)),
{
    elapsed_nanos >= interval_secs as u128 * 1_000_000_000
}

impl App {
    /// Acts on a key event: `q` or Esc quits; `1`/`n`, `2`/`t`, `3`/`x`
    /// order the table by name, by sent bytes, by received bytes; `r` marks
    /// the monitor loading and asks for a refresh. Events that are not
    /// presses are skipped.
    pub fn handle_key(&mut self, key: KeyInput, pressed: bool) -> (r: KeyOutcome)
        ensures
            r == key_outcome(key, pressed),
            match (pressed, key_sort_mode(key)) {
                (true, Some(m)) => final(self).sort_mode == m && is_stable_sort(final(self).nodes@, old(self).nodes@, m),
                _ => final(self).sort_mode == old(self).sort_mode && final(self).nodes == old(self).nodes,
            },
            final(self).loading == (r == KeyOutcome::Refresh || old(self).loading),
            final(self).tailnet_name == old(self).tailnet_name,
            final(self).total_nodes == old(self).total_nodes,
            final(self).online_nodes == old(self).online_nodes,
            final(self).refresh_interval_secs == old(self).refresh_interval_secs,
            final(self).error == old(self).error,
            final(self).log_entries == old(self).log_entries,
            final(self).unprinted == old(self).unprinted,
            final(self).previous_online@ == old(self).previous_online@,
    {
        if !pressed {
            return KeyOutcome::Skip;
        }
        match key {
            KeyInput::Esc => KeyOutcome::Quit,
            KeyInput::Char(c) => {
                if c == 'q' {
                    KeyOutcome::Quit
                } else if c == '1' || c == 'n' {
                    self.set_sort_mode(SortMode::Name);
                    KeyOutcome::Continue
                } else if c == '2' || c == 't' {
                    self.set_sort_mode(SortMode::TxDesc);
                    KeyOutcome::Continue
                } else if c == '3' || c == 'x' {
                    self.set_sort_mode(SortMode::RxDesc);
                    KeyOutcome::Continue
                } else if c == 'r' {
                    self.loading = true;
                    KeyOutcome::Refresh
                } else {
                    KeyOutcome::Continue
                }
            },
            KeyInput::Other => KeyOutcome::Continue,
        }
    }
}

/// The tailnet shown in the header: its name, or `loading...` before one
/// is known.
pub open spec fn tailnet_label(name: Seq<char>) -> Seq<char> {
    if name.len() == 0 { "loading..."@ } else { name }
}

/// The status text of the header.
pub open spec fn header_status_text(app: App) -> Seq<char> {
    if app.loading {
        " Loading..."@
    } else {
        match app.error {
            Some(e) => " Error: "@ + e@,
            None => " Tailnet: "@ + tailnet_label(app.tailnet_name@) + "    Nodes: "@ + decimal(app.online_nodes as nat)
                + "/"@ + decimal(app.total_nodes as nat) + " online    ["@ + decimal(app.refresh_interval_secs as nat) + "s]"@,
        }
    }
}

/// The status text of the header: loading, the error, or the tailnet
/// summary with node counts and refresh interval.
pub fn header_status(app: &App) -> (r: String)
    ensures
        r@ == header_status_text(*app),
{
    if app.loading {
        return String::from_str(" Loading...");
    }
    match &app.error {
        Some(e) => {
            let mut s = String::from_str(" Error: ");
            s.append(e.as_str());
            s
        },
        None => {
            let mut s = String::from_str(" Tailnet: ");
            if app.tailnet_name.as_str().unicode_len() == 0 {
                s.append("loading...");
            } else {
                s.append(app.tailnet_name.as_str());
            }
            s.append("    Nodes: ");
            push_decimal(&mut s, app.online_nodes as u64);
            s.append("/");
            push_decimal(&mut s, app.total_nodes as u64);
            s.append(" online    [");
            push_decimal(&mut s, app.refresh_interval_secs);
            s.append("s]");
            s
        },
    }
}

/// What a traffic cell shows: the byte count for an online node, `no wc`
/// for an online node without counters, `-` for an offline one.
pub open spec fn traffic_cell_text(online: bool, bytes: Option<u64>) -> Seq<char> {
    match (online, bytes) {
        (true, Some(b)) => bytes_text(b as nat),
        (true, None) => "no wc"@,
        (false, _) => "-"@,
    }
}

/// The text of a traffic cell (see `traffic_cell_text`).
pub fn traffic_cell(online: bool, bytes: Option<u64>) -> (r: String)
    ensures
        r@ == traffic_cell_text(online, bytes),
{
    match (online, bytes) {
        (true, Some(b)) => format_bytes(b),
        (true, None) => String::from_str("no wc"),
        (false, _) => String::from_str("-"),
    }
}

/// The status mark of a node: a filled circle when online, an empty one
/// when not.
pub open spec fn status_mark(online: bool) -> Seq<char> {
    if online { "\u{25CF}"@ } else { "\u{25CB}"@ }
}

/// The texts of one table row.
pub struct NodeRow {
    pub name: String,
    pub ip: String,
    pub os: String,
    pub tx: String,
    pub rx: String,
    pub status: String,
}

/// The texts of the table row of a node.
pub fn node_row(node: &NodeInfo) -> (r: NodeRow)
    ensures
        r.name@ == node.name@,
        r.ip@ == node.ip@,
        r.os@ == node.os@,
        r.tx@ == traffic_cell_text(node.online, node.tx_bytes),
        r.rx@ == traffic_cell_text(node.online, node.rx_bytes),
        r.status@ == status_mark(node.online),
{
    NodeRow {
        name: node.name.clone(),
        ip: node.ip.clone(),
        os: node.os.clone(),
        tx: traffic_cell(node.online, node.tx_bytes),
        rx: traffic_cell(node.online, node.rx_bytes),
        status: if node.online { String::from_str("\u{25CF}") } else { String::from_str("\u{25CB}") },
    }
}

/// The label of a sort mode in the footer.
pub open spec fn sort_label(mode: SortMode) -> Seq<char> {
    match mode {
        SortMode::Name => "Name"@,
        SortMode::TxDesc => "TX\u{2193}"@,
        SortMode::RxDesc => "RX\u{2193}"@,
    }
}

/// The key that selects a sort mode.
pub open spec fn sort_key(mode: SortMode) -> Seq<char> {
    match mode {
        SortMode::Name => "1"@,
        SortMode::TxDesc => "2"@,
        SortMode::RxDesc => "3"@,
    }
}

/// The key the footer shows for each order selects that order: pressing
/// the one character of `sort_key(m)` orders the table by `m` (`1` by
/// name, `2` by sent bytes, `3` by received bytes), and the three keys
/// differ.
pub proof fn lemma_footer_keys_select_their_order(m: SortMode, other: SortMode)
    ensures
        sort_key(m).len() == 1,
        key_sort_mode(KeyInput::Char(sort_key(m)[0])) == Some(m),
        key_outcome(KeyInput::Char(sort_key(m)[0]), true) == KeyOutcome::Continue,
        m != other ==> sort_key(m) != sort_key(other),
{
    reveal_strlit("1");
    reveal_strlit("2");
    reveal_strlit("3");
    if m != other {
        assert(sort_key(m)[0] != sort_key(other)[0]);
    }
}

/// One sort choice of the footer: its key, its label, and whether it is
/// the current order.
pub struct SortIndicator {
    pub key_text: String,
    pub label_text: String,
    pub active: bool,
}

/// The footer entry of sort mode `mode` when the table is ordered by
/// `current`: `[key]` and the label followed by a space.
pub fn sort_indicator(current: SortMode, mode: SortMode) -> (r: SortIndicator)
    ensures
        r.key_text@ == "["@ + sort_key(mode) + "]"@,
        r.label_text@ == sort_label(mode) + " "@,
        r.active == (current == mode),
{
    let (key, label) = match mode {
        SortMode::Name => ("1", "Name"),
        SortMode::TxDesc => ("2", "TX\u{2193}"),
        SortMode::RxDesc => ("3", "RX\u{2193}"),
    };
    let mut key_text = String::from_str("[");
    key_text.append(key);
    key_text.append("]");
    let mut label_text = String::from_str(label);
    label_text.append(" ");
    SortIndicator { key_text, label_text, active: current == mode }
}

} // verus!
