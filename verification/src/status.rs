use vstd::prelude::*;
use crate::api::LocalPeerInfo;
use crate::json::{JsonValue, json_get};
use crate::strmap::StrMap;

verus! {

#[verifier::external_type_specification]
#[verifier::external_body]
pub struct ExJsonDocument(serde_json::Value);

/// The document that `serde_json` reads from `bytes`, in the library's
/// form, or nothing when `bytes` are not JSON.
pub uninterp spec fn parsed_json(bytes: Seq<u8>) -> Option<JsonValue>;

/// Parses JSON text.
///
/// Trusted: wraps `serde_json::from_slice::<serde_json::Value>`, whose result
/// depends on the bytes alone and is named `parsed_json`; an error gives
/// `None`. The value is carried over into `JsonValue` variant by variant
/// (numbers by `as_u64`, object members in the map's iteration order).
#[verifier::external_body]
pub(crate) fn parse_json(bytes: &[u8]) -> (r: Option<JsonValue>)
    ensures
        r == parsed_json(bytes@),
{
    serde_json::from_slice::<serde_json::Value>(bytes).ok().map(|v| json_from_value(&v))
}

/// Carries a `serde_json::Value` over into a `JsonValue`, one variant for
/// one.
#[verifier::external_body]
fn json_from_value(v: &serde_json::Value) -> JsonValue {
    match v {
        serde_json::Value::Null => JsonValue::Null,
        serde_json::Value::Bool(b) => JsonValue::Bool(*b),
        serde_json::Value::Number(n) => JsonValue::Number(n.as_u64()),
        serde_json::Value::String(s) => JsonValue::String(s.clone()),
        serde_json::Value::Array(a) => JsonValue::Array(a.iter().map(json_from_value).collect()),
        serde_json::Value::Object(m) => JsonValue::Object(m.iter().map(|(k, x)| (k.clone(), json_from_value(x))).collect()),
    }
}

/// The first Tailscale IP of a status node: the first element of its
/// `TailscaleIPs` array, when that is a non-empty string.
pub open spec fn first_ip(node: JsonValue) -> Option<Seq<char>> {
    match json_get(node, "TailscaleIPs"@) {
        Some(JsonValue::Array(items)) => if items@.len() > 0 {
            match items@[0] {
                JsonValue::String(s) => if s@.len() > 0 { Some(s@) } else { None },
                _ => None,
            }
        } else {
            None
        },
        _ => None,
    }
}

/// A boolean member, `false` when missing or not a boolean.
pub open spec fn flag_member(node: JsonValue, key: Seq<char>) -> bool {
    match json_get(node, key) {
        Some(JsonValue::Bool(b)) => b,
        _ => false,
    }
}

/// A counter member, `0` when missing or not a non-negative integer.
pub open spec fn count_member(node: JsonValue, key: Seq<char>) -> u64 {
    match json_get(node, key) {
        Some(JsonValue::Number(Some(n))) => n,
        _ => 0,
    }
}

/// What the status of a peer records: `Online`, `TxBytes`, `RxBytes`.
pub open spec fn peer_info(peer: JsonValue) -> LocalPeerInfo {
    LocalPeerInfo {
        online: flag_member(peer, "Online"@),
        tx_bytes: count_member(peer, "TxBytes"@),
        rx_bytes: count_member(peer, "RxBytes"@),
    }
}

/// `m` with each peer that has an IP recorded under it, in order (a later
/// peer with the same IP replaces an earlier one).
pub open spec fn with_peers(m: Map<Seq<char>, LocalPeerInfo>, peers: Seq<(String, JsonValue)>) -> Map<Seq<char>, LocalPeerInfo>
    decreases peers.len(),
{
    if peers.len() == 0 {
        m
    } else {
        let next = match first_ip(peers[0].1) {
            Some(ip) => m.insert(ip, peer_info(peers[0].1)),
            None => m,
        };
        with_peers(next, peers.drop_first())
    }
}

/// The self node's entry: online, no traffic.
pub open spec fn self_info() -> LocalPeerInfo {
    LocalPeerInfo { online: true, tx_bytes: 0, rx_bytes: 0 }
}

/// The map from Tailscale IP to local peer info that a status document
/// gives: the self node (always online), then every peer of `Peer`.
pub open spec fn local_status_map(doc: JsonValue) -> Map<Seq<char>, LocalPeerInfo> {
    let base = match json_get(doc, "Self"@) {
        Some(node) => match first_ip(node) {
            Some(ip) => Map::empty().insert(ip, self_info()),
            None => Map::empty(),
        },
        None => Map::empty(),
    };
    match json_get(doc, "Peer"@) {
        Some(JsonValue::Object(peers)) => with_peers(base, peers@),
        _ => base,
    }
}

/// The first Tailscale IP of a status node, if it has one.
pub fn extract_first_ip(node: &JsonValue) -> (r: Option<String>)
    ensures
        match r {
            Some(s) => first_ip(*node) == Some(s@),
            None => first_ip(*node) is None,
        },
{
    match node.get("TailscaleIPs") {
        Some(JsonValue::Array(items)) => {
            if items.len() > 0 {
                match &items[0] {
                    JsonValue::String(s) => {
                        if s.as_str().unicode_len() > 0 {
                            Some(s.clone())
                        } else {
                            None
                        }
                    },
                    _ => None,
                }
            } else {
                None
            }
        },
        _ => None,
    }
}

fn flag_of(node: &JsonValue, key: &str) -> (r: bool)
    ensures
        r == flag_member(*node, key@),
{
    match node.get(key) {
        Some(JsonValue::Bool(b)) => *b,
        _ => false,
    }
}

fn count_of(node: &JsonValue, key: &str) -> (r: u64)
    ensures
        r == count_member(*node, key@),
{
    match node.get(key) {
        Some(JsonValue::Number(Some(n))) => *n,
        _ => 0,
    }
}

/// Reads the output of `tailscale status --json`: online status and tx/rx
/// bytes of each peer, by Tailscale IP. The self node is always online.
pub fn parse_local_status(doc: &JsonValue) -> (r: StrMap<LocalPeerInfo>)
    ensures
        r@ == local_status_map(*doc),
{
    let mut map: StrMap<LocalPeerInfo> = StrMap::new();
    match doc.get("Self") {
        Some(self_node) => {
            match extract_first_ip(self_node) {
                Some(ip) => {
                    map.insert(ip, LocalPeerInfo { online: true, tx_bytes: 0, rx_bytes: 0 });
                },
                None => {},
            }
        },
        None => {},
    }
    let ghost base = map@;
    match doc.get("Peer") {
        Some(JsonValue::Object(peers)) => {
            let ghost all = peers@;
            let mut i: usize = 0;
            assert(all.skip(0) == all);
            while i < peers.len()
                invariant
                    all == peers@,
                    i <= all.len(),
                    with_peers(base, all) == with_peers(map@, all.skip(i as int)),
                decreases all.len() - i,
            {
                let peer = &peers[i].1;
                assert(all.skip(i as int)[0].1 == *peer);
                assert(all.skip(i as int).drop_first() == all.skip(i + 1));
                match extract_first_ip(peer) {
                    Some(ip) => {
                        let info = LocalPeerInfo {
                            online: flag_of(peer, "Online"),
                            tx_bytes: count_of(peer, "TxBytes"),
                            rx_bytes: count_of(peer, "RxBytes"),
                        };
                        map.insert(ip, info);
                    },
                    None => {},
                }
                i = i + 1;
            }
            assert(all.skip(i as int).len() == 0);
        },
        _ => {},
    }
    map
}

/// Reads the output of `tailscale status --json`: the map of
/// `parse_local_status` for the document it holds, or an empty map when it
/// is not JSON.
pub fn local_status_from_output(output: &[u8]) -> (r: StrMap<LocalPeerInfo>)
    ensures
        match parsed_json(output@) {
            Some(doc) => r@ == local_status_map(doc),
            None => r@ == Map::<Seq<char>, LocalPeerInfo>::empty(),
        },
{
    match parse_json(output) {
        Some(doc) => parse_local_status(&doc),
        None => StrMap::new(),
    }
}

/// `with_peers` leaves an entry alone when no peer has its IP.
proof fn lemma_with_peers_keeps(m: Map<Seq<char>, LocalPeerInfo>, peers: Seq<(String, JsonValue)>, ip: Seq<char>)
    requires
        forall|i: int| 0 <= i < peers.len() ==> first_ip((#[trigger] peers[i]).1) != Some(ip),
    ensures
        with_peers(m, peers).contains_key(ip) == m.contains_key(ip),
        m.contains_key(ip) ==> with_peers(m, peers)[ip] == m[ip],
    decreases peers.len(),
{
    if peers.len() > 0 {
        let next = match first_ip(peers[0].1) {
            Some(k) => m.insert(k, peer_info(peers[0].1)),
            None => m,
        };
        assert(first_ip(peers[0].1) != Some(ip));
        assert forall|i: int| 0 <= i < peers.drop_first().len() implies first_ip((#[trigger] peers.drop_first()[i]).1) != Some(ip) by {
            assert(peers.drop_first()[i] == peers[i + 1]);
        }
        lemma_with_peers_keeps(next, peers.drop_first(), ip);
    }
}

/// The self node is always online: when the status names a self node with
/// an IP that no peer shares, that IP maps to an online entry with no
/// traffic.
pub proof fn lemma_self_node_online(doc: JsonValue, self_node: JsonValue, ip: Seq<char>)
    requires
        json_get(doc, "Self"@) == Some(self_node),
        first_ip(self_node) == Some(ip),
        forall|peers: Vec<(String, JsonValue)>, i: int|
            json_get(doc, "Peer"@) == Some(JsonValue::Object(peers)) && 0 <= i < peers@.len()
                ==> first_ip((#[trigger] peers@[i]).1) != Some(ip),
    ensures
        local_status_map(doc).contains_key(ip),
        local_status_map(doc)[ip] == self_info(),
{
    let base = Map::<Seq<char>, LocalPeerInfo>::empty().insert(ip, self_info());
    match json_get(doc, "Peer"@) {
        Some(JsonValue::Object(peers)) => {
            assert forall|i: int| 0 <= i < peers@.len() implies first_ip((#[trigger] peers@[i]).1) != Some(ip) by {}
            lemma_with_peers_keeps(base, peers@, ip);
        },
        _ => {},
    }
}

} // verus!
