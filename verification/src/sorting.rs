use vstd::prelude::*;
use crate::api::texts;
use crate::text::{lex_less, lemma_lex_order, lemma_prefix_sorts_first, lowercase, to_lowercase, chars_of, chars_less};

verus! {

/// How the node table is ordered.
#[derive(Debug, Clone, Copy, PartialEq, Eq, Structural)]
pub enum SortMode {
    /// By name, case-insensitively, ascending.
    Name,
    /// By bytes sent, largest first.
    TxDesc,
    /// By bytes received, largest first.
    RxDesc,
}

/// One row of the node table.
#[derive(Debug, Clone)]
pub struct NodeInfo {
    pub name: String,
    pub ip: String,
    pub os: String,
    pub online: bool,
    pub has_webclient: bool,
    pub tx_bytes: Option<u64>,
    pub rx_bytes: Option<u64>,
}

/// A traffic counter, with a missing one counted as zero.
pub open spec fn traffic_or_zero(b: Option<u64>) -> nat {
    match b {
        Some(x) => x as nat,
        None => 0,
    }
}

/// With sort keys `ka` and `kb` for the name order, node `a` goes strictly
/// before node `b` in the order of `mode`: by key for `Name`, by counter
/// (largest first) for the traffic orders.
pub open spec fn key_before(mode: SortMode, ka: Seq<char>, kb: Seq<char>, a: NodeInfo, b: NodeInfo) -> bool {
    match mode {
        SortMode::Name => lex_less(ka, kb),
        SortMode::TxDesc => traffic_or_zero(a.tx_bytes) > traffic_or_zero(b.tx_bytes),
        SortMode::RxDesc => traffic_or_zero(a.rx_bytes) > traffic_or_zero(b.rx_bytes),
    }
}

/// Node `a` goes strictly before node `b` in the order of `mode`, names
/// compared lowercased.
pub open spec fn node_before(mode: SortMode, a: NodeInfo, b: NodeInfo) -> bool {
    key_before(mode, lowercase(a.name@), lowercase(b.name@), a, b)
}

/// The lowercased names of the nodes: their keys in the name order.
pub open spec fn name_keys(s: Seq<NodeInfo>) -> Seq<Seq<char>> {
    s.map_values(|n: NodeInfo| lowercase(n.name@))
}

/// In a stable sort of `s` with sort keys `keys`, the element at index `i`
/// comes before the one at index `j`: it sorts strictly before it, or the
/// two tie and `i < j`.
pub open spec fn keyed_precedes(mode: SortMode, s: Seq<NodeInfo>, keys: Seq<Seq<char>>, i: int, j: int) -> bool {
    key_before(mode, keys[i], keys[j], s[i], s[j]) || (!key_before(mode, keys[j], keys[i], s[j], s[i]) && i < j)
}

/// `keyed_precedes` with the lowercased names as keys.
pub open spec fn precedes(mode: SortMode, s: Seq<NodeInfo>, i: int, j: int) -> bool {
    keyed_precedes(mode, s, name_keys(s), i, j)
}

/// `p` lists each index of `0..n` exactly once.
pub open spec fn is_index_permutation(p: Seq<int>, n: nat) -> bool {
    &&& p.len() == n
    &&& forall|k: int| 0 <= k < n ==> 0 <= #[trigger] p[k] < n
    &&& forall|k: int, l: int| 0 <= k < n && 0 <= l < n && k != l ==> p[k] != p[l]
    &&& forall|j: int| 0 <= j < n ==> #[trigger] p.contains(j)
}

/// `r` is `s` reordered by the index permutation `p`, in stable sorted
/// order for the sort keys `keys`.
pub open spec fn keyed_sorted_by_permutation(
    r: Seq<NodeInfo>,
    s: Seq<NodeInfo>,
    keys: Seq<Seq<char>>,
    mode: SortMode,
    p: Seq<int>,
) -> bool {
    &&& is_index_permutation(p, s.len())
    &&& r.len() == s.len()
    &&& forall|k: int| 0 <= k < r.len() ==> r[k] == s[#[trigger] p[k]]
    &&& forall|k: int, l: int| 0 <= k < l < r.len() ==> keyed_precedes(mode, s, keys, #[trigger] p[k], #[trigger] p[l])
}

/// `keyed_sorted_by_permutation` with the lowercased names as keys.
pub open spec fn sorted_by_permutation(r: Seq<NodeInfo>, s: Seq<NodeInfo>, mode: SortMode, p: Seq<int>) -> bool {
    keyed_sorted_by_permutation(r, s, name_keys(s), mode, p)
}

/// `r` is what a stable sort of `s` by `mode` gives when `keys[i]` is the
/// name key of `s[i]`: the same nodes, ordered by the key of `mode`, nodes
/// with equal keys in their order in `s`.
pub open spec fn is_keyed_stable_sort(r: Seq<NodeInfo>, s: Seq<NodeInfo>, keys: Seq<Seq<char>>, mode: SortMode) -> bool {
    exists|p: Seq<int>| keyed_sorted_by_permutation(r, s, keys, mode, p)
}

/// `r` is what a stable sort of `s` by `mode` gives, names compared
/// lowercased: the same nodes, ordered by the key of `mode`, nodes with
/// equal keys in their order in `s`.
pub open spec fn is_stable_sort(r: Seq<NodeInfo>, s: Seq<NodeInfo>, mode: SortMode) -> bool {
    is_keyed_stable_sort(r, s, name_keys(s), mode)
}

/// `key_before` is a strict weak order: irreflexive, transitive, and
/// with transitive ties.
pub proof fn lemma_key_before_order(
    mode: SortMode,
    ka: Seq<char>,
    kb: Seq<char>,
    kc: Seq<char>,
    a: NodeInfo,
    b: NodeInfo,
    c: NodeInfo,
)
    ensures
        !key_before(mode, ka, ka, a, a),
        key_before(mode, ka, kb, a, b) ==> !key_before(mode, kb, ka, b, a),
        key_before(mode, ka, kb, a, b) && key_before(mode, kb, kc, b, c) ==> key_before(mode, ka, kc, a, c),
        key_before(mode, ka, kb, a, b) ==> key_before(mode, ka, kc, a, c) || key_before(mode, kc, kb, c, b),
{
    match mode {
        SortMode::Name => {
            lemma_lex_order(ka, kb, kc);
            lemma_lex_order(ka, kc, kb);
            lemma_lex_order(kc, kb, ka);
            lemma_lex_order(kb, kc, ka);
            lemma_lex_order(kc, ka, kb);
            lemma_lex_order(kb, ka, kc);
        },
        _ => {},
    }
}

/// `node_before` is a strict weak order: irreflexive, transitive, and
/// with transitive ties.
pub proof fn lemma_node_before_order(mode: SortMode, a: NodeInfo, b: NodeInfo, c: NodeInfo)
    ensures
        !node_before(mode, a, a),
        node_before(mode, a, b) ==> !node_before(mode, b, a),
        node_before(mode, a, b) && node_before(mode, b, c) ==> node_before(mode, a, c),
        node_before(mode, a, b) ==> node_before(mode, a, c) || node_before(mode, c, b),
{
    lemma_key_before_order(mode, lowercase(a.name@), lowercase(b.name@), lowercase(c.name@), a, b, c);
}

/// `keyed_precedes` is transitive.
proof fn lemma_keyed_precedes_transitive(mode: SortMode, s: Seq<NodeInfo>, keys: Seq<Seq<char>>, i: int, j: int, k: int)
    requires
        keyed_precedes(mode, s, keys, i, j),
        keyed_precedes(mode, s, keys, j, k),
    ensures
        keyed_precedes(mode, s, keys, i, k),
{
    lemma_key_before_order(mode, keys[i], keys[j], keys[k], s[i], s[j], s[k]);
    lemma_key_before_order(mode, keys[j], keys[k], keys[i], s[j], s[k], s[i]);
    lemma_key_before_order(mode, keys[k], keys[i], keys[j], s[k], s[i], s[j]);
    lemma_key_before_order(mode, keys[i], keys[k], keys[j], s[i], s[k], s[j]);
    lemma_key_before_order(mode, keys[k], keys[j], keys[i], s[k], s[j], s[i]);
    lemma_key_before_order(mode, keys[j], keys[i], keys[k], s[j], s[i], s[k]);
}

fn traffic_value(b: Option<u64>) -> (v: u64)
    ensures
        v == traffic_or_zero(b),
{
    match b {
        Some(x) => x,
        None => 0,
    }
}

/// The views of a list of character vectors.
pub open spec fn char_views(keys: Seq<Vec<char>>) -> Seq<Seq<char>> {
    keys.map_values(|k: Vec<char>| k@)
}

/// Whether node `i` goes strictly before node `j`, with sort keys `keys`.
fn index_before(mode: SortMode, nodes: &Vec<NodeInfo>, keys: &Vec<Vec<char>>, i: usize, j: usize) -> (r: bool)
    requires
        i < nodes@.len(),
        j < nodes@.len(),
        keys@.len() == nodes@.len(),
    ensures
        r == key_before(mode, keys@[i as int]@, keys@[j as int]@, nodes@[i as int], nodes@[j as int]),
{
    match mode {
        SortMode::Name => chars_less(&keys[i], &keys[j]),
        SortMode::TxDesc => traffic_value(nodes[i].tx_bytes) > traffic_value(nodes[j].tx_bytes),
        SortMode::RxDesc => traffic_value(nodes[i].rx_bytes) > traffic_value(nodes[j].rx_bytes),
    }
}

fn lowercase_names(nodes: &Vec<NodeInfo>) -> (keys: Vec<String>)
    ensures
        keys@.len() == nodes@.len(),
        texts(keys@) == name_keys(nodes@),
{
    let mut keys: Vec<String> = Vec::new();
    let mut i: usize = 0;
    while i < nodes.len()
        invariant
            i <= nodes@.len(),
            keys@.len() == i,
            forall|k: int| 0 <= k < i ==> (#[trigger] keys@[k])@ == lowercase(nodes@[k].name@),
        decreases nodes@.len() - i,
    {
        keys.push(to_lowercase(nodes[i].name.as_str()));
        i = i + 1;
    }
    assert(texts(keys@) =~= name_keys(nodes@));
    keys
}

fn key_chars(keys: &Vec<String>) -> (r: Vec<Vec<char>>)
    ensures
        r@.len() == keys@.len(),
        char_views(r@) == texts(keys@),
{
    let mut r: Vec<Vec<char>> = Vec::new();
    let mut i: usize = 0;
    while i < keys.len()
        invariant
            i <= keys@.len(),
            r@.len() == i,
            forall|k: int| 0 <= k < i ==> (#[trigger] r@[k])@ == keys@[k]@,
        decreases keys@.len() - i,
    {
        r.push(chars_of(keys[i].as_str()));
        i = i + 1;
    }
    assert(char_views(r@) =~= texts(keys@));
    r
}

/// The indices of `nodes` in stable sorted order, with sort keys `keys`.
fn stable_order(nodes: &Vec<NodeInfo>, keys: &Vec<Vec<char>>, mode: SortMode) -> (order: Vec<usize>)
    requires
        keys@.len() == nodes@.len(),
    ensures
        is_index_permutation(order@.map_values(|x: usize| x as int), nodes@.len()),
        forall|k: int, l: int| 0 <= k < l < order@.len() ==>
            keyed_precedes(mode, nodes@, char_views(keys@), #[trigger] order@[k] as int, #[trigger] order@[l] as int),
{
    let ghost kv = char_views(keys@);
    let n = nodes.len();
    let mut order: Vec<usize> = Vec::new();
    let mut i: usize = 0;
    while i < n
        invariant
            n == nodes@.len(),
            keys@.len() == nodes@.len(),
            kv == char_views(keys@),
            i <= n,
            order@.len() == i,
            forall|k: int| 0 <= k < i ==> #[trigger] order@[k] < i,
            forall|k: int, l: int| 0 <= k < i && 0 <= l < i && k != l ==> order@[k] != order@[l],
            forall|j: usize| j < i ==> #[trigger] order@.contains(j),
            forall|k: int, l: int| 0 <= k < l < i ==>
                keyed_precedes(mode, nodes@, kv, #[trigger] order@[k] as int, #[trigger] order@[l] as int),
        decreases n - i,
    {
        let mut pos: usize = i;
        while pos > 0 && index_before(mode, nodes, keys, i, order[pos - 1])
            invariant
                i < n == nodes@.len(),
                keys@.len() == nodes@.len(),
                kv == char_views(keys@),
                order@.len() == i,
                forall|k: int| 0 <= k < i ==> #[trigger] order@[k] < i,
                pos <= i,
                forall|m: int| pos <= m < i ==> key_before(mode, kv[i as int], kv[order@[m] as int],
                    nodes@[i as int], nodes@[#[trigger] order@[m] as int]),
            decreases pos,
        {
            pos = pos - 1;
        }
        let ghost old_order = order@;
        order.insert(pos, i);
        proof {
            assert(order@ == old_order.insert(pos as int, i));
            assert forall|k: int, l: int| 0 <= k < l < i + 1 implies
                keyed_precedes(mode, nodes@, kv, #[trigger] order@[k] as int, #[trigger] order@[l] as int) by {
                if l < pos {
                    assert(order@[k] == old_order[k] && order@[l] == old_order[l]);
                } else if l == pos {
                    assert(order@[k] == old_order[k]);
                    assert(keyed_precedes(mode, nodes@, kv, old_order[pos - 1] as int, i as int));
                    if k < pos - 1 {
                        assert(keyed_precedes(mode, nodes@, kv, old_order[k] as int, old_order[pos - 1] as int));
                        lemma_keyed_precedes_transitive(mode, nodes@, kv, old_order[k] as int, old_order[pos - 1] as int, i as int);
                    }
                } else if k == pos {
                    assert(order@[l] == old_order[l - 1]);
                } else if k < pos {
                    assert(order@[k] == old_order[k] && order@[l] == old_order[l - 1]);
                } else {
                    assert(order@[k] == old_order[k - 1] && order@[l] == old_order[l - 1]);
                }
            }
            assert forall|k: int, l: int| 0 <= k < i + 1 && 0 <= l < i + 1 && k != l implies order@[k] != order@[l] by {
                if k < pos {
                } else if k == pos {
                } else {
                }
            }
            assert forall|j: usize| j < i + 1 implies #[trigger] order@.contains(j) by {
                if j < i {
                    assert(old_order.contains(j));
                    let k = choose|k: int| 0 <= k < old_order.len() && old_order[k] == j;
                    if k < pos {
                        assert(order@[k] == j);
                    } else {
                        assert(order@[k + 1] == j);
                    }
                } else {
                    assert(order@[pos as int] == j);
                }
            }
        }
        i = i + 1;
    }
    proof {
        let p = order@.map_values(|x: usize| x as int);
        assert forall|j: int| 0 <= j < n implies #[trigger] p.contains(j) by {
            assert(order@.contains(j as usize));
            let k = choose|k: int| 0 <= k < order@.len() && order@[k] == j as usize;
            assert(p[k] == j);
        }
    }
    order
}

fn copy_node(n: &NodeInfo) -> (r: NodeInfo)
    ensures
        r == *n,
{
    NodeInfo {
        name: n.name.clone(),
        ip: n.ip.clone(),
        os: n.os.clone(),
        online: n.online,
        has_webclient: n.has_webclient,
        tx_bytes: n.tx_bytes,
        rx_bytes: n.rx_bytes,
    }
}

/// The nodes in the order of `mode`, as a stable sort gives them, where
/// `keys[i]` is the key of `nodes[i]` in the name order (its lowercased
/// name).
pub fn sorted_nodes_by_keys(nodes: &Vec<NodeInfo>, keys: &Vec<String>, mode: SortMode) -> (r: Vec<NodeInfo>)
    requires
        keys@.len() == nodes@.len(),
    ensures
        is_keyed_stable_sort(r@, nodes@, texts(keys@), mode),
{
    let ck = key_chars(keys);
    let order = stable_order(nodes, &ck, mode);
    let ghost p = order@.map_values(|x: usize| x as int);
    let mut r: Vec<NodeInfo> = Vec::new();
    let mut k: usize = 0;
    while k < order.len()
        invariant
            p == order@.map_values(|x: usize| x as int),
            is_index_permutation(p, nodes@.len()),
            order@.len() == nodes@.len(),
            k <= order@.len(),
            r@.len() == k,
            forall|m: int| 0 <= m < k ==> r@[m] == nodes@[#[trigger] p[m]],
        decreases order@.len() - k,
    {
        assert(p[k as int] == order@[k as int] as int);
        r.push(copy_node(&nodes[order[k]]));
        k = k + 1;
    }
    proof {
        assert forall|k: int, l: int| 0 <= k < l < r@.len() implies
            keyed_precedes(mode, nodes@, texts(keys@), #[trigger] p[k], #[trigger] p[l]) by {
            assert(p[k] == order@[k] as int && p[l] == order@[l] as int);
        }
        assert(keyed_sorted_by_permutation(r@, nodes@, texts(keys@), mode, p));
    }
    r
}

/// The nodes in the order of `mode`, as a stable sort gives them, names
/// compared lowercased.
pub fn sorted_nodes(nodes: &Vec<NodeInfo>, mode: SortMode) -> (r: Vec<NodeInfo>)
    ensures
        is_stable_sort(r@, nodes@, mode),
{
    let keys = lowercase_names(nodes);
    sorted_nodes_by_keys(nodes, &keys, mode)
}

} // verus!

verus! {

proof fn lemma_keyed_precedes_total(mode: SortMode, s: Seq<NodeInfo>, keys: Seq<Seq<char>>, i: int, j: int)
    requires
        i != j,
    ensures
        keyed_precedes(mode, s, keys, i, j) || keyed_precedes(mode, s, keys, j, i),
        !(keyed_precedes(mode, s, keys, i, j) && keyed_precedes(mode, s, keys, j, i)),
{
    lemma_key_before_order(mode, keys[i], keys[j], keys[i], s[i], s[j], s[i]);
    lemma_key_before_order(mode, keys[j], keys[i], keys[j], s[j], s[i], s[j]);
}

proof fn lemma_same_prefix(
    mode: SortMode,
    s: Seq<NodeInfo>,
    keys: Seq<Seq<char>>,
    p1: Seq<int>,
    p2: Seq<int>,
    k: int,
)
    requires
        is_index_permutation(p1, s.len()),
        is_index_permutation(p2, s.len()),
        forall|a: int, b: int| 0 <= a < b < s.len() ==> keyed_precedes(mode, s, keys, #[trigger] p1[a], #[trigger] p1[b]),
        forall|a: int, b: int| 0 <= a < b < s.len() ==> keyed_precedes(mode, s, keys, #[trigger] p2[a], #[trigger] p2[b]),
        0 <= k <= s.len(),
    ensures
        forall|j: int| 0 <= j < k ==> p1[j] == p2[j],
    decreases k,
{
    if k > 0 {
        let c = k - 1;
        lemma_same_prefix(mode, s, keys, p1, p2, c);
        if p1[c] != p2[c] {
            // p1[c] sits in p2 at some later position m, and p2[c] in p1 at some later position m2
            assert(p2.contains(p1[c]));
            let m = choose|m: int| 0 <= m < p2.len() && p2[m] == p1[c];
            assert(p1.contains(p2[c]));
            let m2 = choose|m: int| 0 <= m < p1.len() && p1[m] == p2[c];
            if m < c {
                assert(p1[m] == p2[m]);
            }
            if m2 < c {
                assert(p2[m2] == p1[m2]);
            }
            assert(m > c);
            assert(m2 > c);
            assert(keyed_precedes(mode, s, keys, p2[c], p2[m]));
            assert(keyed_precedes(mode, s, keys, p1[c], p1[m2]));
            lemma_keyed_precedes_total(mode, s, keys, p1[c], p2[c]);
        }
    }
}

/// A stable sort with given keys has exactly one result: any two sequences
/// that are both stable sorts of `s` by `mode` with keys `keys` are equal.
pub proof fn lemma_keyed_stable_sort_unique(
    s: Seq<NodeInfo>,
    keys: Seq<Seq<char>>,
    mode: SortMode,
    r1: Seq<NodeInfo>,
    r2: Seq<NodeInfo>,
)
    requires
        is_keyed_stable_sort(r1, s, keys, mode),
        is_keyed_stable_sort(r2, s, keys, mode),
    ensures
        r1 == r2,
{
    let p1 = choose|p: Seq<int>| keyed_sorted_by_permutation(r1, s, keys, mode, p);
    let p2 = choose|p: Seq<int>| keyed_sorted_by_permutation(r2, s, keys, mode, p);
    lemma_same_prefix(mode, s, keys, p1, p2, s.len() as int);
    assert forall|k: int| 0 <= k < r1.len() implies r1[k] == r2[k] by {
        assert(p1[k] == p2[k]);
    }
    assert(r1 =~= r2);
}

/// A stable sort has exactly one result: any two sequences that are both
/// stable sorts of `s` by `mode` are equal.
pub proof fn lemma_stable_sort_unique(s: Seq<NodeInfo>, mode: SortMode, r1: Seq<NodeInfo>, r2: Seq<NodeInfo>)
    requires
        is_stable_sort(r1, s, mode),
        is_stable_sort(r2, s, mode),
    ensures
        r1 == r2,
{
    lemma_keyed_stable_sort_unique(s, name_keys(s), mode, r1, r2);
}

/// Sorting again by the same mode changes nothing: a stable sort of an
/// already sorted sequence is that sequence.
pub proof fn lemma_resort_unchanged(s: Seq<NodeInfo>, mode: SortMode, r: Seq<NodeInfo>, r2: Seq<NodeInfo>)
    requires
        is_stable_sort(r, s, mode),
        is_stable_sort(r2, r, mode),
    ensures
        r2 == r,
{
    let p = choose|p: Seq<int>| keyed_sorted_by_permutation(r, s, name_keys(s), mode, p);
    let id = Seq::new(r.len(), |k: int| k);
    assert forall|k: int, l: int| 0 <= k < l < r.len() implies precedes(mode, r, #[trigger] id[k], #[trigger] id[l]) by {
        assert(precedes(mode, s, p[k], p[l]));
        assert(name_keys(r)[k] == lowercase(r[k].name@));
        assert(name_keys(r)[l] == lowercase(r[l].name@));
        assert(name_keys(s)[p[k]] == lowercase(s[p[k]].name@));
        assert(name_keys(s)[p[l]] == lowercase(s[p[l]].name@));
        lemma_node_before_order(mode, s[p[k]], s[p[l]], s[p[k]]);
    }
    assert forall|j: int| 0 <= j < r.len() implies #[trigger] id.contains(j) by {
        assert(id[j] == j);
    }
    assert(sorted_by_permutation(r, r, mode, id));
    lemma_stable_sort_unique(r, mode, r, r2);
}

} // verus!

verus! {

/// The number of online nodes.
pub open spec fn online_count(nodes: Seq<NodeInfo>) -> nat
    decreases nodes.len(),
{
    if nodes.len() == 0 {
        0
    } else {
        online_count(nodes.drop_last()) + if nodes.last().online { 1nat } else { 0nat }
    }
}

proof fn lemma_online_count_remove(s: Seq<NodeInfo>, j: int)
    requires
        0 <= j < s.len(),
    ensures
        online_count(s) == online_count(s.remove(j)) + if s[j].online { 1nat } else { 0nat },
    decreases s.len(),
{
    if j < s.len() - 1 {
        let t = s.drop_last();
        lemma_online_count_remove(t, j);
        assert(s.remove(j).drop_last() =~= t.remove(j));
        assert(s.remove(j).last() == s.last());
    } else {
        assert(s.remove(j) =~= s.drop_last());
    }
}

/// Reordering nodes by an index permutation keeps the number online.
proof fn lemma_permutation_online_count(r: Seq<NodeInfo>, s: Seq<NodeInfo>, p: Seq<int>)
    requires
        is_index_permutation(p, s.len()),
        r.len() == s.len(),
        forall|k: int| 0 <= k < r.len() ==> r[k] == s[#[trigger] p[k]],
    ensures
        online_count(r) == online_count(s),
    decreases s.len(),
{
    let n = s.len() as int;
    if n > 0 {
        let j = p[n - 1];
        let s2 = s.remove(j);
        let r2 = r.drop_last();
        let p2 = Seq::new((n - 1) as nat, |k: int| if p[k] < j { p[k] } else { p[k] - 1 });
        assert forall|k: int| 0 <= k < n - 1 implies 0 <= #[trigger] p2[k] < n - 1 by {
            assert(p[k] != p[n - 1]);
        }
        assert forall|k: int, l: int| 0 <= k < n - 1 && 0 <= l < n - 1 && k != l implies p2[k] != p2[l] by {
            assert(p[k] != p[n - 1] && p[l] != p[n - 1] && p[k] != p[l]);
        }
        assert forall|t: int| 0 <= t < n - 1 implies #[trigger] p2.contains(t) by {
            let target = if t < j { t } else { t + 1 };
            assert(p.contains(target));
            let k = choose|k: int| 0 <= k < p.len() && p[k] == target;
            assert(k != n - 1);
            assert(p2[k] == t);
        }
        assert forall|k: int| 0 <= k < r2.len() implies r2[k] == s2[#[trigger] p2[k]] by {
            assert(p[k] != p[n - 1]);
            assert(r[k] == s[p[k]]);
        }
        lemma_permutation_online_count(r2, s2, p2);
        lemma_online_count_remove(s, j);
        assert(r.last() == s[j]);
    }
}

/// A stable sort keeps the same number of online nodes.
pub proof fn lemma_sort_keeps_online_count(r: Seq<NodeInfo>, s: Seq<NodeInfo>, mode: SortMode)
    requires
        is_stable_sort(r, s, mode),
    ensures
        online_count(r) == online_count(s),
        r.len() == s.len(),
{
    let p = choose|p: Seq<int>| keyed_sorted_by_permutation(r, s, name_keys(s), mode, p);
    lemma_permutation_online_count(r, s, p);
}

} // verus!

verus! {

/// In the name order a node whose lowercased name is a proper prefix of
/// another's comes first: if the key of `r[l]` is the key of `r[k]`
/// followed by more characters, then `k < l` (so "server" before
/// "server2", "pi" before "PiHole").
pub proof fn lemma_name_order_prefix_first(
    s: Seq<NodeInfo>,
    r: Seq<NodeInfo>,
    k: int,
    l: int,
    more: Seq<char>,
)
    requires
        is_stable_sort(r, s, SortMode::Name),
        0 <= k < r.len(),
        0 <= l < r.len(),
        more.len() > 0,
        lowercase(r[l].name@) == lowercase(r[k].name@) + more,
    ensures
        k < l,
{
    let p = choose|p: Seq<int>| keyed_sorted_by_permutation(r, s, name_keys(s), SortMode::Name, p);
    let keys = name_keys(s);
    let kk = lowercase(r[k].name@);
    lemma_prefix_sorts_first(kk, more);
    assert(r[k] == s[p[k]] && r[l] == s[p[l]]);
    assert(keys[p[k]] == kk);
    assert(keys[p[l]] == kk + more);
    if l < k {
        assert(keyed_precedes(SortMode::Name, s, keys, p[l], p[k]));
        assert(false);
    } else if l == k {
        assert((kk + more).len() == kk.len() + more.len());
    }
}

} // verus!
