use vstd::prelude::*;
use vstd::string::*;
use crate::api::{PeerTraffic, texts};
use crate::text::{chars_of, find_char, first_index_of, lemma_first_index_bounds, lemma_first_index_of, starts_with, string_from_range};

verus! {

/// The counter of bytes a node received.
pub const INBOUND_METRIC: &'static str = "tailscaled_inbound_bytes_total";

/// The counter of bytes a node sent.
pub const OUTBOUND_METRIC: &'static str = "tailscaled_outbound_bytes_total";

/// Whitespace as `char::is_whitespace` defines it (the Unicode `White_Space`
/// property).
pub open spec fn is_whitespace(c: char) -> bool {
    ||| 0x09 <= (c as int) <= 0x0D
    ||| c as int == 0x20
    ||| c as int == 0x85
    ||| c as int == 0xA0
    ||| c as int == 0x1680
    ||| 0x2000 <= (c as int) <= 0x200A
    ||| c as int == 0x2028
    ||| c as int == 0x2029
    ||| c as int == 0x202F
    ||| c as int == 0x205F
    ||| c as int == 0x3000
}

/// A line without the `\r` of a `\r\n` ending.
pub open spec fn strip_cr(line: Seq<char>) -> Seq<char> {
    if line.len() > 0 && line.last() == '\r' {
        line.drop_last()
    } else {
        line
    }
}

/// The lines of a text, as `str::lines` gives them: split at `\n`, a `\r`
/// before the `\n` dropped, no empty line after a final `\n`.
pub open spec fn split_lines(s: Seq<char>) -> Seq<Seq<char>>
    decreases s.len(),
{
    if s.len() == 0 {
        seq![]
    } else {
        let i = first_index_of(s, '\n');
        if i >= s.len() {
            seq![s]
        } else {
            seq![strip_cr(s.take(i as int))] + split_lines(s.skip(i as int + 1))
        }
    }
}

/// Where the series name that starts at `i` ends: at the first `{` or
/// whitespace, or at the end of the line.
pub open spec fn name_end(l: Seq<char>, i: int) -> int
    decreases l.len() - i,
{
    if i < 0 || i >= l.len() {
        l.len() as int
    } else if l[i] == '{' || is_whitespace(l[i]) {
        i
    } else {
        name_end(l, i + 1)
    }
}

/// Where a label set ends, reading from `i` (just after its `{`): the
/// position after its closing `}`, or nothing when the line ends first.
/// Label values are quoted, may hold `}` and spaces, and escape a quote
/// with a backslash; `quoted` and `escaped` say where `i` stands.
pub open spec fn labels_end(l: Seq<char>, i: int, quoted: bool, escaped: bool) -> Option<int>
    decreases l.len() - i,
{
    if i < 0 || i >= l.len() {
        None
    } else if escaped {
        labels_end(l, i + 1, quoted, false)
    } else if quoted {
        if l[i] == '\\' {
            labels_end(l, i + 1, true, true)
        } else if l[i] == '"' {
            labels_end(l, i + 1, false, false)
        } else {
            labels_end(l, i + 1, true, false)
        }
    } else if l[i] == '}' {
        Some(i + 1)
    } else if l[i] == '"' {
        labels_end(l, i + 1, true, false)
    } else {
        labels_end(l, i + 1, false, false)
    }
}

/// The first position from `i` on that is not whitespace (or the end).
pub open spec fn space_end(l: Seq<char>, i: int) -> int
    decreases l.len() - i,
{
    if i < 0 || i >= l.len() {
        l.len() as int
    } else if is_whitespace(l[i]) {
        space_end(l, i + 1)
    } else {
        i
    }
}

/// The first position from `i` on that is whitespace (or the end).
pub open spec fn word_end(l: Seq<char>, i: int) -> int
    decreases l.len() - i,
{
    if i < 0 || i >= l.len() {
        l.len() as int
    } else if is_whitespace(l[i]) {
        i
    } else {
        word_end(l, i + 1)
    }
}

/// The value of a Prometheus sample line `name{labels} value [timestamp]`:
/// the first word after the series name and its optional label set. A
/// timestamp after the value is not read; a line whose label set is not
/// closed, or that has no word after it, has no value.
pub open spec fn sample_field(l: Seq<char>) -> Option<Seq<char>> {
    let a = name_end(l, 0);
    let b = if a < l.len() && l[a] == '{' { labels_end(l, a + 1, false, false) } else { Some(a) };
    match b {
        None => None,
        Some(b) => {
            let c = space_end(l, b);
            let d = word_end(l, c);
            if c < d { Some(l.subrange(c, d)) } else { None }
        },
    }
}

/// The value text of a sample line of `metric`: lines that are not comments
/// and start with the metric's name give their sample value.
pub open spec fn sample_value(line: Seq<char>, metric: Seq<char>) -> Option<Seq<char>> {
    if !(line.len() > 0 && line[0] == '#') && starts_with(line, metric) {
        sample_field(line)
    } else {
        None
    }
}

/// The value texts of all sample lines of `metric`, in order.
pub open spec fn samples(lines: Seq<Seq<char>>, metric: Seq<char>) -> Seq<Seq<char>>
    decreases lines.len(),
{
    if lines.len() == 0 {
        seq![]
    } else {
        match sample_value(lines[0], metric) {
            Some(v) => seq![v] + samples(lines.drop_first(), metric),
            None => samples(lines.drop_first(), metric),
        }
    }
}

/// The sum of a list of counters.
pub open spec fn total(values: Seq<u64>) -> nat
    decreases values.len(),
{
    if values.len() == 0 {
        0
    } else {
        total(values.drop_last()) + values.last() as nat
    }
}

/// The value texts of the traffic counters in a Prometheus metrics page.
pub struct CounterSamples {
    /// Values of `tailscaled_inbound_bytes_total` lines, in order.
    pub inbound: Vec<String>,
    /// Values of `tailscaled_outbound_bytes_total` lines, in order.
    pub outbound: Vec<String>,
}

fn is_space(c: char) -> (r: bool)
    ensures
        r == is_whitespace(c),
{
    (c >= '\u{9}' && c <= '\u{D}') || c == ' ' || c == '\u{85}' || c == '\u{A0}' || c == '\u{1680}'
        || (c >= '\u{2000}' && c <= '\u{200A}') || c == '\u{2028}' || c == '\u{2029}'
        || c == '\u{202F}' || c == '\u{205F}' || c == '\u{3000}'
}

/// Whether `cs[a..b]` starts with `prefix`.
fn starts_with_at(cs: &Vec<char>, a: usize, b: usize, prefix: &Vec<char>) -> (r: bool)
    requires
        a <= b <= cs@.len(),
    ensures
        r == starts_with(cs@.subrange(a as int, b as int), prefix@),
{
    let ghost line = cs@.subrange(a as int, b as int);
    if prefix.len() > b - a {
        return false;
    }
    let mut j: usize = 0;
    while j < prefix.len()
        invariant
            a <= b <= cs@.len(),
            line == cs@.subrange(a as int, b as int),
            prefix@.len() <= b - a,
            j <= prefix@.len(),
            forall|m: int| 0 <= m < j ==> line[m] == prefix@[m],
        decreases prefix@.len() - j,
    {
        if cs[a + j] != prefix[j] {
            assert(line.take(prefix@.len() as int)[j as int] != prefix@[j as int]);
            return false;
        }
        j = j + 1;
    }
    assert(line.take(prefix@.len() as int) =~= prefix@);
    true
}

/// Where the label set of `cs[a..b]` that starts before `start` closes
/// (see `labels_end`), as a position in `cs`.
fn labels_close(cs: &Vec<char>, a: usize, b: usize, start: usize) -> (r: Option<usize>)
    requires
        a <= start <= b <= cs@.len(),
    ensures
        match r {
            None => labels_end(cs@.subrange(a as int, b as int), start - a, false, false) is None,
            Some(e) => start < e <= b
                && labels_end(cs@.subrange(a as int, b as int), start - a, false, false) == Some(e - a),
        },
{
    let ghost l = cs@.subrange(a as int, b as int);
    let mut k = start;
    let mut quoted = false;
    let mut escaped = false;
    while k < b
        invariant
            a <= start <= k <= b <= cs@.len(),
            l == cs@.subrange(a as int, b as int),
            labels_end(l, k - a, quoted, escaped) == labels_end(l, start - a, false, false),
        decreases b - k,
    {
        let c = cs[k];
        assert(l[k - a] == c);
        if escaped {
            escaped = false;
        } else if quoted {
            if c == '\\' {
                escaped = true;
            } else if c == '"' {
                quoted = false;
            }
        } else if c == '}' {
            return Some(k + 1);
        } else if c == '"' {
            quoted = true;
        }
        k = k + 1;
    }
    None
}

/// The range of the sample value of `cs[a..b]` (see `sample_field`).
fn sample_field_range(cs: &Vec<char>, a: usize, b: usize) -> (r: Option<(usize, usize)>)
    requires
        a <= b <= cs@.len(),
    ensures
        match r {
            None => sample_field(cs@.subrange(a as int, b as int)) is None,
            Some((w, e)) => a <= w <= e <= b
                && sample_field(cs@.subrange(a as int, b as int)) == Some(cs@.subrange(w as int, e as int)),
        },
{
    let ghost l = cs@.subrange(a as int, b as int);
    let mut j = a;
    while j < b && cs[j] != '{' && !is_space(cs[j])
        invariant
            a <= j <= b <= cs@.len(),
            l == cs@.subrange(a as int, b as int),
            name_end(l, j - a) == name_end(l, 0),
        decreases b - j,
    {
        assert(l[j - a] == cs@[j as int]);
        j = j + 1;
    }
    if j < b {
        assert(l[j - a] == cs@[j as int]);
    }
    assert(name_end(l, 0) == j - a);
    let opens = j < b && cs[j] == '{';
    let start = if opens {
        match labels_close(cs, a, b, j + 1) {
            Some(e) => e,
            None => {
                return None;
            },
        }
    } else {
        j
    };
    let mut c = start;
    while c < b && is_space(cs[c])
        invariant
            a <= start <= c <= b <= cs@.len(),
            l == cs@.subrange(a as int, b as int),
            space_end(l, c - a) == space_end(l, start - a),
        decreases b - c,
    {
        assert(l[c - a] == cs@[c as int]);
        c = c + 1;
    }
    if c < b {
        assert(l[c - a] == cs@[c as int]);
    }
    assert(space_end(l, start - a) == c - a);
    let mut d = c;
    while d < b && !is_space(cs[d])
        invariant
            a <= c <= d <= b <= cs@.len(),
            l == cs@.subrange(a as int, b as int),
            word_end(l, d - a) == word_end(l, c - a),
        decreases b - d,
    {
        assert(l[d - a] == cs@[d as int]);
        d = d + 1;
    }
    if d < b {
        assert(l[d - a] == cs@[d as int]);
    }
    assert(word_end(l, c - a) == d - a);
    if c < d {
        assert(l.subrange(c - a, d - a) =~= cs@.subrange(c as int, d as int));
        Some((c, d))
    } else {
        None
    }
}

proof fn lemma_samples_cons(line: Seq<char>, rest: Seq<Seq<char>>, metric: Seq<char>)
    ensures
        samples(seq![line] + rest, metric) == match sample_value(line, metric) {
            Some(v) => seq![v] + samples(rest, metric),
            None => samples(rest, metric),
        },
{
    let all = seq![line] + rest;
    assert(all[0] == line);
    assert(all.drop_first() == rest);
}

/// Scans a Prometheus metrics page for the traffic counters: the sample
/// value of every `tailscaled_inbound_bytes_total` and
/// `tailscaled_outbound_bytes_total` line (the word after the series name
/// and its label set; a trailing timestamp is not read), comment lines
/// (`#`) skipped.
pub fn scan_prometheus_counters(body: &str) -> (r: CounterSamples)
    ensures
        texts(r.inbound@) == samples(split_lines(body@), INBOUND_METRIC@),
        texts(r.outbound@) == samples(split_lines(body@), OUTBOUND_METRIC@),
{
    let cs = chars_of(body);
    let inb = chars_of(INBOUND_METRIC);
    let outb = chars_of(OUTBOUND_METRIC);
    let ghost lines = split_lines(cs@);
    let mut inbound: Vec<String> = Vec::new();
    let mut outbound: Vec<String> = Vec::new();
    let mut pos: usize = 0;
    assert(cs@.skip(0) == cs@);
    while pos < cs.len()
        invariant
            cs@ == body@,
            inb@ == INBOUND_METRIC@,
            outb@ == OUTBOUND_METRIC@,
            pos <= cs@.len(),
            samples(split_lines(cs@), inb@) == texts(inbound@) + samples(split_lines(cs@.skip(pos as int)), inb@),
            samples(split_lines(cs@), outb@) == texts(outbound@) + samples(split_lines(cs@.skip(pos as int)), outb@),
        decreases cs@.len() - pos,
    {
        let ghost rest = cs@.skip(pos as int);
        let nl = find_char(&cs, pos, '\n');
        let mut end = nl;
        if nl < cs.len() && end > pos && cs[end - 1] == '\r' {
            end = end - 1;
        }
        let ghost line = cs@.subrange(pos as int, end as int);
        let ghost rest_after = if nl < cs.len() { cs@.skip(nl + 1) } else { Seq::<char>::empty() };
        proof {
            if nl < cs@.len() {
                assert(rest.take(nl - pos) =~= cs@.subrange(pos as int, nl as int));
                assert(rest.skip(nl - pos + 1) =~= cs@.skip(nl + 1));
                assert(strip_cr(rest.take(nl - pos)) =~= line);
                assert(split_lines(rest) == seq![line] + split_lines(rest_after));
            } else {
                assert(rest =~= line);
                assert(split_lines(rest) == seq![line]);
                assert(seq![line] + split_lines(rest_after) =~= seq![line]);
            }
            lemma_samples_cons(line, split_lines(rest_after), inb@);
            lemma_samples_cons(line, split_lines(rest_after), outb@);
        }
        let ghost old_in = texts(inbound@);
        let ghost old_out = texts(outbound@);
        let comment = end > pos && cs[pos] == '#';
        if !comment {
            if starts_with_at(&cs, pos, end, &inb) {
                match sample_field_range(&cs, pos, end) {
                    Some((w, e)) => {
                        inbound.push(string_from_range(&cs, w, e));
                    },
                    None => {},
                }
            }
            if starts_with_at(&cs, pos, end, &outb) {
                match sample_field_range(&cs, pos, end) {
                    Some((w, e)) => {
                        outbound.push(string_from_range(&cs, w, e));
                    },
                    None => {},
                }
            }
        }
        proof {
            assert(comment == (line.len() > 0 && line[0] == '#'));
            match sample_value(line, inb@) {
                Some(v) => {
                    assert(texts(inbound@) =~= old_in.push(v));
                    assert(old_in + (seq![v] + samples(split_lines(rest_after), inb@))
                        =~= texts(inbound@) + samples(split_lines(rest_after), inb@));
                },
                None => {
                    assert(texts(inbound@) =~= old_in);
                },
            }
            match sample_value(line, outb@) {
                Some(v) => {
                    assert(texts(outbound@) =~= old_out.push(v));
                    assert(old_out + (seq![v] + samples(split_lines(rest_after), outb@))
                        =~= texts(outbound@) + samples(split_lines(rest_after), outb@));
                },
                None => {
                    assert(texts(outbound@) =~= old_out);
                },
            }
        }
        if nl < cs.len() {
            pos = nl + 1;
        } else {
            pos = cs.len();
            assert(cs@.skip(pos as int) =~= Seq::<char>::empty());
        }
    }
    proof {
        assert(cs@.skip(pos as int) =~= Seq::<char>::empty());
        assert(texts(inbound@) + seq![] =~= texts(inbound@));
        assert(texts(outbound@) + seq![] =~= texts(outbound@));
    }
    CounterSamples { inbound, outbound }
}

/// Whether the counters add up to a value that fits in a `u64`.
pub fn counters_fit(values: &Vec<u64>) -> (r: bool)
    ensures
        r == (total(values@) <= u64::MAX),
{
    let mut acc: u128 = 0;
    let mut i: usize = 0;
    while i < values.len()
        invariant
            i <= values@.len(),
            acc == total(values@.take(i as int)),
            acc <= i * 0xFFFF_FFFF_FFFF_FFFFu128,
        decreases values@.len() - i,
    {
        assert(values@.take(i + 1).drop_last() == values@.take(i as int));
        proof {
            assert(acc + values@[i as int] <= (i + 1) * 0xFFFF_FFFF_FFFF_FFFFu128) by (nonlinear_arith)
                requires acc <= i * 0xFFFF_FFFF_FFFF_FFFFu128, values@[i as int] <= 0xFFFF_FFFF_FFFF_FFFFu64;
            assert((i + 1) * 0xFFFF_FFFF_FFFF_FFFFu128 <= 0x1_0000_0000_0000_0000 * 0xFFFF_FFFF_FFFF_FFFFu128) by (nonlinear_arith)
                requires i < 0x1_0000_0000_0000_0000int;
        }
        acc = acc + values[i] as u128;
        i = i + 1;
    }
    assert(values@.take(i as int) == values@);
    acc <= u64::MAX as u128
}

/// The sum of counters whose total fits in a `u64`.
fn sum_counters(values: &Vec<u64>) -> (r: u64)
    requires
        total(values@) <= u64::MAX,
    ensures
        r == total(values@),
{
    let mut acc: u64 = 0;
    let mut i: usize = 0;
    while i < values.len()
        invariant
            i <= values@.len(),
            acc == total(values@.take(i as int)),
            total(values@) <= u64::MAX,
        decreases values@.len() - i,
    {
        assert(values@.take(i + 1).drop_last() == values@.take(i as int));
        proof {
            lemma_total_prefix(values@, i + 1);
        }
        acc = acc + values[i];
        i = i + 1;
    }
    assert(values@.take(i as int) == values@);
    acc
}

/// A prefix of counters sums to no more than all of them.
proof fn lemma_total_prefix(values: Seq<u64>, k: int)
    requires
        0 <= k <= values.len(),
    ensures
        total(values.take(k)) <= total(values),
    decreases values.len(),
{
    if k < values.len() {
        assert(values.drop_last().take(k) == values.take(k));
        lemma_total_prefix(values.drop_last(), k);
    } else {
        assert(values.take(k) == values);
    }
}

/// The traffic of a node from its counter values: received bytes are the
/// sum of the inbound counters, sent bytes the sum of the outbound ones.
pub fn traffic_from_counters(inbound: &Vec<u64>, outbound: &Vec<u64>) -> (r: PeerTraffic)
    requires
        total(inbound@) <= u64::MAX,
        total(outbound@) <= u64::MAX,
    ensures
        r.rx_bytes == total(inbound@),
        r.tx_bytes == total(outbound@),
{
    PeerTraffic { tx_bytes: sum_counters(outbound), rx_bytes: sum_counters(inbound) }
}

/// The address of a node's metrics page.
pub fn metrics_url(ip: &str) -> (r: String)
    ensures
        r@ == "http://"@ + ip@ + ":5252/metrics"@,
{
    let mut r = String::from_str("http://");
    r.append(ip);
    r.append(":5252/metrics");
    r
}

} // verus!

verus! {

proof fn lemma_name_end_cr(s: Seq<char>, i: int)
    requires
        0 <= i <= s.len(),
    ensures
        i <= name_end(s, i) <= s.len(),
        name_end(s.push('\r'), i) == name_end(s, i),
    decreases s.len() - i,
{
    if i < s.len() {
        assert(s.push('\r')[i] == s[i]);
        lemma_name_end_cr(s, i + 1);
    } else {
        assert(s.push('\r')[i] == '\r');
    }
}

proof fn lemma_word_end_cr(s: Seq<char>, i: int)
    requires
        0 <= i <= s.len(),
    ensures
        i <= word_end(s, i) <= s.len(),
        word_end(s.push('\r'), i) == word_end(s, i),
    decreases s.len() - i,
{
    if i < s.len() {
        assert(s.push('\r')[i] == s[i]);
        lemma_word_end_cr(s, i + 1);
    } else {
        assert(s.push('\r')[i] == '\r');
    }
}

proof fn lemma_space_end_cr(s: Seq<char>, i: int)
    requires
        0 <= i <= s.len(),
    ensures
        i <= space_end(s, i) <= s.len(),
        space_end(s.push('\r'), i)
            == if space_end(s, i) < s.len() { space_end(s, i) } else { s.len() + 1int },
    decreases s.len() - i,
{
    if i < s.len() {
        assert(s.push('\r')[i] == s[i]);
        lemma_space_end_cr(s, i + 1);
    } else {
        assert(s.push('\r')[i] == '\r');
        assert(is_whitespace('\r'));
        assert(space_end(s.push('\r'), i + 1) == s.len() + 1);
    }
}

proof fn lemma_labels_end_cr(s: Seq<char>, i: int, quoted: bool, escaped: bool)
    requires
        0 <= i <= s.len(),
    ensures
        labels_end(s.push('\r'), i, quoted, escaped) == labels_end(s, i, quoted, escaped),
        labels_end(s, i, quoted, escaped) matches Some(e) ==> i < e <= s.len(),
    decreases s.len() - i,
{
    let l = s.push('\r');
    if i < s.len() {
        assert(l[i] == s[i]);
        lemma_labels_end_cr(s, i + 1, true, true);
        lemma_labels_end_cr(s, i + 1, true, false);
        lemma_labels_end_cr(s, i + 1, false, false);
        lemma_labels_end_cr(s, i + 1, quoted, false);
    } else {
        assert(l[i] == '\r');
        assert(labels_end(l, i + 1, quoted, false) is None);
        assert(labels_end(l, i + 1, true, false) is None);
        assert(labels_end(l, i + 1, false, false) is None);
    }
}

/// The sample value of a line does not change when a `\r` is appended.
proof fn lemma_sample_field_cr(s: Seq<char>)
    ensures
        sample_field(s.push('\r')) == sample_field(s),
{
    let l = s.push('\r');
    lemma_name_end_cr(s, 0);
    let a = name_end(s, 0);
    if a < s.len() {
        assert(l[a] == s[a]);
        lemma_labels_end_cr(s, a + 1, false, false);
    } else {
        assert(l[a] == '\r');
    }
    let b = if a < s.len() && s[a] == '{' { labels_end(s, a + 1, false, false) } else { Some(a) };
    match b {
        None => {},
        Some(b) => {
            lemma_space_end_cr(s, b);
            let c = space_end(s, b);
            if c < s.len() {
                lemma_word_end_cr(s, c);
                let d = word_end(s, c);
                assert(l.subrange(c, d) =~= s.subrange(c, d));
            } else {
                assert(word_end(l, s.len() + 1int) == s.len() + 1int);
            }
        },
    }
}

/// A line reads the same with or without the `\r` of a `\r\n` ending, for
/// a metric whose name does not end in `\r`.
proof fn lemma_sample_strip_cr(line: Seq<char>, metric: Seq<char>)
    requires
        metric.len() > 0,
        metric.last() != '\r',
    ensures
        sample_value(strip_cr(line), metric) == sample_value(line, metric),
{
    if line.len() > 0 && line.last() == '\r' {
        let s = line.drop_last();
        let n = metric.len() as int;
        assert(s.push('\r') =~= line);
        if starts_with(line, metric) {
            if n == line.len() {
                assert(line.take(n)[n - 1] == line.last());
            }
            assert(s.take(n) =~= line.take(n));
        }
        if starts_with(s, metric) {
            assert(s.take(n) =~= line.take(n));
        }
        if starts_with(line, metric) {
            assert(s[0] == line[0]);
        }
        lemma_sample_field_cr(s);
    }
}

proof fn lemma_samples_append(l1: Seq<Seq<char>>, l2: Seq<Seq<char>>, metric: Seq<char>)
    ensures
        samples(l1 + l2, metric) == samples(l1, metric) + samples(l2, metric),
    decreases l1.len(),
{
    if l1.len() == 0 {
        assert(l1 + l2 =~= l2);
    } else {
        lemma_samples_append(l1.drop_first(), l2, metric);
        assert((l1 + l2).drop_first() =~= l1.drop_first() + l2);
        assert((l1 + l2)[0] == l1[0]);
        match sample_value(l1[0], metric) {
            Some(v) => {
                assert(seq![v] + samples(l1.drop_first(), metric) + samples(l2, metric)
                    =~= seq![v] + (samples(l1.drop_first(), metric) + samples(l2, metric)));
            },
            None => {},
        }
    }
}

proof fn lemma_samples_join(a: Seq<char>, b: Seq<char>, metric: Seq<char>)
    requires
        metric.len() > 0,
        metric.last() != '\r',
    ensures
        samples(split_lines(a + seq!['\n'] + b), metric)
            == samples(split_lines(a), metric) + samples(split_lines(b), metric),
    decreases a.len(),
{
    let s = a + seq!['\n'] + b;
    let i = first_index_of(a, '\n');
    lemma_first_index_bounds(a, '\n');
    if i < a.len() {
        lemma_first_index_of(s, '\n', i as int);
        let rest = a.skip(i as int + 1);
        assert(s.take(i as int) =~= a.take(i as int));
        assert(s.skip(i as int + 1) =~= rest + seq!['\n'] + b);
        let head = strip_cr(a.take(i as int));
        assert(split_lines(s) == seq![head] + split_lines(rest + seq!['\n'] + b));
        assert(split_lines(a) == seq![head] + split_lines(rest));
        lemma_samples_join(rest, b, metric);
        lemma_samples_append(seq![head], split_lines(rest + seq!['\n'] + b), metric);
        lemma_samples_append(seq![head], split_lines(rest), metric);
        assert(samples(seq![head], metric) + samples(split_lines(rest), metric) + samples(split_lines(b), metric)
            =~= samples(seq![head], metric) + (samples(split_lines(rest), metric) + samples(split_lines(b), metric)));
    } else {
        lemma_first_index_of(s, '\n', a.len() as int);
        assert(s.take(a.len() as int) =~= a);
        assert(s.skip(a.len() as int + 1) =~= b);
        assert(split_lines(s) == seq![strip_cr(a)] + split_lines(b));
        lemma_samples_append(seq![strip_cr(a)], split_lines(b), metric);
        lemma_sample_strip_cr(a, metric);
        lemma_samples_cons(strip_cr(a), Seq::empty(), metric);
        assert(seq![strip_cr(a)] + Seq::<Seq<char>>::empty() =~= seq![strip_cr(a)]);
        if a.len() == 0 {
            assert(split_lines(a) == Seq::<Seq<char>>::empty());
            assert(!starts_with(a, metric));
            assert(samples(split_lines(a), metric) + samples(split_lines(b), metric)
                =~= samples(split_lines(b), metric));
        } else {
            assert(split_lines(a) == seq![a]);
            lemma_samples_cons(a, Seq::empty(), metric);
            assert(seq![a] + Seq::<Seq<char>>::empty() =~= seq![a]);
        }
    }
}

/// Two metrics pages joined by a newline hold the counter samples of the
/// first followed by those of the second, for both traffic counters; an
/// empty page holds none. So the traffic read from the joined page is the
/// sum of the traffic read from each (see `lemma_total_concat`).
pub proof fn lemma_scan_join(a: Seq<char>, b: Seq<char>)
    ensures
        samples(split_lines(a + "\n"@ + b), INBOUND_METRIC@)
            == samples(split_lines(a), INBOUND_METRIC@) + samples(split_lines(b), INBOUND_METRIC@),
        samples(split_lines(a + "\n"@ + b), OUTBOUND_METRIC@)
            == samples(split_lines(a), OUTBOUND_METRIC@) + samples(split_lines(b), OUTBOUND_METRIC@),
        samples(split_lines(Seq::<char>::empty()), INBOUND_METRIC@) == Seq::<Seq<char>>::empty(),
        samples(split_lines(Seq::<char>::empty()), OUTBOUND_METRIC@) == Seq::<Seq<char>>::empty(),
{
    reveal_strlit("\n");
    reveal_strlit("tailscaled_inbound_bytes_total");
    reveal_strlit("tailscaled_outbound_bytes_total");
    assert("\n"@ =~= seq!['\n']);
    lemma_samples_join(a, b, INBOUND_METRIC@);
    lemma_samples_join(a, b, OUTBOUND_METRIC@);
}

/// The sum of two lists of counters, one after the other, is the sum of
/// their sums.
pub proof fn lemma_total_concat(x: Seq<u64>, y: Seq<u64>)
    ensures
        total(x + y) == total(x) + total(y),
    decreases y.len(),
{
    if y.len() == 0 {
        assert(x + y =~= x);
    } else {
        lemma_total_concat(x, y.drop_last());
        assert((x + y).drop_last() =~= x + y.drop_last());
        assert((x + y).last() == y.last());
    }
}

} // verus!
