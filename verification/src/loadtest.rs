//! The load tester's bookkeeping and input handling: per-worker statistics and their merge,
//! the status code of a response, the target address and the command line.
use std::collections::HashMap;
use vstd::prelude::*;
use vstd::slice::slice_subrange;
use vstd::utf8::{decode_utf8, encode_utf8, valid_utf8};
use crate::server::{header_text, requested_path};
use crate::text::{
    all_ascii, before_first, is_white_space, chars_of, is_ascii_char, is_digit, lemma_before_first_prefix,
    lemma_decimal_digits, lemma_parse_decimal, lemma_runs_concat, lemma_runs_word, runs, separator, decimal, decimal_chars, eq_str, has_prefix, joined, parse_u64,
    parse_unsigned, pieces, position_or_len, starts_with, string_of, token_ranges, trim_end_char,
    trim_end_char_len, utf8_text, ws_tokens,
};

verus! {

broadcast use vstd::std_specs::hash::group_hash_axioms;

/// How often `code` was seen according to `m`.
pub open spec fn count(m: Map<u16, u64>, code: u16) -> int {
    if m.contains_key(code) {
        m[code] as int
    } else {
        0
    }
}

/// The status counts of two maps added up.
pub open spec fn merged_counts(a: Map<u16, u64>, b: Map<u16, u64>) -> Map<u16, u64> {
    Map::new(
        |k: u16| a.contains_key(k) || b.contains_key(k),
        |k: u16| (count(a, k) + count(b, k)) as u64,
    )
}

/// The codes among the first `i` entries of `s`.
pub open spec fn seen_keys(s: Seq<(&u16, &u64)>, i: int) -> Set<u16> {
    Set::new(|k: u16| exists|j: int| 0 <= j < i && *s[j].0 == k)
}

proof fn lemma_merge_complete(
    cur: Map<u16, u64>,
    mine: Map<u16, u64>,
    theirs: Map<u16, u64>,
    s: Seq<(&u16, &u64)>,
    i: int,
)
    requires
        forall|j: int| 0 <= j < s.len() ==> theirs.contains_key(*(#[trigger] s[j]).0),
        forall|k: u16| theirs.contains_key(k) ==> #[trigger] seen_keys(s, s.len() as int).contains(k),
        forall|k: u16| #[trigger] cur.contains_key(k) == (mine.contains_key(k) || seen_keys(s, i).contains(k)),
        forall|k: u16| #[trigger] count(cur, k) == count(mine, k) + (if seen_keys(s, i).contains(k) { count(theirs, k) } else { 0 }),
    ensures
        i == s.len() ==> cur == merged_counts(mine, theirs),
{
    if i == s.len() {
        assert forall|k: u16| seen_keys(s, i).contains(k) == theirs.contains_key(k) by {
            if seen_keys(s, i).contains(k) {
                let j = choose|j: int| 0 <= j < i && *s[j].0 == k;
                assert(theirs.contains_key(*s[j].0));
            }
        }
        let m = merged_counts(mine, theirs);
        assert forall|k: u16| #[trigger] cur.contains_key(k) == m.contains_key(k) by {}
        assert forall|k: u16| cur.contains_key(k) implies #[trigger] cur[k] == m[k] by {
            assert(count(cur, k) == count(mine, k) + count(theirs, k));
        }
        assert(cur =~= m);
    }
}

/// What one worker, or the whole run, observed.
pub struct Stats {
    /// Latencies of successful responses, in microseconds.
    pub latencies: Vec<u64>,
    /// Bytes received in successful responses, headers included.
    pub bytes: u64,
    /// Requests that failed or timed out.
    pub errors: u64,
    /// Number of responses per status code.
    pub statuses: HashMap<u16, u64>,
}

/// What a `Stats` holds, as values.
pub struct StatsView {
    pub latencies: Seq<u64>,
    pub bytes: u64,
    pub errors: u64,
    pub statuses: Map<u16, u64>,
}

impl View for Stats {
    type V = StatsView;

    open spec fn view(&self) -> StatsView {
        StatsView {
            latencies: self.latencies@,
            bytes: self.bytes,
            errors: self.errors,
            statuses: self.statuses@,
        }
    }
}

/// Two sets of observations taken together.
pub open spec fn merged(a: StatsView, b: StatsView) -> StatsView {
    StatsView {
        latencies: a.latencies + b.latencies,
        bytes: (a.bytes + b.bytes) as u64,
        errors: (a.errors + b.errors) as u64,
        statuses: merged_counts(a.statuses, b.statuses),
    }
}

/// Whether two sets of observations can be taken together without a counter overflowing.
pub open spec fn can_merge(a: StatsView, b: StatsView) -> bool {
    &&& a.bytes + b.bytes <= u64::MAX
    &&& a.errors + b.errors <= u64::MAX
    &&& forall|k: u16| count(a.statuses, k) + count(b.statuses, k) <= u64::MAX
}

/// The number of requests made: the answered ones (one latency each) and the failed ones.
pub open spec fn requests(s: StatsView) -> int {
    s.latencies.len() + s.errors
}

/// The outcome of one request.
pub open spec fn recorded(s: StatsView, outcome: Option<(u16, usize, u64)>) -> StatsView {
    match outcome {
        Some((status, n, micros)) => StatsView {
            latencies: s.latencies.push(micros),
            bytes: (s.bytes + n) as u64,
            errors: s.errors,
            statuses: s.statuses.insert(status, (count(s.statuses, status) + 1) as u64),
        },
        None => StatsView { errors: (s.errors + 1) as u64, ..s },
    }
}

/// Whether recording `outcome` keeps every counter in range.
pub open spec fn can_record(s: StatsView, outcome: Option<(u16, usize, u64)>) -> bool {
    match outcome {
        Some((status, n, micros)) => s.bytes + n <= u64::MAX && count(s.statuses, status) + 1 <= u64::MAX,
        None => s.errors + 1 <= u64::MAX,
    }
}

impl Stats {
    /// Statistics of nothing yet.
    pub fn new() -> (r: Stats)
        ensures
            r.latencies@ == Seq::<u64>::empty(),
            r.bytes == 0,
            r.errors == 0,
            r.statuses@ == Map::<u16, u64>::empty(),
            r@ == empty_stats(),
    {
        Stats { latencies: Vec::new(), bytes: 0, errors: 0, statuses: HashMap::new() }
    }

    /// Records the outcome of one request: for an answered one its status code, its size in
    /// bytes and its latency in microseconds; `None` for one that failed or timed out.
    pub fn record(&mut self, outcome: Option<(u16, usize, u64)>)
        requires
            can_record(old(self)@, outcome),
        ensures
            final(self)@ == recorded(old(self)@, outcome),
    {
        match outcome {
            Some((status, n, micros)) => {
                self.latencies.push(micros);
                self.bytes = self.bytes + n as u64;
                let cur: u64 = match self.statuses.get(&status) {
                    Some(v) => *v,
                    None => 0,
                };
                self.statuses.insert(status, cur + 1);
            },
            None => {
                self.errors = self.errors + 1;
            },
        }
    }

    /// Adds `other`'s observations to these.
    pub fn merge(&mut self, other: Stats)
        requires
            can_merge(old(self)@, other@),
        ensures
            final(self)@ == merged(old(self)@, other@),
    {
        let ghost given = other@;
        let mut other = other;
        let ghost theirs = other.statuses@;
        let ghost mine = self.statuses@;
        let ghost lat = self.latencies@ + other.latencies@;
        self.latencies.append(&mut other.latencies);
        self.bytes = self.bytes + other.bytes;
        self.errors = self.errors + other.errors;
        let ghost bytes = self.bytes;
        let ghost errors = self.errors;
        assert forall|k: u16| count(mine, k) + count(theirs, k) <= u64::MAX by {
            assert(count(old(self)@.statuses, k) + count(given.statuses, k) <= u64::MAX);
        }
        for (code, n) in it: other.statuses.iter()
            invariant
                theirs == other.statuses@,
                mine == old(self).statuses@,
                self.latencies@ == lat,
                self.bytes == bytes,
                self.errors == errors,
                forall|k: u16| count(mine, k) + count(theirs, k) <= u64::MAX,
                it.seq().no_duplicates(),
                forall|j: int| 0 <= j < it.seq().len() ==> theirs.contains_key(*(#[trigger] it.seq()[j]).0)
                    && theirs[*it.seq()[j].0] == *it.seq()[j].1,
                forall|k: u16| theirs.contains_key(k) ==> #[trigger] seen_keys(it.seq(), it.seq().len() as int).contains(k),
                forall|k: u16| #[trigger] self.statuses@.contains_key(k) == (mine.contains_key(k) || seen_keys(it.seq(), it.index() as int).contains(k)),
                forall|k: u16| #[trigger] count(self.statuses@, k) == count(mine, k) + (if seen_keys(it.seq(), it.index() as int).contains(k) { count(theirs, k) } else { 0 }),
                it.index() == it.seq().len() ==> self.statuses@ == merged_counts(mine, theirs),
        {
            let ghost i = it.index() as int;
            let ghost s = it.seq();
            let ghost before = self.statuses@;
            proof {
                assert(*s[i].0 == *code);
                if seen_keys(s, i).contains(*code) {
                    let j = choose|j: int| 0 <= j < i && *s[j].0 == *code;
                    assert(s[j] == s[i]);
                }
                assert(count(before, *code) == count(mine, *code));
                assert(*n == count(theirs, *code));
            }
            let cur: u64 = match self.statuses.get(code) {
                Some(v) => *v,
                None => 0,
            };
            self.statuses.insert(*code, cur + *n);
            proof {
                assert forall|k: u16| seen_keys(s, i + 1).contains(k) == (seen_keys(s, i).contains(k) || k == *code) by {
                    if seen_keys(s, i + 1).contains(k) {
                        let j = choose|j: int| 0 <= j < i + 1 && *s[j].0 == k;
                        if j < i {
                            assert(seen_keys(s, i).contains(k));
                        }
                    }
                    if k == *code {
                        assert(0 <= i < i + 1 && *s[i].0 == k);
                    }
                    if seen_keys(s, i).contains(k) {
                        let j = choose|j: int| 0 <= j < i && *s[j].0 == k;
                        assert(0 <= j < i + 1 && *s[j].0 == k);
                    }
                }
                assert forall|k: u16| #[trigger] self.statuses@.contains_key(k) == (mine.contains_key(k)
                    || seen_keys(s, i + 1).contains(k)) by {
                    if k != *code {
                        assert(self.statuses@.contains_key(k) == before.contains_key(k));
                    }
                }
                assert forall|k: u16| #[trigger] count(self.statuses@, k) == count(mine, k) + (if seen_keys(
                    s,
                    i + 1,
                ).contains(k) {
                    count(theirs, k)
                } else {
                    0
                }) by {
                    if k != *code {
                        assert(count(self.statuses@, k) == count(before, k));
                    }
                }
                lemma_merge_complete(self.statuses@, mine, theirs, s, i + 1);
            }
        }
        assert(self.statuses@ =~= merged_counts(mine, theirs));
        assert(self@ =~= merged(old(self)@, given)) by {
            assert(self.latencies@ == lat);
        }
    }
}

/// How one status code and its count are reported, e.g. `200: 1042`.
pub open spec fn status_entry(code: u16, n: u64) -> Seq<char> {
    decimal(code as nat) + ": "@ + decimal(n as nat)
}

/// The reports of the codes below `k` that `m` counts, in increasing order of code.
pub open spec fn status_entries(m: Map<u16, u64>, k: nat) -> Seq<Seq<char>>
    decreases k,
{
    if k == 0 {
        seq![]
    } else {
        let e = status_entries(m, (k - 1) as nat);
        let c = (k - 1) as u16;
        if m.contains_key(c) {
            e.push(status_entry(c, m[c]))
        } else {
            e
        }
    }
}

/// The status summary: every code seen, in increasing order, with its count, three spaces
/// apart.
pub open spec fn status_summary(m: Map<u16, u64>) -> Seq<char> {
    joined(status_entries(m, 65536), "   "@)
}

/// Whether `v` is in increasing order.
pub open spec fn ascending(v: Seq<u64>) -> bool {
    forall|i: int, j: int| 0 <= i <= j < v.len() ==> v[i] <= v[j]
}

/// Sorts the latencies into increasing order (`slice::sort_unstable`).
#[verifier::external_body]
fn sort_u64s(v: &mut Vec<u64>)
    ensures
        ascending(final(v)@),
        final(v)@.to_multiset() == old(v)@.to_multiset(),
{
    v.sort_unstable();
}

impl Stats {
    /// Puts the latencies in increasing order, for reading off percentiles.
    pub fn sort_latencies(&mut self)
        ensures
            ascending(final(self).latencies@),
            final(self).latencies@.to_multiset() == old(self).latencies@.to_multiset(),
            final(self).bytes == old(self).bytes,
            final(self).errors == old(self).errors,
            final(self).statuses@ == old(self).statuses@,
    {
        sort_u64s(&mut self.latencies);
    }

    /// The status codes seen and how often, in increasing order of code, e.g.
    /// `200: 1042   404: 3`.
    pub fn status_line(&self) -> (r: String)
        ensures
            r@ == status_summary(self.statuses@),
    {
        let mut out = String::new();
        let mut first = true;
        let ghost m = self.statuses@;
        let mut k: u32 = 0;
        while k < 65536
            invariant
                k <= 65536,
                m == self.statuses@,
                out@ == joined(status_entries(m, k as nat), "   "@),
                first == (status_entries(m, k as nat).len() == 0),
            decreases 65536 - k,
        {
            let code = k as u16;
            assert(code == (k as nat) as u16);
            match self.statuses.get(&code) {
                Some(n) => {
                    if !first {
                        out.append("   ");
                    }
                    let cd = decimal_chars(code as u64);
                    let cs = string_of(cd.as_slice());
                    out.append(cs.as_str());
                    out.append(": ");
                    let nd = decimal_chars(*n);
                    let ns = string_of(nd.as_slice());
                    out.append(ns.as_str());
                    first = false;
                    proof {
                        let e = status_entries(m, k as nat);
                        let e2 = status_entries(m, (k + 1) as nat);
                        assert(e2 == e.push(status_entry(code, *n)));
                        assert(e2.drop_last() == e);
                    }
                },
                None => {},
            }
            k = k + 1;
        }
        out
    }
}

/// The bytes of `buf` before its first line feed.
pub open spec fn first_line(buf: Seq<u8>) -> Seq<u8>
    decreases buf.len(),
{
    if buf.len() == 0 || buf[0] == 10 {
        seq![]
    } else {
        seq![buf[0]] + first_line(buf.drop_first())
    }
}

/// The status code of a response: the second word of its first line, read as a `u16`;
/// 0 where the line is not UTF-8, has no second word, or that word is not such a number.
pub open spec fn status_code(buf: Seq<u8>) -> u16 {
    let line = first_line(buf);
    if !valid_utf8(line) {
        0
    } else {
        let t = ws_tokens(decode_utf8(line));
        if t.len() < 2 {
            0
        } else {
            match parse_unsigned(t[1], 65535) {
                Some(v) => v as u16,
                None => 0,
            }
        }
    }
}

/// The status code in the first line of the response `buf`, 0 where there is none.
pub fn parse_status(buf: &[u8]) -> (r: u16)
    ensures
        r == status_code(buf@),
{
    let n = buf.len();
    let mut k: usize = 0;
    assert(buf@.skip(0) == buf@);
    while k < n && buf[k] != 10
        invariant
            k <= n == buf@.len(),
            first_line(buf@) == buf@.take(k as int) + first_line(buf@.skip(k as int)),
        decreases n - k,
    {
        assert(buf@.skip(k as int).drop_first() == buf@.skip(k + 1));
        assert(buf@.take(k + 1) == buf@.take(k as int) + seq![buf@[k as int]]);
        k = k + 1;
    }
    assert(first_line(buf@.skip(k as int)) == Seq::<u8>::empty());
    let line = slice_subrange(buf, 0, k);
    assert(line@ == first_line(buf@));
    let text = match utf8_text(line) {
        Some(t) => t,
        None => return 0,
    };
    let cs = chars_of(text);
    let toks = token_ranges(cs.as_slice());
    assert(pieces(cs@, toks@) == ws_tokens(cs@));
    if toks.len() < 2 {
        return 0;
    }
    let (a, b) = toks[1];
    let word = slice_subrange(cs.as_slice(), a, b);
    match parse_u64(word) {
        Some(v) => if v <= 65535 {
            v as u16
        } else {
            0
        },
        None => 0,
    }
}

/// A target without its `http://` or `https://` scheme.
pub open spec fn without_scheme(t: Seq<char>) -> Seq<char> {
    if has_prefix(t, "http://"@) {
        t.skip(7)
    } else if has_prefix(t, "https://"@) {
        t.skip(8)
    } else {
        t
    }
}

/// The address to connect to and the default `Host` header for a target written `host`,
/// `host:port` or `http://host[:port]` (port 80 where none is given), or why there is none.
pub open spec fn target_address(target: Seq<char>) -> Result<(Seq<char>, Seq<char>), Seq<char>> {
    let s = trim_end_char(without_scheme(target), '/');
    if s.len() == 0 {
        Err("empty target"@)
    } else {
        let host = before_first(s, ':');
        let addr = if s.contains(':') {
            s
        } else {
            s + ":80"@
        };
        Ok((addr, host))
    }
}

/// Accepts `host`, `host:port`, or `http://host[:port]`. Returns the connect address
/// (`host:port`) and the default Host header value (the bare host).
pub fn normalize_target(target: &str) -> (r: Result<(String, String), String>)
    ensures
        match r {
            Ok((addr, host)) => target_address(target@) == Ok::<(Seq<char>, Seq<char>), Seq<char>>((addr@, host@)),
            Err(e) => target_address(target@) == Err::<(Seq<char>, Seq<char>), Seq<char>>(e@),
        },
{
    proof {
        reveal_strlit("http://");
        reveal_strlit("https://");
    }
    let cs = chars_of(target);
    let start: usize = if starts_with(cs.as_slice(), "http://") {
        7
    } else if starts_with(cs.as_slice(), "https://") {
        8
    } else {
        0
    };
    let rest = slice_subrange(cs.as_slice(), start, cs.len());
    assert(rest@ == without_scheme(target@));
    let k = trim_end_char_len(rest, '/');
    let stripped = slice_subrange(rest, 0, k);
    assert(stripped@ == rest@.take(k as int));
    if k == 0 {
        let mut e = String::new();
        e.append("empty target");
        return Err(e);
    }
    let colon = position_or_len(stripped, ':');
    let host = string_of(slice_subrange(stripped, 0, colon));
    let mut addr = string_of(stripped);
    if colon == stripped.len() {
        assert(!stripped@.contains(':'));
        addr.append(":80");
    } else {
        assert(stripped@[colon as int] == ':');
    }
    Ok((addr, host))
}

/// The address always names a port: it is the host, a `:`, then the rest.
pub proof fn lemma_target_address_has_port(target: Seq<char>)
    ensures
        target_address(target) matches Ok((addr, host)) ==> has_prefix(addr, host + ":"@)
            && !host.contains(':'),
{
    reveal_strlit(":80");
    reveal_strlit(":");
    let s = trim_end_char(without_scheme(target), '/');
    if s.len() > 0 {
        let host = before_first(s, ':');
        lemma_before_first_prefix(s, ':');
        let addr = if s.contains(':') { s } else { s + ":80"@ };
        if s.contains(':') {
            let k = host.len() as int;
            assert(addr.take(k + 1) =~= host + ":"@);
        } else {
            assert(host == s);
            assert(addr.take(s.len() + 1 as int) =~= host + ":"@);
        }
    }
}

/// The load test's settings.
pub struct Config {
    /// Where to connect, `host:port`.
    pub addr: String,
    /// The `Host` header to send.
    pub host: String,
    /// The paths to request, in turn.
    pub paths: Vec<String>,
    /// How many connections to keep busy at once.
    pub connections: usize,
    /// How long to run, in seconds.
    pub duration_secs: u64,
    /// How long to wait for one response, in seconds.
    pub timeout_secs: u64,
}

/// What a `Config` holds, as values.
pub struct ConfigView {
    pub addr: Seq<char>,
    pub host: Seq<char>,
    pub paths: Seq<Seq<char>>,
    pub connections: usize,
    pub duration_secs: u64,
    pub timeout_secs: u64,
}

/// The characters of each string.
pub open spec fn string_views(s: Seq<String>) -> Seq<Seq<char>> {
    s.map_values(|x: String| x@)
}

impl View for Config {
    type V = ConfigView;

    open spec fn view(&self) -> ConfigView {
        ConfigView {
            addr: self.addr@,
            host: self.host@,
            paths: string_views(self.paths@),
            connections: self.connections,
            duration_secs: self.duration_secs,
            timeout_secs: self.timeout_secs,
        }
    }
}

/// What the command line asks for.
pub enum Command {
    /// Print the usage text.
    Help,
    /// Run the load test.
    Run(Config),
}

/// The settings before any option: 50 connections for 10 seconds, 5 seconds per request.
pub open spec fn default_config(addr: Seq<char>, host: Seq<char>) -> ConfigView {
    ConfigView {
        addr: addr,
        host: host,
        paths: seq![],
        connections: 50,
        duration_secs: 10,
        timeout_secs: 5,
    }
}

/// The settings after the options `rest`, or the complaint about the first bad one. Each
/// option takes the next argument as its value: `-c`/`--connections`, `-d`/`--duration`,
/// `-t`/`--timeout` (numbers), `-p`/`--path` (repeatable) and `-H`/`--host`.
pub open spec fn with_options(cfg: ConfigView, rest: Seq<Seq<char>>) -> Result<ConfigView, Seq<char>>
    decreases rest.len(),
{
    if rest.len() == 0 {
        Ok(cfg)
    } else {
        let flag = rest[0];
        let known = flag == "-c"@ || flag == "--connections"@ || flag == "-d"@ || flag
            == "--duration"@ || flag == "-t"@ || flag == "--timeout"@ || flag == "-p"@ || flag
            == "--path"@ || flag == "-H"@ || flag == "--host"@;
        if !known {
            Err("unknown flag: "@ + flag)
        } else if rest.len() < 2 {
            Err(flag + " needs a value"@)
        } else {
            let value = rest[1];
            let more = rest.skip(2);
            if flag == "-c"@ || flag == "--connections"@ {
                match parse_unsigned(value, usize::MAX as nat) {
                    Some(n) => with_options(ConfigView { connections: n as usize, ..cfg }, more),
                    None => Err("bad -c"@),
                }
            } else if flag == "-d"@ || flag == "--duration"@ {
                match parse_unsigned(value, u64::MAX as nat) {
                    Some(n) => with_options(ConfigView { duration_secs: n as u64, ..cfg }, more),
                    None => Err("bad -d"@),
                }
            } else if flag == "-t"@ || flag == "--timeout"@ {
                match parse_unsigned(value, u64::MAX as nat) {
                    Some(n) => with_options(ConfigView { timeout_secs: n as u64, ..cfg }, more),
                    None => Err("bad -t"@),
                }
            } else if flag == "-p"@ || flag == "--path"@ {
                with_options(ConfigView { paths: cfg.paths.push(value), ..cfg }, more)
            } else {
                with_options(ConfigView { host: value, ..cfg }, more)
            }
        }
    }
}

/// What the arguments (after the program name) ask for: help for `-h` or `--help` as the
/// target; otherwise the target's address and the options applied to the defaults, with `/`
/// as the only path where none is given; or the complaint about them.
pub open spec fn command_of(args: Seq<Seq<char>>) -> Result<Option<ConfigView>, Seq<char>> {
    if args.len() == 0 {
        Err("missing <target>"@)
    } else if args[0] == "-h"@ || args[0] == "--help"@ {
        Ok(None)
    } else {
        match target_address(args[0]) {
            Err(e) => Err(e),
            Ok((addr, host)) => match with_options(default_config(addr, host), args.skip(1)) {
                Err(e) => Err(e),
                Ok(cfg) => Ok(
                    Some(
                        if cfg.paths.len() == 0 {
                            ConfigView { paths: seq!["/"@], ..cfg }
                        } else {
                            cfg
                        },
                    ),
                ),
            },
        }
    }
}

/// The values given to `-p`/`--path` among the options `rest` (each option followed by its
/// value), in order.
pub open spec fn path_options(rest: Seq<Seq<char>>) -> Seq<Seq<char>>
    decreases rest.len(),
{
    if rest.len() < 2 {
        seq![]
    } else if rest[0] == "-p"@ || rest[0] == "--path"@ {
        seq![rest[1]] + path_options(rest.skip(2))
    } else {
        path_options(rest.skip(2))
    }
}

proof fn lemma_with_options_paths(cfg: ConfigView, rest: Seq<Seq<char>>)
    ensures
        with_options(cfg, rest) matches Ok(out) ==> out.paths == cfg.paths + path_options(rest),
    decreases rest.len(),
{
    reveal_strlit("-c");
    reveal_strlit("--connections");
    reveal_strlit("-d");
    reveal_strlit("--duration");
    reveal_strlit("-t");
    reveal_strlit("--timeout");
    reveal_strlit("-p");
    reveal_strlit("--path");
    reveal_strlit("-H");
    reveal_strlit("--host");
    assert("-c"@.len() == 2 && "-c"@[1] == 'c');
    assert("--connections"@.len() == 13 && "--connections"@[1] == '-' && "--connections"@[2] == 'c');
    assert("-d"@.len() == 2 && "-d"@[1] == 'd');
    assert("--duration"@.len() == 10 && "--duration"@[1] == '-' && "--duration"@[2] == 'd');
    assert("-t"@.len() == 2 && "-t"@[1] == 't');
    assert("--timeout"@.len() == 9 && "--timeout"@[1] == '-' && "--timeout"@[2] == 't');
    assert("-p"@.len() == 2 && "-p"@[1] == 'p');
    assert("--path"@.len() == 6 && "--path"@[1] == '-' && "--path"@[2] == 'p');
    assert("-H"@.len() == 2 && "-H"@[1] == 'H');
    assert("--host"@.len() == 6 && "--host"@[1] == '-' && "--host"@[2] == 'h');
    if rest.len() >= 2 {
        let flag = rest[0];
        let value = rest[1];
        let more = rest.skip(2);
        let is_path = flag == "-p"@ || flag == "--path"@;
        let next = if is_path { cfg.paths.push(value) } else { cfg.paths };
        lemma_with_options_paths(ConfigView { paths: next, ..cfg }, more);
        if flag == "-c"@ || flag == "--connections"@ {
            match parse_unsigned(value, usize::MAX as nat) {
                Some(n) => lemma_with_options_paths(ConfigView { connections: n as usize, ..cfg }, more),
                None => {},
            }
        } else if flag == "-d"@ || flag == "--duration"@ {
            match parse_unsigned(value, u64::MAX as nat) {
                Some(n) => lemma_with_options_paths(ConfigView { duration_secs: n as u64, ..cfg }, more),
                None => {},
            }
        } else if flag == "-t"@ || flag == "--timeout"@ {
            match parse_unsigned(value, u64::MAX as nat) {
                Some(n) => lemma_with_options_paths(ConfigView { timeout_secs: n as u64, ..cfg }, more),
                None => {},
            }
        } else if is_path {
        } else {
            lemma_with_options_paths(ConfigView { host: value, ..cfg }, more);
        }
        if is_path {
            assert(cfg.paths.push(value) + path_options(more) =~= cfg.paths + (seq![value]
                + path_options(more)));
        }
    } else {
        assert(cfg.paths + path_options(rest) =~= cfg.paths);
    }
}

/// The paths a load test requests are exactly those given with `-p`/`--path`, in order, and
/// `/` alone only where none is given.
pub proof fn lemma_paths_are_the_path_options(args: Seq<Seq<char>>)
    ensures
        command_of(args) matches Ok(Some(cfg)) ==> cfg.paths == if path_options(args.skip(1)).len()
            == 0 {
            seq!["/"@]
        } else {
            path_options(args.skip(1))
        },
{
    if args.len() > 0 {
        if let Ok((addr, host)) = target_address(args[0]) {
            let d = default_config(addr, host);
            lemma_with_options_paths(d, args.skip(1));
            assert(d.paths + path_options(args.skip(1)) =~= path_options(args.skip(1)));
        }
    }
}

/// The value given to the last of the options `short`/`long` among the options `rest` (each
/// option followed by its value), if any.
pub open spec fn last_option(rest: Seq<Seq<char>>, short: Seq<char>, long: Seq<char>) -> Option<
    Seq<char>,
>
    decreases rest.len(),
{
    if rest.len() < 2 {
        None
    } else {
        match last_option(rest.skip(2), short, long) {
            Some(v) => Some(v),
            None => if rest[0] == short || rest[0] == long {
                Some(rest[1])
            } else {
                None
            },
        }
    }
}

/// Whether `n` is what the last of the options `short`/`long` in `rest` sets, read as a
/// number, or `default` where the option is not given.
pub open spec fn set_by(rest: Seq<Seq<char>>, short: Seq<char>, long: Seq<char>, n: nat, default: nat) -> bool {
    match last_option(rest, short, long) {
        Some(v) => parse_unsigned(v, u64::MAX as nat) == Some(n),
        None => n == default,
    }
}

proof fn lemma_with_options_fields(cfg: ConfigView, rest: Seq<Seq<char>>)
    ensures
        with_options(cfg, rest) matches Ok(out) ==> {
            &&& out.addr == cfg.addr
            &&& out.host == match last_option(rest, "-H"@, "--host"@) {
                Some(h) => h,
                None => cfg.host,
            }
            &&& set_by(rest, "-c"@, "--connections"@, out.connections as nat, cfg.connections as nat)
            &&& set_by(rest, "-d"@, "--duration"@, out.duration_secs as nat, cfg.duration_secs as nat)
            &&& set_by(rest, "-t"@, "--timeout"@, out.timeout_secs as nat, cfg.timeout_secs as nat)
        },
    decreases rest.len(),
{
    reveal_strlit("-c");
    reveal_strlit("--connections");
    reveal_strlit("-d");
    reveal_strlit("--duration");
    reveal_strlit("-t");
    reveal_strlit("--timeout");
    reveal_strlit("-p");
    reveal_strlit("--path");
    reveal_strlit("-H");
    reveal_strlit("--host");
    assert("-c"@.len() == 2 && "-c"@[1] == 'c');
    assert("--connections"@.len() == 13 && "--connections"@[1] == '-' && "--connections"@[2] == 'c');
    assert("-d"@.len() == 2 && "-d"@[1] == 'd');
    assert("--duration"@.len() == 10 && "--duration"@[1] == '-' && "--duration"@[2] == 'd');
    assert("-t"@.len() == 2 && "-t"@[1] == 't');
    assert("--timeout"@.len() == 9 && "--timeout"@[1] == '-' && "--timeout"@[2] == 't');
    assert("-p"@.len() == 2 && "-p"@[1] == 'p');
    assert("--path"@.len() == 6 && "--path"@[1] == '-' && "--path"@[2] == 'p');
    assert("-H"@.len() == 2 && "-H"@[1] == 'H');
    assert("--host"@.len() == 6 && "--host"@[1] == '-' && "--host"@[2] == 'h');
    if rest.len() >= 2 {
        let flag = rest[0];
        let value = rest[1];
        let more = rest.skip(2);
        if flag == "-c"@ || flag == "--connections"@ {
            match parse_unsigned(value, usize::MAX as nat) {
                Some(n) => lemma_with_options_fields(ConfigView { connections: n as usize, ..cfg }, more),
                None => {},
            }
        } else if flag == "-d"@ || flag == "--duration"@ {
            match parse_unsigned(value, u64::MAX as nat) {
                Some(n) => lemma_with_options_fields(ConfigView { duration_secs: n as u64, ..cfg }, more),
                None => {},
            }
        } else if flag == "-t"@ || flag == "--timeout"@ {
            match parse_unsigned(value, u64::MAX as nat) {
                Some(n) => lemma_with_options_fields(ConfigView { timeout_secs: n as u64, ..cfg }, more),
                None => {},
            }
        } else if flag == "-p"@ || flag == "--path"@ {
            lemma_with_options_fields(ConfigView { paths: cfg.paths.push(value), ..cfg }, more);
        } else {
            lemma_with_options_fields(ConfigView { host: value, ..cfg }, more);
        }
    }
}

/// The settings a load test runs with: the `Host` header is the last `-H`/`--host` value, or
/// the target's host; the connections, duration and timeout are the numbers given last with
/// `-c`, `-d` and `-t` (or their long forms), or 50 connections, 10 seconds and 5 seconds; the
/// address is the target's.
pub proof fn lemma_settings_from_options(args: Seq<Seq<char>>)
    ensures
        command_of(args) matches Ok(Some(cfg)) ==> {
            let rest = args.skip(1);
            &&& target_address(args[0]) matches Ok((addr, host)) && cfg.addr == addr && cfg.host
                == match last_option(rest, "-H"@, "--host"@) {
                Some(h) => h,
                None => host,
            }
            &&& set_by(rest, "-c"@, "--connections"@, cfg.connections as nat, 50)
            &&& set_by(rest, "-d"@, "--duration"@, cfg.duration_secs as nat, 10)
            &&& set_by(rest, "-t"@, "--timeout"@, cfg.timeout_secs as nat, 5)
        },
{
    if args.len() > 0 {
        if let Ok((addr, host)) = target_address(args[0]) {
            lemma_with_options_fields(default_config(addr, host), args.skip(1));
        }
    }
}

/// The error message `text`.
fn message(text: &str) -> (r: String)
    ensures
        r@ == text@,
{
    let mut m = String::new();
    m.append(text);
    m
}

/// Reads the command line, given the arguments after the program name.
pub fn parse_args(args: &[String]) -> (r: Result<Command, String>)
    ensures
        match r {
            Ok(Command::Help) => command_of(string_views(args@)) == Ok::<Option<ConfigView>, Seq<char>>(None),
            Ok(Command::Run(cfg)) => command_of(string_views(args@)) == Ok::<Option<ConfigView>, Seq<char>>(Some(cfg@)),
            Err(e) => command_of(string_views(args@)) == Err::<Option<ConfigView>, Seq<char>>(e@),
        },
{
    let ghost a = string_views(args@);
    if args.len() == 0 {
        return Err(message("missing <target>"));
    }
    let target = args[0].as_str();
    let tc = chars_of(target);
    assert(tc@ == a[0]);
    if eq_str(tc.as_slice(), "-h") || eq_str(tc.as_slice(), "--help") {
        return Ok(Command::Help);
    }
    let (addr, host) = match normalize_target(target) {
        Ok(p) => p,
        Err(e) => return Err(e),
    };
    let mut cfg = Config {
        addr,
        host,
        paths: Vec::new(),
        connections: 50,
        duration_secs: 10,
        timeout_secs: 5,
    };
    let ghost addr0 = cfg.addr@;
    let ghost host0 = cfg.host@;
    assert(string_views(cfg.paths@) =~= Seq::<Seq<char>>::empty());
    assert(cfg@ == default_config(addr0, host0));
    let n = args.len();
    let mut i: usize = 1;
    assert(a.skip(1) == a.skip(i as int));
    while i < n
        invariant
            1 <= i <= n,
            n == args@.len() == a.len(),
            a == string_views(args@),
            a.len() > 0,
            !(a[0] == "-h"@ || a[0] == "--help"@),
            target_address(a[0]) == Ok::<(Seq<char>, Seq<char>), Seq<char>>((addr0, host0)),
            with_options(default_config(addr0, host0), a.skip(1)) == with_options(cfg@, a.skip(i as int)),
        decreases n - i,
    {
        let ghost rest = a.skip(i as int);
        let ghost before = cfg@;
        let flag = args[i].as_str();
        let fc = chars_of(flag);
        assert(fc@ == rest[0]);
        let is_c = eq_str(fc.as_slice(), "-c") || eq_str(fc.as_slice(), "--connections");
        let is_d = eq_str(fc.as_slice(), "-d") || eq_str(fc.as_slice(), "--duration");
        let is_t = eq_str(fc.as_slice(), "-t") || eq_str(fc.as_slice(), "--timeout");
        let is_p = eq_str(fc.as_slice(), "-p") || eq_str(fc.as_slice(), "--path");
        let is_h = eq_str(fc.as_slice(), "-H") || eq_str(fc.as_slice(), "--host");
        if !(is_c || is_d || is_t || is_p || is_h) {
            let mut e = message("unknown flag: ");
            e.append(flag);
            return Err(e);
        }
        if i + 1 >= n {
            let mut e = message(flag);
            e.append(" needs a value");
            return Err(e);
        }
        let value = &args[i + 1];
        let vc = chars_of(value.as_str());
        assert(vc@ == rest[1]);
        assert(rest.skip(2) == a.skip(i + 2));
        if is_c {
            match parse_u64(vc.as_slice()) {
                Some(v) => {
                    if v > usize::MAX as u64 {
                        return Err(message("bad -c"));
                    }
                    cfg.connections = v as usize;
                },
                None => return Err(message("bad -c")),
            }
        } else if is_d {
            match parse_u64(vc.as_slice()) {
                Some(v) => {
                    cfg.duration_secs = v;
                },
                None => return Err(message("bad -d")),
            }
        } else if is_t {
            match parse_u64(vc.as_slice()) {
                Some(v) => {
                    cfg.timeout_secs = v;
                },
                None => return Err(message("bad -t")),
            }
        } else if is_p {
            cfg.paths.push(value.clone());
            assert(string_views(cfg.paths@) =~= before.paths.push(rest[1]));
        } else {
            cfg.host = value.clone();
        }
        i = i + 2;
    }
    assert(a.skip(i as int) =~= Seq::<Seq<char>>::empty());
    if cfg.paths.len() == 0 {
        cfg.paths.push(message("/"));
        assert(string_views(cfg.paths@) =~= seq!["/"@]);
    }
    Ok(Command::Run(cfg))
}

/// A parsed command line always has a path to request.
pub proof fn lemma_command_has_paths(args: Seq<Seq<char>>)
    ensures
        command_of(args) matches Ok(Some(cfg)) ==> cfg.paths.len() > 0,
{
}

/// The path a worker requests on its `i`-th turn: the paths are taken in turn.
pub fn path_for(paths: &Vec<String>, i: usize) -> (r: &String)
    requires
        paths@.len() > 0,
    ensures
        *r == paths@[i as int % paths@.len() as int],
{
    &paths[i % paths.len()]
}

/// The request the load tester sends for `path`: a `GET` with the given `Host` header that
/// asks the server to close the connection after answering.
pub open spec fn request_message(path: Seq<char>, host: Seq<char>) -> Seq<char> {
    "GET "@ + path + " HTTP/1.1\r\nHost: "@ + host + "\r\nConnection: close\r\n\r\n"@
}

/// The text of the request for `path` with the `Host` header `host`.
pub fn request_text(path: &str, host: &str) -> (r: String)
    ensures
        r@ == request_message(path@, host@),
{
    let mut r = String::new();
    r.append("GET ");
    r.append(path);
    r.append(" HTTP/1.1\r\nHost: ");
    r.append(host);
    r.append("\r\nConnection: close\r\n\r\n");
    r
}

/// The server reads back the path the load tester asks for: however much of the request it
/// has read, once that reaches past the path, the path it finds is the one requested (for a
/// path without white space).
pub proof fn lemma_request_path_read_back(path: Seq<char>, host: Seq<char>, k: int)
    requires
        path.len() > 0,
        forall|i: int| 0 <= i < path.len() ==> !is_white_space(#[trigger] path[i]),
        path.len() + 5 <= k <= request_message(path, host).len(),
    ensures
        requested_path(request_message(path, host).take(k)) == path,
{
    reveal_strlit("GET ");
    reveal_strlit("GET");
    reveal_strlit(" HTTP/1.1\r\nHost: ");
    let req = request_message(path, host);
    let head = "GET"@;
    let n: int = path.len() as int + 4;
    assert(req[n] == ' ');
    let p = req.take(k);
    let q = p.skip(n + 1);
    assert(p =~= head + seq![' '] + (path + seq![' '] + q));
    assert(forall|i: int| 0 <= i < head.len() ==> !is_white_space(#[trigger] head[i]));
    lemma_second_token(head, path, q);
    assert(ws_tokens(p).len() >= 2 && ws_tokens(p)[1] == path);
}

proof fn lemma_first_line_prefix(b: Seq<u8>) -> (j: int)
    ensures
        0 <= j <= b.len(),
        first_line(b) == b.take(j),
        forall|i: int| 0 <= i < j ==> b[i] != 10,
        j < b.len() ==> b[j] == 10,
    decreases b.len(),
{
    if b.len() == 0 || b[0] == 10 {
        assert(b.take(0) =~= Seq::<u8>::empty());
        0
    } else {
        let j1 = lemma_first_line_prefix(b.drop_first());
        assert(b.take(j1 + 1) =~= seq![b[0]] + b.drop_first().take(j1));
        assert forall|i: int| 0 <= i < j1 + 1 implies b[i] != 10 by {
            if i > 0 {
                assert(b[i] == b.drop_first()[i - 1]);
            }
        }
        j1 + 1
    }
}

proof fn lemma_ascii_byte_is_newline(c: char)
    requires
        is_ascii_char(c),
    ensures
        (c as u8 == 10u8) == (c == '\n'),
{
    let x = c as u32;
    vstd::utf8::char_u32_cast(c, x);
    vstd::utf8::char_u32_cast('\n', 10u32);
    if c != '\n' {
        assert(x != 10);
        assert((x as u8) != 10u8) by (bit_vector)
            requires
                x < 128,
                x != 10,
        ;
    }
}

proof fn lemma_ascii_is_ascii_chars(s: Seq<char>)
    requires
        all_ascii(s),
    ensures
        vstd::utf8::is_ascii_chars(s),
{
    assert forall|i: int| 0 <= i < s.len() implies '\0' <= #[trigger] s[i] <= '\u{7f}' by {
        assert(is_ascii_char(s[i]));
        let x = s[i] as u32;
        vstd::utf8::char_u32_cast(s[i], x);
        vstd::utf8::char_u32_cast('\u{7f}', 127u32);
    }
}

/// The first line of ASCII text, encoded, is the encoding of its part before the first line
/// feed, and reads back as that part.
proof fn lemma_ascii_first_line(h: Seq<char>)
    requires
        all_ascii(h),
    ensures
        valid_utf8(first_line(encode_utf8(h))),
        decode_utf8(first_line(encode_utf8(h))) == before_first(h, '\n'),
{
    lemma_ascii_is_ascii_chars(h);
    vstd::utf8::is_ascii_chars_encode_utf8(h);
    let bytes = encode_utf8(h);
    let k = lemma_before_first_prefix(h, '\n');
    let j = lemma_first_line_prefix(bytes);
    assert forall|i: int| 0 <= i < k implies bytes[i] != 10 by {
        lemma_ascii_byte_is_newline(h[i]);
        assert(h.take(k)[i] == h[i]);
        assert(!h.take(k).contains('\n') ==> h.take(k)[i] != '\n');
    }
    if k < h.len() {
        lemma_ascii_byte_is_newline(h[k]);
    }
    if j < k {
        assert(bytes[j] == 10);
    }
    if k < j {
        assert(bytes[k] != 10);
    }
    assert(j == k);
    let p = h.take(k);
    assert(all_ascii(p)) by {
        assert forall|i: int| 0 <= i < p.len() implies is_ascii_char(#[trigger] p[i]) by {
            assert(p[i] == h[i]);
        }
    }
    lemma_ascii_is_ascii_chars(p);
    vstd::utf8::is_ascii_chars_encode_utf8(p);
    assert(encode_utf8(p) =~= bytes.take(k));
    vstd::utf8::encode_utf8_valid_utf8(p);
    vstd::utf8::encode_utf8_decode_utf8(p);
}

/// The header text is ASCII where its status and media type are.
proof fn lemma_header_ascii(status: Seq<char>, ctype: Seq<char>, len: nat)
    requires
        all_ascii(status),
        all_ascii(ctype),
    ensures
        all_ascii(header_text(status, ctype, len)),
{
    reveal_strlit("HTTP/1.1 ");
    reveal_strlit("\r\nContent-Type: ");
    reveal_strlit("\r\nContent-Length: ");
    reveal_strlit("\r\nConnection: close\r\n\r\n");
    lemma_decimal_digits(len);
    assert forall|i: int| 0 <= i < decimal(len).len() implies is_ascii_char(#[trigger] decimal(len)[i]) by {
        assert(is_digit(decimal(len)[i]));
    }
    lemma_all_ascii_concat("HTTP/1.1 "@, status);
    lemma_all_ascii_concat("HTTP/1.1 "@ + status, "\r\nContent-Type: "@);
    lemma_all_ascii_concat("HTTP/1.1 "@ + status + "\r\nContent-Type: "@, ctype);
    lemma_all_ascii_concat("HTTP/1.1 "@ + status + "\r\nContent-Type: "@ + ctype, "\r\nContent-Length: "@);
    lemma_all_ascii_concat("HTTP/1.1 "@ + status + "\r\nContent-Type: "@ + ctype + "\r\nContent-Length: "@, decimal(len));
    lemma_all_ascii_concat(
        "HTTP/1.1 "@ + status + "\r\nContent-Type: "@ + ctype + "\r\nContent-Length: "@ + decimal(len),
        "\r\nConnection: close\r\n\r\n"@,
    );
}

proof fn lemma_all_ascii_concat(a: Seq<char>, b: Seq<char>)
    requires
        all_ascii(a),
        all_ascii(b),
    ensures
        all_ascii(a + b),
{
    assert forall|i: int| 0 <= i < (a + b).len() implies is_ascii_char(#[trigger] (a + b)[i]) by {
        if i < a.len() {
            assert((a + b)[i] == a[i]);
        } else {
            assert((a + b)[i] == b[i - a.len()]);
        }
    }
}

/// The load tester reads back the status code the server sends: the status code in the
/// header that `response_header` writes for a status `<code> <reason>` is `code`.
#[verifier::spinoff_prover]
pub proof fn lemma_status_read_back(code: u16, reason: Seq<char>, ctype: Seq<char>, len: nat)
    requires
        all_ascii(reason),
        all_ascii(ctype),
    ensures
        status_code(encode_utf8(header_text(decimal(code as nat) + " "@ + reason, ctype, len)))
            == code,
{
    reveal_strlit("HTTP/1.1 ");
    reveal_strlit("HTTP/1.1");
    reveal_strlit(" ");
    let d = decimal(code as nat);
    lemma_decimal_digits(code as nat);
    lemma_parse_decimal(code as nat, 65535);
    let status = d + " "@ + reason;
    assert forall|i: int| 0 <= i < d.len() implies is_ascii_char(#[trigger] d[i]) by {
        assert(is_digit(d[i]));
    }
    lemma_all_ascii_concat(d, " "@);
    lemma_all_ascii_concat(d + " "@, reason);
    lemma_header_ascii(status, ctype, len);
    let h = header_text(status, ctype, len);
    lemma_ascii_first_line(h);
    let head = "HTTP/1.1"@;
    let n0: int = (head.len() + 1 + d.len() + 1) as int;
    let rest = h.skip(n0);
    assert(h =~= head + seq![' '] + (d + seq![' '] + rest));
    let k = lemma_before_first_prefix(h, '\n');
    assert(k >= n0) by {
        if k < n0 {
            assert(h[k] == '\n');
            if k >= head.len() + 1 && k < n0 - 1 {
                assert(h[k] == d[k - head.len() - 1]);
                assert(is_digit(d[k - head.len() - 1]));
            }
        }
    }
    let p = h.take(k);
    let q2 = rest.take(k - n0);
    assert(p =~= head + seq![' '] + (d + seq![' '] + q2));
    assert forall|i: int| 0 <= i < d.len() implies !is_white_space(#[trigger] d[i]) by {
        assert(is_digit(d[i]));
    }
    lemma_second_token(head, d, q2);
    assert(ws_tokens(p).len() >= 2 && ws_tokens(p)[1] == d);
}

/// The second white-space separated word of `head d q` is `d`, for words `head` and `d`.
proof fn lemma_second_token(head: Seq<char>, d: Seq<char>, q: Seq<char>)
    requires
        head.len() > 0,
        d.len() > 0,
        forall|i: int| 0 <= i < head.len() ==> !is_white_space(#[trigger] head[i]),
        forall|i: int| 0 <= i < d.len() ==> !is_white_space(#[trigger] d[i]),
    ensures
        ws_tokens(head + seq![' '] + (d + seq![' '] + q)).len() >= 2,
        ws_tokens(head + seq![' '] + (d + seq![' '] + q))[1] == d,
{
    let sep = separator(false);
    lemma_runs_concat(head, ' ', d + seq![' '] + q, sep);
    lemma_runs_concat(d, ' ', q, sep);
    lemma_runs_word(head, sep);
    lemma_runs_word(d, sep);
    assert(ws_tokens(head + seq![' '] + (d + seq![' '] + q)) == seq![head] + (seq![d] + runs(q, sep)));
}

/// Merging keeps every request: the merged observations count the requests of both.
pub proof fn lemma_merge_counts_requests(a: StatsView, b: StatsView)
    requires
        can_merge(a, b),
    ensures
        requests(merged(a, b)) == requests(a) + requests(b),
        forall|k: u16| #[trigger] count(merged(a, b).statuses, k) == count(a.statuses, k) + count(b.statuses, k),
{
}

/// Recording an outcome counts exactly one more request.
pub proof fn lemma_record_counts_one_request(s: StatsView, outcome: Option<(u16, usize, u64)>)
    requires
        can_record(s, outcome),
    ensures
        requests(recorded(s, outcome)) == requests(s) + 1,
{
}

/// The counts of `m` for the codes below `k`, added up.
pub open spec fn counted_below(m: Map<u16, u64>, k: nat) -> int
    decreases k,
{
    if k == 0 {
        0
    } else {
        counted_below(m, (k - 1) as nat) + count(m, (k - 1) as u16)
    }
}

/// The number of responses that the status counts of `m` add up to.
pub open spec fn status_total(m: Map<u16, u64>) -> int {
    counted_below(m, 65536)
}

/// Whether every answered request was counted under its status: the status counts add up to
/// the number of latencies.
pub open spec fn counts_consistent(s: StatsView) -> bool {
    status_total(s.statuses) == s.latencies.len()
}

/// No observations at all.
pub open spec fn empty_stats() -> StatsView {
    StatsView {
        latencies: Seq::empty(),
        bytes: 0,
        errors: 0,
        statuses: Map::empty(),
    }
}

proof fn lemma_counted_below_insert(m: Map<u16, u64>, code: u16, k: nat)
    requires
        k <= 65536,
        count(m, code) + 1 <= u64::MAX,
    ensures
        counted_below(m.insert(code, (count(m, code) + 1) as u64), k) == counted_below(m, k) + (
        if code < k {
            1int
        } else {
            0int
        }),
    decreases k,
{
    if k > 0 {
        lemma_counted_below_insert(m, code, (k - 1) as nat);
        let c = (k - 1) as u16;
        assert(c == k - 1);
    }
}

proof fn lemma_counted_below_merge(a: Map<u16, u64>, b: Map<u16, u64>, k: nat)
    requires
        k <= 65536,
        forall|c: u16| count(a, c) + count(b, c) <= u64::MAX,
    ensures
        counted_below(merged_counts(a, b), k) == counted_below(a, k) + counted_below(b, k),
    decreases k,
{
    if k > 0 {
        lemma_counted_below_merge(a, b, (k - 1) as nat);
        let c = (k - 1) as u16;
        assert(count(a, c) + count(b, c) <= u64::MAX);
    }
}

proof fn lemma_counted_below_empty(k: nat)
    ensures
        counted_below(Map::<u16, u64>::empty(), k) == 0,
    decreases k,
{
    if k > 0 {
        lemma_counted_below_empty((k - 1) as nat);
    }
}

/// Fresh statistics are consistent: no latencies and no status counts.
pub proof fn lemma_empty_counts_consistent()
    ensures
        counts_consistent(empty_stats()),
{
    lemma_counted_below_empty(65536);
}

/// Recording an outcome keeps the status counts adding up to the number of latencies.
pub proof fn lemma_record_keeps_counts(s: StatsView, outcome: Option<(u16, usize, u64)>)
    requires
        can_record(s, outcome),
        counts_consistent(s),
    ensures
        counts_consistent(recorded(s, outcome)),
{
    if let Some((status, _, _)) = outcome {
        lemma_counted_below_insert(s.statuses, status, 65536);
    }
}

/// Merging keeps the status counts adding up to the number of latencies.
pub proof fn lemma_merge_keeps_counts(a: StatsView, b: StatsView)
    requires
        can_merge(a, b),
        counts_consistent(a),
        counts_consistent(b),
    ensures
        counts_consistent(merged(a, b)),
{
    lemma_counted_below_merge(a.statuses, b.statuses, 65536);
}

/// Merging empty statistics changes nothing, on either side.
pub proof fn lemma_merge_empty(a: StatsView)
    ensures
        merged(a, empty_stats()) == a,
        merged(empty_stats(), a) == a,
{
    assert(merged_counts(a.statuses, Map::empty()) =~= a.statuses);
    assert(merged_counts(Map::empty(), a.statuses) =~= a.statuses);
    assert(a.latencies + Seq::empty() =~= a.latencies);
    assert(Seq::empty() + a.latencies =~= a.latencies);
}

/// The outcomes of a run of requests, recorded in turn.
pub open spec fn recorded_all(s: StatsView, outcomes: Seq<Option<(u16, usize, u64)>>) -> StatsView
    decreases outcomes.len(),
{
    if outcomes.len() == 0 {
        s
    } else {
        recorded(recorded_all(s, outcomes.drop_last()), outcomes.last())
    }
}

/// Whether recording the outcomes in turn keeps every counter in range.
pub open spec fn can_record_all(s: StatsView, outcomes: Seq<Option<(u16, usize, u64)>>) -> bool {
    forall|i: int|
        0 <= i < outcomes.len() ==> can_record(
            #[trigger] recorded_all(s, outcomes.take(i)),
            outcomes[i],
        )
}

/// A worker's statistics after `n` requests, recorded from fresh ones, count `n` requests,
/// and their status counts add up to the number of answered ones.
pub proof fn lemma_worker_counts(outcomes: Seq<Option<(u16, usize, u64)>>)
    requires
        can_record_all(empty_stats(), outcomes),
    ensures
        requests(recorded_all(empty_stats(), outcomes)) == outcomes.len(),
        counts_consistent(recorded_all(empty_stats(), outcomes)),
    decreases outcomes.len(),
{
    if outcomes.len() == 0 {
        lemma_empty_counts_consistent();
    } else {
        let init = outcomes.drop_last();
        let last = outcomes.len() - 1;
        assert forall|i: int| 0 <= i < init.len() implies can_record(
            #[trigger] recorded_all(empty_stats(), init.take(i)),
            init[i],
        ) by {
            assert(init.take(i) == outcomes.take(i));
            assert(can_record(recorded_all(empty_stats(), outcomes.take(i)), outcomes[i]));
        }
        lemma_worker_counts(init);
        assert(outcomes.take(last) == init);
        assert(can_record(recorded_all(empty_stats(), outcomes.take(last)), outcomes[last]));
        lemma_record_keeps_counts(recorded_all(empty_stats(), init), outcomes.last());
        lemma_record_counts_one_request(recorded_all(empty_stats(), init), outcomes.last());
    }
}

} // verus!
