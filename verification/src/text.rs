//! Character-level text helpers shared by the rest of the library.
use vstd::prelude::*;
use vstd::utf8::{decode_utf8, valid_utf8};

verus! {

/// Appends one character to a string (`String::push`).
#[verifier::external_body]
pub(crate) fn push_char(s: &mut String, c: char)
    ensures
        final(s)@ == old(s)@.push(c),
{
    s.push(c);
}

/// `str::from_utf8`: the text `bytes` encode, where they are valid UTF-8.
#[verifier::external_body]
pub(crate) fn utf8_text(bytes: &[u8]) -> (r: Option<&str>)
    ensures
        r is Some == valid_utf8(bytes@),
        r matches Some(t) ==> t@ == decode_utf8(bytes@),
{
    std::str::from_utf8(bytes).ok()
}

/// The characters of a string slice, in order.
pub fn chars_of(s: &str) -> (out: Vec<char>)
    ensures
        out@ == s@,
{
    let mut out: Vec<char> = Vec::new();
    for c in it: s.chars()
        invariant
            out@ == it.seq().take(it.index() as int),
            it.seq() == s@,
    {
        out.push(c);
    }
    out
}

/// A string made of the given characters.
pub fn string_of(cs: &[char]) -> (out: String)
    ensures
        out@ == cs@,
{
    let mut out = String::new();
    let n = cs.len();
    for i in 0..n
        invariant
            n == cs@.len(),
            out@ == cs@.take(i as int),
    {
        push_char(&mut out, cs[i]);
        assert(cs@.take(i + 1) == cs@.take(i as int).push(cs@[i as int]));
    }
    assert(cs@.take(n as int) == cs@);
    out
}


/// Unicode `White_Space`, the property that `char::is_whitespace` tests.
pub open spec fn is_white_space(c: char) -> bool {
    ||| ('\t' <= c && c <= '\r')
    ||| c == ' '
    ||| c == '\u{85}'
    ||| c == '\u{a0}'
    ||| c == '\u{1680}'
    ||| ('\u{2000}' <= c && c <= '\u{200a}')
    ||| c == '\u{2028}'
    ||| c == '\u{2029}'
    ||| c == '\u{202f}'
    ||| c == '\u{205f}'
    ||| c == '\u{3000}'
}

/// Whether `c` is Unicode white space.
pub fn is_whitespace(c: char) -> (r: bool)
    ensures
        r == is_white_space(c),
{
    ('\t' <= c && c <= '\r') || c == ' ' || c == '\u{85}' || c == '\u{a0}' || c == '\u{1680}'
        || ('\u{2000}' <= c && c <= '\u{200a}') || c == '\u{2028}' || c == '\u{2029}'
        || c == '\u{202f}' || c == '\u{205f}' || c == '\u{3000}'
}

/// `s` without its leading white space.
pub open spec fn trim_start_ws(s: Seq<char>) -> Seq<char>
    decreases s.len(),
{
    if s.len() > 0 && is_white_space(s[0]) {
        trim_start_ws(s.drop_first())
    } else {
        s
    }
}

/// `s` without its trailing white space.
pub open spec fn trim_end_ws(s: Seq<char>) -> Seq<char>
    decreases s.len(),
{
    if s.len() > 0 && is_white_space(s.last()) {
        trim_end_ws(s.drop_last())
    } else {
        s
    }
}

/// `s` without leading and trailing white space (`str::trim`).
pub open spec fn trim_ws(s: Seq<char>) -> Seq<char> {
    trim_end_ws(trim_start_ws(s))
}

proof fn lemma_trim_start_from(s: Seq<char>, i: int)
    requires
        0 <= i <= s.len(),
        forall|j: int| 0 <= j < i ==> is_white_space(#[trigger] s[j]),
    ensures
        trim_start_ws(s) == trim_start_ws(s.skip(i)),
    decreases i,
{
    if i > 0 {
        assert(is_white_space(s[0]));
        assert(s.drop_first().skip(i - 1) == s.skip(i));
        lemma_trim_start_from(s.drop_first(), i - 1);
    } else {
        assert(s.skip(0) == s);
    }
}

proof fn lemma_trim_end_to(s: Seq<char>, k: int)
    requires
        0 <= k <= s.len(),
        forall|j: int| k <= j < s.len() ==> is_white_space(#[trigger] s[j]),
    ensures
        trim_end_ws(s) == trim_end_ws(s.take(k)),
    decreases s.len() - k,
{
    if k < s.len() {
        assert(s.drop_last().take(k) == s.take(k));
        lemma_trim_end_to(s.drop_last(), k);
    } else {
        assert(s.take(k) == s);
    }
}

/// The bounds `(start, end)` of `s` with surrounding white space removed.
pub fn trim_bounds(s: &[char]) -> (r: (usize, usize))
    ensures
        r.0 <= r.1 <= s@.len(),
        s@.subrange(r.0 as int, r.1 as int) == trim_ws(s@),
{
    let n = s.len();
    let mut start: usize = 0;
    while start < n && is_whitespace(s[start])
        invariant
            start <= n == s@.len(),
            forall|j: int| 0 <= j < start ==> is_white_space(#[trigger] s@[j]),
        decreases n - start,
    {
        start = start + 1;
    }
    proof {
        lemma_trim_start_from(s@, start as int);
    }
    let ghost rest = s@.skip(start as int);
    let mut end: usize = n;
    while end > start && is_whitespace(s[end - 1])
        invariant
            start <= end <= n == s@.len(),
            rest == s@.skip(start as int),
            forall|j: int| end <= j < n ==> is_white_space(#[trigger] s@[j]),
        decreases end - start,
    {
        end = end - 1;
    }
    proof {
        assert forall|j: int| end - start <= j < rest.len() implies is_white_space(
            #[trigger] rest[j],
        ) by {
            assert(rest[j] == s@[j + start]);
        }
        lemma_trim_end_to(rest, end - start);
        assert(rest.take(end - start) == s@.subrange(start as int, end as int));
        if start < n {
            assert(!is_white_space(rest[0]));
        }
        assert(trim_start_ws(rest) == rest);
    }
    (start, end)
}


/// The characters of `s` from index `i` on.
pub open spec fn suffix(s: Seq<char>, i: usize) -> Seq<char> {
    s.skip(i as int)
}

/// The pieces of `s` selected by the index ranges in `b`.
pub open spec fn pieces(s: Seq<char>, b: Seq<(usize, usize)>) -> Seq<Seq<char>> {
    b.map_values(|p: (usize, usize)| s.subrange(p.0 as int, p.1 as int))
}

/// Whether every range in `b` lies within `0..n` and is ordered.
pub open spec fn ranges_within(b: Seq<(usize, usize)>, n: int) -> bool {
    forall|k: int| #![trigger b[k]] 0 <= k < b.len() ==> b[k].0 <= b[k].1 <= n
}

/// The maximal runs of characters of `s` that `sep` does not hold of (the non-empty pieces
/// of splitting `s` at every such separator).
pub open spec fn runs(s: Seq<char>, sep: spec_fn(char) -> bool) -> Seq<Seq<char>>
    decreases s.len(),
{
    if s.len() == 0 {
        seq![]
    } else {
        let t = runs(s.drop_last(), sep);
        if sep(s.last()) {
            t
        } else if s.len() == 1 || sep(s[s.len() - 2]) {
            t.push(seq![s.last()])
        } else {
            t.update(t.len() - 1, t.last().push(s.last()))
        }
    }
}

/// The word separators of file names: `_`, `-` and space.
pub open spec fn is_word_sep(c: char) -> bool {
    c == '_' || c == '-' || c == ' '
}

/// Runs end where separators begin: if the last character is not a separator, there is
/// at least one run.
pub proof fn lemma_runs_nonempty(s: Seq<char>, sep: spec_fn(char) -> bool)
    requires
        s.len() > 0,
        !sep(s.last()),
    ensures
        runs(s, sep).len() > 0,
    decreases s.len(),
{
    if s.len() >= 2 && !sep(s[s.len() - 2]) {
        lemma_runs_nonempty(s.drop_last(), sep);
    }
}

/// A word free of separators is its own only run.
pub proof fn lemma_runs_word(w: Seq<char>, sep: spec_fn(char) -> bool)
    requires
        w.len() > 0,
        forall|i: int| 0 <= i < w.len() ==> !sep(#[trigger] w[i]),
    ensures
        runs(w, sep) == seq![w],
    decreases w.len(),
{
    assert(!sep(w[w.len() - 1]));
    if w.len() == 1 {
        assert(w.drop_last() =~= Seq::<char>::empty());
        assert(w == seq![w.last()]);
        assert(runs(w.drop_last(), sep) =~= Seq::<Seq<char>>::empty());
        assert(Seq::<Seq<char>>::empty().push(seq![w.last()]) =~= seq![w]);
    } else {
        let t = w.drop_last();
        assert forall|i: int| 0 <= i < t.len() implies !sep(#[trigger] t[i]) by {
            assert(t[i] == w[i]);
        }
        lemma_runs_word(t, sep);
        assert(!sep(w[w.len() - 2]));
        assert(t.push(w.last()) == w);
        assert(seq![t].update(0, t.push(w.last())) =~= seq![w]);
    }
}

/// A separator between two texts splits their runs apart.
pub proof fn lemma_runs_concat(a: Seq<char>, x: char, b: Seq<char>, sep: spec_fn(char) -> bool)
    requires
        sep(x),
    ensures
        runs(a + seq![x] + b, sep) == runs(a, sep) + runs(b, sep),
    decreases b.len(),
{
    let s = a + seq![x] + b;
    if b.len() == 0 {
        assert(s.drop_last() == a);
        assert(runs(b, sep) =~= Seq::<Seq<char>>::empty());
    } else {
        let b0 = b.drop_last();
        lemma_runs_concat(a, x, b0, sep);
        assert(s.drop_last() == a + seq![x] + b0);
        assert(s.last() == b.last());
        if b.len() >= 2 {
            assert(s[s.len() - 2] == b[b.len() - 2]);
        } else {
            assert(s[s.len() - 2] == x);
        }
        if !sep(b.last()) && !(b.len() == 1 || sep(b[b.len() - 2])) {
            lemma_runs_nonempty(b0, sep);
            assert(b0.last() == b[b.len() - 2]);
        }
    }
}

/// The separator predicate for white space or, when `words` is set, for word separators.
pub open spec fn separator(words: bool) -> spec_fn(char) -> bool {
    if words {
        |c: char| is_word_sep(c)
    } else {
        |c: char| is_white_space(c)
    }
}

/// The white-space separated tokens of `s` (`str::split_whitespace`).
pub open spec fn ws_tokens(s: Seq<char>) -> Seq<Seq<char>> {
    runs(s, separator(false))
}

/// The words of a file name: the non-empty pieces between `_`, `-` and spaces.
pub open spec fn name_words(s: Seq<char>) -> Seq<Seq<char>> {
    runs(s, separator(true))
}

fn is_separator(c: char, words: bool) -> (r: bool)
    ensures
        r == (separator(words))(c),
{
    if words {
        c == '_' || c == '-' || c == ' '
    } else {
        is_whitespace(c)
    }
}

/// The pieces of `s` between occurrences of `sep` (`str::split`).
pub open spec fn split_on(s: Seq<char>, sep: char) -> Seq<Seq<char>>
    decreases s.len(),
{
    if s.len() == 0 {
        seq![seq![]]
    } else {
        let t = split_on(s.drop_last(), sep);
        if s.last() == sep {
            t.push(seq![])
        } else {
            t.update(t.len() - 1, t.last().push(s.last()))
        }
    }
}

/// The index ranges of the runs of `s` between separators (white space, or word separators
/// when `words` is set).
fn run_ranges(s: &[char], words: bool) -> (b: Vec<(usize, usize)>)
    ensures
        ranges_within(b@, s@.len() as int),
        pieces(s@, b@) == runs(s@, separator(words)),
{
    let n = s.len();
    let mut b: Vec<(usize, usize)> = Vec::new();
    for i in 0..n
        invariant
            n == s@.len(),
            ranges_within(b@, i as int),
            pieces(s@, b@) == runs(s@.take(i as int), separator(words)),
            i > 0 && !(separator(words))(s@[i - 1]) ==> b.len() > 0 && b@.last().1 == i,
    {
        let ghost pre = s@.take(i as int);
        let ghost cur = s@.take(i + 1);
        let ghost b0 = b@;
        assert(cur.drop_last() == pre);
        if is_separator(s[i], words) {
        } else if i == 0 || is_separator(s[i - 1], words) {
            let ghost before = b@;
            b.push((i, i + 1));
            assert(s@.subrange(i as int, i + 1) == seq![s@[i as int]]);
            assert(pieces(s@, b@) == pieces(s@, b@.drop_last()).push(seq![s@[i as int]]));
            assert(b@.drop_last() =~= before);
        } else {
            let last = b.len() - 1;
            let start = b[last].0;
            let ghost before = b@;
            b.set(last, (start, i + 1));
            assert(s@.subrange(start as int, i + 1) == s@.subrange(start as int, i as int).push(
                s@[i as int],
            ));
            assert(pieces(s@, b@) =~= pieces(s@, before).update(
                last as int,
                pieces(s@, before).last().push(s@[i as int]),
            ));
        }
        assert forall|k: int| 0 <= k < b@.len() implies #[trigger] b@[k].0 <= b@[k].1 <= i + 1 by {
            if k < b0.len() && b@[k] == b0[k] {
                assert(b0[k].1 <= i);
            }
        }
    }
    assert(s@.take(n as int) == s@);
    b
}


/// The index ranges of the white-space separated tokens of `s`.
pub fn token_ranges(s: &[char]) -> (b: Vec<(usize, usize)>)
    ensures
        ranges_within(b@, s@.len() as int),
        pieces(s@, b@) == ws_tokens(s@),
{
    run_ranges(s, false)
}

/// The index ranges of the words of the file name `s`.
pub fn word_ranges(s: &[char]) -> (b: Vec<(usize, usize)>)
    ensures
        ranges_within(b@, s@.len() as int),
        pieces(s@, b@) == name_words(s@),
{
    run_ranges(s, true)
}

proof fn lemma_split_on_nonempty(s: Seq<char>, sep: char)
    ensures
        split_on(s, sep).len() > 0,
    decreases s.len(),
{
    if s.len() > 0 {
        lemma_split_on_nonempty(s.drop_last(), sep);
    }
}

/// The index ranges of the pieces of `s` between occurrences of `sep`.
pub fn split_ranges(s: &[char], sep: char) -> (b: Vec<(usize, usize)>)
    ensures
        ranges_within(b@, s@.len() as int),
        pieces(s@, b@) == split_on(s@, sep),
{
    let n = s.len();
    let mut b: Vec<(usize, usize)> = Vec::new();
    b.push((0, 0));
    assert(pieces(s@, b@) =~= split_on(s@.take(0), sep)) by {
        assert(s@.subrange(0, 0) =~= Seq::<char>::empty());
    }
    for i in 0..n
        invariant
            n == s@.len(),
            ranges_within(b@, i as int),
            b.len() > 0,
            b@.last().1 == i,
            pieces(s@, b@) == split_on(s@.take(i as int), sep),
    {
        let ghost pre = s@.take(i as int);
        let ghost cur = s@.take(i + 1);
        assert(cur.drop_last() == pre);
        let ghost before = b@;
        if s[i] == sep {
            b.push((i + 1, i + 1));
            assert(s@.subrange(i + 1, i + 1) =~= Seq::<char>::empty());
            assert(pieces(s@, b@) =~= pieces(s@, before).push(seq![]));
        } else {
            let last = b.len() - 1;
            let start = b[last].0;
            b.set(last, (start, i + 1));
            assert(s@.subrange(start as int, i + 1) == s@.subrange(start as int, i as int).push(
                s@[i as int],
            ));
            assert(pieces(s@, b@) =~= pieces(s@, before).update(
                last as int,
                pieces(s@, before).last().push(s@[i as int]),
            ));
        }
    }
    assert(s@.take(n as int) == s@);
    b
}

/// The characters of `s` before the first `c` (all of `s` if there is none).
pub open spec fn before_first(s: Seq<char>, c: char) -> Seq<char>
    decreases s.len(),
{
    if s.len() == 0 || s[0] == c {
        seq![]
    } else {
        seq![s[0]] + before_first(s.drop_first(), c)
    }
}

/// What precedes the first `c` is a prefix free of `c`, followed by `c` where `s` holds one.
pub proof fn lemma_before_first_prefix(s: Seq<char>, c: char) -> (k: int)
    ensures
        0 <= k <= s.len(),
        before_first(s, c) == s.take(k),
        !before_first(s, c).contains(c),
        k < s.len() ==> s[k] == c,
        s.contains(c) ==> k < s.len(),
    decreases s.len(),
{
    if s.len() == 0 {
        assert(s.take(0) =~= Seq::<char>::empty());
        0
    } else if s[0] == c {
        assert(s.take(0) =~= Seq::<char>::empty());
        0
    } else {
        let t = s.drop_first();
        let k1 = lemma_before_first_prefix(t, c);
        assert(s.take(k1 + 1) =~= seq![s[0]] + t.take(k1));
        let b = before_first(s, c);
        assert(b == seq![s[0]] + before_first(t, c));
        if b.contains(c) {
            let j = choose|j: int| 0 <= j < b.len() && b[j] == c;
            assert(j > 0);
            assert(before_first(t, c)[j - 1] == c);
        }
        if s.contains(c) {
            let j = choose|j: int| 0 <= j < s.len() && s[j] == c;
            assert(j > 0);
            assert(t[j - 1] == c);
        }
        k1 + 1
    }
}

/// The length of the longest prefix of `s` free of `c`.
pub fn position_or_len(s: &[char], c: char) -> (k: usize)
    ensures
        k <= s@.len(),
        s@.take(k as int) == before_first(s@, c),
        k < s@.len() ==> s@[k as int] == c,
        forall|j: int| 0 <= j < k ==> s@[j] != c,
{
    let n = s.len();
    let mut k: usize = 0;
    assert(s@.skip(0) == s@);
    assert(s@.take(0) + before_first(s@, c) == before_first(s@, c));
    while k < n && s[k] != c
        invariant
            k <= n == s@.len(),
            forall|j: int| 0 <= j < k ==> s@[j] != c,
            before_first(s@, c) == s@.take(k as int) + before_first(s@.skip(k as int), c),
        decreases n - k,
    {
        let ghost rest = s@.skip(k as int);
        assert(rest.drop_first() == s@.skip(k + 1));
        assert(s@.take(k + 1) == s@.take(k as int) + seq![s@[k as int]]);
        k = k + 1;
    }
    let ghost rest = s@.skip(k as int);
    assert(before_first(rest, c) == Seq::<char>::empty());
    k
}


/// An ASCII decimal digit.
pub open spec fn is_digit(c: char) -> bool {
    '0' <= c && c <= '9'
}

/// The value of an ASCII decimal digit.
pub open spec fn digit_value(c: char) -> nat {
    (c as u32 - '0' as u32) as nat
}

/// The number written by the decimal digits `d`.
pub open spec fn digits_value(d: Seq<char>) -> nat
    decreases d.len(),
{
    if d.len() == 0 {
        0
    } else {
        digits_value(d.drop_last()) * 10 + digit_value(d.last())
    }
}

/// What `str::parse` accepts for an unsigned integer: an optional `+`, then one or more
/// ASCII digits; the number they write, before any bound on the type's range.
pub open spec fn unsigned_value(s: Seq<char>) -> Option<nat> {
    let d = unsigned_digits(s);
    if d.len() > 0 && all_digits(d) {
        Some(digits_value(d))
    } else {
        None
    }
}

/// `s` without a leading `+`.
pub open spec fn unsigned_digits(s: Seq<char>) -> Seq<char> {
    if s.len() > 0 && s[0] == '+' {
        s.drop_first()
    } else {
        s
    }
}

/// Every character of `d` is an ASCII digit.
pub open spec fn all_digits(d: Seq<char>) -> bool {
    forall|i: int| 0 <= i < d.len() ==> is_digit(#[trigger] d[i])
}

/// `str::parse` into an unsigned type whose largest value is `max`.
pub open spec fn parse_unsigned(s: Seq<char>, max: nat) -> Option<nat> {
    match unsigned_value(s) {
        Some(v) => if v <= max {
            Some(v)
        } else {
            None
        },
        None => None,
    }
}

proof fn lemma_digits_value_grows(d: Seq<char>, k: int)
    requires
        0 <= k <= d.len(),
        forall|i: int| 0 <= i < d.len() ==> is_digit(#[trigger] d[i]),
    ensures
        digits_value(d) >= digits_value(d.take(k)),
    decreases d.len() - k,
{
    if k < d.len() {
        assert(d.drop_last().take(k) == d.take(k));
        lemma_digits_value_grows(d.drop_last(), k);
    } else {
        assert(d.take(k) == d);
    }
}

/// Parses `s` as `str::parse::<u64>` does.
pub fn parse_u64(s: &[char]) -> (r: Option<u64>)
    ensures
        r matches Some(v) ==> parse_unsigned(s@, u64::MAX as nat) == Some(v as nat),
        r is None ==> parse_unsigned(s@, u64::MAX as nat) is None,
{
    let n = s.len();
    let start: usize = if n > 0 && s[0] == '+' {
        1
    } else {
        0
    };
    let ghost d = unsigned_digits(s@);
    assert(d == s@.skip(start as int));
    if start == n {
        return None;
    }
    let mut value: u64 = 0;
    let mut i: usize = start;
    while i < n
        invariant
            start <= i <= n == s@.len(),
            start < n,
            d == s@.skip(start as int),
            d == unsigned_digits(s@),
            forall|j: int| start <= j < i ==> is_digit(#[trigger] s@[j]),
            value as nat == digits_value(d.take(i - start)),
        decreases n - i,
    {
        let c = s[i];
        assert(d[i - start] == c);
        if !('0' <= c && c <= '9') {
            assert(!is_digit(d[i - start]));
            assert(!all_digits(d));
            return None;
        }
        let dv = (c as u32 - '0' as u32) as u64;
        assert(d.take(i + 1 - start).drop_last() == d.take(i - start));
        assert(d.take(i + 1 - start).last() == c);
        assert(digits_value(d.take(i + 1 - start)) == value * 10 + dv);
        match value.checked_mul(10) {
            Some(m) => match m.checked_add(dv) {
                Some(v) => {
                    value = v;
                },
                None => {
                    proof {
                        let k = i + 1 - start;
                        if all_digits(d) {
                            lemma_digits_value_grows(d, k);
                            assert(digits_value(d) > u64::MAX);
                        }
                    }
                    return None;
                },
            },
            None => {
                proof {
                    let k = i + 1 - start;
                    if all_digits(d) {
                        lemma_digits_value_grows(d, k);
                    }
                }
                return None;
            },
        }
        i = i + 1;
    }
    assert(d.take(n - start) == d);
    assert forall|j: int| 0 <= j < d.len() implies is_digit(#[trigger] d[j]) by {
        assert(d[j] == s@[j + start]);
    }
    Some(value)
}

/// The ASCII digit for `d < 10`.
pub open spec fn digit_char(d: nat) -> char {
    ((d + '0' as u32) as u32) as char
}

/// The decimal numeral of `n`, without leading zeros.
pub open spec fn decimal(n: nat) -> Seq<char>
    decreases n,
{
    if n < 10 {
        seq![digit_char(n)]
    } else {
        decimal(n / 10).push(digit_char(n % 10))
    }
}

proof fn lemma_digit_char(n: nat)
    requires
        n < 10,
    ensures
        digit_value(digit_char(n)) == n,
        is_digit(digit_char(n)),
        is_ascii_char(digit_char(n)),
{
    let u = (n + '0' as u32) as u32;
    vstd::utf8::char_u32_cast(digit_char(n), u);
}

/// A decimal numeral is a non-empty run of ASCII digits that writes its number.
pub proof fn lemma_decimal_digits(n: nat)
    ensures
        decimal(n).len() > 0,
        all_digits(decimal(n)),
        digits_value(decimal(n)) == n,
    decreases n,
{
    if n < 10 {
        lemma_digit_char(n);
        assert(decimal(n).drop_last() =~= Seq::<char>::empty());
        assert(decimal(n).last() == digit_char(n));
        assert(digits_value(decimal(n)) == digits_value(decimal(n).drop_last()) * 10 + digit_value(
            decimal(n).last(),
        ));
    } else {
        lemma_decimal_digits(n / 10);
        lemma_digit_char(n % 10);
        let d = decimal(n);
        assert(d.drop_last() == decimal(n / 10));
        assert(d.last() == digit_char(n % 10));
        assert(digits_value(d) == digits_value(d.drop_last()) * 10 + digit_value(d.last()));
        assert((n / 10) * 10 + n % 10 == n);
        assert forall|i: int| 0 <= i < d.len() implies is_digit(#[trigger] d[i]) by {
            if i < d.len() - 1 {
                assert(d[i] == decimal(n / 10)[i]);
            }
        }
    }
}

/// Reading back a number written in decimal gives the number, in any type it fits.
pub proof fn lemma_parse_decimal(n: nat, max: nat)
    requires
        n <= max,
    ensures
        parse_unsigned(decimal(n), max) == Some(n),
{
    lemma_decimal_digits(n);
    let d = decimal(n);
    assert(is_digit(d[0]));
    assert(unsigned_digits(d) == d);
}

/// The decimal numeral of `n` (`u64::to_string`).
pub fn decimal_chars(n: u64) -> (out: Vec<char>)
    ensures
        out@ == decimal(n as nat),
{
    let mut m: u64 = n;
    let mut out: Vec<char> = Vec::new();
    loop
        invariant
            decimal(n as nat) == decimal(m as nat) + out@,
        decreases m,
    {
        let d = (m % 10) as u8;
        let c = (d + 48u8) as char;
        assert(c == digit_char((m % 10) as nat));
        out.insert(0, c);
        if m < 10 {
            return out;
        }
        m = m / 10;
    }
}


/// `pat` occurs in `s` starting at index `i`.
pub open spec fn occurs_at(s: Seq<char>, pat: Seq<char>, i: int) -> bool {
    0 <= i && i + pat.len() <= s.len() && s.subrange(i, i + pat.len()) == pat
}

/// `pat` occurs somewhere in `s` (`str::contains`).
pub open spec fn contains(s: Seq<char>, pat: Seq<char>) -> bool {
    exists|i: int| occurs_at(s, pat, i)
}

/// `s` with every non-overlapping occurrence of `pat`, scanned from the left, replaced by
/// `rep` (`str::replace`, for a non-empty pattern).
pub open spec fn replace_all(s: Seq<char>, pat: Seq<char>, rep: Seq<char>) -> Seq<char>
    decreases s.len(),
{
    if s.len() == 0 {
        seq![]
    } else if pat.len() > 0 && pat.len() <= s.len() && s.take(pat.len() as int) == pat {
        rep + replace_all(s.skip(pat.len() as int), pat, rep)
    } else {
        seq![s[0]] + replace_all(s.drop_first(), pat, rep)
    }
}

/// `s` with its first occurrence of `pat` replaced by `rep` (`str::replacen(.., 1)`, for a
/// non-empty pattern).
pub open spec fn replace_first(s: Seq<char>, pat: Seq<char>, rep: Seq<char>) -> Seq<char>
    decreases s.len(),
{
    if s.len() == 0 {
        seq![]
    } else if pat.len() > 0 && pat.len() <= s.len() && s.take(pat.len() as int) == pat {
        rep + s.skip(pat.len() as int)
    } else {
        seq![s[0]] + replace_first(s.drop_first(), pat, rep)
    }
}

/// Where `pat` occurs in `s`, replacing every occurrence puts `rep` in the result.
pub proof fn lemma_replace_all_contains(s: Seq<char>, pat: Seq<char>, rep: Seq<char>)
    requires
        pat.len() > 0,
        contains(s, pat),
    ensures
        contains(replace_all(s, pat, rep), rep),
    decreases s.len(),
{
    let i = choose|i: int| occurs_at(s, pat, i);
    if pat.len() <= s.len() && s.take(pat.len() as int) == pat {
        let r = replace_all(s, pat, rep);
        assert(r.subrange(0, rep.len() as int) == rep);
        assert(occurs_at(r, rep, 0));
    } else {
        if i == 0 {
            assert(s.take(pat.len() as int) == s.subrange(0, pat.len() as int));
        }
        assert(i > 0);
        let t = s.drop_first();
        assert(t.subrange(i - 1, i - 1 + pat.len()) == s.subrange(i, i + pat.len()));
        assert(occurs_at(t, pat, i - 1));
        lemma_replace_all_contains(t, pat, rep);
        let rt = replace_all(t, pat, rep);
        let j = choose|j: int| occurs_at(rt, rep, j);
        let r = replace_all(s, pat, rep);
        assert(r == seq![s[0]] + rt);
        assert(r.subrange(j + 1, j + 1 + rep.len()) == rt.subrange(j, j + rep.len()));
        assert(occurs_at(r, rep, j + 1));
    }
}

/// The pieces joined with `sep` between each two (`[..].join(sep)`).
pub open spec fn joined(ws: Seq<Seq<char>>, sep: Seq<char>) -> Seq<char>
    decreases ws.len(),
{
    if ws.len() == 0 {
        seq![]
    } else if ws.len() == 1 {
        ws[0]
    } else {
        joined(ws.drop_last(), sep) + sep + ws.last()
    }
}

/// `s` holds two copies of `c` in a row.
pub open spec fn has_pair(s: Seq<char>, c: char) -> bool {
    exists|i: int| 0 <= i < s.len() - 1 && #[trigger] s[i] == c && s[i + 1] == c
}

/// Containing `cc` is holding two `c` in a row.
pub proof fn lemma_contains_pair(s: Seq<char>, c: char)
    ensures
        contains(s, seq![c, c]) == has_pair(s, c),
{
    if contains(s, seq![c, c]) {
        let i = choose|i: int| occurs_at(s, seq![c, c], i);
        assert(s.subrange(i, i + 2)[0] == s[i]);
        assert(s.subrange(i, i + 2)[1] == s[i + 1]);
    }
    if has_pair(s, c) {
        let i = choose|i: int| 0 <= i < s.len() - 1 && #[trigger] s[i] == c && s[i + 1] == c;
        assert(s.subrange(i, i + 2) =~= seq![c, c]);
        assert(occurs_at(s, seq![c, c], i));
    }
}

/// Two texts without a pair of `c` make one without, unless one ends and the other starts
/// with `c`.
pub proof fn lemma_pair_concat(a: Seq<char>, b: Seq<char>, c: char)
    requires
        !has_pair(a, c),
        !has_pair(b, c),
        !(a.len() > 0 && b.len() > 0 && a.last() == c && b[0] == c),
    ensures
        !has_pair(a + b, c),
{
    let s = a + b;
    assert forall|i: int| 0 <= i < s.len() - 1 && #[trigger] s[i] == c implies s[i + 1] != c by {
        if i + 1 < a.len() {
            assert(s[i] == a[i] && s[i + 1] == a[i + 1]);
        } else if i >= a.len() {
            assert(s[i] == b[i - a.len()] && s[i + 1] == b[i - a.len() + 1]);
        } else {
            assert(s[i] == a.last() && s[i + 1] == b[0]);
        }
    }
}

/// Whether `pat` occurs in `s` at index `i`.
pub fn matches_at(s: &[char], pat: &[char], i: usize) -> (r: bool)
    ensures
        r == occurs_at(s@, pat@, i as int),
{
    if i > s.len() || pat.len() > s.len() - i {
        return false;
    }
    let m = pat.len();
    for k in 0..m
        invariant
            m == pat@.len(),
            i + m <= s.len(),
            forall|j: int| 0 <= j < k ==> s@[i + j] == pat@[j],
    {
        if s[i + k] != pat[k] {
            assert(s@.subrange(i as int, i + m)[k as int] != pat@[k as int]);
            return false;
        }
    }
    assert(s@.subrange(i as int, i + m) =~= pat@);
    true
}

/// Whether `pat` occurs anywhere in `s`.
pub fn contains_chars(s: &[char], pat: &[char]) -> (r: bool)
    ensures
        r == contains(s@, pat@),
{
    let n = s.len();
    for i in 0..n
        invariant
            n == s@.len(),
            forall|j: int| 0 <= j < i ==> !occurs_at(s@, pat@, j),
    {
        if matches_at(s, pat, i) {
            return true;
        }
    }
    if matches_at(s, pat, n) {
        return true;
    }
    assert forall|j: int| !occurs_at(s@, pat@, j) by {
        if 0 <= j <= n {
        }
    }
    false
}

proof fn lemma_skip_take(s: Seq<char>, i: int, m: int)
    requires
        0 <= i,
        0 <= m,
        i + m <= s.len(),
    ensures
        s.skip(i).take(m) == s.subrange(i, i + m),
        s.skip(i).skip(m) == s.skip(i + m),
        s.skip(i).len() == s.len() - i,
{
    assert(s.skip(i).take(m) =~= s.subrange(i, i + m));
    assert(s.skip(i).skip(m) =~= s.skip(i + m));
}

/// Appends `replace_all(s, pat, rep)` to `out`, for a non-empty pattern.
pub(crate) fn push_replaced_all(out: &mut String, s: &[char], pat: &[char], rep: &str)
    requires
        pat@.len() > 0,
    ensures
        final(out)@ == old(out)@ + replace_all(s@, pat@, rep@),
{
    let n = s.len();
    let m = pat.len();
    let mut i: usize = 0;
    assert(s@.skip(0) == s@);
    while i < n
        invariant
            n == s@.len(),
            m == pat@.len(),
            m > 0,
            i <= n,
            old(out)@ + replace_all(s@, pat@, rep@) == out@ + replace_all(s@.skip(i as int), pat@, rep@),
        decreases n - i,
    {
        let ghost rest = s@.skip(i as int);
        if matches_at(s, pat, i) {
            proof {
                lemma_skip_take(s@, i as int, m as int);
            }
            out.append(rep);
            i = i + m;
        } else {
            proof {
                if m <= rest.len() {
                    lemma_skip_take(s@, i as int, m as int);
                }
                assert(rest.drop_first() == s@.skip(i + 1));
            }
            push_char(out, s[i]);
            i = i + 1;
        }
    }
    assert(s@.skip(n as int) =~= Seq::<char>::empty());
}

/// Appends `replace_first(s, pat, rep)` to `out`, for a non-empty pattern.
pub(crate) fn push_replaced_first(out: &mut String, s: &[char], pat: &[char], rep: &str)
    requires
        pat@.len() > 0,
    ensures
        final(out)@ == old(out)@ + replace_first(s@, pat@, rep@),
{
    let n = s.len();
    let m = pat.len();
    let mut i: usize = 0;
    assert(s@.skip(0) == s@);
    while i < n
        invariant
            n == s@.len(),
            m == pat@.len(),
            m > 0,
            i <= n,
            old(out)@ + replace_first(s@, pat@, rep@) == out@ + replace_first(s@.skip(i as int), pat@, rep@),
        decreases n - i,
    {
        let ghost rest = s@.skip(i as int);
        if matches_at(s, pat, i) {
            proof {
                lemma_skip_take(s@, i as int, m as int);
            }
            out.append(rep);
            while i + m < n
                invariant
                    n == s@.len(),
                    i + m <= n,
                    old(out)@ + replace_first(s@, pat@, rep@) == out@ + s@.skip(i + m),
                decreases n - i - m,
            {
                proof {
                    assert(s@.skip(i + m) == seq![s@[i + m]] + s@.skip(i + m + 1));
                }
                push_char(out, s[i + m]);
                i = i + 1;
            }
            assert(s@.skip(i + m) =~= Seq::<char>::empty());
            return;
        } else {
            proof {
                if m <= rest.len() {
                    lemma_skip_take(s@, i as int, m as int);
                }
                assert(rest.drop_first() == s@.skip(i + 1));
            }
            push_char(out, s[i]);
            i = i + 1;
        }
    }
    assert(s@.skip(n as int) =~= Seq::<char>::empty());
}


/// ASCII letters and digits.
pub open spec fn is_ascii_alphanumeric(c: char) -> bool {
    ('0' <= c && c <= '9') || ('a' <= c && c <= 'z') || ('A' <= c && c <= 'Z')
}

/// The lowercase form of an ASCII letter; any other character unchanged.
pub open spec fn ascii_lower(c: char) -> char {
    if 'A' <= c && c <= 'Z' {
        ((c as u32 + 32) as u32) as char
    } else {
        c
    }
}

/// The uppercase form of an ASCII letter; any other character unchanged.
pub open spec fn ascii_upper(c: char) -> char {
    if 'a' <= c && c <= 'z' {
        ((c as u32 - 32) as u32) as char
    } else {
        c
    }
}

/// A character below U+0080.
pub open spec fn is_ascii_char(c: char) -> bool {
    (c as u32) < 128
}

/// What `char::is_alphanumeric` answers for `c`.
pub uninterp spec fn alphanumeric(c: char) -> bool;

/// What `char::to_lowercase` yields for `c`.
pub uninterp spec fn lowercase_char(c: char) -> Seq<char>;

/// What `char::to_uppercase` yields for `c`.
pub uninterp spec fn uppercase_char(c: char) -> Seq<char>;

/// What `str::to_lowercase` returns for `s`.
pub uninterp spec fn lowercase_str(s: Seq<char>) -> Seq<char>;

/// Whether `c` is alphanumeric: for ASCII, a letter or digit; beyond ASCII, as Unicode's
/// alphabetic and numeric properties have it.
pub open spec fn is_alnum(c: char) -> bool {
    if is_ascii_char(c) {
        is_ascii_alphanumeric(c)
    } else {
        alphanumeric(c)
    }
}

/// The lowercase mapping of `c`: ASCII lowercase for ASCII, Unicode's mapping beyond.
pub open spec fn char_lower(c: char) -> Seq<char> {
    if is_ascii_char(c) {
        seq![ascii_lower(c)]
    } else {
        lowercase_char(c)
    }
}

/// The uppercase mapping of `c`: ASCII uppercase for ASCII, Unicode's mapping beyond.
pub open spec fn char_upper(c: char) -> Seq<char> {
    if is_ascii_char(c) {
        seq![ascii_upper(c)]
    } else {
        uppercase_char(c)
    }
}

/// Every character of `s` is ASCII.
pub open spec fn all_ascii(s: Seq<char>) -> bool {
    forall|i: int| 0 <= i < s.len() ==> is_ascii_char(#[trigger] s[i])
}

/// The lowercase form of `s`: character by character ASCII lowercase for ASCII text,
/// Unicode's full mapping beyond.
pub open spec fn str_lower(s: Seq<char>) -> Seq<char> {
    if all_ascii(s) {
        s.map_values(|c: char| ascii_lower(c))
    } else {
        lowercase_str(s)
    }
}

/// `char::is_alphanumeric`: whether `c` is alphabetic or numeric in Unicode's sense; among
/// ASCII characters exactly the letters and digits are.
#[verifier::external_body]
pub(crate) fn is_alphanumeric(c: char) -> (r: bool)
    ensures
        r == alphanumeric(c),
        r == is_alnum(c),
{
    c.is_alphanumeric()
}

/// `char::to_lowercase`: the lowercase mapping of `c`, one or more characters; an ASCII
/// character maps to its ASCII lowercase.
#[verifier::external_body]
pub(crate) fn to_lowercase_char(c: char) -> (r: Vec<char>)
    ensures
        r@ == lowercase_char(c),
        r@ == char_lower(c),
{
    c.to_lowercase().collect()
}

/// `char::to_uppercase`: the uppercase mapping of `c`, one or more characters; an ASCII
/// character maps to its ASCII uppercase.
#[verifier::external_body]
pub(crate) fn to_uppercase_char(c: char) -> (r: Vec<char>)
    ensures
        r@ == uppercase_char(c),
        r@ == char_upper(c),
{
    c.to_uppercase().collect()
}

/// `str::to_lowercase`: the lowercase form of `s`; ASCII text maps character by character to
/// ASCII lowercase.
#[verifier::external_body]
pub(crate) fn to_lowercase_str(s: &str) -> (r: String)
    ensures
        r@ == lowercase_str(s@),
        r@ == str_lower(s@),
{
    s.to_lowercase()
}

/// `s` without trailing copies of `c`.
pub open spec fn trim_end_char(s: Seq<char>, c: char) -> Seq<char>
    decreases s.len(),
{
    if s.len() > 0 && s.last() == c {
        trim_end_char(s.drop_last(), c)
    } else {
        s
    }
}

/// `s` without leading copies of `c`.
pub open spec fn trim_start_char(s: Seq<char>, c: char) -> Seq<char>
    decreases s.len(),
{
    if s.len() > 0 && s[0] == c {
        trim_start_char(s.drop_first(), c)
    } else {
        s
    }
}

proof fn lemma_trim_start_char_from(s: Seq<char>, c: char, i: int)
    requires
        0 <= i <= s.len(),
        forall|j: int| 0 <= j < i ==> #[trigger] s[j] == c,
    ensures
        trim_start_char(s, c) == trim_start_char(s.skip(i), c),
    decreases i,
{
    if i > 0 {
        assert(s[0] == c);
        assert(s.drop_first().skip(i - 1) == s.skip(i));
        lemma_trim_start_char_from(s.drop_first(), c, i - 1);
    } else {
        assert(s.skip(0) == s);
    }
}

proof fn lemma_trim_end_char_to(s: Seq<char>, c: char, k: int)
    requires
        0 <= k <= s.len(),
        forall|j: int| k <= j < s.len() ==> #[trigger] s[j] == c,
    ensures
        trim_end_char(s, c) == trim_end_char(s.take(k), c),
    decreases s.len() - k,
{
    if k < s.len() {
        assert(s.drop_last().take(k) == s.take(k));
        lemma_trim_end_char_to(s.drop_last(), c, k);
    } else {
        assert(s.take(k) == s);
    }
}

/// The length of `s` once trailing copies of `c` are dropped (`str::trim_end_matches`).
pub fn trim_end_char_len(s: &[char], c: char) -> (k: usize)
    ensures
        k <= s@.len(),
        s@.take(k as int) == trim_end_char(s@, c),
{
    let mut k = s.len();
    while k > 0 && s[k - 1] == c
        invariant
            k <= s@.len(),
            forall|j: int| k <= j < s@.len() ==> #[trigger] s@[j] == c,
        decreases k,
    {
        k = k - 1;
    }
    proof {
        lemma_trim_end_char_to(s@, c, k as int);
        let t = s@.take(k as int);
        if k > 0 {
            assert(t.last() != c);
        }
    }
    k
}

/// The number of leading copies of `c` in `s` (what `str::trim_start_matches` drops).
pub fn trim_start_char_len(s: &[char], c: char) -> (k: usize)
    ensures
        k <= s@.len(),
        s@.skip(k as int) == trim_start_char(s@, c),
{
    let n = s.len();
    let mut k: usize = 0;
    while k < n && s[k] == c
        invariant
            k <= n == s@.len(),
            forall|j: int| 0 <= j < k ==> #[trigger] s@[j] == c,
        decreases n - k,
    {
        k = k + 1;
    }
    proof {
        lemma_trim_start_char_from(s@, c, k as int);
        let t = s@.skip(k as int);
        if k < n {
            assert(t[0] != c);
        }
    }
    k
}

/// Dropping leading copies of `c` leaves a suffix that does not start with `c`.
pub proof fn lemma_trim_start_char_suffix(s: Seq<char>, c: char) -> (k: int)
    ensures
        0 <= k <= s.len(),
        trim_start_char(s, c) == s.skip(k),
        k < s.len() ==> s[k] != c,
    decreases s.len(),
{
    if s.len() > 0 && s[0] == c {
        let k1 = lemma_trim_start_char_suffix(s.drop_first(), c);
        assert(s.drop_first().skip(k1) == s.skip(k1 + 1));
        k1 + 1
    } else {
        assert(s.skip(0) == s);
        0
    }
}

/// Dropping trailing copies of `c` leaves a prefix that does not end with `c`.
pub proof fn lemma_trim_end_char_prefix(s: Seq<char>, c: char) -> (k: int)
    ensures
        0 <= k <= s.len(),
        trim_end_char(s, c) == s.take(k),
        k > 0 ==> s[k - 1] != c,
    decreases s.len(),
{
    if s.len() > 0 && s.last() == c {
        let k1 = lemma_trim_end_char_prefix(s.drop_last(), c);
        assert(s.drop_last().take(k1) == s.take(k1));
        k1
    } else {
        assert(s.take(s.len() as int) == s);
        s.len() as int
    }
}

/// Whether `s` starts with `pre`.
pub open spec fn has_prefix(s: Seq<char>, pre: Seq<char>) -> bool {
    pre.len() <= s.len() && s.take(pre.len() as int) == pre
}

/// Whether the characters `s` start with the characters of `pre`.
pub fn starts_with(s: &[char], pre: &str) -> (r: bool)
    ensures
        r == has_prefix(s@, pre@),
{
    let p = chars_of(pre);
    let r = matches_at(s, p.as_slice(), 0);
    assert(s@.subrange(0, p@.len() as int) == s@.take(p@.len() as int));
    r
}

/// Whether the characters `s` are exactly those of `lit`.
pub fn eq_str(s: &[char], lit: &str) -> (r: bool)
    ensures
        r == (s@ == lit@),
{
    let p = chars_of(lit);
    if p.len() != s.len() {
        return false;
    }
    let r = matches_at(s, p.as_slice(), 0);
    assert(s@.subrange(0, s@.len() as int) == s@);
    r
}

} // verus!
