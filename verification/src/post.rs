//! Posts: what a markdown source declares about itself (title, date), the slug it is served
//! under, and the order in which posts are listed.
use vstd::prelude::*;
use vstd::slice::slice_subrange;
use crate::text::{
    decimal, is_digit, is_white_space, lemma_decimal_digits, lemma_parse_decimal,
    lemma_runs_concat, lemma_runs_word, runs, separator,
    all_ascii, char_lower, char_upper, is_alnum, lowercase_char, lemma_trim_end_char_prefix,
    lemma_trim_start_char_suffix, is_alphanumeric, name_words, push_char, to_lowercase_char,
    to_uppercase_char, trim_start_char, trim_start_char_len, word_ranges,
    chars_of, eq_str, joined, has_prefix, parse_u64, parse_unsigned, pieces, ranges_within,
    split_on, split_ranges, starts_with, string_of, token_ranges, trim_bounds, trim_end_char,
    trim_end_char_len, trim_ws, ws_tokens,
};

verus! {

/// The title a line declares: a line that, trimmed, starts with `# `; the title is the rest,
/// trimmed.
pub open spec fn line_title(line: Seq<char>) -> Option<Seq<char>> {
    let t = trim_ws(line);
    if has_prefix(t, "# "@) {
        Some(trim_ws(t.skip(2)))
    } else {
        None
    }
}

/// The date a line declares: a line that, trimmed, starts with `### date:` and has something
/// after it; the date is that rest, trimmed.
pub open spec fn line_date(line: Seq<char>) -> Option<Seq<char>> {
    let t = trim_ws(line);
    if has_prefix(t, "### date:"@) {
        let d = trim_ws(t.skip(9));
        if d.len() > 0 {
            Some(d)
        } else {
            None
        }
    } else {
        None
    }
}

/// The first of `lines` for which `f` finds something, and what it finds.
pub open spec fn first_found(lines: Seq<Seq<char>>, f: spec_fn(Seq<char>) -> Option<Seq<char>>) -> Option<Seq<char>>
    decreases lines.len(),
{
    if lines.len() == 0 {
        None
    } else {
        match f(lines[0]) {
            Some(x) => Some(x),
            None => first_found(lines.drop_first(), f),
        }
    }
}

/// The lines of `src`. `str::lines` also drops a `\r` before each line break and the empty
/// piece after a final one; both are white space that every use below trims away.
pub open spec fn lines_of(src: Seq<char>) -> Seq<Seq<char>> {
    split_on(src, '\n')
}

/// The post's title: its first level-1 heading.
pub open spec fn markdown_title(src: Seq<char>) -> Option<Seq<char>> {
    first_found(lines_of(src), |l: Seq<char>| line_title(l))
}

/// The post's date: its first non-empty `### date:` line.
pub open spec fn markdown_date(src: Seq<char>) -> Option<Seq<char>> {
    first_found(lines_of(src), |l: Seq<char>| line_date(l))
}

proof fn lemma_first_found_at(lines: Seq<Seq<char>>, f: spec_fn(Seq<char>) -> Option<Seq<char>>, k: int)
    requires
        0 <= k <= lines.len(),
        forall|j: int| 0 <= j < k ==> f(#[trigger] lines[j]) is None,
    ensures
        first_found(lines, f) == first_found(lines.skip(k), f),
    decreases k,
{
    if k > 0 {
        assert(f(lines[0]) is None);
        assert(lines.drop_first().skip(k - 1) == lines.skip(k));
        lemma_first_found_at(lines.drop_first(), f, k - 1);
    } else {
        assert(lines.skip(0) == lines);
    }
}

/// The title a line of characters declares, if any.
fn title_of_line(line: &[char]) -> (r: Option<String>)
    ensures
        r matches Some(t) ==> line_title(line@) == Some(t@),
        r is None ==> line_title(line@) is None,
{
    let (a, b) = trim_bounds(line);
    let t = slice_subrange(line, a, b);
    if starts_with(t, "# ") {
        proof {
            reveal_strlit("# ");
        }
        let rest = slice_subrange(t, 2, t.len());
        let (c, d) = trim_bounds(rest);
        let title = slice_subrange(rest, c, d);
        assert(rest@ == t@.skip(2));
        Some(string_of(title))
    } else {
        None
    }
}

/// The date a line of characters declares, if any.
fn date_of_line(line: &[char]) -> (r: Option<String>)
    ensures
        r matches Some(t) ==> line_date(line@) == Some(t@),
        r is None ==> line_date(line@) is None,
{
    let (a, b) = trim_bounds(line);
    let t = slice_subrange(line, a, b);
    if starts_with(t, "### date:") {
        proof {
            reveal_strlit("### date:");
        }
        let rest = slice_subrange(t, 9, t.len());
        let (c, d) = trim_bounds(rest);
        assert(rest@ == t@.skip(9));
        if c == d {
            None
        } else {
            let date = slice_subrange(rest, c, d);
            Some(string_of(date))
        }
    } else {
        None
    }
}

/// The post title is its first level-1 heading (`# ...`), trimmed.
pub fn title_from_markdown(src: &str) -> (r: Option<String>)
    ensures
        r matches Some(t) ==> markdown_title(src@) == Some(t@),
        r is None ==> markdown_title(src@) is None,
{
    let cs = chars_of(src);
    let lines = split_ranges(cs.as_slice(), '\n');
    let ghost ls = pieces(cs@, lines@);
    let ghost f = |l: Seq<char>| line_title(l);
    let n = lines.len();
    for k in 0..n
        invariant
            n == lines@.len() == ls.len(),
            ls == pieces(cs@, lines@),
            ls == lines_of(src@),
            ranges_within(lines@, cs@.len() as int),
            f == (|l: Seq<char>| line_title(l)),
            forall|j: int| 0 <= j < k ==> f(#[trigger] ls[j]) is None,
    {
        let (a, b) = lines[k];
        let line = slice_subrange(cs.as_slice(), a, b);
        assert(line@ == ls[k as int]);
        let t = title_of_line(line);
        if t.is_some() {
            proof {
                lemma_first_found_at(ls, f, k as int);
                assert(ls.skip(k as int)[0] == ls[k as int]);
            }
            return t;
        }
    }
    proof {
        lemma_first_found_at(ls, f, n as int);
        assert(ls.skip(n as int).len() == 0);
    }
    None
}

/// Optional post dates use a markdown line like `### date: 29 Nov, 2025`.
pub fn date_from_markdown(src: &str) -> (r: Option<String>)
    ensures
        r matches Some(t) ==> markdown_date(src@) == Some(t@),
        r is None ==> markdown_date(src@) is None,
{
    let cs = chars_of(src);
    let lines = split_ranges(cs.as_slice(), '\n');
    let ghost ls = pieces(cs@, lines@);
    let ghost f = |l: Seq<char>| line_date(l);
    let n = lines.len();
    for k in 0..n
        invariant
            n == lines@.len() == ls.len(),
            ls == pieces(cs@, lines@),
            ls == lines_of(src@),
            ranges_within(lines@, cs@.len() as int),
            f == (|l: Seq<char>| line_date(l)),
            forall|j: int| 0 <= j < k ==> f(#[trigger] ls[j]) is None,
    {
        let (a, b) = lines[k];
        let line = slice_subrange(cs.as_slice(), a, b);
        assert(line@ == ls[k as int]);
        let t = date_of_line(line);
        if t.is_some() {
            proof {
                lemma_first_found_at(ls, f, k as int);
                assert(ls.skip(k as int)[0] == ls[k as int]);
            }
            return t;
        }
    }
    proof {
        lemma_first_found_at(ls, f, n as int);
        assert(ls.skip(n as int).len() == 0);
    }
    None
}


/// The number of a month given by its three-letter English abbreviation.
pub open spec fn month_of(m: Seq<char>) -> Option<u8> {
    if m == "Jan"@ {
        Some(1u8)
    } else if m == "Feb"@ {
        Some(2u8)
    } else if m == "Mar"@ {
        Some(3u8)
    } else if m == "Apr"@ {
        Some(4u8)
    } else if m == "May"@ {
        Some(5u8)
    } else if m == "Jun"@ {
        Some(6u8)
    } else if m == "Jul"@ {
        Some(7u8)
    } else if m == "Aug"@ {
        Some(8u8)
    } else if m == "Sep"@ {
        Some(9u8)
    } else if m == "Oct"@ {
        Some(10u8)
    } else if m == "Nov"@ {
        Some(11u8)
    } else if m == "Dec"@ {
        Some(12u8)
    } else {
        None
    }
}

fn month_number_chars(m: &[char]) -> (r: Option<u8>)
    ensures
        r == month_of(m@),
{
    if eq_str(m, "Jan") {
        Some(1)
    } else if eq_str(m, "Feb") {
        Some(2)
    } else if eq_str(m, "Mar") {
        Some(3)
    } else if eq_str(m, "Apr") {
        Some(4)
    } else if eq_str(m, "May") {
        Some(5)
    } else if eq_str(m, "Jun") {
        Some(6)
    } else if eq_str(m, "Jul") {
        Some(7)
    } else if eq_str(m, "Aug") {
        Some(8)
    } else if eq_str(m, "Sep") {
        Some(9)
    } else if eq_str(m, "Oct") {
        Some(10)
    } else if eq_str(m, "Nov") {
        Some(11)
    } else if eq_str(m, "Dec") {
        Some(12)
    } else {
        None
    }
}

/// The number (1 to 12) of a month written `Jan` ... `Dec`.
pub fn month_number(month: &str) -> (r: Option<u8>)
    ensures
        r == month_of(month@),
{
    let cs = chars_of(month);
    month_number_chars(cs.as_slice())
}

/// The months' abbreviations in calendar order, three letters each.
pub open spec fn calendar() -> Seq<char> {
    "JanFebMarAprMayJunJulAugSepOctNovDec"@
}

/// Months are numbered by their place in the calendar: the `k`-th abbreviation (from 1) is
/// month `k`, and only these twelve abbreviations name a month.
pub proof fn lemma_months_in_calendar_order()
    ensures
        forall|k: int|
            1 <= k <= 12 ==> #[trigger] month_of(calendar().subrange(3 * k - 3, 3 * k)) == Some(
                k as u8,
            ),
        forall|m: Seq<char>|
            #[trigger] month_of(m) matches Some(n) ==> 1 <= n <= 12 && m == calendar().subrange(
                3 * n - 3,
                3 * n,
            ),
{
    reveal_strlit("JanFebMarAprMayJunJulAugSepOctNovDec");
    reveal_strlit("Jan");
    reveal_strlit("Feb");
    reveal_strlit("Mar");
    reveal_strlit("Apr");
    reveal_strlit("May");
    reveal_strlit("Jun");
    reveal_strlit("Jul");
    reveal_strlit("Aug");
    reveal_strlit("Sep");
    reveal_strlit("Oct");
    reveal_strlit("Nov");
    reveal_strlit("Dec");
    assert("Jan"@[0] == 'J' && "Jan"@[1] == 'a' && "Jan"@[2] == 'n');
    assert("Feb"@[0] == 'F' && "Feb"@[1] == 'e' && "Feb"@[2] == 'b');
    assert("Mar"@[0] == 'M' && "Mar"@[1] == 'a' && "Mar"@[2] == 'r');
    assert("Apr"@[0] == 'A' && "Apr"@[1] == 'p' && "Apr"@[2] == 'r');
    assert("May"@[0] == 'M' && "May"@[1] == 'a' && "May"@[2] == 'y');
    assert("Jun"@[0] == 'J' && "Jun"@[1] == 'u' && "Jun"@[2] == 'n');
    assert("Jul"@[0] == 'J' && "Jul"@[1] == 'u' && "Jul"@[2] == 'l');
    assert("Aug"@[0] == 'A' && "Aug"@[1] == 'u' && "Aug"@[2] == 'g');
    assert("Sep"@[0] == 'S' && "Sep"@[1] == 'e' && "Sep"@[2] == 'p');
    assert("Oct"@[0] == 'O' && "Oct"@[1] == 'c' && "Oct"@[2] == 't');
    assert("Nov"@[0] == 'N' && "Nov"@[1] == 'o' && "Nov"@[2] == 'v');
    assert("Dec"@[0] == 'D' && "Dec"@[1] == 'e' && "Dec"@[2] == 'c');
    let c = calendar();
    assert(c.subrange(0, 3) =~= "Jan"@);
    assert(c.subrange(3, 6) =~= "Feb"@);
    assert(c.subrange(6, 9) =~= "Mar"@);
    assert(c.subrange(9, 12) =~= "Apr"@);
    assert(c.subrange(12, 15) =~= "May"@);
    assert(c.subrange(15, 18) =~= "Jun"@);
    assert(c.subrange(18, 21) =~= "Jul"@);
    assert(c.subrange(21, 24) =~= "Aug"@);
    assert(c.subrange(24, 27) =~= "Sep"@);
    assert(c.subrange(27, 30) =~= "Oct"@);
    assert(c.subrange(30, 33) =~= "Nov"@);
    assert(c.subrange(33, 36) =~= "Dec"@);
    assert forall|k: int| 1 <= k <= 12 implies #[trigger] month_of(c.subrange(3 * k - 3, 3 * k))
        == Some(k as u8) by {
        assert(c.subrange(3 * k - 3, 3 * k).len() == 3);
    }
}

/// A date key, ordered as (year, month, day).
pub type DateKey = (u16, u8, u8);

/// The sortable key of a date written `29 Nov, 2025`: exactly three white-space separated
/// words, a day from 1 to 31, a month abbreviation (trailing commas ignored), and a year,
/// each number as `str::parse` reads it.
pub open spec fn sortable_date(date: Seq<char>) -> Option<DateKey> {
    let t = ws_tokens(date);
    if t.len() != 3 {
        None
    } else {
        match (parse_unsigned(t[0], 255), month_of(trim_end_char(t[1], ',')), parse_unsigned(t[2], 65535)) {
            (Some(d), Some(m), Some(y)) => if d == 0 || d > 31 {
                None
            } else {
                Some((y as u16, m, d as u8))
            },
            _ => None,
        }
    }
}

/// The sort key of a post date like `29 Nov, 2025`, or `None` where it is not of that form.
pub fn parse_sortable_date(date: &str) -> (r: Option<DateKey>)
    ensures
        r == sortable_date(date@),
{
    let cs = chars_of(date);
    let toks = token_ranges(cs.as_slice());
    let ghost ts = ws_tokens(date@);
    assert(pieces(cs@, toks@) == ts);
    if toks.len() < 3 {
        return None;
    }
    let (a0, b0) = toks[0];
    let (a1, b1) = toks[1];
    let (a2, b2) = toks[2];
    let t0 = slice_subrange(cs.as_slice(), a0, b0);
    let t1 = slice_subrange(cs.as_slice(), a1, b1);
    let t2 = slice_subrange(cs.as_slice(), a2, b2);
    assert(t0@ == ts[0] && t1@ == ts[1] && t2@ == ts[2]);
    let day = match parse_u64(t0) {
        Some(d) => d,
        None => return None,
    };
    if day > 255 {
        return None;
    }
    let k = trim_end_char_len(t1, ',');
    let month = match month_number_chars(slice_subrange(t1, 0, k)) {
        Some(m) => m,
        None => return None,
    };
    let year = match parse_u64(t2) {
        Some(y) => y,
        None => return None,
    };
    if year > 65535 {
        return None;
    }
    if day == 0 || day > 31 || toks.len() > 3 {
        return None;
    }
    Some((year as u16, month, day as u8))
}


/// A word with its first character in uppercase.
pub open spec fn capitalized(w: Seq<char>) -> Seq<char> {
    if w.len() == 0 {
        seq![]
    } else {
        char_upper(w[0]) + w.drop_first()
    }
}

/// A file name made readable: its words capitalized and joined by spaces.
pub open spec fn humanized(stem: Seq<char>) -> Seq<char> {
    joined(name_words(stem).map_values(|w: Seq<char>| capitalized(w)), " "@)
}

/// "basic nn math" / "forward_ad" -> "Basic Nn Math" / "Forward Ad"
pub fn humanize(stem: &str) -> (r: String)
    ensures
        r@ == humanized(stem@),
{
    let cs = chars_of(stem);
    let words = word_ranges(cs.as_slice());
    let ghost ws = pieces(cs@, words@);
    let ghost caps = ws.map_values(|w: Seq<char>| capitalized(w));
    let n = words.len();
    let mut out = String::new();
    for k in 0..n
        invariant
            n == words@.len() == ws.len() == caps.len(),
            ws == pieces(cs@, words@),
            caps == ws.map_values(|w: Seq<char>| capitalized(w)),
            ranges_within(words@, cs@.len() as int),
            out@ == joined(caps.take(k as int), " "@),
    {
        let (a, b) = words[k];
        let w = slice_subrange(cs.as_slice(), a, b);
        assert(w@ == ws[k as int]);
        let ghost before = out@;
        if k > 0 {
            out.append(" ");
        }
        if w.len() > 0 {
            let up = to_uppercase_char(w[0]);
            let m = up.len();
            for j in 0..m
                invariant
                    m == up@.len(),
                    out@ == (if k > 0 { before + " "@ } else { before }) + up@.take(j as int),
            {
                push_char(&mut out, up[j]);
                assert(up@.take(j + 1) == up@.take(j as int).push(up@[j as int]));
            }
            assert(up@.take(m as int) == up@);
            let wl = w.len();
            for j in 1..wl
                invariant
                    wl == w@.len(),
                    wl > 0,
                    out@ == (if k > 0 { before + " "@ } else { before }) + up@ + w@.subrange(1, j as int),
            {
                push_char(&mut out, w[j]);
                assert(w@.subrange(1, j + 1) == w@.subrange(1, j as int).push(w@[j as int]));
            }
            assert(w@.subrange(1, wl as int) == w@.drop_first());
        }
        proof {
            assert(caps[k as int] == capitalized(w@));
            assert(caps.take(k + 1).drop_last() == caps.take(k as int));
            if k == 0 {
                assert(before == Seq::<char>::empty());
            }
            assert(out@ == joined(caps.take(k + 1), " "@));
        }
    }
    assert(caps.take(n as int) == caps);
    out
}

/// The characters a slug is built from, before its ends are trimmed: each alphanumeric
/// character in lowercase, each run of other characters as one `-`.
pub open spec fn slug_chars(s: Seq<char>) -> Seq<char>
    decreases s.len(),
{
    if s.len() == 0 {
        seq![]
    } else {
        let r = slug_chars(s.drop_last());
        if is_alnum(s.last()) {
            r + char_lower(s.last())
        } else if s.len() >= 2 && !is_alnum(s[s.len() - 2]) {
            r
        } else {
            r.push('-')
        }
    }
}

/// The URL slug of a title: lowercased and hyphenated, without leading or trailing `-`.
pub open spec fn slug_of(s: Seq<char>) -> Seq<char> {
    trim_end_char(trim_start_char(slug_chars(s), '-'), '-')
}

/// "Basic NN Math" -> "basic-nn-math"
pub fn slugify(stem: &str) -> (r: String)
    ensures
        r@ == slug_of(stem@),
{
    let cs = chars_of(stem);
    let n = cs.len();
    let mut raw: Vec<char> = Vec::new();
    let mut prev_dash = false;
    for i in 0..n
        invariant
            n == cs@.len(),
            raw@ == slug_chars(cs@.take(i as int)),
            prev_dash == (i > 0 && !is_alnum(cs@[i - 1])),
    {
        let c = cs[i];
        assert(cs@.take(i + 1).drop_last() == cs@.take(i as int));
        if is_alphanumeric(c) {
            let mut low = to_lowercase_char(c);
            raw.append(&mut low);
            prev_dash = false;
        } else if !prev_dash {
            raw.push('-');
            prev_dash = true;
        }
    }
    assert(cs@.take(n as int) == cs@);
    let k1 = trim_start_char_len(raw.as_slice(), '-');
    let rest = slice_subrange(raw.as_slice(), k1, raw.len());
    assert(rest@ == raw@.skip(k1 as int));
    let k2 = trim_end_char_len(rest, '-');
    let slug = slice_subrange(rest, 0, k2);
    assert(slug@ == rest@.take(k2 as int));
    string_of(slug)
}


/// What a post is, as values.
pub struct PostView {
    pub title: Seq<char>,
    pub slug: Seq<char>,
    pub body: Seq<char>,
    pub date: Option<Seq<char>>,
    pub date_key: Option<DateKey>,
}

/// One post: its title, the slug it is served under, its markdown source, and its date as
/// written and as a sort key.
pub struct Post {
    pub title: String,
    pub slug: String,
    pub body: String,
    pub date: Option<String>,
    pub date_key: Option<DateKey>,
}

/// The characters of an optional string.
pub open spec fn opt_view(s: Option<String>) -> Option<Seq<char>> {
    match s {
        Some(x) => Some(x@),
        None => None,
    }
}

impl View for Post {
    type V = PostView;

    open spec fn view(&self) -> PostView {
        PostView {
            title: self.title@,
            slug: self.slug@,
            body: self.body@,
            date: opt_view(self.date),
            date_key: self.date_key,
        }
    }
}

/// The views of a sequence of posts.
pub open spec fn post_views(s: Seq<Post>) -> Seq<PostView> {
    s.map_values(|p: Post| p@)
}

/// The sort key of an optional date.
pub open spec fn date_key_of(date: Option<Seq<char>>) -> Option<DateKey> {
    match date {
        Some(d) => sortable_date(d),
        None => None,
    }
}

/// The post a markdown source makes under file stem `stem`: none for a blank source;
/// otherwise titled by its first `# ` heading (by the humanized stem where it has none),
/// with the slug of that title and the date of its first `### date:` line.
pub open spec fn post_from(stem: Seq<char>, body: Seq<char>) -> Option<PostView> {
    if trim_ws(body).len() == 0 {
        None
    } else {
        let title = match markdown_title(body) {
            Some(t) => t,
            None => humanized(stem),
        };
        let date = markdown_date(body);
        Some(
            PostView {
                title: title,
                slug: slug_of(title),
                body: body,
                date: date,
                date_key: date_key_of(date),
            },
        )
    }
}

/// The post for the markdown source `body` of a file with stem `stem`, or `None` for an
/// empty draft (one that is only white space).
pub fn read_post(stem: &str, body: String) -> (r: Option<Post>)
    ensures
        match r {
            Some(p) => post_from(stem@, body@) == Some(p@),
            None => post_from(stem@, body@) is None,
        },
{
    let cs = chars_of(body.as_str());
    let (a, b) = trim_bounds(cs.as_slice());
    if a == b {
        return None;
    }
    let title = match title_from_markdown(body.as_str()) {
        Some(t) => t,
        None => humanize(stem),
    };
    let slug = slugify(title.as_str());
    let date = date_from_markdown(body.as_str());
    let date_key = match &date {
        Some(d) => parse_sortable_date(d.as_str()),
        None => None,
    };
    let p = Post { title, slug, body, date, date_key };
    assert(p@ =~= post_from(stem@, p.body@).unwrap());
    Some(p)
}


/// A character slugs of ASCII titles are made of: a lowercase letter, a digit or `-`.
pub open spec fn is_slug_char(c: char) -> bool {
    ('a' <= c && c <= 'z') || ('0' <= c && c <= '9') || c == '-'
}

/// `s` holds no two `-` in a row.
pub open spec fn no_double_dash(s: Seq<char>) -> bool {
    forall|i: int| 0 <= i < s.len() - 1 ==> !(#[trigger] s[i] == '-' && s[i + 1] == '-')
}

proof fn lemma_slug_chars_ascii(s: Seq<char>)
    requires
        all_ascii(s),
    ensures
        forall|i: int| 0 <= i < slug_chars(s).len() ==> is_slug_char(#[trigger] slug_chars(s)[i]),
        no_double_dash(slug_chars(s)),
        (slug_chars(s).len() > 0 && slug_chars(s).last() == '-') == (s.len() > 0
            && !is_alnum(s.last())),
        s.len() > 0 ==> slug_chars(s).len() > 0,
    decreases s.len(),
{
    if s.len() > 0 {
        let t = s.drop_last();
        lemma_slug_chars_ascii(t);
        let r = slug_chars(t);
        let c = s.last();
        assert(all_ascii(t)) by {
            assert forall|i: int| 0 <= i < t.len() implies #[trigger] t[i] == s[i] by {}
        }
        if s.len() >= 2 {
            assert(t.last() == s[s.len() - 2]);
        }
        let out = slug_chars(s);
        if is_alnum(c) {
            assert(out == r.push(char_lower(c)[0]));
        } else if s.len() >= 2 && !is_alnum(s[s.len() - 2]) {
        } else {
            assert(out == r.push('-'));
        }
    }
}

/// A slug never starts or ends with `-`.
pub proof fn lemma_slug_trimmed(title: Seq<char>)
    ensures
        slug_of(title).len() > 0 ==> slug_of(title)[0] != '-' && slug_of(title).last() != '-',
{
    let raw = slug_chars(title);
    let k1 = lemma_trim_start_char_suffix(raw, '-');
    let mid = trim_start_char(raw, '-');
    let k2 = lemma_trim_end_char_prefix(mid, '-');
    if k2 > 0 {
        assert(slug_of(title)[0] == mid[0]);
        assert(mid[0] == raw[k1]);
        assert(slug_of(title).last() == mid[k2 - 1]);
    }
}

proof fn lemma_slug_chars_of_slug(s: Seq<char>)
    requires
        forall|i: int| 0 <= i < s.len() ==> is_slug_char(#[trigger] s[i]),
        no_double_dash(s),
        s.len() > 0 ==> s[0] != '-',
    ensures
        slug_chars(s) == s,
    decreases s.len(),
{
    if s.len() > 0 {
        let t = s.drop_last();
        assert forall|i: int| 0 <= i < t.len() implies is_slug_char(#[trigger] t[i]) by {
            assert(t[i] == s[i]);
        }
        assert forall|i: int| 0 <= i < t.len() - 1 implies !(#[trigger] t[i] == '-' && t[i + 1] == '-') by {
            assert(t[i] == s[i] && t[i + 1] == s[i + 1]);
        }
        if t.len() > 0 {
            assert(t[0] == s[0]);
        }
        lemma_slug_chars_of_slug(t);
        let c = s.last();
        assert(is_slug_char(s[s.len() - 1]));
        if c == '-' {
            assert(s.len() >= 2);
            assert(is_slug_char(s[s.len() - 2]));
            assert(!(s[s.len() - 2] == '-' && s[s.len() - 1] == '-'));
        }
        assert(t.push(c) == s);
    }
}

/// Slugs are stable: the slug of the slug of an ASCII title is that slug.
pub proof fn lemma_slug_idempotent(title: Seq<char>)
    requires
        all_ascii(title),
    ensures
        slug_of(slug_of(title)) == slug_of(title),
{
    lemma_slug_of_ascii_title(title);
    let s = slug_of(title);
    lemma_slug_chars_of_slug(s);
    if s.len() > 0 {
        assert(s[0] != '-' && s.last() != '-');
    }
    assert(trim_start_char(s, '-') == s);
    assert(trim_end_char(s, '-') == s);
}

/// The slug of an ASCII title is lowercase letters, digits and single `-` between them:
/// "lowercased and hyphenated".
pub proof fn lemma_slug_of_ascii_title(title: Seq<char>)
    requires
        all_ascii(title),
    ensures
        forall|i: int| 0 <= i < slug_of(title).len() ==> is_slug_char(#[trigger] slug_of(title)[i]),
        no_double_dash(slug_of(title)),
        slug_of(title).len() > 0 ==> slug_of(title)[0] != '-' && slug_of(title).last() != '-',
{
    lemma_slug_chars_ascii(title);
    lemma_slug_trimmed(title);
    let raw = slug_chars(title);
    let k1 = lemma_trim_start_char_suffix(raw, '-');
    let mid = trim_start_char(raw, '-');
    let k2 = lemma_trim_end_char_prefix(mid, '-');
    let out = slug_of(title);
    assert(out == raw.subrange(k1, k1 + k2));
    assert forall|i: int| 0 <= i < out.len() implies is_slug_char(#[trigger] out[i]) by {
        assert(out[i] == raw[k1 + i]);
    }
    assert forall|i: int| 0 <= i < out.len() - 1 implies !(#[trigger] out[i] == '-' && out[i + 1] == '-') by {
        assert(out[i] == raw[k1 + i]);
        assert(out[i + 1] == raw[k1 + i + 1]);
    }
}

/// The lowercase mapping of a character as `char::to_lowercase` gives it: `A` to `Z` become
/// `a` to `z`, other ASCII characters stay, and beyond ASCII Unicode's mapping applies.
pub open spec fn lowercase_of(c: char) -> Seq<char> {
    if 'A' <= c && c <= 'Z' {
        seq![((c as u32 + 32) as u32) as char]
    } else if (c as u32) < 128 {
        seq![c]
    } else {
        lowercase_char(c)
    }
}

/// Each character of `w` replaced by its lowercase mapping, front to back.
pub open spec fn lowercased(w: Seq<char>) -> Seq<char>
    decreases w.len(),
{
    if w.len() == 0 {
        seq![]
    } else {
        lowercase_of(w[0]) + lowercased(w.drop_first())
    }
}

proof fn lemma_lowercased_last(w: Seq<char>)
    requires
        w.len() > 0,
    ensures
        lowercased(w) == lowercased(w.drop_last()) + lowercase_of(w.last()),
    decreases w.len(),
{
    let t = w.drop_first();
    if w.len() > 1 {
        lemma_lowercased_last(t);
        assert(t.drop_last() == w.drop_last().drop_first());
        assert(w.drop_last()[0] == w[0]);
        assert(t.last() == w.last());
        assert(lowercased(w.drop_last()) == lowercase_of(w[0]) + lowercased(t.drop_last()));
        assert(lowercased(w) =~= lowercase_of(w[0]) + lowercased(t.drop_last()) + lowercase_of(
            w.last(),
        ));
    } else {
        assert(t.len() == 0);
        assert(lowercased(t) == Seq::<char>::empty());
        assert(lowercased(w) =~= lowercase_of(w[0]));
        assert(w.drop_last().len() == 0);
        assert(lowercased(w.drop_last()) + lowercase_of(w.last()) =~= lowercase_of(w[0]));
    }
}

/// Alphanumeric characters go into a slug as their lowercase mappings, one after the other,
/// also beyond ASCII: after any text `x`, a run `w` of alphanumeric characters adds exactly
/// `lowercased(w)`.
pub proof fn lemma_slug_lowercases_words(x: Seq<char>, w: Seq<char>)
    requires
        forall|i: int| 0 <= i < w.len() ==> is_alnum(#[trigger] w[i]),
    ensures
        slug_chars(x + w) == slug_chars(x) + lowercased(w),
    decreases w.len(),
{
    if w.len() == 0 {
        assert(x + w =~= x);
        assert(slug_chars(x) + lowercased(w) =~= slug_chars(x));
    } else {
        let v = w.drop_last();
        lemma_slug_lowercases_words(x, v);
        lemma_lowercased_last(w);
        let c = w.last();
        assert(is_alnum(w[w.len() - 1]));
        assert((x + w).drop_last() =~= x + v);
        assert((x + w).last() == c);
        assert(char_lower(c) == lowercase_of(c));
        assert(slug_chars(x + w) == slug_chars(x + v) + char_lower(c));
        assert(slug_chars(x) + lowercased(w) =~= slug_chars(x) + lowercased(v) + lowercase_of(c));
    }
}

/// A run of other characters after an alphanumeric one becomes a single `-`.
pub proof fn lemma_slug_hyphenates(x: Seq<char>, sep: Seq<char>)
    requires
        x.len() > 0,
        is_alnum(x.last()),
        sep.len() > 0,
        forall|i: int| 0 <= i < sep.len() ==> !is_alnum(#[trigger] sep[i]),
    ensures
        slug_chars(x + sep) == slug_chars(x).push('-'),
    decreases sep.len(),
{
    let s = x + sep;
    assert(s.drop_last() =~= x + sep.drop_last());
    assert(s.last() == sep[sep.len() - 1]);
    if sep.len() == 1 {
        assert(x + sep.drop_last() =~= x);
        assert(s[s.len() - 2] == x.last());
    } else {
        lemma_slug_hyphenates(x, sep.drop_last());
        assert(s[s.len() - 2] == sep[sep.len() - 2]);
    }
}

/// The slug of two words (alphanumeric runs) around other characters: the words lowercased,
/// joined by one `-`. "Über Rust" gives "über-rust".
pub proof fn lemma_slug_of_two_words(w1: Seq<char>, sep: Seq<char>, w2: Seq<char>)
    requires
        w1.len() > 0,
        sep.len() > 0,
        forall|i: int| 0 <= i < w1.len() ==> is_alnum(#[trigger] w1[i]),
        forall|i: int| 0 <= i < sep.len() ==> !is_alnum(#[trigger] sep[i]),
        forall|i: int| 0 <= i < w2.len() ==> is_alnum(#[trigger] w2[i]),
    ensures
        slug_chars(w1 + sep + w2) == lowercased(w1) + seq!['-'] + lowercased(w2),
{
    lemma_slug_lowercases_words(seq![], w1);
    assert(Seq::<char>::empty() + w1 == w1);
    assert(slug_chars(Seq::<char>::empty()) == Seq::<char>::empty());
    assert(is_alnum(w1[w1.len() - 1]));
    lemma_slug_hyphenates(w1, sep);
    lemma_slug_lowercases_words(w1 + sep, w2);
    assert(lowercased(w1).push('-') =~= lowercased(w1) + seq!['-']);
}

proof fn lemma_calendar_word(k: int)
    requires
        1 <= k <= 12,
    ensures
        calendar().subrange(3 * k - 3, 3 * k).len() == 3,
        forall|i: int|
            0 <= i < 3 ==> !is_white_space(#[trigger] calendar().subrange(3 * k - 3, 3 * k)[i])
                && calendar().subrange(3 * k - 3, 3 * k)[i] != ',',
        month_of(calendar().subrange(3 * k - 3, 3 * k)) == Some(k as u8),
{
    lemma_months_in_calendar_order();
    reveal_strlit("JanFebMarAprMayJunJulAugSepOctNovDec");
    let mon = calendar().subrange(3 * k - 3, 3 * k);
    assert forall|i: int| 0 <= i < 3 implies !is_white_space(#[trigger] mon[i]) && mon[i] != ',' by {
        assert(mon[i] == calendar()[3 * k - 3 + i]);
        assert('A' <= calendar()[3 * k - 3 + i] <= 'z') by {
            assert(0 <= 3 * k - 3 + i < 36);
        }
    }
}

/// Dates read as (year, month, day): `<day> <Mon>, <year>` with a day from 1 to 31, the
/// month's abbreviation and a year gives the key of that year, that month's calendar number
/// and that day.
pub proof fn lemma_date_key_fields(day: nat, k: int, year: nat)
    requires
        1 <= day <= 31,
        1 <= k <= 12,
        year <= 65535,
    ensures
        sortable_date(decimal(day) + " "@ + calendar().subrange(3 * k - 3, 3 * k) + ", "@ + decimal(
            year,
        )) == Some((year as u16, k as u8, day as u8)),
{
    reveal_strlit(" ");
    reveal_strlit(", ");
    let mon = calendar().subrange(3 * k - 3, 3 * k);
    lemma_calendar_word(k);
    let d = decimal(day);
    let y = decimal(year);
    lemma_decimal_digits(day);
    lemma_decimal_digits(year);
    lemma_parse_decimal(day, 255);
    lemma_parse_decimal(year, 65535);
    let m2 = mon.push(',');
    let date = d + " "@ + mon + ", "@ + y;
    assert(date =~= d + seq![' '] + (m2 + seq![' '] + y));
    let sep = separator(false);
    assert forall|i: int| 0 <= i < d.len() implies !sep(#[trigger] d[i]) by {
        assert(is_digit(d[i]));
    }
    assert forall|i: int| 0 <= i < y.len() implies !sep(#[trigger] y[i]) by {
        assert(is_digit(y[i]));
    }
    assert forall|i: int| 0 <= i < m2.len() implies !sep(#[trigger] m2[i]) by {
        if i < 3 {
            assert(m2[i] == mon[i]);
        }
    }
    lemma_runs_concat(d, ' ', m2 + seq![' '] + y, sep);
    lemma_runs_concat(m2, ' ', y, sep);
    lemma_runs_word(d, sep);
    lemma_runs_word(m2, sep);
    lemma_runs_word(y, sep);
    let t = ws_tokens(date);
    assert(t =~= seq![d, m2, y]);
    assert(m2.drop_last() == mon);
    assert(mon.last() != ',') by {
        assert(mon.last() == mon[2]);
    }
    assert(trim_end_char(mon, ',') == mon);
    assert(m2.len() > 0 && m2.last() == ',');
    assert(trim_end_char(m2, ',') == mon);
}

} // verus!
