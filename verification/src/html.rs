//! HTML output: escaping, the page template, and framing of rendered math.
use vstd::prelude::*;
use crate::text::{chars_of, push_char, push_replaced_first, replace_all, replace_first};

verus! {

/// How one character is written in HTML text.
pub open spec fn escape_char(c: char) -> Seq<char> {
    if c == '&' {
        "&amp;"@
    } else if c == '<' {
        "&lt;"@
    } else if c == '>' {
        "&gt;"@
    } else {
        seq![c]
    }
}

/// `s` with `&`, `<` and `>` written as entities.
pub open spec fn escape_html(s: Seq<char>) -> Seq<char>
    decreases s.len(),
{
    if s.len() == 0 {
        seq![]
    } else {
        escape_html(s.drop_last()) + escape_char(s.last())
    }
}

/// Appends `escape_html(s)` to `out`.
pub fn push_escaped(out: &mut String, s: &[char])
    ensures
        final(out)@ == old(out)@ + escape_html(s@),
{
    let n = s.len();
    for i in 0..n
        invariant
            n == s@.len(),
            out@ == old(out)@ + escape_html(s@.take(i as int)),
    {
        let c = s[i];
        assert(s@.take(i + 1).drop_last() == s@.take(i as int));
        if c == '&' {
            out.append("&amp;");
        } else if c == '<' {
            out.append("&lt;");
        } else if c == '>' {
            out.append("&gt;");
        } else {
            push_char(out, c);
        }
    }
    assert(s@.take(n as int) == s@);
}

/// Escapes `&`, `<` and `>` for HTML text.
pub fn escape(s: &str) -> (r: String)
    ensures
        r@ == escape_html(s@),
{
    let cs = chars_of(s);
    let mut out = String::new();
    push_escaped(&mut out, cs.as_slice());
    out
}

/// The page template up to the title.
pub open spec fn page_head() -> Seq<char> {
    "<!DOCTYPE html>\n<html lang=\"en\">\n<head>\n<meta charset=\"utf-8\">\n<meta name=\"viewport\" content=\"width=device-width, initial-scale=1\">\n<title>"@
}

/// The page template from the title to the navigation link.
pub open spec fn page_after_title() -> Seq<char> {
    "</title>\n<link rel=\"icon\" href=\"/favicon.svg\" type=\"image/svg+xml\">\n<link rel=\"stylesheet\" href=\"/style.css\">\n</head>\n<body>\n<main>\n"@
}

/// The link back to the home page that post pages carry.
pub open spec fn page_nav(nav: bool) -> Seq<char> {
    if nav {
        "<p class=\"nav\"><a href=\"/\"><- home</a></p>\n"@
    } else {
        seq![]
    }
}

/// The page template after the body.
pub open spec fn page_tail() -> Seq<char> {
    "\n</main>\n<p class=\"accred\"><a href=\"https://github.com/comfysage/evergarden\">evergarden</a> summer</p>\n</body>\n</html>\n"@
}

/// A whole page: the template around the escaped `title` and the raw HTML `body`.
pub open spec fn page_html(title: Seq<char>, body: Seq<char>, nav: bool) -> Seq<char> {
    page_head() + escape_html(title) + page_after_title() + page_nav(nav) + body + page_tail()
}

/// Wraps `body` in the site's page template, with `title` escaped, and with a link home
/// when `nav` is set.
pub fn render_page(title: &str, body: &str, nav: bool) -> (r: String)
    ensures
        r@ == page_html(title@, body@, nav),
{
    let mut out = String::new();
    out.append(
        "<!DOCTYPE html>\n<html lang=\"en\">\n<head>\n<meta charset=\"utf-8\">\n<meta name=\"viewport\" content=\"width=device-width, initial-scale=1\">\n<title>",
    );
    let tc = chars_of(title);
    push_escaped(&mut out, tc.as_slice());
    out.append(
        "</title>\n<link rel=\"icon\" href=\"/favicon.svg\" type=\"image/svg+xml\">\n<link rel=\"stylesheet\" href=\"/style.css\">\n</head>\n<body>\n<main>\n",
    );
    if nav {
        out.append("<p class=\"nav\"><a href=\"/\"><- home</a></p>\n");
    }
    out.append(body);
    out.append(
        "\n</main>\n<p class=\"accred\"><a href=\"https://github.com/comfysage/evergarden\">evergarden</a> summer</p>\n</body>\n</html>\n",
    );
    assert(out@ =~= page_html(title@, body@, nav));
    out
}

/// The `<svg ` opening that the math renderer emits.
pub open spec fn svg_open() -> Seq<char> {
    "<svg "@
}

/// `svg` with a `math` class and the inline `style` put on its first `<svg ` tag.
pub open spec fn styled_svg(svg: Seq<char>, style: Seq<char>) -> Seq<char> {
    replace_first(svg, svg_open(), "<svg class=\"math\" style=\""@ + style + "\" "@)
}

/// Puts class `math` and the inline `style` on the first `<svg ` tag of `svg`.
pub fn style_svg(svg: String, style: &str) -> (r: String)
    ensures
        r@ == styled_svg(svg@, style@),
{
    let mut tag = String::new();
    tag.append("<svg class=\"math\" style=\"");
    tag.append(style);
    tag.append("\" ");
    let svg_chars = chars_of(svg.as_str());
    let pat = chars_of("<svg ");
    proof {
        reveal_strlit("<svg ");
    }
    let mut out = String::new();
    push_replaced_first(&mut out, svg_chars.as_slice(), pat.as_slice(), tag.as_str());
    assert(out@ =~= styled_svg(svg@, style@));
    out
}

/// The inline style of an inline formula `total` em tall whose baseline sits `depth` em above
/// its bottom.
pub open spec fn inline_math_style(total: Seq<char>, depth: Seq<char>) -> Seq<char> {
    "height:"@ + total + "em;width:auto;vertical-align:-"@ + depth + "em"@
}

/// The inline style of a displayed formula `total` em tall.
pub open spec fn display_math_style(total: Seq<char>) -> Seq<char> {
    "height:"@ + total + "em;width:auto"@
}

/// A rendered formula sized in `em`: displayed formulas are centered in their own block,
/// inline ones are dropped by their depth onto the text baseline.
pub open spec fn framed_math(svg: Seq<char>, total: Seq<char>, depth: Seq<char>, display: bool) -> Seq<char> {
    if display {
        "<div class=\"math-display\">"@ + styled_svg(svg, display_math_style(total)) + "</div>"@
    } else {
        styled_svg(svg, inline_math_style(total, depth))
    }
}

/// Sizes a rendered formula; `total_em` and `depth_em` are its height plus depth and its depth,
/// in em, already written out as decimals.
pub fn frame_math(svg: String, total_em: &str, depth_em: &str, display: bool) -> (r: String)
    ensures
        r@ == framed_math(svg@, total_em@, depth_em@, display),
{
    let mut style = String::new();
    style.append("height:");
    style.append(total_em);
    if display {
        style.append("em;width:auto");
        let styled = style_svg(svg, style.as_str());
        let mut out = String::new();
        out.append("<div class=\"math-display\">");
        out.append(styled.as_str());
        out.append("</div>");
        assert(style@ =~= display_math_style(total_em@));
        out
    } else {
        style.append("em;width:auto;vertical-align:-");
        style.append(depth_em);
        style.append("em");
        assert(style@ =~= inline_math_style(total_em@, depth_em@));
        style_svg(svg, style.as_str())
    }
}

/// What a formula becomes: its rendered SVG, or, where it could not be rendered, its source
/// with the delimiters it was written with, shown as code.
pub open spec fn math_html(latex: Seq<char>, display: bool, svg: Option<Seq<char>>) -> Seq<char> {
    match svg {
        Some(s) => s,
        None => {
            let delim = if display {
                "$$"@
            } else {
                "$"@
            };
            "<code>"@ + escape_html(delim + latex + delim) + "</code>"@
        },
    }
}

/// The HTML for one formula, given what rendering it to SVG gave (`None` where the LaTeX
/// could not be parsed).
pub fn render_math(latex: &str, display: bool, svg: Option<String>) -> (r: String)
    ensures
        r@ == math_html(latex@, display, match svg {
            Some(s) => Some(s@),
            None => None,
        }),
{
    match svg {
        Some(s) => s,
        None => {
            let delim = if display {
                "$$"
            } else {
                "$"
            };
            let mut src = String::new();
            src.append(delim);
            src.append(latex);
            src.append(delim);
            let cs = chars_of(src.as_str());
            let mut out = String::new();
            out.append("<code>");
            push_escaped(&mut out, cs.as_slice());
            out.append("</code>");
            out
        },
    }
}


/// Escaped text holds no `<` and no `>`: it cannot open or close a tag.
pub proof fn lemma_escape_has_no_angle_brackets(s: Seq<char>)
    ensures
        forall|i: int| 0 <= i < escape_html(s).len() ==> #[trigger] escape_html(s)[i] != '<'
            && escape_html(s)[i] != '>',
    decreases s.len(),
{
    reveal_strlit("&amp;");
    reveal_strlit("&lt;");
    reveal_strlit("&gt;");
    if s.len() > 0 {
        lemma_escape_has_no_angle_brackets(s.drop_last());
        let a = escape_html(s.drop_last());
        let b = escape_char(s.last());
        assert forall|i: int| 0 <= i < escape_html(s).len() implies #[trigger] escape_html(s)[i]
            != '<' && escape_html(s)[i] != '>' by {
            if i >= a.len() {
                assert(escape_html(s)[i] == b[i - a.len()]);
            } else {
                assert(escape_html(s)[i] == a[i]);
            }
        }
    }
}

/// Text without `&`, `<` and `>` is left as it is by escaping.
pub proof fn lemma_escape_plain_text(s: Seq<char>)
    requires
        forall|i: int| 0 <= i < s.len() ==> #[trigger] s[i] != '&' && s[i] != '<' && s[i] != '>',
    ensures
        escape_html(s) == s,
    decreases s.len(),
{
    if s.len() > 0 {
        lemma_escape_plain_text(s.drop_last());
        assert(s == s.drop_last().push(s.last()));
    }
}

/// Escaped text read back: the entities `&lt;`, `&gt;` and `&amp;` replaced, in that order, by
/// the characters they stand for (`str::replace` applied three times).
pub open spec fn unescape_html(t: Seq<char>) -> Seq<char> {
    replace_all(replace_all(replace_all(t, "&lt;"@, "<"@), "&gt;"@, ">"@), "&amp;"@, "&"@)
}

/// The characters of `s`, each written as `f` has it, front to back.
spec fn written_each(s: Seq<char>, f: spec_fn(char) -> Seq<char>) -> Seq<char>
    decreases s.len(),
{
    if s.len() == 0 {
        seq![]
    } else {
        f(s[0]) + written_each(s.drop_first(), f)
    }
}

proof fn lemma_written_each_last(s: Seq<char>, f: spec_fn(char) -> Seq<char>)
    requires
        s.len() > 0,
    ensures
        written_each(s, f) == written_each(s.drop_last(), f) + f(s.last()),
    decreases s.len(),
{
    let t = s.drop_first();
    if s.len() > 1 {
        lemma_written_each_last(t, f);
        assert(t.drop_last() == s.drop_last().drop_first());
        assert(s.drop_last()[0] == s[0]);
        assert(t.last() == s.last());
        assert(written_each(s.drop_last(), f) == f(s[0]) + written_each(t.drop_last(), f));
        assert(written_each(s, f) == f(s[0]) + (written_each(t.drop_last(), f) + f(t.last())));
        assert(written_each(s, f) =~= f(s[0]) + written_each(t.drop_last(), f) + f(s.last()));
    } else {
        assert(t.len() == 0);
        assert(s.drop_last().len() == 0);
        assert(written_each(t, f) == Seq::<char>::empty());
        assert(written_each(s, f) == f(s[0]) + written_each(t, f));
        assert(written_each(s, f) =~= f(s[0]));
        assert(written_each(s.drop_last(), f) + f(s.last()) =~= f(s[0]));
    }
}

proof fn lemma_escape_written_each(s: Seq<char>)
    ensures
        escape_html(s) == written_each(s, |c: char| escape_char(c)),
    decreases s.len(),
{
    if s.len() > 0 {
        lemma_escape_written_each(s.drop_last());
        lemma_written_each_last(s, |c: char| escape_char(c));
    }
}

proof fn lemma_written_each_self(s: Seq<char>)
    ensures
        written_each(s, |c: char| seq![c]) == s,
    decreases s.len(),
{
    if s.len() > 0 {
        lemma_written_each_self(s.drop_first());
        assert(seq![s[0]] + s.drop_first() == s);
    }
}

/// A piece of text that a replacement of `pat` (an entity, starting with `&`) reads over
/// unchanged: it holds no `&`, or only a first `&` whose entity differs from `pat` at once.
spec fn passes(e: Seq<char>, pat: Seq<char>) -> bool {
    ||| forall|i: int| 0 <= i < e.len() ==> #[trigger] e[i] != '&'
    ||| (e.len() >= 2 && e[0] == '&' && e[1] != pat[1] && forall|i: int|
        1 <= i < e.len() ==> #[trigger] e[i] != '&')
}

proof fn lemma_passes_through(e: Seq<char>, r: Seq<char>, pat: Seq<char>, rep: Seq<char>)
    requires
        pat.len() >= 2,
        pat[0] == '&',
        passes(e, pat),
    ensures
        replace_all(e + r, pat, rep) == e + replace_all(r, pat, rep),
    decreases e.len(),
{
    if e.len() > 0 {
        let s = e + r;
        assert(s[0] == e[0]);
        if pat.len() <= s.len() {
            if e[0] == '&' {
                assert(s.take(pat.len() as int)[1] == e[1]);
            } else {
                assert(s.take(pat.len() as int)[0] == e[0]);
            }
        }
        assert(s.drop_first() == e.drop_first() + r);
        let t = e.drop_first();
        assert forall|i: int| 0 <= i < t.len() implies #[trigger] t[i] != '&' by {
            assert(t[i] == e[i + 1]);
        }
        lemma_passes_through(t, r, pat, rep);
        assert(seq![e[0]] + t == e);
    } else {
        assert(e + r == r);
    }
}

proof fn lemma_replace_stage(
    s: Seq<char>,
    f: spec_fn(char) -> Seq<char>,
    g: spec_fn(char) -> Seq<char>,
    pat: Seq<char>,
    rep: Seq<char>,
)
    requires
        pat.len() >= 2,
        pat[0] == '&',
        forall|c: char|
            (#[trigger] f(c) == pat && g(c) == rep) || (f(c) == g(c) && passes(f(c), pat)),
    ensures
        replace_all(written_each(s, f), pat, rep) == written_each(s, g),
    decreases s.len(),
{
    if s.len() > 0 {
        let c = s[0];
        let rest = written_each(s.drop_first(), f);
        lemma_replace_stage(s.drop_first(), f, g, pat, rep);
        let w = f(c) + rest;
        if f(c) == pat && g(c) == rep {
            assert(w.take(pat.len() as int) == pat);
            assert(w.skip(pat.len() as int) == rest);
        } else {
            lemma_passes_through(f(c), rest, pat, rep);
        }
    }
}

/// Escaping can be undone: unescaping escaped text gives back the text. Escaping never
/// shortens text.
pub proof fn lemma_escape_round_trip(s: Seq<char>)
    ensures
        unescape_html(escape_html(s)) == s,
        escape_html(s).len() >= s.len(),
    decreases s.len(),
{
    reveal_strlit("&amp;");
    reveal_strlit("&lt;");
    reveal_strlit("&gt;");
    reveal_strlit("<");
    reveal_strlit(">");
    reveal_strlit("&");
    let f0 = |c: char| escape_char(c);
    let f1 = |c: char|
        if c == '&' {
            "&amp;"@
        } else if c == '>' {
            "&gt;"@
        } else {
            seq![c]
        };
    let f2 = |c: char|
        if c == '&' {
            "&amp;"@
        } else {
            seq![c]
        };
    let f3 = |c: char| seq![c];
    assert forall|c: char|
        (#[trigger] f0(c) == "&lt;"@ && f1(c) == "<"@) || (f0(c) == f1(c) && passes(f0(c), "&lt;"@)) by {
        if c != '&' && c != '<' && c != '>' {
            assert(forall|i: int| 0 <= i < f0(c).len() ==> #[trigger] f0(c)[i] != '&');
        }
    }
    assert forall|c: char|
        (#[trigger] f1(c) == "&gt;"@ && f2(c) == ">"@) || (f1(c) == f2(c) && passes(f1(c), "&gt;"@)) by {
        if c != '&' && c != '>' {
            assert(forall|i: int| 0 <= i < f1(c).len() ==> #[trigger] f1(c)[i] != '&');
        }
    }
    assert forall|c: char|
        (#[trigger] f2(c) == "&amp;"@ && f3(c) == "&"@) || (f2(c) == f3(c) && passes(f2(c), "&amp;"@)) by {
        if c != '&' {
            assert(forall|i: int| 0 <= i < f2(c).len() ==> #[trigger] f2(c)[i] != '&');
        }
    }
    lemma_escape_written_each(s);
    lemma_replace_stage(s, f0, f1, "&lt;"@, "<"@);
    lemma_replace_stage(s, f1, f2, "&gt;"@, ">"@);
    lemma_replace_stage(s, f2, f3, "&amp;"@, "&"@);
    lemma_written_each_self(s);
    if s.len() > 0 {
        lemma_escape_round_trip(s.drop_last());
    }
}

} // verus!
