//! Markdown to HTML, with every math span replaced by the HTML rendered for it. The parsing
//! and the HTML writing are pulldown-cmark's; which rendered span goes where is decided here.
use vstd::prelude::*;
use crate::loadtest::string_views;

verus! {

/// The markdown extensions the site turns on: tables, strikethrough, footnotes and math
/// (`$...$` and `$$...$$`).
pub open spec fn site_options() -> (bool, bool, bool, bool) {
    (true, true, true, true)
}

/// The events pulldown-cmark reads from `src` with the extensions `opts` (tables,
/// strikethrough, footnotes, math), one entry per event: the LaTeX source of a math span and
/// whether it is display math, `None` for any other event.
pub uninterp spec fn markdown_math_events(src: Seq<char>, opts: (bool, bool, bool, bool)) -> Seq<
    Option<(Seq<char>, bool)>,
>;

/// The HTML pulldown-cmark writes for `src` with the extensions `opts`, each math event
/// replaced by the raw HTML given for it in `html` (one entry per event, by position).
pub uninterp spec fn markdown_html(
    src: Seq<char>,
    opts: (bool, bool, bool, bool),
    html: Seq<Seq<char>>,
) -> Seq<char>;

/// The values of math events.
pub open spec fn event_views(s: Seq<Option<(String, bool)>>) -> Seq<Option<(Seq<char>, bool)>> {
    s.map_values(
        |e: Option<(String, bool)>|
            match e {
                Some((t, d)) => Some((t@, d)),
                None => None,
            },
    )
}

/// The values of math spans.
pub open spec fn span_views(s: Seq<(String, bool)>) -> Seq<(Seq<char>, bool)> {
    s.map_values(|e: (String, bool)| (e.0@, e.1))
}

/// `Parser::new_ext` over `src` with the extensions `opts`, each event mapped to its math
/// span (`InlineMath`, `DisplayMath`) or `None`. The contract names what the parser returns,
/// a function of the text and the options alone.
#[verifier::external_body]
fn math_events(src: &str, opts: (bool, bool, bool, bool)) -> (r: Vec<Option<(String, bool)>>)
    ensures
        event_views(r@) == markdown_math_events(src@, opts),
{
    let mut o = pulldown_cmark::Options::empty();
    o.set(pulldown_cmark::Options::ENABLE_TABLES, opts.0);
    o.set(pulldown_cmark::Options::ENABLE_STRIKETHROUGH, opts.1);
    o.set(pulldown_cmark::Options::ENABLE_FOOTNOTES, opts.2);
    o.set(pulldown_cmark::Options::ENABLE_MATH, opts.3);
    pulldown_cmark::Parser::new_ext(src, o).map(|e| match e {
        pulldown_cmark::Event::InlineMath(t) => Some((t.to_string(), false)),
        pulldown_cmark::Event::DisplayMath(t) => Some((t.to_string(), true)),
        _ => None,
    }).collect()
}

/// `Parser::new_ext` over `src` with the extensions `opts`, each math event replaced by
/// `Event::Html` of the entry of `rendered` at its position, written out by
/// `html::push_html`. The contract names what is written, a function of the text, the
/// options and the entries alone.
#[verifier::external_body]
fn push_markdown_html(src: &str, opts: (bool, bool, bool, bool), rendered: &[String]) -> (r: String)
    requires
        rendered@.len() == markdown_math_events(src@, opts).len(),
    ensures
        r@ == markdown_html(src@, opts, string_views(rendered@)),
{
    let mut o = pulldown_cmark::Options::empty();
    o.set(pulldown_cmark::Options::ENABLE_TABLES, opts.0);
    o.set(pulldown_cmark::Options::ENABLE_STRIKETHROUGH, opts.1);
    o.set(pulldown_cmark::Options::ENABLE_FOOTNOTES, opts.2);
    o.set(pulldown_cmark::Options::ENABLE_MATH, opts.3);
    let events = pulldown_cmark::Parser::new_ext(src, o).zip(rendered.iter()).map(|(e, h)| match e {
        pulldown_cmark::Event::InlineMath(_) => pulldown_cmark::Event::Html(h.clone().into()),
        pulldown_cmark::Event::DisplayMath(_) => pulldown_cmark::Event::Html(h.clone().into()),
        other => other,
    });
    let mut out = String::new();
    pulldown_cmark::html::push_html(&mut out, events);
    out
}

/// The math spans among the events, in order.
pub open spec fn math_of(events: Seq<Option<(Seq<char>, bool)>>) -> Seq<(Seq<char>, bool)>
    decreases events.len(),
{
    if events.len() == 0 {
        seq![]
    } else {
        let before = math_of(events.drop_last());
        match events.last() {
            Some(m) => before.push(m),
            None => before,
        }
    }
}

/// The HTML for each event: the `k`-th math span gets the `k`-th entry of `math_html` (empty
/// where there is none); other events get nothing, as they are written by the parser.
pub open spec fn per_event(events: Seq<Option<(Seq<char>, bool)>>, math_html: Seq<Seq<char>>) -> Seq<
    Seq<char>,
>
    decreases events.len(),
{
    if events.len() == 0 {
        seq![]
    } else {
        let before = per_event(events.drop_last(), math_html);
        let j = math_of(events.drop_last()).len();
        if events.last() is Some && j < math_html.len() {
            before.push(math_html[j as int])
        } else {
            before.push(seq![])
        }
    }
}

/// The math spans among `events`, in order.
pub fn spans_of(events: &[Option<(String, bool)>]) -> (r: Vec<(String, bool)>)
    ensures
        span_views(r@) == math_of(event_views(events@)),
{
    let mut r: Vec<(String, bool)> = Vec::new();
    let n = events.len();
    for i in 0..n
        invariant
            n == events@.len(),
            span_views(r@) == math_of(event_views(events@).take(i as int)),
    {
        let ghost ev = event_views(events@);
        assert(ev.take(i + 1).drop_last() == ev.take(i as int));
        assert(ev.take(i + 1).last() == ev[i as int]);
        match &events[i] {
            Some((t, d)) => {
                r.push((t.clone(), *d));
                assert(span_views(r@) == math_of(ev.take(i as int)).push((t@, *d)));
            },
            None => {},
        }
    }
    assert(event_views(events@).take(n as int) == event_views(events@));
    r
}

/// The math spans of the markdown source `src`, in order: the LaTeX source and whether it is
/// display math. These are what is to be rendered before `md_to_html`.
pub fn math_spans(src: &str) -> (r: Vec<(String, bool)>)
    ensures
        span_views(r@) == math_of(markdown_math_events(src@, site_options())),
{
    let events = math_events(src, (true, true, true, true));
    spans_of(events.as_slice())
}

/// The HTML for each of `events`: `math_html`'s entries handed out to the math spans in
/// order, nothing to the others.
pub fn event_html(events: &[Option<(String, bool)>], math_html: &[String]) -> (r: Vec<String>)
    ensures
        r@.len() == events@.len(),
        string_views(r@) == per_event(event_views(events@), string_views(math_html@)),
{
    let ghost ev = event_views(events@);
    let ghost mh = string_views(math_html@);
    let mut r: Vec<String> = Vec::new();
    let mut j: usize = 0;
    let n = events.len();
    for i in 0..n
        invariant
            n == events@.len(),
            ev == event_views(events@),
            mh == string_views(math_html@),
            r@.len() == i,
            j <= i,
            j == math_of(ev.take(i as int)).len(),
            string_views(r@) == per_event(ev.take(i as int), mh),
    {
        assert(ev.take(i + 1).drop_last() == ev.take(i as int));
        assert(ev.take(i + 1).last() == ev[i as int]);
        let is_math = match &events[i] {
            Some(_) => true,
            None => false,
        };
        if is_math && j < math_html.len() {
            r.push(math_html[j].clone());
        } else {
            r.push(String::new());
        }
        assert(string_views(r@) == per_event(ev.take(i + 1), mh));
        if is_math {
            j = j + 1;
        }
    }
    assert(ev.take(n as int) == ev);
    r
}

/// Markdown to HTML with the site's extensions, the `k`-th math span written as the `k`-th
/// entry of `math_html` (the HTML rendered for it; nothing where `math_html` runs out).
pub fn md_to_html(src: &str, math_html: &[String]) -> (r: String)
    ensures
        r@ == markdown_html(
            src@,
            site_options(),
            per_event(markdown_math_events(src@, site_options()), string_views(math_html@)),
        ),
{
    let opts = (true, true, true, true);
    let events = math_events(src, opts);
    let html = event_html(events.as_slice(), math_html);
    push_markdown_html(src, opts, html.as_slice())
}

proof fn lemma_per_event_at(events: Seq<Option<(Seq<char>, bool)>>, mh: Seq<Seq<char>>)
    ensures
        per_event(events, mh).len() == events.len(),
        forall|k: int|
            0 <= k < events.len() ==> #[trigger] per_event(events, mh)[k] == (if events[k] is Some
                && math_of(events.take(k)).len() < mh.len() {
                mh[math_of(events.take(k)).len() as int]
            } else {
                seq![]
            }),
    decreases events.len(),
{
    if events.len() > 0 {
        let prev = events.drop_last();
        lemma_per_event_at(prev, mh);
        assert forall|k: int| 0 <= k < events.len() implies #[trigger] per_event(events, mh)[k] == (
        if events[k] is Some && math_of(events.take(k)).len() < mh.len() {
            mh[math_of(events.take(k)).len() as int]
        } else {
            seq![]
        }) by {
            if k < events.len() - 1 {
                assert(prev.take(k) == events.take(k));
                assert(per_event(events, mh)[k] == per_event(prev, mh)[k]);
                assert(prev[k] == events[k]);
            } else {
                assert(events.take(k) == prev);
            }
        }
    }
}

proof fn lemma_math_of_at(events: Seq<Option<(Seq<char>, bool)>>, k: int)
    requires
        0 <= k < events.len(),
        events[k] is Some,
    ensures
        math_of(events.take(k)).len() < math_of(events).len(),
        math_of(events)[math_of(events.take(k)).len() as int] == events[k].unwrap(),
    decreases events.len(),
{
    let prev = events.drop_last();
    if k == events.len() - 1 {
        assert(events.take(k) == prev);
    } else {
        lemma_math_of_at(prev, k);
        assert(prev.take(k) == events.take(k));
        assert(prev[k] == events[k]);
    }
}

/// Every math span is written as the HTML rendered for it: when `math_html` holds the
/// rendering `f` of each math span in order, each math event gets the rendering of its own
/// LaTeX source.
pub proof fn lemma_each_span_gets_its_html(
    events: Seq<Option<(Seq<char>, bool)>>,
    math_html: Seq<Seq<char>>,
    f: spec_fn((Seq<char>, bool)) -> Seq<char>,
)
    requires
        math_html.len() == math_of(events).len(),
        forall|j: int| 0 <= j < math_html.len() ==> #[trigger] math_html[j] == f(math_of(events)[j]),
    ensures
        per_event(events, math_html).len() == events.len(),
        forall|k: int|
            0 <= k < events.len() && events[k] is Some ==> #[trigger] per_event(events, math_html)[k]
                == f(events[k].unwrap()),
{
    lemma_per_event_at(events, math_html);
    assert forall|k: int| 0 <= k < events.len() && events[k] is Some implies #[trigger] per_event(
        events,
        math_html,
    )[k] == f(events[k].unwrap()) by {
        lemma_math_of_at(events, k);
        let j = math_of(events.take(k)).len() as int;
        assert(math_html[j] == f(math_of(events)[j]));
    }
}

} // verus!
