use pulldown_cmark::{html, Event, Options, Parser};
use website::markdown::{math_spans, md_to_html};

fn reference(src: &str, render: impl Fn(&str, bool) -> String) -> String {
    let mut opts = Options::empty();
    opts.insert(Options::ENABLE_TABLES);
    opts.insert(Options::ENABLE_STRIKETHROUGH);
    opts.insert(Options::ENABLE_FOOTNOTES);
    opts.insert(Options::ENABLE_MATH);
    let parser = Parser::new_ext(src, opts).map(|event| match event {
        Event::InlineMath(latex) => Event::Html(render(&latex, false).into()),
        Event::DisplayMath(latex) => Event::Html(render(&latex, true).into()),
        other => other,
    });
    let mut out = String::new();
    html::push_html(&mut out, parser);
    out
}

fn shown(latex: &str, display: bool) -> String {
    format!("[{}{latex}]", if display { "D:" } else { "I:" })
}

#[test]
fn math_spans_in_order_and_code_stays_literal() {
    let spans = math_spans("a $x$ b\n\n$$y^2$$\n\n`$z$` and\n\n```\n$w$\n```\n");
    assert_eq!(spans, vec![("x".to_string(), false), ("y^2".to_string(), true)]);
    assert!(math_spans("no math here").is_empty());
}

#[test]
fn md_to_html_exact_output() {
    let html = md_to_html("# Hi\n\nSee $x$.", &["<i>X</i>".to_string()]);
    assert_eq!(html, "<h1>Hi</h1>\n<p>See <i>X</i>.</p>\n");
    assert_eq!(md_to_html("", &[]), "");
}

#[test]
fn md_to_html_matches_rendering_each_span() {
    let sources = [
        "# Title\n\nInline $a+b$ and display:\n\n$$\\int_0^1 x\\,dx$$\n",
        "| a | b |\n|---|---|\n| $1$ | ~~old~~ |\n\nText[^n].\n\n[^n]: note $m$\n",
        "plain *markdown* with `code $not math$`\n",
    ];
    for src in sources {
        let rendered: Vec<String> =
            math_spans(src).iter().map(|(l, d)| shown(l, *d)).collect();
        assert_eq!(md_to_html(src, &rendered), reference(src, shown));
    }
}

#[test]
fn md_to_html_leaves_spans_empty_when_rendering_runs_out() {
    let html = md_to_html("$a$ and $b$", &["A".to_string()]);
    assert_eq!(html, "<p>A and </p>\n");
}
