use website::html::{escape, frame_math, render_math, render_page, style_svg};
use website::order::{compare_posts, compare_titles, sort_posts};
use website::post::{
    date_from_markdown, humanize, month_number, parse_sortable_date, read_post, slugify,
    title_from_markdown, Post,
};
use website::site::render_index;
use std::cmp::Ordering;

fn post(title: &str, date: Option<&str>) -> Post {
    Post {
        title: title.to_string(),
        slug: slugify(title),
        body: String::new(),
        date: date.map(|d| d.to_string()),
        date_key: date.and_then(parse_sortable_date),
    }
}

#[test]
fn escape_replaces_markup_characters() {
    assert_eq!(escape("a<b>&c"), "a&lt;b&gt;&amp;c");
    assert_eq!(escape("plain text"), "plain text");
    assert_eq!(escape(""), "");
    assert_eq!(escape("&amp;"), "&amp;amp;");
}

#[test]
fn escape_round_trips_and_never_shortens() {
    for t in ["a<b>&c", "&lt;", "&amp;gt;", "<<>>&&", "plain", "", "x &gt y"] {
        let e = escape(t);
        let back = e.replace("&lt;", "<").replace("&gt;", ">").replace("&amp;", "&");
        assert_eq!(back, t);
        assert!(e.len() >= t.len());
    }
}

#[test]
fn escaped_text_has_no_angle_brackets() {
    let e = escape("<script>alert('x')</script> >> <<");
    assert!(!e.contains('<'));
    assert!(!e.contains('>'));
}

#[test]
fn render_page_wraps_body_and_escapes_title() {
    let page = render_page("A <b> & C", "<p>hi</p>", true);
    assert!(page.starts_with("<!DOCTYPE html>\n<html lang=\"en\">\n"));
    assert!(page.contains("<title>A &lt;b&gt; &amp; C</title>"));
    assert!(page.contains("<main>\n<p class=\"nav\"><a href=\"/\"><- home</a></p>\n<p>hi</p>\n</main>"));
    assert!(page.ends_with("</body>\n</html>\n"));
    let plain = render_page("T", "B", false);
    assert!(!plain.contains("class=\"nav\""));
    assert!(plain.contains("<main>\nB\n</main>"));
}

#[test]
fn render_page_exact_text() {
    let page = render_page("T", "B", false);
    let expected = "<!DOCTYPE html>\n<html lang=\"en\">\n<head>\n<meta charset=\"utf-8\">\n<meta name=\"viewport\" content=\"width=device-width, initial-scale=1\">\n<title>T</title>\n<link rel=\"icon\" href=\"/favicon.svg\" type=\"image/svg+xml\">\n<link rel=\"stylesheet\" href=\"/style.css\">\n</head>\n<body>\n<main>\nB\n</main>\n<p class=\"accred\"><a href=\"https://github.com/comfysage/evergarden\">evergarden</a> summer</p>\n</body>\n</html>\n";
    assert_eq!(page, expected);
}

#[test]
fn render_math_falls_back_to_source() {
    assert_eq!(render_math("x<y", false, None), "<code>$x&lt;y$</code>");
    assert_eq!(render_math("a&b", true, None), "<code>$$a&amp;b$$</code>");
    assert_eq!(render_math("x", false, Some("<svg/>".to_string())), "<svg/>");
}

#[test]
fn style_svg_styles_first_tag_only() {
    let s = style_svg("<svg a><svg b>".to_string(), "h:1");
    assert_eq!(s, "<svg class=\"math\" style=\"h:1\" a><svg b>");
    assert_eq!(style_svg("<g>".to_string(), "x"), "<g>");
}

#[test]
fn frame_math_sizes_inline_and_display() {
    let inline = frame_math("<svg x>".to_string(), "1.2000", "0.3000", false);
    assert_eq!(
        inline,
        "<svg class=\"math\" style=\"height:1.2000em;width:auto;vertical-align:-0.3000em\" x>"
    );
    let display = frame_math("<svg x>".to_string(), "2.0000", "0.5000", true);
    assert_eq!(
        display,
        "<div class=\"math-display\"><svg class=\"math\" style=\"height:2.0000em;width:auto\" x></div>"
    );
}

#[test]
fn humanize_capitalizes_words() {
    assert_eq!(humanize("basic nn math"), "Basic Nn Math");
    assert_eq!(humanize("forward_ad"), "Forward Ad");
    assert_eq!(humanize("--a__b  c-"), "A B C");
    assert_eq!(humanize(""), "");
    assert_eq!(humanize("éclair-au-chocolat"), "Éclair Au Chocolat");
}

#[test]
fn slugify_lowercases_and_hyphenates() {
    assert_eq!(slugify("Basic NN Math"), "basic-nn-math");
    assert_eq!(slugify("  Hello, World!  "), "hello-world");
    assert_eq!(slugify("C++ & Rust"), "c-rust");
    assert_eq!(slugify("---"), "");
    assert_eq!(slugify("Crème Brûlée"), "crème-brûlée");
}

#[test]
fn slug_of_ascii_title_has_no_double_or_edge_dashes() {
    for t in ["a -- b", "!!x!!", "Hello   World", "1. Intro: (draft)"] {
        let s = slugify(t);
        assert!(!s.starts_with('-') && !s.ends_with('-'));
        assert!(!s.contains("--"));
        assert!(s.chars().all(|c| c.is_ascii_lowercase() || c.is_ascii_digit() || c == '-'));
    }
}

#[test]
fn slugify_is_stable_on_slugs() {
    for t in ["Basic NN Math", "a -- b", "!!x!!", "1. Intro: (draft)", ""] {
        let s = slugify(t);
        assert_eq!(slugify(&s), s);
    }
}

#[test]
fn title_is_first_level_one_heading() {
    assert_eq!(title_from_markdown("intro\n# Hello  \nmore"), Some("Hello".to_string()));
    assert_eq!(title_from_markdown("#Hello\n## Sub"), None);
    assert_eq!(title_from_markdown("   #   Spaced out  \r\n"), Some("Spaced out".to_string()));
    assert_eq!(title_from_markdown("# First\n# Second"), Some("First".to_string()));
    assert_eq!(title_from_markdown(""), None);
}

#[test]
fn date_is_first_nonempty_date_line() {
    assert_eq!(
        date_from_markdown("# T\n### date:\n### date: 29 Nov, 2025\n"),
        Some("29 Nov, 2025".to_string())
    );
    assert_eq!(date_from_markdown("### date:   "), None);
    assert_eq!(date_from_markdown("no date here"), None);
}

#[test]
fn month_numbers() {
    assert_eq!(month_number("Jan"), Some(1));
    assert_eq!(month_number("Dec"), Some(12));
    assert_eq!(month_number("jan"), None);
    assert_eq!(month_number("January"), None);
}

#[test]
fn sortable_dates() {
    assert_eq!(parse_sortable_date("29 Nov, 2025"), Some((2025, 11, 29)));
    assert_eq!(parse_sortable_date("  1   Jan,, 2020 "), Some((2020, 1, 1)));
    assert_eq!(parse_sortable_date("+5 Mar 2024"), Some((2024, 3, 5)));
    assert_eq!(parse_sortable_date("0 Nov, 2025"), None);
    assert_eq!(parse_sortable_date("32 Jan 2020"), None);
    assert_eq!(parse_sortable_date("1 Foo 2020"), None);
    assert_eq!(parse_sortable_date("1 Jan 2020 extra"), None);
    assert_eq!(parse_sortable_date("1 Jan"), None);
    assert_eq!(parse_sortable_date("1 Jan 70000"), None);
    assert_eq!(parse_sortable_date("300 Jan 2020"), None);
}

#[test]
fn read_post_skips_empty_drafts() {
    assert!(read_post("draft", "  \n\t ".to_string()).is_none());
    assert!(read_post("draft", String::new()).is_none());
}

#[test]
fn read_post_takes_title_slug_and_date() {
    let p = read_post("file_name", "# My Post!\n### date: 3 Feb, 2024\nbody".to_string()).unwrap();
    assert_eq!(p.title, "My Post!");
    assert_eq!(p.slug, "my-post");
    assert_eq!(p.date.as_deref(), Some("3 Feb, 2024"));
    assert_eq!(p.date_key, Some((2024, 2, 3)));
    assert_eq!(p.body, "# My Post!\n### date: 3 Feb, 2024\nbody");
}

#[test]
fn read_post_falls_back_to_file_name() {
    let p = read_post("basic nn_math", "no heading here".to_string()).unwrap();
    assert_eq!(p.title, "Basic Nn Math");
    assert_eq!(p.slug, "basic-nn-math");
    assert_eq!(p.date, None);
    assert_eq!(p.date_key, None);
}

#[test]
fn compare_titles_ignores_case() {
    assert_eq!(compare_titles(&post("apple", None), &post("Banana", None)), Ordering::Less);
    assert_eq!(compare_titles(&post("ZEBRA", None), &post("apple", None)), Ordering::Greater);
    assert_eq!(compare_titles(&post("Same", None), &post("sAME", None)), Ordering::Equal);
}

#[test]
fn compare_posts_newest_first_dated_before_undated() {
    let old = post("Old", Some("1 Jan, 2020"));
    let new = post("New", Some("2 Jan, 2020"));
    let undated = post("Aaa", None);
    assert_eq!(compare_posts(&new, &old), Ordering::Less);
    assert_eq!(compare_posts(&old, &new), Ordering::Greater);
    assert_eq!(compare_posts(&old, &undated), Ordering::Less);
    assert_eq!(compare_posts(&undated, &old), Ordering::Greater);
    let same_day = post("Beta", Some("1 Jan, 2020"));
    assert_eq!(compare_posts(&old, &same_day), Ordering::Greater);
}

#[test]
fn compare_posts_is_a_total_preorder() {
    let ps = [
        post("Old", Some("1 Jan, 2020")),
        post("New", Some("2 Jan, 2020")),
        post("Beta", Some("1 Jan, 2020")),
        post("beta", Some("1 Jan, 2020")),
        post("Aaa", None),
        post("aaa", None),
        post("Zed", None),
    ];
    for a in &ps {
        for b in &ps {
            assert_eq!(compare_posts(a, b), compare_posts(b, a).reverse());
            let same = a.date_key == b.date_key && a.title.to_lowercase() == b.title.to_lowercase();
            assert_eq!(compare_posts(a, b) == Ordering::Equal, same);
            for c in &ps {
                if compare_posts(a, b) != Ordering::Greater && compare_posts(b, c) != Ordering::Greater {
                    assert_ne!(compare_posts(a, c), Ordering::Greater);
                }
            }
        }
    }
}

#[test]
fn sort_posts_orders_the_list() {
    let mut posts = vec![
        post("zeta", None),
        post("Alpha", None),
        post("Mid", Some("5 May, 2023")),
        post("Newest", Some("1 Jan, 2025")),
        post("oldest", Some("9 Sep, 2001")),
        post("Also Mid", Some("5 May, 2023")),
    ];
    sort_posts(&mut posts);
    let titles: Vec<&str> = posts.iter().map(|p| p.title.as_str()).collect();
    assert_eq!(titles, vec!["Newest", "Also Mid", "Mid", "oldest", "Alpha", "zeta"]);
}

#[test]
fn sort_posts_is_stable_for_equal_titles() {
    let mut a = post("Same", None);
    a.body = "first".to_string();
    let mut b = post("same", None);
    b.body = "second".to_string();
    let mut posts = vec![a, b];
    sort_posts(&mut posts);
    assert_eq!(posts[0].body, "first");
    assert_eq!(posts[1].body, "second");
}

#[test]
fn render_index_replaces_marker_paragraph() {
    let posts = vec![post("A <Post>", Some("1 Jan, 2020")), post("B", None)];
    let page = render_index(&posts, "<h1>Hi</h1>\n<p>{{posts}}</p>\n<p>bye</p>\n");
    let list = "<h2>Posts</h2>\n<ul class=\"posts\">\n  <li> <span class=\"post-date\">1 Jan, 2020</span> <a href=\"posts/a-post.html\">A &lt;Post&gt;</a></li>\n  <li> <a href=\"posts/b.html\">B</a></li>\n</ul>\n";
    assert!(page.contains(&format!("<h1>Hi</h1>\n{list}\n<p>bye</p>")));
    assert!(!page.contains("{{posts}}"));
    assert!(page.contains("<title>feitreim.com</title>"));
    assert!(!page.contains("class=\"nav\""));
}

#[test]
fn render_index_appends_list_without_marker() {
    let posts = vec![post("Only", None)];
    let page = render_index(&posts, "<p>welcome</p>\n");
    assert!(page.contains("<p>welcome</p>\n\n<h2>Posts</h2>\n<ul class=\"posts\">\n  <li> <a href=\"posts/only.html\">Only</a></li>\n</ul>\n"));
}

#[test]
fn render_index_inline_marker() {
    let page = render_index(&[], "<p>see {{posts}} here</p>");
    assert!(page.contains("<p>see <h2>Posts</h2>\n<ul class=\"posts\">\n</ul>\n here</p>"));
}
