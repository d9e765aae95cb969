//! The index page: the post list, spliced into the main page.
use vstd::prelude::*;
use crate::html::{escape_html, page_html, push_escaped, render_page};
use crate::post::{is_slug_char, lemma_slug_of_ascii_title, post_views, slug_of, Post, PostView};
use crate::server::target_file;
use crate::text::{
    all_ascii, before_first, chars_of, contains, contains_chars, has_pair, lemma_before_first_prefix,
    lemma_contains_pair, lemma_pair_concat, lemma_replace_all_contains, occurs_at,
    push_replaced_all, replace_all, trim_start_char,
};

verus! {

/// The link to the page of the post with slug `slug`, relative to the home page.
pub open spec fn post_href(slug: Seq<char>) -> Seq<char> {
    "posts/"@ + slug + ".html"@
}

/// The file the page of the post with slug `slug` is written to.
pub open spec fn post_page_path(slug: Seq<char>) -> Seq<char> {
    "dist/"@ + post_href(slug)
}

/// The path of the file the page of the post with slug `slug` is written to.
pub fn post_page_file(slug: &str) -> (r: String)
    ensures
        r@ == post_page_path(slug@),
{
    let mut r = String::new();
    r.append("dist/posts/");
    r.append(slug);
    r.append(".html");
    proof {
        reveal_strlit("dist/posts/");
        reveal_strlit("dist/");
        reveal_strlit("posts/");
    }
    assert(r@ =~= post_page_path(slug@));
    r
}

/// The list entry of one post: its escaped date, if it has one, and a link to its page under
/// its slug, labelled with its escaped title.
pub open spec fn post_list_item(p: PostView) -> Seq<char> {
    let date = match p.date {
        Some(d) => " <span class=\"post-date\">"@ + escape_html(d) + "</span>"@,
        None => seq![],
    };
    "  <li>"@ + date + " <a href=\""@ + post_href(p.slug) + "\">"@ + escape_html(p.title)
        + "</a></li>\n"@
}

/// The list entries of the posts, in order.
pub open spec fn post_list_items(posts: Seq<PostView>) -> Seq<char>
    decreases posts.len(),
{
    if posts.len() == 0 {
        seq![]
    } else {
        post_list_items(posts.drop_last()) + post_list_item(posts.last())
    }
}

/// The post list section of the index page.
pub open spec fn post_list(posts: Seq<PostView>) -> Seq<char> {
    "<h2>Posts</h2>\n<ul class=\"posts\">\n"@ + post_list_items(posts) + "</ul>\n"@
}

/// The marker in the main page where the post list goes.
pub open spec fn posts_marker() -> Seq<char> {
    "{{posts}}"@
}

/// The body of the index page: the main page's HTML with the post list at the `{{posts}}`
/// marker (a paragraph holding only the marker counting as the marker), or after the main
/// page where it has no marker.
pub open spec fn index_body(main_html: Seq<char>, list: Seq<char>) -> Seq<char> {
    let m = replace_all(main_html, "<p>{{posts}}</p>"@, posts_marker());
    if contains(m, posts_marker()) {
        replace_all(m, posts_marker(), list)
    } else {
        m + "\n"@ + list
    }
}

/// The index page for the posts, in the order given, around the main page's HTML.
pub open spec fn index_html(posts: Seq<PostView>, main_html: Seq<char>) -> Seq<char> {
    page_html("feitreim.com"@, index_body(main_html, post_list(posts)), false)
}

/// The site's home page: `main_html` (the rendered `main.md`) with the list of `posts`
/// put at its `{{posts}}` marker.
pub fn render_index(posts: &[Post], main_html: &str) -> (r: String)
    ensures
        r@ == index_html(post_views(posts@), main_html@),
{
    let mut list = String::new();
    list.append("<h2>Posts</h2>\n<ul class=\"posts\">\n");
    let ghost head = list@;
    let n = posts.len();
    for k in 0..n
        invariant
            n == posts@.len(),
            list@ == head + post_list_items(post_views(posts@).take(k as int)),
    {
        let p = &posts[k];
        let ghost before = list@;
        list.append("  <li>");
        match &p.date {
            Some(d) => {
                list.append(" <span class=\"post-date\">");
                let dc = chars_of(d.as_str());
                push_escaped(&mut list, dc.as_slice());
                list.append("</span>");
            },
            None => {},
        }
        list.append(" <a href=\"posts/");
        list.append(p.slug.as_str());
        list.append(".html\">");
        proof {
            reveal_strlit(" <a href=\"posts/");
            reveal_strlit(" <a href=\"");
            reveal_strlit("posts/");
            reveal_strlit(".html\">");
            reveal_strlit("\">");
            reveal_strlit(".html");
        }
        let tc = chars_of(p.title.as_str());
        push_escaped(&mut list, tc.as_slice());
        list.append("</a></li>\n");
        proof {
            let vs = post_views(posts@);
            assert(vs.take(k + 1).drop_last() == vs.take(k as int));
            assert(vs.take(k + 1).last() == p@);
            assert(list@ =~= before + post_list_item(p@));
        }
    }
    list.append("</ul>\n");
    assert(post_views(posts@).take(n as int) == post_views(posts@));
    let main = chars_of(main_html);
    let para = chars_of("<p>{{posts}}</p>");
    let marker = chars_of("{{posts}}");
    proof {
        reveal_strlit("<p>{{posts}}</p>");
        reveal_strlit("{{posts}}");
    }
    let mut m = String::new();
    push_replaced_all(&mut m, main.as_slice(), para.as_slice(), "{{posts}}");
    let mc = chars_of(m.as_str());
    let mut body = String::new();
    if contains_chars(mc.as_slice(), marker.as_slice()) {
        push_replaced_all(&mut body, mc.as_slice(), marker.as_slice(), list.as_str());
    } else {
        body.append(m.as_str());
        body.append("\n");
        body.append(list.as_str());
    }
    render_page("feitreim.com", body.as_str(), false)
}


/// The home page always lists the posts: the post list appears in its body whether or not
/// the main page has a `{{posts}}` marker.
pub proof fn lemma_index_lists_posts(posts: Seq<PostView>, main_html: Seq<char>)
    ensures
        contains(index_body(main_html, post_list(posts)), post_list(posts)),
{
    reveal_strlit("{{posts}}");
    let list = post_list(posts);
    let m = replace_all(main_html, "<p>{{posts}}</p>"@, posts_marker());
    if contains(m, posts_marker()) {
        lemma_replace_all_contains(m, posts_marker(), list);
    } else {
        let b = m + "\n"@ + list;
        assert(b.subrange(b.len() - list.len(), b.len() as int) == list);
        assert(occurs_at(b, list, b.len() - list.len()));
    }
}

proof fn lemma_slug_link_resolves(slug: Seq<char>)
    requires
        forall|i: int| 0 <= i < slug.len() ==> is_slug_char(#[trigger] slug[i]),
    ensures
        target_file("/"@ + post_href(slug)) == Some(post_page_path(slug)),
{
    reveal_strlit("/");
    reveal_strlit("posts/");
    reveal_strlit(".html");
    reveal_strlit("..");
    reveal_strlit("dist");
    reveal_strlit("dist/");
    let href = post_href(slug);
    let path = "/"@ + href;
    let head = "posts/"@;
    let tail = ".html"@;
    assert(href == head + slug + tail);
    assert forall|i: int| 0 <= i < path.len() implies #[trigger] path[i] != '?' by {
        if 1 <= i < 7 {
            assert(path[i] == head[i - 1]);
        } else if 7 <= i < 7 + slug.len() {
            assert(path[i] == slug[i - 7]);
            assert(is_slug_char(slug[i - 7]));
        } else if i >= 7 + slug.len() {
            assert(path[i] == tail[i - 7 - slug.len()]);
        }
    }
    let k = lemma_before_first_prefix(path, '?');
    assert(before_first(path, '?') == path);
    assert(path.drop_first() == href);
    assert(trim_start_char(href, '/') == href);
    assert(trim_start_char(path, '/') == href);
    assert(!has_pair(head, '.'));
    assert(!has_pair(slug, '.')) by {
        assert forall|i: int| 0 <= i < slug.len() - 1 implies #[trigger] slug[i] != '.' by {
            assert(is_slug_char(slug[i]));
        }
    }
    assert(!has_pair(tail, '.')) by {
        assert forall|i: int| 0 <= i < tail.len() - 1 implies !(#[trigger] tail[i] == '.' && tail[i + 1] == '.') by {}
    }
    lemma_pair_concat(head, slug, '.');
    if slug.len() > 0 {
        assert((head + slug).last() == slug.last());
        assert(is_slug_char(slug[slug.len() - 1]));
    }
    lemma_pair_concat(head + slug, tail, '.');
    lemma_contains_pair(href, '.');
    assert(".."@ == seq!['.', '.']);
    assert(!contains(href, ".."@));
    assert(post_page_path(slug) =~= "dist"@ + "/"@ + href);
}

/// Every post link on the home page leads to the page written for that post: the server
/// resolves the link (relative to `/`) for the slug of an ASCII title to the post's page file.
pub proof fn lemma_post_links_resolve(title: Seq<char>)
    requires
        all_ascii(title),
    ensures
        target_file("/"@ + post_href(slug_of(title))) == Some(post_page_path(slug_of(title))),
{
    lemma_slug_of_ascii_title(title);
    lemma_slug_link_resolves(slug_of(title));
}

} // verus!
