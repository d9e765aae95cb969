use website::server::{
    content_type, directory_index, forbidden, request_path, resolve_target, respond,
    response_header, Target, OUT_DIR,
};
use website::post::slugify;
use website::site::post_page_file;

fn file(path: &str) -> String {
    match resolve_target(path) {
        Target::File(f) => f,
        Target::Forbidden => panic!("forbidden: {path}"),
    }
}

#[test]
fn request_path_is_second_word() {
    assert_eq!(request_path("GET /posts/a.html HTTP/1.1\r\n"), "/posts/a.html");
    assert_eq!(request_path("GET"), "/");
    assert_eq!(request_path(""), "/");
    assert_eq!(request_path("  GET \t /x  "), "/x");
}

#[test]
fn resolve_maps_paths_into_out_dir() {
    assert_eq!(OUT_DIR, "dist");
    assert_eq!(file("/"), "dist/index.html");
    assert_eq!(file(""), "dist/index.html");
    assert_eq!(file("/?q=1"), "dist/index.html");
    assert_eq!(file("/posts/x.html?x=1"), "dist/posts/x.html");
    assert_eq!(file("///style.css"), "dist/style.css");
}

#[test]
fn resolve_refuses_parent_directories() {
    assert!(matches!(resolve_target("/../etc/passwd"), Target::Forbidden));
    assert!(matches!(resolve_target("/a/..b"), Target::Forbidden));
    assert!(matches!(resolve_target("/ok?x=../y"), Target::File(_)));
}

#[test]
fn served_files_stay_inside_out_dir() {
    for p in ["/", "/a/./b", "/.x", "/a.", "/posts/", "/..."] {
        if let Target::File(f) = resolve_target(p) {
            assert!(f.starts_with("dist/"));
            assert!(!f.contains(".."));
            assert!(!directory_index(&f).contains(".."));
        }
    }
}

#[test]
fn post_links_resolve_to_written_pages() {
    assert_eq!(post_page_file("basic-nn-math"), "dist/posts/basic-nn-math.html");
    for title in ["Basic NN Math", "1. Intro: (draft)", "a..b"] {
        let slug = slugify(title);
        let link = format!("/posts/{slug}.html");
        assert_eq!(file(&link), post_page_file(&slug));
    }
}

#[test]
fn directory_index_appends_index_html() {
    assert_eq!(directory_index("dist/posts"), "dist/posts/index.html");
    assert_eq!(directory_index("dist/posts/"), "dist/posts/index.html");
}

#[test]
fn content_types_by_extension() {
    assert_eq!(content_type("dist/index.html"), "text/html; charset=utf-8");
    assert_eq!(content_type("dist/style.css"), "text/css; charset=utf-8");
    assert_eq!(content_type("a.js"), "text/javascript; charset=utf-8");
    assert_eq!(content_type("favicon.svg"), "image/svg+xml");
    assert_eq!(content_type("f.woff2"), "font/woff2");
    assert_eq!(content_type("f.woff"), "font/woff");
    assert_eq!(content_type("p.png"), "image/png");
    assert_eq!(content_type("p.jpg"), "image/jpeg");
    assert_eq!(content_type("p.jpeg"), "image/jpeg");
    assert_eq!(content_type("p.HTML"), "application/octet-stream");
    assert_eq!(content_type("dist/.html"), "application/octet-stream");
    assert_eq!(content_type("a.tar.gz"), "application/octet-stream");
    assert_eq!(content_type("dist/a.html/"), "text/html; charset=utf-8");
    assert_eq!(content_type("dist/a.html/."), "text/html; charset=utf-8");
    assert_eq!(content_type("dist/.."), "application/octet-stream");
    assert_eq!(content_type("noext"), "application/octet-stream");
}

#[test]
fn responses() {
    let ok = respond("dist/x.css", Some(vec![1, 2, 3]));
    assert_eq!(ok.status, "200 OK");
    assert_eq!(ok.content_type, "text/css; charset=utf-8");
    assert_eq!(ok.body, vec![1, 2, 3]);
    let missing = respond("dist/x.css", None);
    assert_eq!(missing.status, "404 Not Found");
    assert_eq!(missing.content_type, "text/html; charset=utf-8");
    assert_eq!(missing.body, b"<h1>404</h1><p><a href=\"/\">home</a></p>".to_vec());
    let no = forbidden();
    assert_eq!(no.status, "403 Forbidden");
    assert_eq!(no.content_type, "text/plain");
    assert_eq!(no.body, b"forbidden".to_vec());
}

#[test]
fn response_header_text() {
    assert_eq!(
        response_header("200 OK", "text/plain", 1234),
        "HTTP/1.1 200 OK\r\nContent-Type: text/plain\r\nContent-Length: 1234\r\nConnection: close\r\n\r\n"
    );
    assert!(response_header("404 Not Found", "x", 0).contains("Content-Length: 0\r\n"));
}

fn answer(path: &str, dirs: &[&str], files: &[(&str, &[u8])]) -> (String, Vec<u8>) {
    let file = match resolve_target(path) {
        Target::Forbidden => {
            let r = forbidden();
            return (r.status.to_string(), r.body);
        }
        Target::File(f) => f,
    };
    let file = if dirs.contains(&file.as_str()) { directory_index(&file) } else { file };
    let contents = files.iter().find(|(n, _)| *n == file).map(|(_, b)| b.to_vec());
    let r = respond(&file, contents);
    (r.status.to_string(), r.body)
}

#[test]
fn answers_come_from_files_inside_dist() {
    let dirs = ["dist/posts"];
    let files: [(&str, &[u8]); 3] = [
        ("dist/index.html", b"home"),
        ("dist/posts/index.html", b"posts"),
        ("dist/posts/a.html", b"a"),
    ];
    assert_eq!(answer("/", &dirs, &files), ("200 OK".to_string(), b"home".to_vec()));
    assert_eq!(answer("/posts?x", &dirs, &files), ("200 OK".to_string(), b"posts".to_vec()));
    assert_eq!(answer("/posts/a.html", &dirs, &files), ("200 OK".to_string(), b"a".to_vec()));
    assert_eq!(answer("/posts/../index.html", &dirs, &files).0, "403 Forbidden");
    assert_eq!(answer("/missing", &dirs, &files).0, "404 Not Found");
}
