//! The web server's decisions: which file a request names, what is refused, and how a
//! response is labelled and framed.
use vstd::prelude::*;
use vstd::slice::slice_subrange;
use vstd::string::StringSliceAdditionalSpecFns;
use crate::text::{
    before_first, chars_of, contains, has_pair, has_prefix, lemma_contains_pair, lemma_pair_concat, contains_chars, decimal, decimal_chars, eq_str, pieces,
    position_or_len, ranges_within, split_on, split_ranges, string_of, token_ranges,
    trim_start_char, trim_start_char_len, ws_tokens,
};

verus! {

/// The directory the site is generated into and served from.
pub const OUT_DIR: &'static str = "dist";

/// The path a request line asks for: its second white-space separated word, `/` where it
/// has none.
pub open spec fn requested_path(line: Seq<char>) -> Seq<char> {
    if ws_tokens(line).len() >= 2 {
        ws_tokens(line)[1]
    } else {
        "/"@
    }
}

/// The path of an HTTP request line such as `GET /index.html HTTP/1.1`.
pub fn request_path(line: &str) -> (r: String)
    ensures
        r@ == requested_path(line@),
{
    let cs = chars_of(line);
    let toks = token_ranges(cs.as_slice());
    assert(pieces(cs@, toks@) == ws_tokens(line@));
    if toks.len() >= 2 {
        let (a, b) = toks[1];
        string_of(slice_subrange(cs.as_slice(), a, b))
    } else {
        let mut s = String::new();
        s.append("/");
        s
    }
}

/// `seg` appended to the path `base` as `PathBuf::push` does for a relative `seg`: with a
/// `/` between them unless `base` already ends in one.
pub open spec fn joined_path(base: Seq<char>, seg: Seq<char>) -> Seq<char> {
    if base.len() > 0 && base.last() == '/' {
        base + seg
    } else {
        base + "/"@ + seg
    }
}

/// A request path without its query and without leading `/`.
pub open spec fn clean_path(path: Seq<char>) -> Seq<char> {
    trim_start_char(before_first(path, '?'), '/')
}

/// Where a request leads.
pub enum Target {
    /// The path tries to leave the served directory.
    Forbidden,
    /// The file to serve, unless it turns out to be a directory.
    File(String),
}

/// The file a request path names, under the served directory: `index.html` for the root;
/// refused when the path holds `..`.
pub open spec fn target_file(path: Seq<char>) -> Option<Seq<char>> {
    let c = clean_path(path);
    if contains(c, ".."@) {
        None
    } else {
        Some(joined_path("dist"@, if c.len() == 0 { "index.html"@ } else { c }))
    }
}

/// Maps a request path to the file it names under `dist`, or refuses it.
pub fn resolve_target(path: &str) -> (r: Target)
    ensures
        match r {
            Target::Forbidden => target_file(path@) is None,
            Target::File(f) => target_file(path@) == Some(f@),
        },
{
    proof {
        reveal_strlit("dist");
    }
    let cs = chars_of(path);
    let q = position_or_len(cs.as_slice(), '?');
    let before = slice_subrange(cs.as_slice(), 0, q);
    let k = trim_start_char_len(before, '/');
    let clean = slice_subrange(before, k, before.len());
    assert(clean@ == clean_path(path@));
    let dots = chars_of("..");
    if contains_chars(clean, dots.as_slice()) {
        return Target::Forbidden;
    }
    let mut file = String::new();
    file.append("dist/");
    if clean.len() == 0 {
        file.append("index.html");
    } else {
        let c = string_of(clean);
        file.append(c.as_str());
    }
    proof {
        reveal_strlit("dist/");
        reveal_strlit("/");
    }
    Target::File(file)
}

/// The path of the index page inside the directory `dir`.
pub fn directory_index(dir: &str) -> (r: String)
    ensures
        r@ == joined_path(dir@, "index.html"@),
{
    let cs = chars_of(dir);
    let mut out = String::new();
    out.append(dir);
    if cs.len() > 0 && cs[cs.len() - 1] == '/' {
        out.append("index.html");
    } else {
        out.append("/index.html");
        proof {
            reveal_strlit("/");
            reveal_strlit("/index.html");
            reveal_strlit("index.html");
        }
        assert(out@ =~= dir@ + "/"@ + "index.html"@);
    }
    out
}


/// The last component of a path given by its `/`-separated pieces, as `Path::file_name` finds
/// it: empty pieces and `.` are skipped, and a final `..` has no name.
pub open spec fn last_name(segs: Seq<Seq<char>>) -> Option<Seq<char>>
    decreases segs.len(),
{
    if segs.len() == 0 {
        None
    } else if segs.last().len() == 0 || segs.last() == "."@ {
        last_name(segs.drop_last())
    } else if segs.last() == ".."@ {
        None
    } else {
        Some(segs.last())
    }
}

/// The file name of a path (`Path::file_name`).
pub open spec fn file_name(path: Seq<char>) -> Option<Seq<char>> {
    last_name(split_on(path, '/'))
}

/// What follows the last `.` of `name`, if it has one.
pub open spec fn after_last_dot(name: Seq<char>) -> Option<Seq<char>>
    decreases name.len(),
{
    if name.len() == 0 {
        None
    } else if name.last() == '.' {
        Some(seq![])
    } else {
        match after_last_dot(name.drop_last()) {
            Some(e) => Some(e.push(name.last())),
            None => None,
        }
    }
}

/// The extension of a path (`Path::extension`): what follows the last `.` of its file name,
/// unless that `.` starts the name.
pub open spec fn extension(path: Seq<char>) -> Option<Seq<char>> {
    match file_name(path) {
        Some(name) => match after_last_dot(name) {
            Some(e) => if e.len() + 1 < name.len() {
                Some(e)
            } else {
                None
            },
            None => None,
        },
        None => None,
    }
}

/// The media type served for a file extension.
pub open spec fn media_type(ext: Option<Seq<char>>) -> Seq<char> {
    match ext {
        Some(e) => if e == "html"@ {
            "text/html; charset=utf-8"@
        } else if e == "css"@ {
            "text/css; charset=utf-8"@
        } else if e == "js"@ {
            "text/javascript; charset=utf-8"@
        } else if e == "svg"@ {
            "image/svg+xml"@
        } else if e == "woff2"@ {
            "font/woff2"@
        } else if e == "woff"@ {
            "font/woff"@
        } else if e == "png"@ {
            "image/png"@
        } else if e == "jpg"@ || e == "jpeg"@ {
            "image/jpeg"@
        } else {
            "application/octet-stream"@
        },
        None => "application/octet-stream"@,
    }
}

fn file_name_range(cs: &[char]) -> (r: Option<(usize, usize)>)
    ensures
        match r {
            Some((a, b)) => a <= b <= cs@.len() && file_name(cs@) == Some(cs@.subrange(a as int, b as int)),
            None => file_name(cs@) is None,
        },
{
    let segs = split_ranges(cs, '/');
    let ghost ps = pieces(cs@, segs@);
    assert(ps == split_on(cs@, '/'));
    let mut k = segs.len();
    assert(ps.take(k as int) == ps);
    while k > 0
        invariant
            k <= segs@.len() == ps.len(),
            ps == pieces(cs@, segs@),
            ps == split_on(cs@, '/'),
            ranges_within(segs@, cs@.len() as int),
            last_name(ps) == last_name(ps.take(k as int)),
        decreases k,
    {
        let (a, b) = segs[k - 1];
        let seg = slice_subrange(cs, a, b);
        assert(seg@ == ps[k - 1]);
        let ghost t = ps.take(k as int);
        assert(t.last() == ps[k - 1]);
        assert(t.drop_last() == ps.take(k - 1));
        if seg.len() == 0 || eq_str(seg, ".") {
            k = k - 1;
        } else if eq_str(seg, "..") {
            return None;
        } else {
            return Some((a, b));
        }
    }
    None
}

fn extension_range(cs: &[char]) -> (r: Option<(usize, usize)>)
    ensures
        match r {
            Some((a, b)) => a <= b <= cs@.len() && extension(cs@) == Some(cs@.subrange(a as int, b as int)),
            None => extension(cs@) is None,
        },
{
    match file_name_range(cs) {
        None => None,
        Some((a, b)) => {
            let name = slice_subrange(cs, a, b);
            let mut j = b - a;
            assert(after_last_dot(name@) == match after_last_dot(name@.take(j as int)) {
                Some(e) => Some(e + name@.skip(j as int)),
                None => None,
            }) by {
                assert(name@.take(j as int) == name@);
                assert(name@.skip(j as int) =~= Seq::<char>::empty());
            }
            while j > 0 && name[j - 1] != '.'
                invariant
                    j <= name@.len(),
                    after_last_dot(name@) == match after_last_dot(name@.take(j as int)) {
                        Some(e) => Some(e + name@.skip(j as int)),
                        None => None,
                    },
                decreases j,
            {
                let ghost t = name@.take(j as int);
                assert(t.drop_last() == name@.take(j - 1));
                assert(t.last() == name@[j - 1]);
                proof {
                    match after_last_dot(name@.take(j - 1)) {
                        Some(e) => {
                            assert(e.push(name@[j - 1]) + name@.skip(j as int) == e + name@.skip(
                                j - 1,
                            ));
                        },
                        None => {},
                    }
                }
                j = j - 1;
            }
            if j == 0 {
                assert(after_last_dot(name@.take(0)) is None);
                return None;
            }
            let ghost t = name@.take(j as int);
            assert(t.last() == '.');
            assert(after_last_dot(t) == Some(Seq::<char>::empty()));
            assert(Seq::<char>::empty() + name@.skip(j as int) == name@.skip(j as int));
            if j == 1 {
                return None;
            }
            assert(name@.skip(j as int) == cs@.subrange(a + j, b as int));
            Some((a + j, b))
        },
    }
}

/// The media type a file is served with, by its extension.
pub fn content_type(path: &str) -> (r: &'static str)
    ensures
        r@ == media_type(extension(path@)),
{
    let cs = chars_of(path);
    match extension_range(cs.as_slice()) {
        None => "application/octet-stream",
        Some((a, b)) => {
            let e = slice_subrange(cs.as_slice(), a, b);
            if eq_str(e, "html") {
                "text/html; charset=utf-8"
            } else if eq_str(e, "css") {
                "text/css; charset=utf-8"
            } else if eq_str(e, "js") {
                "text/javascript; charset=utf-8"
            } else if eq_str(e, "svg") {
                "image/svg+xml"
            } else if eq_str(e, "woff2") {
                "font/woff2"
            } else if eq_str(e, "woff") {
                "font/woff"
            } else if eq_str(e, "png") {
                "image/png"
            } else if eq_str(e, "jpg") || eq_str(e, "jpeg") {
                "image/jpeg"
            } else {
                "application/octet-stream"
            }
        },
    }
}


/// A response to send: status line text, media type and body.
pub struct Response {
    pub status: &'static str,
    pub content_type: &'static str,
    pub body: Vec<u8>,
}

/// The response to a path that tries to leave the served directory.
pub fn forbidden() -> (r: Response)
    ensures
        r.status@ == "403 Forbidden"@,
        r.content_type@ == "text/plain"@,
        r.body@ == "forbidden".spec_bytes(),
{
    Response { status: "403 Forbidden", content_type: "text/plain", body: "forbidden".as_bytes_vec() }
}

/// The response for the file `file`, given what reading it gave: its bytes with the media
/// type of its extension, or a not-found page where it could not be read.
pub fn respond(file: &str, contents: Option<Vec<u8>>) -> (r: Response)
    ensures
        match contents {
            Some(bytes) => r.status@ == "200 OK"@ && r.content_type@ == media_type(extension(file@))
                && r.body == bytes,
            None => r.status@ == "404 Not Found"@ && r.content_type@ == "text/html; charset=utf-8"@
                && r.body@ == "<h1>404</h1><p><a href=\"/\">home</a></p>".spec_bytes(),
        },
{
    match contents {
        Some(bytes) => Response { status: "200 OK", content_type: content_type(file), body: bytes },
        None => Response {
            status: "404 Not Found",
            content_type: "text/html; charset=utf-8",
            body: "<h1>404</h1><p><a href=\"/\">home</a></p>".as_bytes_vec(),
        },
    }
}

/// The header of a response: status line, media type, body length, and the closing of the
/// connection after it.
pub open spec fn header_text(status: Seq<char>, ctype: Seq<char>, len: nat) -> Seq<char> {
    "HTTP/1.1 "@ + status + "\r\nContent-Type: "@ + ctype + "\r\nContent-Length: "@ + decimal(len)
        + "\r\nConnection: close\r\n\r\n"@
}

/// The HTTP/1.1 header for a response with `len` bytes of body.
pub fn response_header(status: &str, ctype: &str, len: usize) -> (r: String)
    ensures
        r@ == header_text(status@, ctype@, len as nat),
{
    let mut out = String::new();
    out.append("HTTP/1.1 ");
    out.append(status);
    out.append("\r\nContent-Type: ");
    out.append(ctype);
    out.append("\r\nContent-Length: ");
    let digits = decimal_chars(len as u64);
    let d = string_of(digits.as_slice());
    out.append(d.as_str());
    out.append("\r\nConnection: close\r\n\r\n");
    out
}

/// A served file never lies outside the served directory: its path starts with `dist/` and
/// holds no `..`, also once a directory's `index.html` is appended to it.
pub proof fn lemma_served_files_stay_inside(path: Seq<char>)
    ensures
        target_file(path) matches Some(f) ==> {
            &&& has_prefix(f, "dist/"@)
            &&& !contains(f, ".."@)
            &&& !contains(joined_path(f, "index.html"@), ".."@)
        },
{
    reveal_strlit("dist");
    reveal_strlit("dist/");
    reveal_strlit("..");
    reveal_strlit("/");
    reveal_strlit("index.html");
    let c = clean_path(path);
    assert(".."@ =~= seq!['.', '.']);
    if !contains(c, ".."@) {
        let seg = if c.len() == 0 { "index.html"@ } else { c };
        let d = "dist/"@;
        let f = joined_path("dist"@, seg);
        assert(f == d + seg);
        lemma_contains_pair(seg, '.');
        if c.len() == 0 {
            assert(!has_pair(seg, '.')) by {
                assert forall|i: int| 0 <= i < seg.len() - 1 && #[trigger] seg[i] == '.' implies seg[i
                    + 1] != '.' by {
                    assert(i == 5);
                }
            }
        }
        lemma_contains_pair(d, '.');
        lemma_pair_concat(d, seg, '.');
        lemma_contains_pair(f, '.');
        assert(f.take(5) == d);
        let idx = "index.html"@;
        assert(!has_pair(idx, '.')) by {
            assert forall|i: int| 0 <= i < idx.len() - 1 && #[trigger] idx[i] == '.' implies idx[i
                + 1] != '.' by {
                assert(i == 5);
            }
        }
        let g = joined_path(f, idx);
        if f.last() == '/' {
            lemma_pair_concat(f, idx, '.');
        } else {
            let sl = "/"@;
            lemma_contains_pair(sl, '.');
            lemma_pair_concat(f, sl, '.');
            lemma_pair_concat(f + sl, idx, '.');
        }
        lemma_contains_pair(g, '.');
    }
}

/// The file a request for `path` is answered from, where `dirs` are the paths that are
/// directories: the file the path names, or the `index.html` inside it if it is a directory;
/// none for a refused path.
pub open spec fn served_file(path: Seq<char>, dirs: Set<Seq<char>>) -> Option<Seq<char>> {
    match target_file(path) {
        None => None,
        Some(f) => Some(if dirs.contains(f) { joined_path(f, "index.html"@) } else { f }),
    }
}

/// The answer to a request for `path` (status, media type, body), where `dirs` are the paths
/// that are directories and `files` the files that can be read, with their bytes: what
/// `resolve_target`, `directory_index`, `respond` and `forbidden` make of it in turn.
pub open spec fn resolution(path: Seq<char>, dirs: Set<Seq<char>>, files: Map<Seq<char>, Seq<u8>>) -> (
    Seq<char>,
    Seq<char>,
    Seq<u8>,
) {
    match served_file(path, dirs) {
        None => ("403 Forbidden"@, "text/plain"@, "forbidden".spec_bytes()),
        Some(g) => if files.contains_key(g) {
            ("200 OK"@, media_type(extension(g)), files[g])
        } else {
            (
                "404 Not Found"@,
                "text/html; charset=utf-8"@,
                "<h1>404</h1><p><a href=\"/\">home</a></p>".spec_bytes(),
            )
        },
    }
}

/// The server only ever answers with a file inside the served directory: a request is refused
/// exactly when its path, without query and leading `/`, holds `..`; and a `200 OK` carries
/// the bytes of the file the path names under `dist/` (its `index.html` for a directory, and
/// `dist/index.html` for the root), a path starting with `dist/` and holding no `..`.
pub proof fn lemma_resolution(path: Seq<char>, dirs: Set<Seq<char>>, files: Map<Seq<char>, Seq<u8>>)
    ensures
        (resolution(path, dirs, files).0 == "403 Forbidden"@) == contains(clean_path(path), ".."@),
        resolution(path, dirs, files).0 == "200 OK"@ ==> {
            let c = clean_path(path);
            let f = joined_path("dist"@, if c.len() == 0 { "index.html"@ } else { c });
            let g = served_file(path, dirs).unwrap();
            &&& !contains(c, ".."@)
            &&& served_file(path, dirs) is Some
            &&& g == f || g == joined_path(f, "index.html"@)
            &&& has_prefix(g, "dist/"@)
            &&& !contains(g, ".."@)
            &&& files.contains_key(g)
            &&& resolution(path, dirs, files).2 == files[g]
        },
{
    reveal_strlit("403 Forbidden");
    reveal_strlit("200 OK");
    reveal_strlit("404 Not Found");
    reveal_strlit("dist/");
    let forb = "403 Forbidden"@;
    let ok = "200 OK"@;
    let nf = "404 Not Found"@;
    assert(forb != ok && nf != ok) by {
        assert(forb.len() != ok.len());
        assert(nf.len() != ok.len());
    }
    assert(forb != nf) by {
        assert(forb[2] != nf[2]);
    }
    lemma_served_files_stay_inside(path);
    let r = resolution(path, dirs, files);
    match target_file(path) {
        None => {
            assert(r.0 == forb);
        },
        Some(f) => {
            let g = served_file(path, dirs).unwrap();
            if dirs.contains(f) {
                assert(has_prefix(f, "dist/"@));
                assert(g.take(5) == f.take(5));
            }
            if files.contains_key(g) {
                assert(r.0 == ok);
            } else {
                assert(r.0 == nf);
            }
        },
    }
}

proof fn lemma_after_last_dot(name: Seq<char>)
    ensures
        after_last_dot(name) matches Some(e) ==> {
            &&& e.len() < name.len()
            &&& name[name.len() - e.len() - 1] == '.'
            &&& name.skip(name.len() - e.len()) == e
            &&& forall|i: int| 0 <= i < e.len() ==> #[trigger] e[i] != '.'
        },
        (exists|i: int| 0 <= i < name.len() && name[i] == '.') ==> after_last_dot(name) is Some,
    decreases name.len(),
{
    if name.len() > 0 {
        let t = name.drop_last();
        lemma_after_last_dot(t);
        if name.last() == '.' {
            assert(name.skip(name.len() as int) =~= Seq::<char>::empty());
        } else {
            if let Some(e) = after_last_dot(t) {
                let e2 = e.push(name.last());
                assert(name[name.len() - e2.len() - 1] == t[t.len() - e.len() - 1]);
                assert(name.skip(name.len() - e2.len()) =~= t.skip(t.len() - e.len()).push(
                    name.last(),
                ));
                assert forall|i: int| 0 <= i < e2.len() implies #[trigger] e2[i] != '.' by {
                    if i < e.len() {
                        assert(e2[i] == e[i]);
                    }
                }
            }
            if exists|i: int| 0 <= i < name.len() && name[i] == '.' {
                let i = choose|i: int| 0 <= i < name.len() && name[i] == '.';
                assert(i < t.len() && t[i] == '.');
            }
        }
    }
}

/// The extension of a path is what follows the last `.` of its file name: it holds no `.`,
/// and the name is a non-empty stem, a `.`, and the extension. A name with a `.` after its
/// first character has an extension. So `x.min.js` has the extension `js`.
pub proof fn lemma_extension_after_last_dot(path: Seq<char>)
    ensures
        extension(path) matches Some(e) ==> {
            &&& file_name(path) is Some
            &&& forall|i: int| 0 <= i < e.len() ==> #[trigger] e[i] != '.'
            &&& e.len() + 1 < file_name(path).unwrap().len()
            &&& file_name(path).unwrap() == file_name(path).unwrap().take(
                file_name(path).unwrap().len() - e.len() - 1,
            ) + seq!['.'] + e
        },
        file_name(path) matches Some(n) && (exists|i: int| 0 < i < n.len() && n[i] == '.')
            ==> extension(path) is Some,
{
    if let Some(n) = file_name(path) {
        lemma_after_last_dot(n);
        if let Some(e) = after_last_dot(n) {
            let k = n.len() - e.len() - 1;
            assert(n =~= n.take(k) + seq!['.'] + e) by {
                assert(n.skip(k + 1) == e);
            }
            if exists|i: int| 0 < i < n.len() && n[i] == '.' {
                let i = choose|i: int| 0 < i < n.len() && n[i] == '.';
                if i > k {
                    assert(e[i - k - 1] == n[i]);
                }
            }
        } else {
            if exists|i: int| 0 < i < n.len() && n[i] == '.' {
                let i = choose|i: int| 0 < i < n.len() && n[i] == '.';
                assert(0 <= i < n.len() && n[i] == '.');
            }
        }
    }
}

} // verus!
