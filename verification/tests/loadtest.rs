use website::loadtest::{
    normalize_target, parse_args, parse_status, path_for, request_text, Command, Stats,
};
use website::server::{request_path, response_header};

fn args(a: &[&str]) -> Vec<String> {
    a.iter().map(|s| s.to_string()).collect()
}

#[test]
fn parse_status_reads_status_code() {
    assert_eq!(parse_status(b"HTTP/1.1 404 Not Found\r\nA: b\r\n\r\nbody"), 404);
    assert_eq!(parse_status(b"HTTP/1.1 200 OK"), 200);
    assert_eq!(parse_status(b"garbage"), 0);
    assert_eq!(parse_status(b""), 0);
    assert_eq!(parse_status(b"HTTP/1.1 99999 Big\r\n"), 0);
    assert_eq!(parse_status(b"HTTP/1.1 abc\r\n"), 0);
    assert_eq!(parse_status(b"HTTP/1.1 \xff\xfe 200\r\n"), 0);
    assert_eq!(parse_status(b"HTTP/1.1 +201 Created"), 201);
    assert_eq!(parse_status(b"\nHTTP/1.1 200 OK"), 0);
}

#[test]
fn parse_status_reads_server_headers() {
    for (status, code) in [("200 OK", 200), ("403 Forbidden", 403), ("404 Not Found", 404)] {
        let h = response_header(status, "text/html; charset=utf-8", 17);
        assert_eq!(parse_status(h.as_bytes()), code);
    }
}

#[test]
fn normalize_targets() {
    assert_eq!(
        normalize_target("example.com"),
        Ok(("example.com:80".to_string(), "example.com".to_string()))
    );
    assert_eq!(
        normalize_target("http://h:8000/"),
        Ok(("h:8000".to_string(), "h".to_string()))
    );
    assert_eq!(
        normalize_target("https://site.org//"),
        Ok(("site.org:80".to_string(), "site.org".to_string()))
    );
    assert_eq!(normalize_target("https://"), Err("empty target".to_string()));
    assert_eq!(normalize_target("///"), Err("empty target".to_string()));
}

#[test]
fn normalized_address_names_a_port() {
    for t in ["a", "a:1", "http://b", "c:2:3/"] {
        let (addr, host) = normalize_target(t).unwrap();
        assert!(addr.starts_with(&format!("{host}:")));
        assert!(!host.contains(':'));
    }
}

#[test]
fn parse_args_defaults_and_options() {
    match parse_args(&args(&["1.2.3.4:8000"])).unwrap() {
        Command::Run(c) => {
            assert_eq!(c.addr, "1.2.3.4:8000");
            assert_eq!(c.host, "1.2.3.4");
            assert_eq!(c.paths, vec!["/".to_string()]);
            assert_eq!(c.connections, 50);
            assert_eq!(c.duration_secs, 10);
            assert_eq!(c.timeout_secs, 5);
        }
        Command::Help => panic!("help"),
    }
    let a = args(&[
        "http://h", "-c", "200", "--duration", "30", "-t", "+7", "-p", "/", "--path", "/x",
        "-H", "example.com",
    ]);
    match parse_args(&a).unwrap() {
        Command::Run(c) => {
            assert_eq!(c.addr, "h:80");
            assert_eq!(c.host, "example.com");
            assert_eq!(c.paths, vec!["/".to_string(), "/x".to_string()]);
            assert_eq!(c.connections, 200);
            assert_eq!(c.duration_secs, 30);
            assert_eq!(c.timeout_secs, 7);
        }
        Command::Help => panic!("help"),
    }
}

#[test]
fn parse_args_help() {
    assert!(matches!(parse_args(&args(&["-h"])), Ok(Command::Help)));
    assert!(matches!(parse_args(&args(&["--help", "-c"])), Ok(Command::Help)));
}

#[test]
fn parse_args_errors() {
    let err = |a: &[&str]| match parse_args(&args(a)) {
        Err(e) => e,
        Ok(_) => panic!("accepted {a:?}"),
    };
    assert_eq!(err(&[]), "missing <target>");
    assert_eq!(err(&["http://"]), "empty target");
    assert_eq!(err(&["h", "-c"]), "-c needs a value");
    assert_eq!(err(&["h", "--timeout"]), "--timeout needs a value");
    assert_eq!(err(&["h", "-c", "x"]), "bad -c");
    assert_eq!(err(&["h", "-d", "-1"]), "bad -d");
    assert_eq!(err(&["h", "-t", ""]), "bad -t");
    assert_eq!(err(&["h", "--bogus", "1"]), "unknown flag: --bogus");
    assert_eq!(err(&["h", "-p", "/", "-x"]), "unknown flag: -x");
}

#[test]
fn paths_are_taken_in_turn() {
    let p = args(&["/a", "/b", "/c"]);
    assert_eq!(path_for(&p, 0), "/a");
    assert_eq!(path_for(&p, 4), "/b");
    assert_eq!(path_for(&p, 5), "/c");
}

#[test]
fn request_text_is_a_closing_get() {
    assert_eq!(
        request_text("/posts/a.html", "example.com"),
        "GET /posts/a.html HTTP/1.1\r\nHost: example.com\r\nConnection: close\r\n\r\n"
    );
}

#[test]
fn server_reads_back_the_requested_path() {
    for path in ["/", "/posts/a.html", "/x?y=1"] {
        let req = request_text(path, "h");
        let first_line = &req[..req.find('\n').unwrap() + 1];
        assert_eq!(request_path(first_line), path);
        assert_eq!(request_path(&req), path);
    }
}

#[test]
fn stats_record_and_merge() {
    let mut a = Stats::new();
    a.record(Some((200, 100, 5)));
    a.record(Some((404, 10, 7)));
    a.record(None);
    let mut b = Stats::new();
    b.record(Some((200, 50, 3)));
    b.record(None);
    b.record(None);
    a.merge(b);
    assert_eq!(a.latencies, vec![5, 7, 3]);
    assert_eq!(a.bytes, 160);
    assert_eq!(a.errors, 3);
    assert_eq!(a.statuses.get(&200), Some(&2));
    assert_eq!(a.statuses.get(&404), Some(&1));
    assert_eq!(a.statuses.len(), 2);
    assert_eq!(a.latencies.len() as u64 + a.errors, 6);
}

#[test]
fn status_counts_add_up_to_answered_requests() {
    let mut a = Stats::new();
    let outcomes = [Some((200, 1, 1)), None, Some((200, 2, 2)), Some((301, 3, 3)), None];
    for o in outcomes {
        a.record(o);
    }
    assert_eq!(a.latencies.len() as u64 + a.errors, outcomes.len() as u64);
    assert_eq!(a.statuses.values().sum::<u64>(), a.latencies.len() as u64);
    let mut b = Stats::new();
    b.record(Some((404, 4, 4)));
    a.merge(b);
    assert_eq!(a.statuses.values().sum::<u64>(), a.latencies.len() as u64);
}

#[test]
fn merging_empty_stats_changes_nothing() {
    let mut a = Stats::new();
    a.record(Some((200, 10, 5)));
    a.record(None);
    a.merge(Stats::new());
    assert_eq!(a.latencies, vec![5]);
    assert_eq!((a.bytes, a.errors), (10, 1));
    assert_eq!(a.statuses.get(&200), Some(&1));
    assert_eq!(a.statuses.len(), 1);
    let mut e = Stats::new();
    e.merge(a);
    assert_eq!(e.latencies, vec![5]);
    assert_eq!((e.bytes, e.errors), (10, 1));
    assert_eq!(e.statuses.get(&200), Some(&1));
    assert_eq!(e.statuses.len(), 1);
}

#[test]
fn status_line_is_sorted_by_code() {
    let mut s = Stats::new();
    s.record(Some((503, 1, 1)));
    s.record(Some((200, 1, 1)));
    s.record(Some((200, 1, 1)));
    s.record(Some((404, 1, 1)));
    assert_eq!(s.status_line(), "200: 2   404: 1   503: 1");
    assert_eq!(Stats::new().status_line(), "");
}

#[test]
fn sort_latencies_sorts() {
    let mut s = Stats::new();
    for l in [5, 1, 9, 1, 3] {
        s.record(Some((200, 0, l)));
    }
    s.sort_latencies();
    assert_eq!(s.latencies, vec![1, 1, 3, 5, 9]);
}
