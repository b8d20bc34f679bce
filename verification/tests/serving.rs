use file_server::cache::etag;
use file_server::header::RequestHeader;
use file_server::response::{range_not_satisfiable, Body, FileFacts, Response};
use file_server::server::{client_address, log_line, route, serve_file, Method, Progress};
use std::time::{Duration, UNIX_EPOCH};

const MTIME: u64 = 1_780_084_005;

/// A directory tree in memory: paths from the root on, with their contents.
/// Everything is served from `/www`.
struct Tree {
    files: Vec<(&'static str, Vec<u8>)>,
}

struct Resp {
    status: u16,
    headers: Vec<(String, String)>,
    body: Vec<u8>,
    length: Option<u64>,
}

impl Resp {
    fn header(&self, name: &str) -> Option<&str> {
        self.headers
            .iter()
            .find(|(k, _)| k.eq_ignore_ascii_case(name))
            .map(|(_, v)| v.as_str())
    }
}

fn split(path: &str) -> Vec<Vec<u8>> {
    let mut out = vec![b"/".to_vec()];
    for piece in path.split('/') {
        if piece == ".." {
            if out.len() > 1 {
                out.pop();
            }
        } else if !piece.is_empty() && piece != "." {
            out.push(piece.as_bytes().to_vec());
        }
    }
    out
}

impl Tree {
    fn resolve(&self, decoded: &str) -> Option<Vec<Vec<u8>>> {
        let path = if decoded.starts_with('/') {
            split(decoded)
        } else {
            split(&format!("/www/{}", decoded))
        };
        if self.files.iter().any(|(p, _)| split(p).starts_with(&path)) {
            Some(path)
        } else {
            None
        }
    }

    fn content(&self, path: &[Vec<u8>]) -> Option<&Vec<u8>> {
        self.files.iter().find(|(p, _)| split(p) == path).map(|(_, c)| c)
    }

    fn req(&self, method: Method, url: &str, extra: &[(&str, &str)]) -> Resp {
        let headers: Vec<RequestHeader> = extra
            .iter()
            .map(|(k, v)| RequestHeader { field: k.to_string(), value: v.as_bytes().to_vec() })
            .collect();
        let root = split("/www");
        let mut file: Vec<u8> = Vec::new();
        let mut step = route(method, url);
        loop {
            step = match step {
                Progress::Resolve(t) => {
                    let resolved = self.resolve(t.decoded());
                    t.resolved(&root, resolved)
                }
                Progress::Inspect(l) => {
                    let is_dir = self.content(l.path()).is_none();
                    l.inspected(is_dir)
                }
                Progress::Measure(l) => {
                    let size = self.content(l.path()).unwrap().len() as u64;
                    let modified = UNIX_EPOCH + Duration::from_secs(MTIME);
                    l.measured(&headers, FileFacts::measure(size, Some(modified)))
                }
                Progress::Open(m) => {
                    file = self.content(m.path()).unwrap().clone();
                    Progress::Finished(m.opened(&headers, true))
                }
                Progress::Finished(r) => return received(r, &file, method),
            };
        }
    }
}

fn received(r: Response, file: &[u8], method: Method) -> Resp {
    let headers = r.headers.iter().map(|h| (h.field.clone(), h.value.clone())).collect();
    let (body, length) = match r.body {
        Body::Empty => (Vec::new(), None),
        Body::File { start, length, chunked_threshold } => {
            assert_eq!(chunked_threshold, usize::MAX);
            (file[start as usize..(start + length) as usize].to_vec(), Some(length))
        }
    };
    let body = if method == Method::Head { Vec::new() } else { body };
    Resp { status: r.status, headers, body, length }
}

// Deterministic payload so range slices can be checked exactly.
fn pattern(len: usize) -> Vec<u8> {
    (0..len).map(|i| (i % 256) as u8).collect()
}

#[test]
fn full_get_sends_validators_and_content_length() {
    let srv = Tree { files: vec![("/www/hello.txt", b"hello world".to_vec())] };
    let r = srv.req(Method::Get, "/hello.txt", &[]);
    assert_eq!(r.status, 200);
    assert_eq!(r.length, Some(11));
    assert_eq!(r.header("Accept-Ranges"), Some("bytes"));
    assert_eq!(r.header("ETag"), Some("\"6a19ed25-b\""));
    assert_eq!(r.header("Last-Modified"), Some("Fri, 29 May 2026 19:46:45 GMT"));
    assert_eq!(r.header("Content-Type"), Some("text/plain"));
    assert_eq!(r.header("Content-Disposition"), Some("attachment; filename=\"hello.txt\""));
    assert_eq!(r.body, b"hello world");
}

#[test]
fn large_file_keeps_content_length_and_is_not_chunked() {
    let data = pattern(1_048_576);
    let srv = Tree { files: vec![("/www/big.deb", data.clone())] };
    let r = srv.req(Method::Get, "/big.deb", &[]);
    assert_eq!(r.status, 200);
    assert_eq!(r.length, Some(1048576));
    assert_eq!(r.header("Transfer-Encoding"), None);
    assert_eq!(r.body.len(), 1_048_576);
    assert_eq!(r.body, data);
}

#[test]
fn range_request_returns_206_with_exact_slice() {
    let data = pattern(1_048_576);
    let srv = Tree { files: vec![("/www/big.deb", data.clone())] };
    let r = srv.req(Method::Get, "/big.deb", &[("Range", "bytes=1048000-")]);
    assert_eq!(r.status, 206);
    assert_eq!(r.header("Content-Range"), Some("bytes 1048000-1048575/1048576"));
    assert_eq!(r.length, Some(576));
    assert_eq!(r.body, data[1_048_000..]);
}

#[test]
fn suffix_range_returns_last_n_bytes() {
    let data = pattern(1_048_576);
    let srv = Tree { files: vec![("/www/big.deb", data.clone())] };
    let r = srv.req(Method::Get, "/big.deb", &[("Range", "bytes=-100")]);
    assert_eq!(r.status, 206);
    assert_eq!(r.header("Content-Range"), Some("bytes 1048476-1048575/1048576"));
    assert_eq!(r.body, data[1_048_476..]);
}

#[test]
fn unsatisfiable_range_returns_416() {
    let srv = Tree { files: vec![("/www/f.bin", pattern(1000))] };
    let r = srv.req(Method::Get, "/f.bin", &[("Range", "bytes=99999999-")]);
    assert_eq!(r.status, 416);
    assert_eq!(r.header("Content-Range"), Some("bytes */1000"));
    assert!(r.body.is_empty());
}

#[test]
fn several_ranges_return_416() {
    let srv = Tree { files: vec![("/www/f.bin", pattern(1000))] };
    let r = srv.req(Method::Get, "/f.bin", &[("Range", "bytes=0-1,4-5")]);
    assert_eq!(r.status, 416);
    assert_eq!(r.headers, vec![("Content-Range".to_string(), "bytes */1000".to_string())]);
    assert_eq!(range_not_satisfiable(0).headers[0].value, "bytes */0");
}

#[test]
fn range_in_another_unit_is_ignored() {
    let srv = Tree { files: vec![("/www/f.bin", pattern(1000))] };
    let r = srv.req(Method::Get, "/f.bin", &[("Range", "lines=0-1")]);
    assert_eq!(r.status, 200);
    assert_eq!(r.header("Content-Range"), None);
    assert_eq!(r.body.len(), 1000);
}

#[test]
fn resumed_download_is_complete() {
    let data = pattern(1000);
    let srv = Tree { files: vec![("/www/f.bin", data.clone())] };
    for have in [0usize, 1, 500, 999] {
        let r = srv.req(Method::Get, "/f.bin", &[("Range", &format!("bytes={}-", have))]);
        assert_eq!(r.status, 206);
        let mut whole = data[..have].to_vec();
        whole.extend(r.body);
        assert_eq!(whole, data);
    }
}

#[test]
fn announced_range_selects_the_same_part() {
    let srv = Tree { files: vec![("/www/f.bin", pattern(1000))] };
    let r = srv.req(Method::Get, "/f.bin", &[("Range", "bytes=-300")]);
    let announced = r.header("Content-Range").unwrap().to_string();
    assert_eq!(announced, "bytes 700-999/1000");
    let again = srv.req(Method::Get, "/f.bin", &[("Range", "bytes=700-999")]);
    assert_eq!(again.header("Content-Range"), Some(announced.as_str()));
    assert_eq!(again.body, r.body);
}

#[test]
fn if_none_match_yields_304() {
    let srv = Tree { files: vec![("/www/a.txt", b"data".to_vec())] };
    let first = srv.req(Method::Get, "/a.txt", &[]);
    let tag = first.header("ETag").expect("etag").to_string();
    let cond = srv.req(Method::Get, "/a.txt", &[("If-None-Match", &tag)]);
    assert_eq!(cond.status, 304);
    assert!(cond.body.is_empty());
    assert_eq!(cond.header("ETag").map(str::to_string), Some(tag));
    for name in ["Last-Modified", "Cache-Control", "Accept-Ranges"] {
        assert_eq!(cond.header(name), first.header(name));
    }
}

#[test]
fn changed_file_is_sent_again() {
    let srv = Tree { files: vec![("/www/a.txt", b"data".to_vec())] };
    let old = etag(MTIME - 1, 4);
    let r = srv.req(Method::Get, "/a.txt", &[("If-None-Match", &old)]);
    assert_eq!(r.status, 200);
    let r = srv.req(
        Method::Get,
        "/a.txt",
        &[("If-Modified-Since", "Fri, 29 May 2026 19:46:44 GMT")],
    );
    assert_eq!(r.status, 200);
}

#[test]
fn last_modified_sent_back_yields_304() {
    let srv = Tree { files: vec![("/www/a.txt", b"data".to_vec())] };
    let first = srv.req(Method::Get, "/a.txt", &[]);
    let date = first.header("Last-Modified").unwrap().to_string();
    let r = srv.req(Method::Get, "/a.txt", &[("If-Modified-Since", &date)]);
    assert_eq!(r.status, 304);
}

#[test]
fn if_modified_since_future_yields_304() {
    let srv = Tree { files: vec![("/www/a.txt", b"data".to_vec())] };
    let r = srv.req(
        Method::Get,
        "/a.txt",
        &[("If-Modified-Since", "Sun, 06 Jun 2100 08:49:37 GMT")],
    );
    assert_eq!(r.status, 304);
    assert!(r.body.is_empty());
}

#[test]
fn head_sends_headers_without_body() {
    let srv = Tree { files: vec![("/www/big.deb", pattern(50_000))] };
    let r = srv.req(Method::Head, "/big.deb", &[]);
    assert_eq!(r.status, 200);
    assert_eq!(r.length, Some(50000));
    assert!(r.body.is_empty());
    assert_eq!(r.headers, srv.req(Method::Get, "/big.deb", &[]).headers);
}

#[test]
fn write_methods_are_rejected() {
    let srv = Tree { files: vec![("/www/a.txt", b"data".to_vec())] };
    let r = srv.req(Method::Other, "/a.txt", &[]);
    assert_eq!(r.status, 405);
    assert_eq!(r.header("Allow"), Some("GET, HEAD"));
}

#[test]
fn path_traversal_cannot_escape_root() {
    let srv = Tree {
        files: vec![
            ("/www/ok.txt", b"public".to_vec()),
            ("/secret.txt", b"TOPSECRET".to_vec()),
        ],
    };
    for path in ["/../secret.txt", "/%2e%2e/secret.txt", "/%2fsecret.txt"] {
        let r = srv.req(Method::Get, path, &[]);
        assert_eq!(r.status, 403);
        assert!(r.headers.is_empty());
        assert!(r.body.is_empty());
    }
}

#[test]
fn directories_are_forbidden_and_missing_files_not_found() {
    let srv = Tree { files: vec![("/www/d/a.txt", b"data".to_vec())] };
    assert_eq!(srv.req(Method::Get, "/d", &[]).status, 403);
    assert_eq!(srv.req(Method::Get, "/.", &[]).status, 403);
    assert_eq!(srv.req(Method::Get, "/e", &[]).status, 404);
    assert_eq!(srv.req(Method::Get, "/d/a.txt?version=1", &[]).status, 200);
}

#[test]
fn empty_path_is_404() {
    let srv = Tree { files: vec![("/www/a", b"".to_vec())] };
    assert_eq!(srv.req(Method::Get, "/", &[]).status, 404);
    assert_eq!(srv.req(Method::Get, "//", &[]).status, 404);
    assert_eq!(srv.req(Method::Get, "", &[]).status, 404);
}

#[test]
fn empty_file_is_served_whole() {
    let srv = Tree { files: vec![("/www/a", b"".to_vec())] };
    let r = srv.req(Method::Get, "/a", &[]);
    assert_eq!(r.status, 200);
    assert_eq!(r.length, Some(0));
    assert_eq!(r.header("Content-Type"), None);
    assert_eq!(srv.req(Method::Get, "/a", &[("Range", "bytes=0-")]).status, 416);
}

#[test]
fn cache_control_distinguishes_metadata_from_packages() {
    let srv = Tree {
        files: vec![
            ("/www/dists/stable/main/binary-amd64/Packages.gz", b"index".to_vec()),
            ("/www/pool/main/h/hello/hello_2.10_amd64.deb", b"pkg".to_vec()),
        ],
    };
    let meta = srv.req(Method::Get, "/dists/stable/main/binary-amd64/Packages.gz", &[]);
    assert_eq!(meta.header("Cache-Control"), Some("no-cache"));
    let pkg = srv.req(Method::Get, "/pool/main/h/hello/hello_2.10_amd64.deb", &[]);
    assert_eq!(
        pkg.header("Cache-Control"),
        Some("public, max-age=31536000, immutable")
    );
}

#[test]
fn failed_lookups_are_not_found() {
    let root = split("/www");
    let regular = |name: &str| match serve_file(name) {
        Progress::Resolve(t) => match t.resolved(&root, Some(split("/www/a"))) {
            Progress::Inspect(l) => match l.inspected(false) {
                Progress::Measure(f) => f,
                _ => panic!("not inspected"),
            },
            _ => panic!("not located"),
        },
        _ => panic!("not resolved"),
    };
    match regular("a").measured(&vec![], None) {
        Progress::Finished(r) => assert_eq!(r.status, 404),
        _ => panic!("not finished"),
    }
    match regular("a").measured(&vec![], FileFacts::measure(1, None)) {
        Progress::Open(m) => assert_eq!(m.opened(&vec![], false).status, 404),
        _ => panic!("not measured"),
    }
    match serve_file("a") {
        Progress::Resolve(t) => match t.resolved(&root, None) {
            Progress::Finished(r) => assert_eq!(r.status, 404),
            _ => panic!("not finished"),
        },
        _ => panic!("not resolved"),
    }
}

#[test]
fn files_are_measured() {
    let facts = FileFacts::measure(1, None).unwrap();
    assert_eq!(facts.size(), 1);
    assert_eq!(facts.mtime_secs(), 0);
    assert_eq!(facts.last_modified(), "Thu, 01 Jan 1970 00:00:00 GMT");
    let early = UNIX_EPOCH - Duration::from_secs(1);
    let facts = FileFacts::measure(7, Some(early)).unwrap();
    assert_eq!(facts.mtime_secs(), 0);
    assert_eq!(facts.last_modified(), "Wed, 31 Dec 1969 23:59:59 GMT");
    let late = UNIX_EPOCH + Duration::from_secs(9_000_000_000_000);
    assert_eq!(FileFacts::measure(1, Some(late)), None);
}

#[test]
fn names_beyond_ascii_are_served_as_file() {
    let srv = Tree { files: vec![("/www/\u{e9}.txt", b"x".to_vec())] };
    let r = srv.req(Method::Get, "/%C3%A9.txt", &[]);
    assert_eq!(r.status, 200);
    assert_eq!(r.header("Content-Disposition"), Some("attachment; filename=\"file\""));
    assert_eq!(r.header("Content-Type"), Some("text/plain"));
    assert_eq!(r.body, b"x");
}

#[test]
fn plain_targets_are_looked_up_as_they_stand() {
    for (url, wanted) in [
        ("/dists/x", "dists/x"),
        ("//a b/\u{e9}?q=%41", "a b/\u{e9}"),
        ("/a%20b%2", "a b%2"),
        ("/%C3%A9", "\u{e9}"),
        ("/a%ff", "a\u{fffd}"),
    ] {
        match route(Method::Get, url) {
            Progress::Resolve(t) => assert_eq!(t.decoded(), wanted),
            _ => panic!("not routed"),
        }
    }
    let srv = Tree { files: vec![("/www/dists/x", b"i".to_vec()), ("/www/p.deb", b"p".to_vec())] };
    let r = srv.req(Method::Get, "/dists/x", &[]);
    assert_eq!(r.header("Cache-Control"), Some("no-cache"));
    let r = srv.req(Method::Get, "/p.deb", &[]);
    assert_eq!(r.header("Cache-Control"), Some("public, max-age=31536000, immutable"));
}

#[test]
fn date_sent_back_yields_304() {
    let srv = Tree { files: vec![("/www/a.txt", b"data".to_vec())] };
    let date = srv.req(Method::Get, "/a.txt", &[]).header("Last-Modified").unwrap().to_string();
    let r = srv.req(Method::Get, "/a.txt", &[("If-Modified-Since", &format!(" {}\t", date))]);
    assert_eq!(r.status, 304);
    assert_eq!(r.header("Last-Modified"), Some(date.as_str()));
    assert!(r.body.is_empty());
}

#[test]
fn weak_and_listed_tags_yield_304() {
    let srv = Tree { files: vec![("/www/a.txt", b"data".to_vec())] };
    let tag = etag(MTIME, 4);
    for value in [
        format!("W/{}", tag),
        format!("\"a\",{}", tag),
        format!("{},\"b\"", tag),
        format!("\"a\", W/{} ,\"b\"", tag),
        "*".to_string(),
    ] {
        let r = srv.req(Method::Get, "/a.txt", &[("If-None-Match", &value)]);
        assert_eq!(r.status, 304, "{}", value);
        assert_eq!(r.header("ETag"), Some(tag.as_str()));
    }
}

#[test]
fn clients_are_named_and_logged() {
    let forwarded = |v: &[u8]| {
        vec![RequestHeader { field: "x-forwarded-for".to_string(), value: v.to_vec() }]
    };
    assert_eq!(client_address(&forwarded(b" 10.0.0.1 , 10.0.0.2"), Some("::1")), "10.0.0.1");
    assert_eq!(client_address(&forwarded(b""), Some("::1")), "");
    assert_eq!(client_address(&forwarded(b"\xff"), Some("::1")), "::1");
    assert_eq!(client_address(&vec![], Some("::1")), "::1");
    assert_eq!(client_address(&vec![], None), "-");
    assert_eq!(
        log_line("2026-05-29 19:46", "GET", "/a", "::1", 206),
        "[2026-05-29 19:46] GET \"/a\" from ::1 {206}"
    );
}
