//! The responses of the server.

use crate::cache;
use crate::date;
use crate::header;
use crate::header::Header;
use crate::number;
use crate::range;
use crate::range::Selection;
use crate::text;
use std::time::SystemTime;
use vstd::prelude::*;

verus! {

/// The size from which on a body may be sent in chunks, without a
/// `Content-Length`. A resuming client needs that header, so this is the largest
/// size there is.
pub const CHUNKED_THRESHOLD: usize = usize::MAX;

/// What follows the headers of a response.
#[derive(Clone, Copy, Debug, PartialEq, Eq, Structural)]
pub enum Body {
    Empty,
    /// The `length` bytes of the file that start at offset `start`, sent with a
    /// `Content-Length` while `length` is below `chunked_threshold`.
    File { start: u64, length: u64, chunked_threshold: usize },
}

/// A response.
#[derive(Debug, PartialEq, Eq)]
pub struct Response {
    pub status: u16,
    pub headers: Vec<Header>,
    pub body: Body,
}

/// A response, with its headers as pairs of texts.
#[verifier::ext_equal]
pub struct Reply {
    pub status: u16,
    pub headers: Seq<(Seq<char>, Seq<char>)>,
    pub body: Body,
}

/// The headers of a response as pairs of texts.
pub open spec fn lines(headers: Seq<Header>) -> Seq<(Seq<char>, Seq<char>)> {
    headers.map_values(|h: Header| h@)
}

impl View for Response {
    type V = Reply;

    open spec fn view(&self) -> Reply {
        Reply { status: self.status, headers: lines(self.headers@), body: self.body }
    }
}

/// What the file system tells of a file: its size, its modification time in
/// whole seconds since the Unix epoch, and the same time as an HTTP date.
#[derive(Debug, PartialEq, Eq)]
pub struct FileFacts {
    size: u64,
    mtime_secs: u64,
    last_modified: String,
}

/// What the file system tells of a file, with the date as text.
#[verifier::ext_equal]
pub struct Facts {
    pub size: u64,
    pub mtime_secs: u64,
    pub last_modified: Seq<char>,
}

impl View for FileFacts {
    type V = Facts;

    closed spec fn view(&self) -> Facts {
        Facts {
            size: self.size,
            mtime_secs: self.mtime_secs,
            last_modified: self.last_modified@,
        }
    }
}

impl Facts {
    /// The time and the date are those of the second that starts `secs` seconds
    /// behind the Unix epoch.
    pub open spec fn modified_in(self, secs: int) -> bool {
        &&& date::in_calendar(secs)
        &&& self.mtime_secs == if secs < 0 {
            0
        } else {
            secs
        }
        &&& self.last_modified == date::imf_fixdate(secs)
    }

    /// The time and the date are those of one second.
    pub open spec fn well_formed(self) -> bool {
        exists|secs: int| self.modified_in(secs)
    }

    /// The entity tag of the file.
    pub open spec fn tag(self) -> Seq<char> {
        cache::entity_tag(self.mtime_secs as nat, self.size as nat)
    }
}

/// The nanoseconds from the Unix epoch to a modification time; a file without
/// one counts as modified at the epoch.
pub open spec fn modified_nanos(modified: Option<SystemTime>) -> int {
    match modified {
        Some(t) => date::unix_nanos(t),
        None => 0,
    }
}

/// A response without headers and body.
pub open spec fn bare_reply(status: u16) -> Reply {
    Reply { status, headers: Seq::empty(), body: Body::Empty }
}

/// The answer to a method other than `GET` and `HEAD`.
pub open spec fn not_allowed_reply() -> Reply {
    Reply { status: 405, headers: seq![("Allow"@, "GET, HEAD"@)], body: Body::Empty }
}

/// The answer to a range that a file of `total` bytes cannot satisfy.
pub open spec fn unsatisfiable_reply(total: u64) -> Reply {
    Reply {
        status: 416,
        headers: seq![("Content-Range"@, "bytes */"@ + number::decimal(total as nat))],
        body: Body::Empty,
    }
}

/// The answer to a client whose copy of the file is current.
pub open spec fn unmodified_reply(facts: Facts, decoded: Seq<char>) -> Reply {
    Reply {
        status: 304,
        headers: seq![
            ("ETag"@, facts.tag()),
            ("Last-Modified"@, facts.last_modified),
            ("Cache-Control"@, cache::cache_policy(decoded)),
            ("Accept-Ranges"@, "bytes"@),
        ],
        body: Body::Empty,
    }
}

/// The value of a `Content-Disposition` header that offers a download under a
/// name.
pub open spec fn disposition(name: Seq<char>) -> Seq<char> {
    "attachment; filename=\""@ + name + seq!['"']
}

/// The value of the `Content-Range` header for a part of a file of `total`
/// bytes.
pub open spec fn content_range(start: u64, end: u64, total: u64) -> Seq<char> {
    "bytes "@ + number::decimal(start as nat) + seq!['-'] + number::decimal(end as nat) + seq!['/']
        + number::decimal(total as nat)
}

/// The headers that describe a file.
pub open spec fn file_headers(
    facts: Facts,
    decoded: Seq<char>,
    name: Seq<char>,
    media_type: Option<Seq<char>>,
) -> Seq<(Seq<char>, Seq<char>)> {
    let common = seq![
        ("Accept-Ranges"@, "bytes"@),
        ("ETag"@, facts.tag()),
        ("Last-Modified"@, facts.last_modified),
        ("Cache-Control"@, cache::cache_policy(decoded)),
        ("Content-Disposition"@, disposition(name)),
    ];
    match media_type {
        Some(t) => common.push(("Content-Type"@, t)),
        None => common,
    }
}

/// The answer to a request for a file: all of it, the part that a `Range` header
/// selects, or that it selects nothing.
pub open spec fn file_reply(
    facts: Facts,
    decoded: Seq<char>,
    name: Seq<char>,
    media_type: Option<Seq<char>>,
    range_header: Option<Seq<char>>,
) -> Reply {
    let headers = file_headers(facts, decoded, name, media_type);
    match range::selected(range_header, facts.size) {
        Selection::Whole => Reply {
            status: 200,
            headers,
            body: Body::File {
                start: 0,
                length: facts.size,
                chunked_threshold: CHUNKED_THRESHOLD,
            },
        },
        Selection::Part { start, end } => Reply {
            status: 206,
            headers: headers.push(("Content-Range"@, content_range(start, end, facts.size))),
            body: Body::File {
                start,
                length: (end - start + 1) as u64,
                chunked_threshold: CHUNKED_THRESHOLD,
            },
        },
        Selection::Unsatisfiable => unsatisfiable_reply(facts.size),
    }
}

proof fn lemma_ascii_numeral(n: nat, base: nat)
    requires
        2 <= base <= 16,
    ensures
        vstd::utf8::is_ascii_chars(number::numeral(n, base)),
{
    number::lemma_numeral_digits(n, base);
}

/// An entity tag can stand in a header.
proof fn lemma_ascii_tag(mtime_secs: nat, size: nat)
    ensures
        vstd::utf8::is_ascii_chars(cache::entity_tag(mtime_secs, size)),
{
    lemma_ascii_numeral(mtime_secs, 16);
    lemma_ascii_numeral(size, 16);
}

/// A cache policy can stand in a header.
proof fn lemma_ascii_policy(path: Seq<char>)
    ensures
        vstd::utf8::is_ascii_chars(cache::cache_policy(path)),
{
    reveal_strlit("no-cache");
    reveal_strlit("public, max-age=31536000, immutable");
}

/// The fields of the headers that are sent, and the values that never change,
/// can stand in a header.
proof fn lemma_ascii_fixed()
    ensures
        vstd::utf8::is_ascii_chars("Allow"@),
        vstd::utf8::is_ascii_chars("GET, HEAD"@),
        vstd::utf8::is_ascii_chars("ETag"@),
        vstd::utf8::is_ascii_chars("Last-Modified"@),
        vstd::utf8::is_ascii_chars("Cache-Control"@),
        vstd::utf8::is_ascii_chars("Accept-Ranges"@),
        vstd::utf8::is_ascii_chars("bytes"@),
        vstd::utf8::is_ascii_chars("Content-Disposition"@),
        vstd::utf8::is_ascii_chars("Content-Type"@),
        vstd::utf8::is_ascii_chars("Content-Range"@),
{
    reveal_strlit("Allow");
    reveal_strlit("GET, HEAD");
    reveal_strlit("ETag");
    reveal_strlit("Last-Modified");
    reveal_strlit("Cache-Control");
    reveal_strlit("Accept-Ranges");
    reveal_strlit("bytes");
    reveal_strlit("Content-Disposition");
    reveal_strlit("Content-Type");
    reveal_strlit("Content-Range");
}

/// The values of the `Content-Range` header can stand in a header.
proof fn lemma_ascii_content_range(start: u64, end: u64, total: u64)
    ensures
        vstd::utf8::is_ascii_chars(content_range(start, end, total)),
        vstd::utf8::is_ascii_chars("bytes */"@ + number::decimal(total as nat)),
{
    reveal_strlit("bytes ");
    reveal_strlit("bytes */");
    lemma_ascii_numeral(start as nat, 10);
    lemma_ascii_numeral(end as nat, 10);
    lemma_ascii_numeral(total as nat, 10);
}

/// The date of a file can stand in a header.
proof fn lemma_ascii_date(facts: Facts)
    requires
        facts.well_formed(),
    ensures
        vstd::utf8::is_ascii_chars(facts.last_modified),
{
    let secs = choose|secs: int| facts.modified_in(secs);
    date::law_form_of_written_dates(secs);
}

/// The `Content-Disposition` of an ASCII name can stand in a header.
proof fn lemma_ascii_disposition(name: Seq<char>)
    requires
        vstd::utf8::is_ascii_chars(name),
    ensures
        vstd::utf8::is_ascii_chars(disposition(name)),
{
    reveal_strlit("attachment; filename=\"");
}

impl FileFacts {
    #[verifier::type_invariant]
    spec fn is_well_formed(self) -> bool {
        self@.well_formed()
    }

    /// The facts of a file of `size` bytes, modified at `modified`; one without a
    /// modification time counts as modified at the Unix epoch. `None` where the
    /// time lies outside the calendar.
    pub fn measure(size: u64, modified: Option<SystemTime>) -> (r: Option<FileFacts>)
        ensures
            match r {
                Some(facts) => facts@.size == size && facts@.well_formed() && facts@.modified_in(
                    modified_nanos(modified) / 1_000_000_000,
                ),
                None => !date::in_calendar(modified_nanos(modified) / 1_000_000_000),
            },
            r matches Some(facts) ==> match modified {
                Some(t) => {
                    let nanos = date::unix_nanos(t);
                    &&& facts@.last_modified == date::imf_fixdate(nanos / 1_000_000_000)
                    &&& nanos < 0 ==> facts@.mtime_secs == 0
                    &&& nanos >= 0 ==> facts@.mtime_secs * 1_000_000_000 <= nanos < (
                    facts@.mtime_secs + 1) * 1_000_000_000
                },
                None => facts@.mtime_secs == 0 && facts@.last_modified == date::imf_fixdate(0),
            },
    {
        let t: SystemTime = match modified {
            Some(t) => t,
            None => date::unix_epoch(),
        };
        match date::checked_http_date(t) {
            Some(last_modified) => {
                let mtime_secs: u64 = date::system_time_secs(t);
                proof {
                    let facts = Facts { size, mtime_secs, last_modified: last_modified@ };
                    assert(facts.modified_in(date::unix_seconds(t)));
                }
                Some(FileFacts { size, mtime_secs, last_modified })
            },
            None => None,
        }
    }

    /// The size of the file.
    pub fn size(&self) -> (r: u64)
        ensures
            r == self@.size,
    {
        self.size
    }

    /// The modification time, in whole seconds since the Unix epoch; zero for a
    /// time before it.
    pub fn mtime_secs(&self) -> (r: u64)
        ensures
            r == self@.mtime_secs,
            self@.well_formed(),
    {
        proof {
            use_type_invariant(self);
        }
        self.mtime_secs
    }

    /// The modification time as an HTTP date.
    pub fn last_modified(&self) -> (r: &str)
        ensures
            r@ == self@.last_modified,
            self@.well_formed(),
    {
        proof {
            use_type_invariant(self);
        }
        self.last_modified.as_str()
    }
}

/// A response without headers and body.
pub fn empty_response(status: u16) -> (r: Response)
    ensures
        r@ == bare_reply(status),
{
    let r = Response { status, headers: Vec::new(), body: Body::Empty };
    assert(r@ =~= bare_reply(status));
    r
}

/// The answer to a method other than `GET` and `HEAD`.
pub fn method_not_allowed() -> (r: Response)
    ensures
        r@ == not_allowed_reply(),
{
    proof {
        lemma_ascii_fixed();
    }
    let mut headers: Vec<Header> = Vec::new();
    headers.push(header::hdr("Allow", "GET, HEAD"));
    let r = Response { status: 405, headers, body: Body::Empty };
    assert(r@ =~= not_allowed_reply());
    r
}

/// The answer to a range that a file of `total` bytes cannot satisfy.
pub fn range_not_satisfiable(total: u64) -> (r: Response)
    ensures
        r@ == unsatisfiable_reply(total),
{
    let mut value = String::from_str("bytes */");
    value.append(number::write_decimal(total).as_str());
    proof {
        lemma_ascii_fixed();
        lemma_ascii_content_range(0, 0, total);
    }
    let mut headers: Vec<Header> = Vec::new();
    headers.push(header::hdr("Content-Range", value.as_str()));
    let r = Response { status: 416, headers, body: Body::Empty };
    assert(r@ =~= unsatisfiable_reply(total));
    r
}

/// The answer to a client whose copy of the file is current: the validators of
/// the file, and no body.
pub fn unmodified_response(facts: &FileFacts, decoded: &str) -> (r: Response)
    ensures
        r@ == unmodified_reply(facts@, decoded@),
{
    let tag = cache::etag(facts.mtime_secs, facts.size);
    let policy = cache::cache_control(decoded);
    proof {
        use_type_invariant(facts);
        lemma_ascii_date(facts@);
        lemma_ascii_fixed();
        lemma_ascii_tag(facts.mtime_secs as nat, facts.size as nat);
        lemma_ascii_policy(decoded@);
    }
    let mut headers: Vec<Header> = Vec::new();
    headers.push(header::hdr("ETag", tag.as_str()));
    headers.push(header::hdr("Last-Modified", facts.last_modified.as_str()));
    headers.push(header::hdr("Cache-Control", policy));
    headers.push(header::hdr("Accept-Ranges", "bytes"));
    let r = Response { status: 304, headers, body: Body::Empty };
    assert(r@ =~= unmodified_reply(facts@, decoded@));
    r
}

fn describe(
    facts: &FileFacts,
    decoded: &str,
    name: &str,
    media_type: Option<&str>,
) -> (r: Vec<Header>)
    requires
        vstd::utf8::is_ascii_chars(name@),
        media_type matches Some(t) ==> vstd::utf8::is_ascii_chars(t@),
    ensures
        lines(r@) == file_headers(facts@, decoded@, name@, text::slice_text(media_type)),
{
    let tag = cache::etag(facts.mtime_secs, facts.size);
    let policy = cache::cache_control(decoded);
    let mut offer = String::from_str("attachment; filename=\"");
    offer.append(name);
    offer.append("\"");
    proof {
        reveal_strlit("\"");
        assert("\""@ =~= seq!['"']);
        assert(offer@ == disposition(name@));
        use_type_invariant(facts);
        lemma_ascii_date(facts@);
        lemma_ascii_fixed();
        lemma_ascii_tag(facts.mtime_secs as nat, facts.size as nat);
        lemma_ascii_policy(decoded@);
        lemma_ascii_disposition(name@);
    }
    let mut headers: Vec<Header> = Vec::new();
    headers.push(header::hdr("Accept-Ranges", "bytes"));
    headers.push(header::hdr("ETag", tag.as_str()));
    headers.push(header::hdr("Last-Modified", facts.last_modified.as_str()));
    headers.push(header::hdr("Cache-Control", policy));
    headers.push(header::hdr("Content-Disposition", offer.as_str()));
    match media_type {
        Some(t) => {
            headers.push(header::hdr("Content-Type", t));
        },
        None => {},
    }
    assert(lines(headers@) =~= file_headers(facts@, decoded@, name@, text::slice_text(media_type)));
    headers
}

/// The answer to a request for a file that could be opened: all of it, the part
/// that a `Range` header selects, or that it selects nothing.
pub fn file_response(
    facts: &FileFacts,
    decoded: &str,
    name: &str,
    media_type: Option<&str>,
    range_header: Option<&str>,
) -> (r: Response)
    requires
        vstd::utf8::is_ascii_chars(name@),
        media_type matches Some(t) ==> vstd::utf8::is_ascii_chars(t@),
    ensures
        r@ == file_reply(facts@, decoded@, name@, text::slice_text(media_type), text::slice_text(range_header)),
{
    let mut headers: Vec<Header> = describe(facts, decoded, name, media_type);
    let ghost described = headers@;
    match range::select(range_header, facts.size) {
        Selection::Whole => Response {
            status: 200,
            headers,
            body: Body::File {
                start: 0,
                length: facts.size,
                chunked_threshold: CHUNKED_THRESHOLD,
            },
        },
        Selection::Part { start, end } => {
            let mut value = String::from_str("bytes ");
            value.append(number::write_decimal(start).as_str());
            value.append("-");
            value.append(number::write_decimal(end).as_str());
            value.append("/");
            value.append(number::write_decimal(facts.size).as_str());
            proof {
                reveal_strlit("-");
                reveal_strlit("/");
                assert("-"@ =~= seq!['-']);
                assert("/"@ =~= seq!['/']);
                assert(value@ == content_range(start, end, facts.size));
                lemma_ascii_fixed();
                lemma_ascii_content_range(start, end, facts.size);
            }
            headers.push(header::hdr("Content-Range", value.as_str()));
            assert(lines(headers@) =~= lines(described).push(("Content-Range"@, value@)));
            Response {
                status: 206,
                headers,
                body: Body::File {
                    start,
                    length: end - start + 1,
                    chunked_threshold: CHUNKED_THRESHOLD,
                },
            }
        },
        Selection::Unsatisfiable => range_not_satisfiable(facts.size),
    }
}

/// A response is its status, its headers in their order, and its body.
pub proof fn law_response_view(r: Response)
    ensures
        r@.status == r.status,
        r@.body == r.body,
        r@.headers.len() == r.headers@.len(),
        forall|i: int|
            0 <= i < r.headers@.len() ==> (#[trigger] r@.headers[i]).0 == r.headers@[i].field@
                && r@.headers[i].1 == r.headers@[i].value@,
{
}

/// The answers that tell nothing of a file.
pub proof fn law_plain_replies(status: u16, total: u64)
    ensures
        bare_reply(status) == (Reply { status, headers: Seq::empty(), body: Body::Empty }),
        not_allowed_reply() == (Reply {
            status: 405,
            headers: seq![("Allow"@, "GET, HEAD"@)],
            body: Body::Empty,
        }),
        unsatisfiable_reply(total) == (Reply {
            status: 416,
            headers: seq![("Content-Range"@, "bytes */"@ + number::decimal(total as nat))],
            body: Body::Empty,
        }),
{
}

} // verus!
