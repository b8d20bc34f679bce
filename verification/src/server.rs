//! How a request is answered.
//!
//! The decisions are taken here, and the file system is asked in between: each
//! step says what to ask next, and the answer goes into the next step.

use crate::cache;
use crate::header;
use crate::header::RequestHeader;
use crate::number;
use crate::path;
use crate::range;
use crate::range::Selection;
use crate::response;
use crate::response::Body;
use crate::response::Facts;
use crate::response::FileFacts;
use crate::response::Reply;
use crate::response::Response;
use crate::text;
use vstd::prelude::*;

verus! {

/// The method of a request.
#[derive(Clone, Copy, Debug, PartialEq, Eq, Structural)]
pub enum Method {
    Get,
    Head,
    Other,
}

/// A path to look up below the served directory.
#[derive(Debug, PartialEq, Eq)]
pub struct Target {
    decoded: String,
}

/// Something below the served directory, and the path that was asked for.
#[derive(Debug, PartialEq, Eq)]
pub struct Located {
    decoded: String,
    path: Vec<Vec<u8>>,
}

/// Something below the served directory that is no directory itself.
#[derive(Debug, PartialEq, Eq)]
pub struct Regular {
    decoded: String,
    path: Vec<Vec<u8>>,
}

/// A file below the served directory that is to be sent.
#[derive(Debug, PartialEq, Eq)]
pub struct Measured {
    decoded: String,
    path: Vec<Vec<u8>>,
    facts: FileFacts,
}

/// The path that was asked for, and the one it resolved to.
#[verifier::ext_equal]
pub struct Place {
    pub decoded: Seq<char>,
    pub path: Seq<Seq<u8>>,
}

impl View for Target {
    type V = Seq<char>;

    closed spec fn view(&self) -> Seq<char> {
        self.decoded@
    }
}

impl View for Located {
    type V = Place;

    closed spec fn view(&self) -> Place {
        Place { decoded: self.decoded@, path: path::components(self.path@) }
    }
}

impl View for Regular {
    type V = Place;

    closed spec fn view(&self) -> Place {
        Place { decoded: self.decoded@, path: path::components(self.path@) }
    }
}

impl View for Measured {
    type V = (Place, Facts);

    closed spec fn view(&self) -> (Place, Facts) {
        (Place { decoded: self.decoded@, path: path::components(self.path@) }, self.facts@)
    }
}

/// How far the answer to a request has come.
#[derive(Debug, PartialEq, Eq)]
pub enum Progress {
    /// Resolve the path, through every link, and go on with `Target::resolved`.
    Resolve(Target),
    /// Find out whether it is a directory, and go on with `Located::inspected`.
    Inspect(Located),
    /// Read its size and modification time, and go on with `Regular::measured`.
    Measure(Regular),
    /// Open the file, and go on with `Measured::opened`.
    Open(Measured),
    /// Send the response.
    Finished(Response),
}

/// How far the answer to a request has come, with texts and bytes for the
/// values that hold them.
#[verifier::ext_equal]
pub enum Stage {
    Resolve { decoded: Seq<char> },
    Inspect { decoded: Seq<char>, path: Seq<Seq<u8>> },
    Measure { decoded: Seq<char>, path: Seq<Seq<u8>> },
    Open { decoded: Seq<char>, path: Seq<Seq<u8>>, facts: Facts },
    Finished(Reply),
}

impl View for Progress {
    type V = Stage;

    open spec fn view(&self) -> Stage {
        match self {
            Progress::Resolve(t) => Stage::Resolve { decoded: t@ },
            Progress::Inspect(l) => Stage::Inspect { decoded: l@.decoded, path: l@.path },
            Progress::Measure(f) => Stage::Measure { decoded: f@.decoded, path: f@.path },
            Progress::Open(m) => Stage::Open {
                decoded: m@.0.decoded,
                path: m@.0.path,
                facts: m@.1,
            },
            Progress::Finished(r) => Stage::Finished(r@),
        }
    }
}

/// The start of a request. Only `GET` and `HEAD` are served, and only for a path
/// that is not empty.
pub open spec fn routed(method: Method, url: Seq<char>) -> Stage {
    let rel = text::stripped(url, '/');
    match method {
        Method::Other => Stage::Finished(response::not_allowed_reply()),
        _ => if rel.len() == 0 {
            Stage::Finished(response::bare_reply(404))
        } else {
            Stage::Resolve { decoded: path::decoded_target(rel) }
        },
    }
}

/// The step from a resolved path: what does not exist is not found, and what
/// lies outside the served directory is forbidden.
pub open spec fn after_resolve(
    decoded: Seq<char>,
    root: Seq<Seq<u8>>,
    resolved: Option<Seq<Seq<u8>>>,
) -> Stage {
    match resolved {
        Some(p) => if root.is_prefix_of(p) {
            Stage::Inspect { decoded, path: p }
        } else {
            Stage::Finished(response::bare_reply(403))
        },
        None => Stage::Finished(response::bare_reply(404)),
    }
}

/// The step from the kind of a file: a directory is forbidden.
pub open spec fn after_inspect(decoded: Seq<char>, path: Seq<Seq<u8>>, is_dir: bool) -> Stage {
    if is_dir {
        Stage::Finished(response::bare_reply(403))
    } else {
        Stage::Measure { decoded, path }
    }
}

/// The step from the facts of a file: a client with a current copy is told so.
pub open spec fn after_measure(
    decoded: Seq<char>,
    path: Seq<Seq<u8>>,
    headers: Seq<(Seq<char>, Seq<u8>)>,
    facts: Option<Facts>,
) -> Stage {
    match facts {
        Some(f) => if cache::client_is_current(headers, f.mtime_secs, f.size) {
            Stage::Finished(response::unmodified_reply(f, decoded))
        } else {
            Stage::Open { decoded, path, facts: f }
        },
        None => Stage::Finished(response::bare_reply(404)),
    }
}

/// The step from an opened file, which is then sent.
pub open spec fn after_open(
    decoded: Seq<char>,
    path: Seq<Seq<u8>>,
    facts: Facts,
    headers: Seq<(Seq<char>, Seq<u8>)>,
    opened: bool,
) -> Reply {
    if opened {
        response::file_reply(
            facts,
            decoded,
            path::offered_name(path),
            path::announced_type(path),
            header::value_text(headers, "Range"@),
        )
    } else {
        response::bare_reply(404)
    }
}

/// Starts to answer a request. A served path is looked up as the text that it
/// spells, where its bytes are UTF-8.
pub fn route(method: Method, url: &str) -> (r: Progress)
    ensures
        r@ == routed(method, url@),
        method != Method::Other && text::stripped(url@, '/').len() > 0 ==> (path::target_text(
            text::stripped(url@, '/'),
        ) matches Some(s) ==> r@ == (Stage::Resolve { decoded: s })),
{
    match method {
        Method::Other => Progress::Finished(response::method_not_allowed()),
        _ => {
            let chars: Vec<char> = text::chars_of(url);
            let start: usize = text::run_length(chars.as_slice(), '/');
            if start == chars.len() {
                Progress::Finished(response::empty_response(404))
            } else {
                serve_file(url.substring_char(start, chars.len()))
            }
        },
    }
}

/// Starts to serve the file that a request target names. It is looked up as the
/// text that the target spells, where its bytes are UTF-8.
pub fn serve_file(rel_path: &str) -> (r: Progress)
    ensures
        r@ == (Stage::Resolve { decoded: path::decoded_target(rel_path@) }),
        path::target_text(rel_path@) matches Some(s) ==> r@ == (Stage::Resolve { decoded: s }),
{
    Progress::Resolve(Target { decoded: path::decode_target(rel_path) })
}

/// The components of an optional path.
pub open spec fn optional_components(p: Option<Vec<Vec<u8>>>) -> Option<Seq<Seq<u8>>> {
    match p {
        Some(p) => Some(path::components(p@)),
        None => None,
    }
}

impl Target {
    /// The path to look up.
    pub fn decoded(&self) -> (r: &str)
        ensures
            r@ == self@,
    {
        self.decoded.as_str()
    }

    /// Goes on with the resolved path of the target, if there is one.
    pub fn resolved(self, root: &Vec<Vec<u8>>, resolved: Option<Vec<Vec<u8>>>) -> (r: Progress)
        ensures
            r@ == after_resolve(self@, path::components(root@), optional_components(resolved)),
    {
        match resolved {
            Some(p) => {
                if path::is_within(root, &p) {
                    Progress::Inspect(Located { decoded: self.decoded, path: p })
                } else {
                    Progress::Finished(response::empty_response(403))
                }
            },
            None => Progress::Finished(response::empty_response(404)),
        }
    }
}

impl Located {
    /// The resolved path.
    pub fn path(&self) -> (r: &Vec<Vec<u8>>)
        ensures
            path::components(r@) == self@.path,
    {
        &self.path
    }

    /// Goes on with whether the path is a directory.
    pub fn inspected(self, is_dir: bool) -> (r: Progress)
        ensures
            r@ == after_inspect(self@.decoded, self@.path, is_dir),
    {
        if is_dir {
            Progress::Finished(response::empty_response(403))
        } else {
            Progress::Measure(Regular { decoded: self.decoded, path: self.path })
        }
    }
}

/// The facts of an optional file.
pub open spec fn optional_facts(facts: Option<FileFacts>) -> Option<Facts> {
    match facts {
        Some(f) => Some(f@),
        None => None,
    }
}

impl Regular {
    /// The resolved path.
    pub fn path(&self) -> (r: &Vec<Vec<u8>>)
        ensures
            path::components(r@) == self@.path,
    {
        &self.path
    }

    /// Goes on with the facts of the file, if they could be read.
    pub fn measured(self, headers: &Vec<RequestHeader>, facts: Option<FileFacts>) -> (r: Progress)
        ensures
            r@ == after_measure(
                self@.decoded,
                self@.path,
                header::received(headers@),
                optional_facts(facts),
            ),
    {
        match facts {
            Some(f) => {
                if cache::not_modified(headers, f.mtime_secs(), f.size()) {
                    Progress::Finished(response::unmodified_response(&f, self.decoded.as_str()))
                } else {
                    Progress::Open(
                        Measured { decoded: self.decoded, path: self.path, facts: f },
                    )
                }
            },
            None => Progress::Finished(response::empty_response(404)),
        }
    }
}

impl Measured {
    /// The resolved path.
    pub fn path(&self) -> (r: &Vec<Vec<u8>>)
        ensures
            path::components(r@) == self@.0.path,
    {
        &self.path
    }

    /// The answer, once it is known whether the file could be opened.
    pub fn opened(&self, headers: &Vec<RequestHeader>, opened: bool) -> (r: Response)
        ensures
            r@ == after_open(
                self@.0.decoded,
                self@.0.path,
                self@.1,
                header::received(headers@),
                opened,
            ),
    {
        if !opened {
            return response::empty_response(404);
        }
        let name = path::download_name(&self.path);
        let media_type = path::content_type(&self.path);
        let range_header = header::header_value(headers, "Range");
        response::file_response(
            &self.facts,
            self.decoded.as_str(),
            name.as_str(),
            match &media_type {
                Some(t) => Some(t.as_str()),
                None => None,
            },
            match &range_header {
                Some(v) => Some(v.as_str()),
                None => None,
            },
        )
    }
}

/// The address of a client: the first one in `X-Forwarded-For`, then that of the
/// connection, then a dash.
pub open spec fn client(
    headers: Seq<(Seq<char>, Seq<u8>)>,
    remote: Option<Seq<char>>,
) -> Seq<char> {
    match header::value_text(headers, "X-Forwarded-For"@) {
        Some(value) => text::trimmed(text::before_first(value, ',')),
        None => match remote {
            Some(address) => address,
            None => "-"@,
        },
    }
}

/// The address of a client, for the log.
pub fn client_address(headers: &Vec<RequestHeader>, remote: Option<&str>) -> (r: String)
    ensures
        r@ == client(header::received(headers@), text::slice_text(remote)),
{
    match header::header_value(headers, "X-Forwarded-For") {
        Some(value) => {
            let chars: Vec<char> = text::chars_of(value.as_str());
            let comma: usize = text::find_first(chars.as_slice(), ',');
            let first: &[char] = vstd::slice::slice_subrange(chars.as_slice(), 0, comma);
            let (start, end) = text::trim_bounds(first);
            proof {
                assert(first@ == text::before_first(value@, ','));
                assert(first@.subrange(start as int, end as int) == value@.subrange(
                    start as int,
                    end as int,
                ));
            }
            String::from_str(value.as_str().substring_char(start, end))
        },
        None => match remote {
            Some(address) => String::from_str(address),
            None => String::from_str("-"),
        },
    }
}

/// A line of the log: when a method was asked of a URL, by whom, and with which
/// status it was answered.
pub open spec fn log_entry(
    now: Seq<char>,
    method: Seq<char>,
    url: Seq<char>,
    client: Seq<char>,
    status: u16,
) -> Seq<char> {
    "["@ + now + "] "@ + method + " \""@ + url + "\" from "@ + client + " {"@ + number::decimal(
        status as nat,
    ) + "}"@
}

/// A line of the log.
pub fn log_line(now: &str, method: &str, url: &str, client: &str, status: u16) -> (r: String)
    ensures
        r@ == log_entry(now@, method@, url@, client@, status),
{
    let mut r = String::from_str("[");
    r.append(now);
    r.append("] ");
    r.append(method);
    r.append(" \"");
    r.append(url);
    r.append("\" from ");
    r.append(client);
    r.append(" {");
    r.append(number::write_decimal(status as u64).as_str());
    r.append("}");
    r
}

/// How far an answer has come is told by the step that is due, and by what is known
/// for it.
pub proof fn law_progress_views(
    target: Target,
    located: Located,
    regular: Regular,
    measured: Measured,
    response: Response,
)
    ensures
        Progress::Resolve(target)@ == (Stage::Resolve { decoded: target@ }),
        Progress::Inspect(located)@ == (Stage::Inspect {
            decoded: located@.decoded,
            path: located@.path,
        }),
        Progress::Measure(regular)@ == (Stage::Measure {
            decoded: regular@.decoded,
            path: regular@.path,
        }),
        Progress::Open(measured)@ == (Stage::Open {
            decoded: measured@.0.decoded,
            path: measured@.0.path,
            facts: measured@.1,
        }),
        Progress::Finished(response)@ == Stage::Finished(response@),
{
}

/// What may be missing is there as it is, or is missing.
pub proof fn law_optional_answers(path: Vec<Vec<u8>>, facts: FileFacts)
    ensures
        optional_components(Some(path)) == Some(path::components(path@)),
        optional_components(None) is None,
        optional_facts(Some(facts)) == Some(facts@),
        optional_facts(None) is None,
{
}

/// A request for a path goes on with the path behind the slashes in front of it.
pub proof fn law_paths_are_resolved(method: Method, slashes: Seq<char>, rel: Seq<char>)
    requires
        method == Method::Get || method == Method::Head,
        forall|i: int| 0 <= i < slashes.len() ==> slashes[i] == '/',
        rel.len() > 0 && rel[0] != '/',
    ensures
        routed(method, slashes + rel) == (Stage::Resolve { decoded: path::decoded_target(rel) }),
{
    text::law_stripped(slashes, '/', rel);
}

/// A path that holds nothing but slashes is not found, and no other method than
/// `GET` and `HEAD` is allowed for any path.
pub proof fn law_requests_without_a_file(method: Method, slashes: Seq<char>, url: Seq<char>)
    requires
        method == Method::Get || method == Method::Head,
        forall|i: int| 0 <= i < slashes.len() ==> slashes[i] == '/',
    ensures
        routed(method, slashes) == Stage::Finished(
            Reply { status: 404, headers: Seq::empty(), body: Body::Empty },
        ),
        routed(Method::Other, url) == Stage::Finished(
            Reply {
                status: 405,
                headers: seq![("Allow"@, "GET, HEAD"@)],
                body: Body::Empty,
            },
        ),
{
    text::law_stripped(slashes, '/', Seq::empty());
    assert(slashes + Seq::<char>::empty() == slashes);
}

/// What a path resolves to is looked at where it lies at or below the served
/// directory, is forbidden elsewhere, and is not found where it is not there.
pub proof fn law_only_what_lies_below_is_served(
    decoded: Seq<char>,
    root: Seq<Seq<u8>>,
    below: Seq<Seq<u8>>,
    other: Seq<Seq<u8>>,
)
    requires
        !(exists|rest: Seq<Seq<u8>>| other == #[trigger] (root + rest)),
    ensures
        after_resolve(decoded, root, Some(root + below)) == (Stage::Inspect {
            decoded,
            path: root + below,
        }),
        after_resolve(decoded, root, Some(other)) == Stage::Finished(
            Reply { status: 403, headers: Seq::empty(), body: Body::Empty },
        ),
        after_resolve(decoded, root, None) == Stage::Finished(
            Reply { status: 404, headers: Seq::empty(), body: Body::Empty },
        ),
{
    assert(root =~= (root + below).subrange(0, root.len() as int));
    if root.is_prefix_of(other) {
        assert(other == root + other.skip(root.len() as int));
    }
}

/// A directory is forbidden, and everything else is measured.
pub proof fn law_directories_are_not_served(decoded: Seq<char>, path: Seq<Seq<u8>>)
    ensures
        after_inspect(decoded, path, true) == Stage::Finished(
            Reply { status: 403, headers: Seq::empty(), body: Body::Empty },
        ),
        after_inspect(decoded, path, false) == (Stage::Measure { decoded, path }),
{
}

/// A client with a current copy is told so, with the validators of the file and
/// without a body; every other one gets the file, and what cannot be read is not
/// found.
pub proof fn law_current_copies_are_kept(
    decoded: Seq<char>,
    path: Seq<Seq<u8>>,
    headers: Seq<(Seq<char>, Seq<u8>)>,
    facts: Facts,
)
    ensures
        after_measure(decoded, path, headers, None) == Stage::Finished(
            Reply { status: 404, headers: Seq::empty(), body: Body::Empty },
        ),
        !cache::client_is_current(headers, facts.mtime_secs, facts.size) ==> after_measure(
            decoded,
            path,
            headers,
            Some(facts),
        ) == (Stage::Open { decoded, path, facts }),
        cache::client_is_current(headers, facts.mtime_secs, facts.size) ==> (after_measure(
            decoded,
            path,
            headers,
            Some(facts),
        ) matches Stage::Finished(reply) && {
            let tag = cache::entity_tag(facts.mtime_secs as nat, facts.size as nat);
            &&& reply.status == 304
            &&& reply.body == Body::Empty
            &&& reply.headers.len() == 4
            &&& reply.headers.contains(("ETag"@, tag))
            &&& reply.headers.contains(("Last-Modified"@, facts.last_modified))
            &&& reply.headers.contains(("Cache-Control"@, cache::cache_policy(decoded)))
            &&& reply.headers.contains(("Accept-Ranges"@, "bytes"@))
        }),
{
    let lines = response::unmodified_reply(facts, decoded).headers;
    let tag = cache::entity_tag(facts.mtime_secs as nat, facts.size as nat);
    assert(lines[0] == ("ETag"@, tag));
    assert(lines[1] == ("Last-Modified"@, facts.last_modified));
    assert(lines[2] == ("Cache-Control"@, cache::cache_policy(decoded)));
    assert(lines[3] == ("Accept-Ranges"@, "bytes"@));
}

/// An opened file is sent: all of its bytes, or those that the `Range` header
/// selects, always with a `Content-Length`. Where it selects none, the client is told
/// the size of the file. What cannot be opened is not found.
pub proof fn law_opened_files_are_sent(
    decoded: Seq<char>,
    path: Seq<Seq<u8>>,
    facts: Facts,
    headers: Seq<(Seq<char>, Seq<u8>)>,
)
    ensures
        after_open(decoded, path, facts, headers, false) == (Reply {
            status: 404,
            headers: Seq::empty(),
            body: Body::Empty,
        }),
        ({
            let reply = after_open(decoded, path, facts, headers, true);
            match range::selected(header::value_text(headers, "Range"@), facts.size) {
                Selection::Whole => reply.status == 200 && reply.body == (Body::File {
                    start: 0,
                    length: facts.size,
                    chunked_threshold: usize::MAX,
                }),
                Selection::Part { start, end } => reply.status == 206 && (reply.body matches
                Body::File { start: first, length, chunked_threshold } && first == start && first
                    + length == end + 1 && chunked_threshold == usize::MAX),
                Selection::Unsatisfiable => reply == (Reply {
                    status: 416,
                    headers: seq![
                        ("Content-Range"@, "bytes */"@ + number::decimal(facts.size as nat)),
                    ],
                    body: Body::Empty,
                }),
            }
        }),
{
    let value = header::value_text(headers, "Range"@);
    if value is Some {
        let spec = value->0.skip("bytes="@.len() as int);
        range::law_satisfied_ranges_lie_in_the_file(spec, facts.size as nat);
    }
}

/// A file is sent with its validators, its cache policy, its name, its media type
/// where one is known, and, where a part of it is sent, the place of that part.
pub proof fn law_headers_of_sent_files(
    decoded: Seq<char>,
    path: Seq<Seq<u8>>,
    facts: Facts,
    headers: Seq<(Seq<char>, Seq<u8>)>,
)
    requires
        !(range::selected(header::value_text(headers, "Range"@), facts.size) is Unsatisfiable),
    ensures
        ({
            let lines = after_open(decoded, path, facts, headers, true).headers;
            let tag = cache::entity_tag(facts.mtime_secs as nat, facts.size as nat);
            let name = path::offered_name(path);
            let selection = range::selected(header::value_text(headers, "Range"@), facts.size);
            let typed: int = if path::announced_type(path) is Some {
                1
            } else {
                0
            };
            let parted: int = if selection is Part {
                1
            } else {
                0
            };
            &&& lines.len() == 5 + typed + parted
            &&& lines.contains(("Accept-Ranges"@, "bytes"@))
            &&& lines.contains(("ETag"@, tag))
            &&& lines.contains(("Last-Modified"@, facts.last_modified))
            &&& lines.contains(("Cache-Control"@, cache::cache_policy(decoded)))
            &&& lines.contains(
                ("Content-Disposition"@, "attachment; filename=\""@ + name + seq!['"']),
            )
            &&& path::announced_type(path) matches Some(t) ==> lines.contains(("Content-Type"@, t))
            &&& selection matches Selection::Part { start, end } ==> lines.contains(
                (
                    "Content-Range"@,
                    "bytes "@ + number::decimal(start as nat) + seq!['-'] + number::decimal(
                        end as nat,
                    ) + seq!['/'] + number::decimal(facts.size as nat),
                ),
            )
        }),
{
    let lines = after_open(decoded, path, facts, headers, true).headers;
    let tag = cache::entity_tag(facts.mtime_secs as nat, facts.size as nat);
    let name = path::offered_name(path);
    assert(lines[0] == ("Accept-Ranges"@, "bytes"@));
    assert(lines[1] == ("ETag"@, tag));
    assert(lines[2] == ("Last-Modified"@, facts.last_modified));
    assert(lines[3] == ("Cache-Control"@, cache::cache_policy(decoded)));
    assert(lines[4] == ("Content-Disposition"@, "attachment; filename=\""@ + name + seq!['"']));
    if path::announced_type(path) is Some {
        assert(lines[5] == ("Content-Type"@, path::announced_type(path)->0));
    }
    match range::selected(header::value_text(headers, "Range"@), facts.size) {
        Selection::Part { start, end } => {
            assert(lines.last() == (
                "Content-Range"@,
                "bytes "@ + number::decimal(start as nat) + seq!['-'] + number::decimal(end as nat)
                    + seq!['/'] + number::decimal(facts.size as nat),
            ));
        },
        _ => {},
    }
}

/// A client is known by the first address of `X-Forwarded-For`, without the white
/// space around it; without that header by the address of its connection, and by a
/// dash where that is unknown.
pub proof fn law_client_addresses(
    headers: Seq<(Seq<char>, Seq<u8>)>,
    before: Seq<char>,
    address: Seq<char>,
    after: Seq<char>,
    others: Seq<char>,
    remote: Seq<char>,
)
    requires
        forall|i: int| 0 <= i < before.len() ==> text::white_space(before[i]),
        forall|i: int| 0 <= i < after.len() ==> text::white_space(after[i]),
        address.len() > 0 ==> !text::white_space(address[0]) && !text::white_space(address.last()),
        !address.contains(','),
    ensures
        ({
            let first = before + address + after;
            let value = header::value_text(headers, "X-Forwarded-For"@);
            &&& value == Some(first) || value == Some(first + seq![','] + others) ==> client(
                headers,
                Some(remote),
            ) == address && client(headers, None) == address
            &&& value is None ==> client(headers, Some(remote)) == remote && client(headers, None)
                == "-"@
        }),
{
    let first = before + address + after;
    assert forall|i: int| 0 <= i < first.len() implies first[i] != ',' by {
        if i < before.len() {
            assert(first[i] == before[i]);
        } else if i < before.len() + address.len() {
            assert(first[i] == address[i - before.len()]);
            assert(address.contains(address[i - before.len()]));
        } else {
            assert(first[i] == after[i - before.len() - address.len()]);
        }
    }
    text::law_before_first(first, ',', others);
    text::law_trimmed(before, address, after);
}

/// A line of the log holds the time, the method, the URL, the client and the status,
/// in that order.
pub proof fn law_log_lines(
    now: Seq<char>,
    method: Seq<char>,
    url: Seq<char>,
    client: Seq<char>,
    status: u16,
)
    ensures
        log_entry(now, method, url, client, status) == seq!['['] + now + seq![']', ' '] + method
            + seq![' ', '"'] + url + "\" from "@ + client + seq![' ', '{'] + number::decimal(
            status as nat,
        ) + seq!['}'],
{
    reveal_strlit("[");
    reveal_strlit("] ");
    reveal_strlit(" \"");
    reveal_strlit(" {");
    reveal_strlit("}");
    assert("["@ =~= seq!['[']);
    assert("] "@ =~= seq![']', ' ']);
    assert(" \""@ =~= seq![' ', '"']);
    assert(" {"@ =~= seq![' ', '{']);
    assert("}"@ =~= seq!['}']);
}

} // verus!
