//! What holds of the server as a whole.

use crate::cache;
use crate::date;
use crate::header;
use crate::number;
use crate::path;
use crate::range;
use crate::range::Selection;
use crate::range::Wanted;
use crate::response;
use crate::response::Body;
use crate::response::Facts;
use crate::response::Reply;
use crate::server;
use crate::server::Method;
use crate::server::Stage;
use crate::text;
use vstd::prelude::*;

verus! {

/// What the file system answers, step by step, while a request is served.
pub struct Answers {
    /// The resolved path, if there is one.
    pub resolved: Option<Seq<Seq<u8>>>,
    /// Whether it is a directory.
    pub is_dir: bool,
    /// Its size and modification time, if they could be read.
    pub facts: Option<Facts>,
    /// Whether it could be opened.
    pub opened: bool,
}

/// The answer to a request, for a served directory and the answers of the file
/// system: the steps of the server, one after the other.
pub open spec fn answer(
    method: Method,
    url: Seq<char>,
    headers: Seq<(Seq<char>, Seq<u8>)>,
    root: Seq<Seq<u8>>,
    fs: Answers,
) -> Reply {
    match server::routed(method, url) {
        Stage::Resolve { decoded } => match server::after_resolve(decoded, root, fs.resolved) {
            Stage::Inspect { decoded, path } => match server::after_inspect(
                decoded,
                path,
                fs.is_dir,
            ) {
                Stage::Measure { decoded, path } => match server::after_measure(
                    decoded,
                    path,
                    headers,
                    fs.facts,
                ) {
                    Stage::Open { decoded, path, facts } => server::after_open(
                        decoded,
                        path,
                        facts,
                        headers,
                        fs.opened,
                    ),
                    last => finished(last),
                },
                last => finished(last),
            },
            last => finished(last),
        },
        last => finished(last),
    }
}

/// The reply at the end of the steps.
pub open spec fn finished(stage: Stage) -> Reply {
    match stage {
        Stage::Finished(reply) => reply,
        _ => arbitrary(),
    }
}

/// Whether a request is answered with a file or with what is known of it.
pub open spec fn tells_of_file(reply: Reply) -> bool {
    reply.body is File || reply.headers != Seq::<(Seq<char>, Seq<char>)>::empty()
}

/// Whether the request gets as far as an opened file.
pub open spec fn reaches_file(
    method: Method,
    url: Seq<char>,
    headers: Seq<(Seq<char>, Seq<u8>)>,
    root: Seq<Seq<u8>>,
    fs: Answers,
) -> bool {
    &&& method != Method::Other
    &&& text::stripped(url, '/').len() > 0
    &&& fs.resolved matches Some(p)
    &&& root.is_prefix_of(p)
    &&& !fs.is_dir
    &&& fs.facts matches Some(facts)
    &&& !cache::client_is_current(headers, facts.mtime_secs, facts.size)
    &&& fs.opened
}

/// The bytes that a body sends of a file with the given content.
pub open spec fn sent(content: Seq<u8>, body: Body) -> Seq<u8> {
    match body {
        Body::Empty => Seq::empty(),
        Body::File { start, length, .. } => content.subrange(start as int, start + length),
    }
}

/// Only `GET` and `HEAD` are served: every other method is answered with 405 and
/// the two methods that are allowed, whatever it asks for.
pub proof fn law_other_methods_are_rejected(
    url: Seq<char>,
    headers: Seq<(Seq<char>, Seq<u8>)>,
    root: Seq<Seq<u8>>,
    fs: Answers,
)
    ensures
        answer(Method::Other, url, headers, root, fs) == (Reply {
            status: 405,
            headers: seq![("Allow"@, "GET, HEAD"@)],
            body: Body::Empty,
        }),
{
}

/// `HEAD` is answered with the status, the headers and the length of `GET`.
pub proof fn law_head_is_answered_as_get(
    url: Seq<char>,
    headers: Seq<(Seq<char>, Seq<u8>)>,
    root: Seq<Seq<u8>>,
    fs: Answers,
)
    ensures
        answer(Method::Head, url, headers, root, fs) == answer(
            Method::Get,
            url,
            headers,
            root,
            fs,
        ),
{
}

/// An empty path is not found.
pub proof fn law_empty_path_is_not_found(
    method: Method,
    url: Seq<char>,
    headers: Seq<(Seq<char>, Seq<u8>)>,
    root: Seq<Seq<u8>>,
    fs: Answers,
)
    requires
        method != Method::Other,
        forall|i: int| 0 <= i < url.len() ==> url[i] == '/',
    ensures
        answer(method, url, headers, root, fs) == response::bare_reply(404),
{
    text::lemma_stripped(url, '/', url.len() as int);
    assert(text::stripped(url, '/').len() == 0);
}

/// Path traversal outside the served directory is rejected: a path that
/// resolves to anything outside it is forbidden, and the answer tells nothing
/// of what is there.
pub proof fn law_outside_is_forbidden(
    method: Method,
    url: Seq<char>,
    headers: Seq<(Seq<char>, Seq<u8>)>,
    root: Seq<Seq<u8>>,
    fs: Answers,
)
    requires
        method != Method::Other,
        text::stripped(url, '/').len() > 0,
        fs.resolved matches Some(p) && !root.is_prefix_of(p),
    ensures
        answer(method, url, headers, root, fs) == response::bare_reply(403),
{
}

/// A directory is forbidden.
pub proof fn law_directory_is_forbidden(
    method: Method,
    url: Seq<char>,
    headers: Seq<(Seq<char>, Seq<u8>)>,
    root: Seq<Seq<u8>>,
    fs: Answers,
)
    requires
        method != Method::Other,
        text::stripped(url, '/').len() > 0,
        fs.resolved is Some,
        fs.is_dir,
    ensures
        answer(method, url, headers, root, fs) == response::bare_reply(403),
{
}

/// A path that does not exist is not found, and neither is a file below the
/// served directory that cannot be read.
pub proof fn law_missing_is_not_found(
    method: Method,
    url: Seq<char>,
    headers: Seq<(Seq<char>, Seq<u8>)>,
    root: Seq<Seq<u8>>,
    fs: Answers,
)
    requires
        method != Method::Other,
        text::stripped(url, '/').len() > 0,
        fs.resolved is None || (root.is_prefix_of(fs.resolved->0) && !fs.is_dir
            && fs.facts is None),
    ensures
        answer(method, url, headers, root, fs) == response::bare_reply(404),
{
}

/// A served request is told of a file only where the path resolves to
/// something below the served directory that is no directory.
pub proof fn law_only_files_below_root_are_told_of(
    method: Method,
    url: Seq<char>,
    headers: Seq<(Seq<char>, Seq<u8>)>,
    root: Seq<Seq<u8>>,
    fs: Answers,
)
    requires
        method != Method::Other,
        tells_of_file(answer(method, url, headers, root, fs)),
    ensures
        fs.resolved matches Some(p) && root.is_prefix_of(p),
        !fs.is_dir,
        fs.facts is Some,
{
}

/// Every answer has one of seven statuses, and a body comes with two of them.
pub proof fn law_statuses(
    method: Method,
    url: Seq<char>,
    headers: Seq<(Seq<char>, Seq<u8>)>,
    root: Seq<Seq<u8>>,
    fs: Answers,
)
    ensures
        ({
            let reply = answer(method, url, headers, root, fs);
            &&& reply.status == 200 || reply.status == 206 || reply.status == 304 || reply.status
                == 403 || reply.status == 404 || reply.status == 405 || reply.status == 416
            &&& reply.body is File <==> reply.status == 200 || reply.status == 206
        }),
{
}

/// A request that reaches a file is answered with all of it, with the part
/// that its `Range` header selects, or with 416 and the size of the file.
pub proof fn law_range_decides_the_answer(
    method: Method,
    url: Seq<char>,
    headers: Seq<(Seq<char>, Seq<u8>)>,
    root: Seq<Seq<u8>>,
    fs: Answers,
)
    requires
        reaches_file(method, url, headers, root, fs),
    ensures
        ({
            let reply = answer(method, url, headers, root, fs);
            let size = fs.facts->0.size;
            match range::selected(header::value_text(headers, "Range"@), size) {
                Selection::Whole => reply.status == 200,
                Selection::Part { start, end } => reply.status == 206 && reply.headers.contains(
                    ("Content-Range"@, response::content_range(start, end, size)),
                ),
                Selection::Unsatisfiable => reply == response::unsatisfiable_reply(size),
            }
        }),
{
    let reply = answer(method, url, headers, root, fs);
    let size = fs.facts->0.size;
    match range::selected(header::value_text(headers, "Range"@), size) {
        Selection::Part { start, end } => {
            assert(reply.headers.last() == (
                "Content-Range"@,
                response::content_range(start, end, size),
            ));
        },
        _ => {},
    }
}

/// What is sent lies in the file. A full answer sends all of it; a partial one
/// sends at least one byte, and as many as its offsets say.
pub proof fn law_sent_bytes(
    facts: Facts,
    decoded: Seq<char>,
    name: Seq<char>,
    media_type: Option<Seq<char>>,
    range_header: Option<Seq<char>>,
    content: Seq<u8>,
)
    requires
        content.len() == facts.size,
    ensures
        ({
            let reply = response::file_reply(facts, decoded, name, media_type, range_header);
            match range::selected(range_header, facts.size) {
                Selection::Whole => sent(content, reply.body) == content,
                Selection::Part { start, end } => {
                    &&& start <= end < facts.size
                    &&& sent(content, reply.body) == content.subrange(start as int, end + 1)
                    &&& sent(content, reply.body).len() == end - start + 1
                },
                Selection::Unsatisfiable => sent(content, reply.body).len() == 0,
            }
        }),
{
    let reply = response::file_reply(facts, decoded, name, media_type, range_header);
    law_selection_is_satisfiable(range_header, facts.size);
    assert(content.subrange(0, content.len() as int) == content);
}

/// A request that reaches a file gets all of its bytes, or those that its `Range`
/// header selects, and no others.
pub proof fn law_answer_sends_the_bytes(
    method: Method,
    url: Seq<char>,
    headers: Seq<(Seq<char>, Seq<u8>)>,
    root: Seq<Seq<u8>>,
    fs: Answers,
    content: Seq<u8>,
)
    requires
        reaches_file(method, url, headers, root, fs),
        content.len() == fs.facts->0.size,
    ensures
        ({
            let reply = answer(method, url, headers, root, fs);
            match range::selected(header::value_text(headers, "Range"@), fs.facts->0.size) {
                Selection::Whole => reply.status == 200 && sent(content, reply.body) == content,
                Selection::Part { start, end } => reply.status == 206 && start <= end
                    < content.len() && sent(content, reply.body) == content.subrange(
                    start as int,
                    end + 1,
                ),
                Selection::Unsatisfiable => reply.status == 416 && reply.body is Empty,
            }
        }),
{
    let facts = fs.facts->0;
    let path = fs.resolved->0;
    let decoded = path::decoded_target(text::stripped(url, '/'));
    server::law_opened_files_are_sent(decoded, path, facts, headers);
    law_selection_is_satisfiable(header::value_text(headers, "Range"@), facts.size);
    assert(content.subrange(0, content.len() as int) == content);
}

/// A request without a `Range` header gets the whole file, and its length is that of
/// the file.
pub proof fn law_whole_file_is_sent(
    method: Method,
    url: Seq<char>,
    headers: Seq<(Seq<char>, Seq<u8>)>,
    root: Seq<Seq<u8>>,
    fs: Answers,
)
    requires
        reaches_file(method, url, headers, root, fs),
        header::value_text(headers, "Range"@) is None,
    ensures
        ({
            let reply = answer(method, url, headers, root, fs);
            &&& reply.status == 200
            &&& reply.body matches Body::File { start, length, .. } && start == 0 && length
                == fs.facts->0.size
        }),
{
}

/// A request for the bytes from `start` to `end` gets those that the file holds, and
/// is told which they are and how large the file is; where it holds none, that alone.
pub proof fn law_asked_bytes_are_sent(
    method: Method,
    url: Seq<char>,
    headers: Seq<(Seq<char>, Seq<u8>)>,
    root: Seq<Seq<u8>>,
    fs: Answers,
    start: nat,
    end: nat,
)
    requires
        reaches_file(method, url, headers, root, fs),
        start <= end,
        header::value_text(headers, "Range"@) == Some(
            "bytes="@ + (number::decimal(start) + seq!['-'] + number::decimal(end)),
        ),
    ensures
        ({
            let reply = answer(method, url, headers, root, fs);
            let size = fs.facts->0.size as nat;
            let last = if end < size {
                end as int
            } else {
                size - 1
            };
            &&& start < size ==> reply.status == 206
            &&& start < size ==> (reply.body matches Body::File { start: first, length, .. }
                && first == start && first + length == last + 1)
            &&& start < size ==> reply.headers.contains(
                (
                    "Content-Range"@,
                    "bytes "@ + number::decimal(start) + seq!['-'] + number::decimal(last as nat)
                        + seq!['/'] + number::decimal(size),
                ),
            )
            &&& start >= size ==> reply == (Reply {
                status: 416,
                headers: seq![("Content-Range"@, "bytes */"@ + number::decimal(size))],
                body: Body::Empty,
            })
        }),
{
    let facts = fs.facts->0;
    let size = facts.size as nat;
    let path = fs.resolved->0;
    let decoded = path::decoded_target(text::stripped(url, '/'));
    let a = number::decimal(start);
    let b = number::decimal(end);
    let spec = a + seq!['-'] + b;
    let none = Seq::<char>::empty();
    number::law_decimal_reads_back(start);
    number::law_decimal_reads_back(end);
    range::law_bounded_range(none, a, b, none, size);
    assert(none + a + seq!['-'] + b + none == spec);
    number::lemma_decimal_digits(end);
    lemma_numeric_spec(start, b);
    range::law_selection_is_the_range(spec, facts.size);
    server::law_opened_files_are_sent(decoded, path, facts, headers);
    if start < size {
        server::law_headers_of_sent_files(decoded, path, facts, headers);
    }
}

/// A selected range starts and ends in the file.
pub proof fn law_selection_is_satisfiable(range_header: Option<Seq<char>>, total: u64)
    ensures
        range::selected(range_header, total) matches Selection::Part { start, end } ==> start <= end
            < total,
        forall|spec: Seq<char>|
            #![trigger range::single_range(spec, total as nat)]
            range::single_range(spec, total as nat) matches Some((start, end)) ==> start <= end
                < total,
{
}

/// A client that has the first `have` bytes of a file, and asks for the rest,
/// completes it with what is sent.
pub proof fn law_resumed_download_is_complete(
    facts: Facts,
    decoded: Seq<char>,
    name: Seq<char>,
    media_type: Option<Seq<char>>,
    have: nat,
    content: Seq<u8>,
)
    requires
        content.len() == facts.size,
        have < facts.size,
    ensures
        ({
            let header = "bytes="@ + number::decimal(have) + seq!['-'];
            let reply = response::file_reply(facts, decoded, name, media_type, Some(header));
            reply.status == 206 && content.take(have as int) + sent(content, reply.body) == content
        }),
{
    let spec = number::decimal(have) + seq!['-'];
    let header = "bytes="@ + number::decimal(have) + seq!['-'];
    assert(header == "bytes="@ + spec);
    assert(header.skip("bytes="@.len() as int) == spec);
    assert("bytes="@.is_prefix_of(header));
    lemma_numeric_spec(have, Seq::empty());
    assert(spec + Seq::<char>::empty() == spec);
    number::law_decimal_reads_back(have);
    assert(range::wanted(spec) == Some(Wanted::From(have)));
    let reply = response::file_reply(facts, decoded, name, media_type, Some(header));
    assert(content.take(have as int) + sent(content, reply.body) =~= content);
}

/// The offsets that a partial answer announces, sent back as a request, select
/// the same part.
pub proof fn law_announced_range_reads_back(start: nat, end: nat, total: nat)
    requires
        start <= end < total,
    ensures
        range::single_range(
            number::decimal(start) + seq!['-'] + number::decimal(end),
            total,
        ) == Some((start, end)),
{
    number::lemma_decimal_digits(end);
    lemma_numeric_spec(start, number::decimal(end));
    number::law_decimal_reads_back(start);
    number::law_decimal_reads_back(end);
}

/// An end behind the last byte is cut to it: a range that starts in the file is
/// answered with what the file holds of it.
pub proof fn law_end_is_cut_to_the_file(start: nat, end: nat, total: nat)
    requires
        start < total,
        start <= end,
    ensures
        range::single_range(
            number::decimal(start) + seq!['-'] + number::decimal(end),
            total,
        ) == Some((start, if end < total { end } else { (total - 1) as nat })),
{
    number::law_decimal_reads_back(start);
    number::law_decimal_reads_back(end);
    let none = Seq::<char>::empty();
    let a = number::decimal(start);
    let b = number::decimal(end);
    range::law_bounded_range(none, a, b, none, total);
    assert(none + a + seq!['-'] + b + none == a + seq!['-'] + b);
}

/// A file is fetched whole by fetching it in blocks, one behind the other, however
/// far the last block reaches behind its end.
pub proof fn law_blocks_make_the_file(start: nat, block: nat, content: Seq<u8>)
    requires
        block > 0,
        start < content.len(),
    ensures
        ({
            let end = (start + block - 1) as nat;
            let spec = number::decimal(start) + seq!['-'] + number::decimal(end);
            range::single_range(spec, content.len()) matches Some((first, last)) && {
                let got = content.subrange(first as int, last as int + 1);
                &&& content.take(start as int) + got == content.take((start + got.len()) as int)
                &&& got.len() == block || start + got.len() == content.len()
                &&& got.len() > 0
            }
        }),
{
    law_end_is_cut_to_the_file(start, (start + block - 1) as nat, content.len());
}

/// The parts of `start-rest`, where `rest` holds digits alone.
proof fn lemma_numeric_spec(start: nat, rest: Seq<char>)
    requires
        number::all_decimal_digits(rest),
    ensures
        ({
            let spec = number::decimal(start) + seq!['-'] + rest;
            let dash = number::decimal(start).len() as int;
            &&& text::trimmed(spec) == spec
            &&& text::first_index(spec, '-') == dash
            &&& spec.take(dash) == number::decimal(start)
            &&& spec.skip(dash + 1) == rest
            &&& !spec.contains(',')
        }),
{
    let first = number::decimal(start);
    let spec = first + seq!['-'] + rest;
    let dash = first.len() as int;
    number::lemma_decimal_digits(start);
    assert forall|i: int| 0 <= i < spec.len() implies !text::white_space(#[trigger] spec[i])
        && spec[i] != ',' && (i < dash ==> spec[i] != '-') by {
        if i < dash {
            assert(spec[i] == first[i]);
        } else if i > dash {
            assert(spec[i] == rest[i - dash - 1]);
        }
    }
    text::lemma_trimmed_start(spec, 0);
    assert(spec.skip(0) == spec);
    text::lemma_trimmed_end(spec, spec.len() as int);
    assert(spec.take(spec.len() as int) == spec);
    text::lemma_first_index(spec, '-', dash);
    assert(spec.take(dash) == first);
    assert(spec.skip(dash + 1) == rest);
}

/// The three forms of a byte range, `start-`, `start-end` and `-n`, ask for what
/// they spell out.
pub proof fn law_range_forms(start: nat, end: nat, n: nat)
    ensures
        range::wanted(number::decimal(start) + seq!['-']) == Some(Wanted::From(start)),
        range::wanted(number::decimal(start) + seq!['-'] + number::decimal(end)) == Some(
            Wanted::Between(start, end),
        ),
        range::wanted(seq!['-'] + number::decimal(n)) == Some(Wanted::Last(n)),
{
    number::lemma_decimal_digits(start);
    number::lemma_decimal_digits(end);
    number::lemma_decimal_digits(n);
    number::law_decimal_reads_back(start);
    number::law_decimal_reads_back(end);
    number::law_decimal_reads_back(n);
    let open_ended = number::decimal(start) + seq!['-'];
    assert(open_ended + Seq::<char>::empty() == open_ended);
    lemma_numeric_spec(start, Seq::empty());
    lemma_numeric_spec(start, number::decimal(end));
    let suffix = seq!['-'] + number::decimal(n);
    assert(suffix.last() == number::decimal(n).last());
    text::lemma_trimmed_start(suffix, 0);
    assert(suffix.skip(0) == suffix);
    text::lemma_trimmed_end(suffix, suffix.len() as int);
    assert(suffix.take(suffix.len() as int) == suffix);
    text::lemma_first_index(suffix, '-', 0);
    assert(suffix.skip(1) == number::decimal(n));
}

/// The suffix range `-n` selects the last `n` bytes of a file, and all of it
/// where it holds no more.
pub proof fn law_suffix_selects_the_end(n: nat, total: nat)
    requires
        n > 0,
        total > 0,
    ensures
        range::single_range(seq!['-'] + number::decimal(n), total) matches Some((start, end))
            && end == total - 1 && end - start + 1 == if n < total {
            n
        } else {
            total
        },
{
    law_range_forms(0, 0, n);
}

/// Nothing is selected in an empty file.
pub proof fn law_empty_file_satisfies_no_range(spec: Seq<char>)
    ensures
        range::single_range(spec, 0) is None,
{
}

/// Several ranges at once are answered with 416, and so is a range that the
/// file cannot satisfy.
pub proof fn law_unsatisfiable_ranges(spec: Seq<char>, total: u64)
    requires
        spec.contains(',') || range::single_range(spec, total as nat) is None,
    ensures
        range::selected(Some("bytes="@ + spec), total) == Selection::Unsatisfiable,
{
    assert(("bytes="@ + spec).skip("bytes="@.len() as int) == spec);
    assert("bytes="@.is_prefix_of("bytes="@ + spec));
}

/// What an answer says of the file agrees, whatever its status: the validators
/// and the cache policy of a 304 stand in every 200 and 206 too.
pub proof fn law_validators_agree(
    facts: Facts,
    decoded: Seq<char>,
    name: Seq<char>,
    media_type: Option<Seq<char>>,
    range_header: Option<Seq<char>>,
    i: int,
)
    requires
        0 <= i < response::unmodified_reply(facts, decoded).headers.len(),
        !(range::selected(range_header, facts.size) is Unsatisfiable),
    ensures
        response::file_reply(facts, decoded, name, media_type, range_header).headers.contains(
            response::unmodified_reply(facts, decoded).headers[i],
        ),
{
    let all = response::file_reply(facts, decoded, name, media_type, range_header).headers;
    let few = response::unmodified_reply(facts, decoded).headers;
    assert(all[0] == few[3]);
    assert(all[1] == few[0]);
    assert(all[2] == few[1]);
    assert(all[3] == few[2]);
}

/// However large a file is, the size from which on it may be sent in chunks is
/// the largest there is, and no more than the file is sent.
pub proof fn law_large_files_keep_their_length(
    method: Method,
    url: Seq<char>,
    headers: Seq<(Seq<char>, Seq<u8>)>,
    root: Seq<Seq<u8>>,
    fs: Answers,
)
    ensures
        answer(method, url, headers, root, fs).body matches Body::File {
            start,
            length,
            chunked_threshold,
        } ==> chunked_threshold == usize::MAX && start + length <= fs.facts->0.size,
{
    law_selection_is_satisfiable(
        header::value_text(headers, "Range"@),
        fs.facts->0.size,
    );
}

/// An entity tag starts and ends with a quote, and holds no comma.
proof fn lemma_tag_characters(mtime_secs: nat, size: nat)
    ensures
        ({
            let tag = cache::entity_tag(mtime_secs, size);
            &&& tag.len() >= 2
            &&& tag[0] == '"'
            &&& tag.last() == '"'
            &&& forall|i: int| 0 <= i < tag.len() ==> #[trigger] tag[i] != ','
        }),
{
    let m = number::hexadecimal(mtime_secs);
    let s = number::hexadecimal(size);
    let tag = cache::entity_tag(mtime_secs, size);
    number::lemma_numeral_digits(mtime_secs, 16);
    number::lemma_numeral_digits(size, 16);
    assert forall|i: int| 0 <= i < tag.len() implies #[trigger] tag[i] != ',' by {
        if 1 <= i < 1 + m.len() {
            assert(tag[i] == m[i - 1]);
        } else if 2 + m.len() <= i < tag.len() - 1 {
            assert(tag[i] == s[i - 2 - m.len()]);
        }
    }
}

/// A header value without commas and without white space at its ends is a list
/// of one entry.
proof fn lemma_single_entry(value: Seq<char>, tag: Seq<char>)
    requires
        value.len() > 0,
        !text::white_space(value[0]),
        !text::white_space(value.last()),
        forall|i: int| 0 <= i < value.len() ==> #[trigger] value[i] != ',',
    ensures
        text::trimmed(value) == value,
        cache::lists_tag(value, tag) <==> cache::strong_part(value) == tag,
{
    text::lemma_trimmed_start(value, 0);
    assert(value.skip(0) == value);
    text::lemma_trimmed_end(value, value.len() as int);
    assert(value.take(value.len() as int) == value);
    text::lemma_first_index(value, ',', value.len() as int);
    assert(text::split(value, ',') == seq![value]);
    assert(text::split(value, ',')[0] == value);
    if cache::strong_part(value) == tag {
        assert(cache::names_tag(text::split(value, ',')[0], tag));
    }
}

/// A client that sends back the entity tag of its copy, weak or not, has a
/// current copy exactly where the tag is still that of the file.
pub proof fn law_tag_sent_back(mine: (nat, nat), file: (nat, nat))
    ensures
        ({
            let sent_back = cache::entity_tag(mine.0, mine.1);
            let tag = cache::entity_tag(file.0, file.1);
            &&& cache::none_match_hits(sent_back, tag) <==> mine == file
            &&& cache::none_match_hits(seq!['W', '/'] + sent_back, tag) <==> mine == file
        }),
{
    let sent_back = cache::entity_tag(mine.0, mine.1);
    let tag = cache::entity_tag(file.0, file.1);
    let weak = seq!['W', '/'] + sent_back;
    lemma_tag_characters(mine.0, mine.1);
    assert forall|i: int| 0 <= i < weak.len() implies #[trigger] weak[i] != ',' by {
        if i >= 2 {
            assert(weak[i] == sent_back[i - 2]);
        }
    }
    assert(weak.last() == sent_back.last());
    lemma_single_entry(sent_back, tag);
    lemma_single_entry(weak, tag);
    assert(weak.skip(2) == sent_back);
    assert(cache::strong_part(weak) == cache::strong_part(sent_back));
    assert(cache::strong_part(sent_back) == sent_back);
    assert(seq!['*'][0] == '*');
    if sent_back == tag {
        law_tags_tell_versions_apart(mine, file);
    }
}

/// Two versions of a file that differ in size or in the second of their
/// modification have different entity tags.
pub proof fn law_tags_tell_versions_apart(a: (nat, nat), b: (nat, nat))
    requires
        cache::entity_tag(a.0, a.1) == cache::entity_tag(b.0, b.1),
    ensures
        a == b,
{
    let x = number::hexadecimal(a.0);
    let y = number::hexadecimal(b.0);
    let u = number::hexadecimal(a.1);
    let v = number::hexadecimal(b.1);
    let tag = cache::entity_tag(a.0, a.1);
    number::lemma_numeral_digits(a.0, 16);
    number::lemma_numeral_digits(b.0, 16);
    assert forall|i: int| 0 <= i < x.len() implies tag[i + 1] == #[trigger] x[i] && x[i] != '-' by {}
    assert forall|i: int| 0 <= i < y.len() implies tag[i + 1] == #[trigger] y[i] && y[i] != '-' by {}
    assert(tag[x.len() as int + 1] == '-');
    assert(tag[y.len() as int + 1] == '-');
    if x.len() < y.len() {
        assert(tag[x.len() as int + 1] == y[x.len() as int]);
    }
    if y.len() < x.len() {
        assert(tag[y.len() as int + 1] == x[y.len() as int]);
    }
    assert(x =~= y);
    assert(tag.len() == x.len() + u.len() + 3);
    assert(tag.len() == y.len() + v.len() + 3);
    assert forall|i: int| 0 <= i < u.len() implies u[i] == v[i] by {
        assert(tag[x.len() + 2 + i] == u[i]);
        assert(tag[x.len() + 2 + i] == v[i]);
    }
    assert(u =~= v);
    number::lemma_numeral_injective(a.0, b.0, 16);
    number::lemma_numeral_injective(a.1, b.1, 16);
}

/// A client whose `If-None-Match` header matches the file, by its entity tag
/// alone, weak or in a list, or by `*`, is answered with 304, the same tag and no
/// body, whatever else its request holds.
pub proof fn law_unchanged_file_is_not_sent_again(
    method: Method,
    url: Seq<char>,
    headers: Seq<(Seq<char>, Seq<u8>)>,
    root: Seq<Seq<u8>>,
    fs: Answers,
    value: Seq<char>,
)
    requires
        method != Method::Other,
        text::stripped(url, '/').len() > 0,
        fs.resolved matches Some(p) && root.is_prefix_of(p),
        !fs.is_dir,
        fs.facts is Some,
        header::value_text(headers, "If-None-Match"@) == Some(value),
        cache::none_match_hits(value, fs.facts->0.tag()),
    ensures
        ({
            let reply = answer(method, url, headers, root, fs);
            &&& reply.status == 304
            &&& reply.body is Empty
            &&& reply.headers.contains(("ETag"@, fs.facts->0.tag()))
        }),
{
    let reply = answer(method, url, headers, root, fs);
    assert(reply.headers[0] == ("ETag"@, fs.facts->0.tag()));
}

/// A client whose `If-None-Match` header does not match the file gets the file, or
/// the part of it that it asks for, and is never told that its copy is current,
/// whatever date it sends along.
pub proof fn law_changed_file_is_sent_again(
    method: Method,
    url: Seq<char>,
    headers: Seq<(Seq<char>, Seq<u8>)>,
    root: Seq<Seq<u8>>,
    fs: Answers,
    value: Seq<char>,
)
    requires
        method != Method::Other,
        text::stripped(url, '/').len() > 0,
        fs.resolved matches Some(p) && root.is_prefix_of(p),
        !fs.is_dir,
        fs.facts is Some,
        fs.opened,
        header::value_text(headers, "If-None-Match"@) == Some(value),
        !cache::none_match_hits(
            value,
            cache::entity_tag(fs.facts->0.mtime_secs as nat, fs.facts->0.size as nat),
        ),
    ensures
        ({
            let status = answer(method, url, headers, root, fs).status;
            status == 200 || status == 206 || status == 416
        }),
{
    let facts = fs.facts->0;
    cache::law_none_match_decides_alone(headers, value, facts.mtime_secs, facts.size);
}

/// A client that names the tag of another version of the file, weak or not, gets the
/// file, whatever date it sends along.
pub proof fn law_other_version_is_replaced(
    method: Method,
    url: Seq<char>,
    headers: Seq<(Seq<char>, Seq<u8>)>,
    root: Seq<Seq<u8>>,
    fs: Answers,
    mine: (nat, nat),
)
    requires
        method != Method::Other,
        text::stripped(url, '/').len() > 0,
        fs.resolved matches Some(p) && root.is_prefix_of(p),
        !fs.is_dir,
        fs.facts is Some,
        fs.opened,
        ({
            let tag = cache::entity_tag(mine.0, mine.1);
            let value = header::value_text(headers, "If-None-Match"@);
            value == Some(tag) || value == Some(seq!['W', '/'] + tag)
        }),
        mine.0 != fs.facts->0.mtime_secs || mine.1 != fs.facts->0.size,
    ensures
        ({
            let status = answer(method, url, headers, root, fs).status;
            status == 200 || status == 206 || status == 416
        }),
{
    let facts = fs.facts->0;
    law_tag_sent_back(mine, (facts.mtime_secs as nat, facts.size as nat));
    law_changed_file_is_sent_again(
        method,
        url,
        headers,
        root,
        fs,
        header::value_text(headers, "If-None-Match"@)->0,
    );
}

/// An entity tag is found in every list that holds it between commas.
pub proof fn law_listed_tag_matches(before: Seq<char>, version: (nat, nat), after: Seq<char>)
    ensures
        ({
            let tag = cache::entity_tag(version.0, version.1);
            &&& cache::none_match_hits(before + seq![','] + tag, tag)
            &&& cache::none_match_hits(tag + seq![','] + after, tag)
            &&& cache::none_match_hits(before + seq![','] + tag + seq![','] + after, tag)
        }),
{
    let tag = cache::entity_tag(version.0, version.1);
    lemma_tag_characters(version.0, version.1);
    lemma_single_entry(tag, tag);
    assert(cache::strong_part(tag) == tag);
    let first = tag + seq![','] + after;
    text::lemma_first_index(first, ',', tag.len() as int);
    assert(first.take(tag.len() as int) == tag);
    assert(text::split(first, ',')[0] == tag);
    assert(cache::names_tag(text::split(first, ',')[0], tag));
    lemma_list_continues(before, tag, tag);
    lemma_list_continues(before, first, tag);
    assert(before + seq![','] + first == before + seq![','] + tag + seq![','] + after);
}

/// What is listed behind a comma is listed in the whole.
proof fn lemma_list_continues(before: Seq<char>, rest: Seq<char>, tag: Seq<char>)
    requires
        cache::lists_tag(rest, tag),
    ensures
        cache::lists_tag(before + seq![','] + rest, tag),
    decreases before.len(),
{
    let list = before + seq![','] + rest;
    let k = text::first_index(list, ',');
    text::lemma_first_index_bounds(list, ',');
    assert(list[before.len() as int] == ',');
    assert(k <= before.len());
    let tail = list.skip(k + 1);
    if k == before.len() {
        assert(tail == rest);
    } else {
        assert(tail == before.skip(k + 1) + seq![','] + rest);
        lemma_list_continues(before.skip(k + 1), rest, tag);
    }
    let pieces = text::split(tail, ',');
    let i = choose|i: int| 0 <= i < pieces.len() && #[trigger] cache::names_tag(pieces[i], tag);
    assert(text::split(list, ',') == seq![list.take(k)] + pieces);
    assert(text::split(list, ',')[i + 1] == pieces[i]);
    assert(cache::names_tag(text::split(list, ',')[i + 1], tag));
}

/// `*` in `If-None-Match` matches every file.
pub proof fn law_star_matches_every_tag(tag: Seq<char>)
    ensures
        cache::none_match_hits(seq!['*'], tag),
{
    text::lemma_trimmed_start(seq!['*'], 0);
    assert(seq!['*'].skip(0) =~= seq!['*']);
    text::lemma_trimmed_end(seq!['*'], 1);
    assert(seq!['*'].take(1) =~= seq!['*']);
}

/// `If-None-Match` takes precedence: where it is there, `If-Modified-Since` does
/// not count.
pub proof fn law_none_match_takes_precedence(
    none_match: Seq<char>,
    since: Option<u64>,
    other: Option<u64>,
    tag: Seq<char>,
    mtime_secs: u64,
)
    ensures
        cache::current(Some(none_match), since, tag, mtime_secs) == cache::current(
            Some(none_match),
            other,
            tag,
            mtime_secs,
        ),
{
}

/// A client that sends back the `Last-Modified` date of its copy, and no entity
/// tag, has a current copy exactly where the file is not younger than that date.
pub proof fn law_date_sent_back(
    headers: Seq<(Seq<char>, Seq<u8>)>,
    secs: int,
    mtime_secs: u64,
    size: u64,
)
    requires
        0 <= secs <= date::LAST_SECOND,
        cache::asks_since(headers, secs),
    ensures
        cache::client_is_current(headers, mtime_secs, size) <==> mtime_secs <= secs,
{
    let value = header::value_text(headers, "If-Modified-Since"@)->0;
    date::law_written_date_reads_back(secs, value);
}

/// A client that sends back the `Last-Modified` date of a file that was modified
/// at the Unix epoch or later, and no entity tag, is answered with 304, the same
/// date and no body.
pub proof fn law_file_of_the_same_date_is_not_sent_again(
    method: Method,
    url: Seq<char>,
    headers: Seq<(Seq<char>, Seq<u8>)>,
    root: Seq<Seq<u8>>,
    fs: Answers,
    secs: int,
)
    requires
        method != Method::Other,
        text::stripped(url, '/').len() > 0,
        fs.resolved matches Some(p) && root.is_prefix_of(p),
        !fs.is_dir,
        fs.facts matches Some(facts) && facts.modified_in(secs),
        0 <= secs,
        header::value_text(headers, "If-None-Match"@) is None,
        header::value_text(headers, "If-Modified-Since"@) matches Some(value) && text::trimmed(
            value,
        ) == fs.facts->0.last_modified,
    ensures
        ({
            let reply = answer(method, url, headers, root, fs);
            &&& reply.status == 304
            &&& reply.body is Empty
            &&& reply.headers.contains(("Last-Modified"@, date::imf_fixdate(secs)))
        }),
{
    let facts = fs.facts->0;
    law_date_sent_back(headers, secs, facts.mtime_secs, facts.size);
    let reply = answer(method, url, headers, root, fs);
    assert(reply.headers[1] == ("Last-Modified"@, date::imf_fixdate(secs)));
}

/// Without a conditional header the answer is never 304.
pub proof fn law_unconditional_request_is_never_unmodified(
    method: Method,
    url: Seq<char>,
    headers: Seq<(Seq<char>, Seq<u8>)>,
    root: Seq<Seq<u8>>,
    fs: Answers,
)
    requires
        header::value_text(headers, "If-None-Match"@) is None,
        header::value_text(headers, "If-Modified-Since"@) is None,
    ensures
        answer(method, url, headers, root, fs).status != 304,
{
}

/// Every answer that tells of a file carries the cache policy of the path that
/// was asked for.
pub proof fn law_answers_carry_the_cache_policy(
    method: Method,
    url: Seq<char>,
    headers: Seq<(Seq<char>, Seq<u8>)>,
    root: Seq<Seq<u8>>,
    fs: Answers,
    decoded: Seq<char>,
)
    requires
        server::routed(method, url) == (Stage::Resolve { decoded }),
    ensures
        ({
            let reply = answer(method, url, headers, root, fs);
            reply.status == 200 || reply.status == 206 || reply.status == 304
                ==> reply.headers.contains(("Cache-Control"@, cache::cache_policy(decoded)))
        }),
{
    let reply = answer(method, url, headers, root, fs);
    let line = ("Cache-Control"@, cache::cache_policy(decoded));
    if reply.status == 304 {
        assert(reply.headers[2] == line);
    } else if reply.status == 200 || reply.status == 206 {
        assert(reply.headers[3] == line);
    }
}

/// Every path that leads through a directory `dists` names an index, and is
/// revalidated.
pub proof fn law_dists_are_revalidated(before: Seq<char>, after: Seq<char>)
    requires
        before.len() == 0 || before.last() == '/',
    ensures
        cache::cache_policy(before + "dists/"@ + after) == "no-cache"@,
    decreases before.len(),
{
    reveal_strlit("dists/");
    reveal_strlit("/dists/");
    let path = before + "dists/"@ + after;
    if before.len() > 0 && before[0] == '/' {
        let rest = before.skip(1) + "dists/"@ + after;
        law_dists_are_revalidated(before.skip(1), after);
        assert(path == seq!['/'] + rest);
        law_leading_slashes_keep_the_policy(rest);
    } else {
        assert(path[0] != '/') by {
            if before.len() > 0 {
                assert(path[0] == before[0]);
            } else {
                assert(path[0] == "dists/"@[0]);
            }
        }
        text::lemma_stripped(path, '/', 0);
        assert(path.skip(0) == path);
        let rooted = seq!['/'] + path;
        let at = before.len() as int;
        assert(text::text_at(rooted, at, "/dists/"@)) by {
            assert(rooted[at] == '/') by {
                if at > 0 {
                    assert(rooted[at] == before[at - 1]);
                }
            }
            assert forall|j: int| 1 <= j < "/dists/"@.len() implies rooted[at + j]
                == "/dists/"@[j] by {
                assert(rooted[at + j] == "dists/"@[j - 1]);
            }
            assert(rooted.subrange(at, at + "/dists/"@.len()) =~= "/dists/"@);
        }
    }
}

/// A `Packages` index, plain or compressed, is revalidated in every directory.
pub proof fn law_package_indexes_are_revalidated(directory: Seq<char>, name: Seq<char>)
    requires
        directory.len() == 0 || directory.last() == '/',
        name == "Packages"@ || name == "Packages.gz"@ || name == "Packages.xz"@,
    ensures
        cache::cache_policy(directory + name) == "no-cache"@,
    decreases directory.len(),
{
    reveal_strlit("Packages");
    reveal_strlit("Packages.gz");
    reveal_strlit("Packages.xz");
    let path = directory + name;
    if directory.len() > 0 && directory[0] == '/' {
        let rest = directory.skip(1) + name;
        law_package_indexes_are_revalidated(directory.skip(1), name);
        assert(path == seq!['/'] + rest);
        law_leading_slashes_keep_the_policy(rest);
    } else {
        assert(path[0] == if directory.len() > 0 {
            directory[0]
        } else {
            name[0]
        });
        text::lemma_stripped(path, '/', 0);
        assert(path.skip(0) == path);
        assert forall|j: int| directory.len() <= j < path.len() implies path[j] != '/' by {
            assert(path[j] == name[j - directory.len()]);
        }
        text::lemma_after_last(path, '/', directory.len() as int);
        assert(path.skip(directory.len() as int) == name);
    }
}

/// Everything else, where no directory is named `dists`, is a package, and is
/// kept for a year.
pub proof fn law_packages_are_immutable(directory: Seq<char>, name: Seq<char>)
    requires
        directory.len() == 0 || directory.last() == '/',
        !name.contains('/'),
        name != "Packages"@ && name != "Packages.gz"@ && name != "Packages.xz"@,
        !text::has_text(seq!['/'] + directory, "/dists/"@),
    ensures
        cache::cache_policy(directory + name) == "public, max-age=31536000, immutable"@,
    decreases directory.len(),
{
    let path = directory + name;
    if directory.len() > 0 && directory[0] == '/' {
        let above = directory.skip(1);
        assert(path == seq!['/'] + (above + name));
        assert(seq!['/'] + above == directory);
        assert(!text::has_text(directory, "/dists/"@)) by {
            if text::has_text(directory, "/dists/"@) {
                let i = choose|i: int|
                    0 <= i <= directory.len() - "/dists/"@.len() && #[trigger] text::text_at(
                        directory,
                        i,
                        "/dists/"@,
                    );
                assert((seq!['/'] + directory).subrange(i + 1, i + 1 + "/dists/"@.len())
                    =~= directory.subrange(i, i + "/dists/"@.len()));
                assert(text::text_at(seq!['/'] + directory, i + 1, "/dists/"@));
            }
        }
        law_packages_are_immutable(above, name);
        law_leading_slashes_keep_the_policy(above + name);
    } else {
        assert(path.len() > 0 ==> path[0] == if directory.len() > 0 {
            directory[0]
        } else {
            name[0]
        });
        text::lemma_stripped(path, '/', 0);
        assert(path.skip(0) == path);
        assert forall|j: int| directory.len() <= j < path.len() implies path[j] != '/' by {
            assert(path[j] == name[j - directory.len()]);
        }
        text::lemma_after_last(path, '/', directory.len() as int);
        assert(path.skip(directory.len() as int) == name);
        if text::has_text(seq!['/'] + path, "/dists/"@) {
            lemma_dists_is_in_the_directory(directory, name);
        }
    }
}

/// Where a path leads through `dists/`, its directory does.
proof fn lemma_dists_is_in_the_directory(directory: Seq<char>, name: Seq<char>)
    requires
        !name.contains('/'),
        text::has_text(seq!['/'] + (directory + name), "/dists/"@),
    ensures
        text::has_text(seq!['/'] + directory, "/dists/"@),
{
    reveal_strlit("/dists/");
    let pattern = "/dists/"@;
    let rooted = seq!['/'] + (directory + name);
    let above = seq!['/'] + directory;
    let i = choose|i: int|
        0 <= i <= rooted.len() - pattern.len() && #[trigger] text::text_at(rooted, i, pattern);
    let last = i + pattern.len() - 1;
    assert(rooted.subrange(i, i + pattern.len())[pattern.len() - 1] == '/');
    assert(rooted[last] == '/');
    if last >= above.len() {
        assert(rooted[last] == name[last - above.len()]);
        assert(false);
    }
    assert(above.subrange(i, i + pattern.len()) =~= rooted.subrange(i, i + pattern.len()));
    assert(text::text_at(above, i, pattern));
}

/// The slashes at the start of a path do not change its cache policy.
pub proof fn law_leading_slashes_keep_the_policy(path: Seq<char>)
    ensures
        cache::cache_policy(seq!['/'] + path) == cache::cache_policy(path),
{
    assert((seq!['/'] + path).skip(1) == path);
}

/// The directory `dists` is the first one of a path, or one of those behind it.
proof fn lemma_dists_behind_the_first(a: Seq<char>, b: Seq<char>)
    requires
        !a.contains('/'),
    ensures
        text::has_text(seq!['/'] + (a + seq!['/'] + b), "/dists/"@) <==> a == "dists"@
            || text::has_text(seq!['/'] + b, "/dists/"@),
{
    reveal_strlit("/dists/");
    reveal_strlit("dists");
    let pattern = "/dists/"@;
    let whole = seq!['/'] + (a + seq!['/'] + b);
    let rest = seq!['/'] + b;
    let k = a.len() as int + 1;
    assert(whole.skip(k) == rest);
    assert forall|j: int| 1 <= j < k implies whole[j] != '/' by {
        assert(whole[j] == a[j - 1]);
        assert(a.contains(a[j - 1]));
    }
    if text::has_text(whole, pattern) {
        let i = choose|i: int|
            0 <= i <= whole.len() - pattern.len() && #[trigger] text::text_at(whole, i, pattern);
        let found = whole.subrange(i, i + 7);
        assert(found == pattern);
        assert(found[0] == whole[i] && found[6] == whole[i + 6]);
        assert(pattern[0] == '/' && pattern[6] == '/');
        if i == 0 {
            assert(k <= 6);
            assert forall|j: int| 1 <= j < 6 implies whole[j] == "dists"@[j - 1] by {
                assert(found[j] == whole[j]);
            }
            if k < 6 {
                assert(whole[k] == '/');
                assert(false);
            }
            assert(a =~= "dists"@) by {
                assert forall|j: int| 0 <= j < 5 implies a[j] == "dists"@[j] by {
                    assert(whole[j + 1] == a[j]);
                }
            }
        } else {
            assert(i >= k);
            assert(rest.subrange(i - k, i - k + 7) =~= found);
            assert(text::text_at(rest, i - k, pattern));
        }
    }
    if a == "dists"@ {
        assert(whole.subrange(0, 7) =~= pattern);
        assert(text::text_at(whole, 0, pattern));
    }
    if text::has_text(rest, pattern) {
        let i = choose|i: int|
            0 <= i <= rest.len() - pattern.len() && #[trigger] text::text_at(rest, i, pattern);
        assert(whole.subrange(i + k, i + k + 7) =~= rest.subrange(i, i + 7));
        assert(text::text_at(whole, i + k, pattern));
    }
}

/// A path leads through `dists/` where one of its directories has that name.
proof fn lemma_dists_is_a_directory(path: Seq<char>)
    ensures
        text::has_text(seq!['/'] + path, "/dists/"@) <==> exists|i: int|
            0 <= i < text::split(path, '/').len() - 1 && #[trigger] text::split(path, '/')[i]
                == "dists"@,
    decreases path.len(),
{
    let parts = text::split(path, '/');
    let k = text::first_index(path, '/');
    text::lemma_first_index_bounds(path, '/');
    let a = path.take(k);
    assert(!a.contains('/')) by {
        assert forall|j: int| 0 <= j < a.len() implies a[j] != '/' by {
            assert(a[j] == path[j]);
        }
    }
    if k < path.len() {
        let b = path.skip(k + 1);
        let rest = text::split(b, '/');
        assert(path == a + seq!['/'] + b);
        text::law_split(a, '/', b);
        lemma_dists_behind_the_first(a, b);
        lemma_dists_is_a_directory(b);
        text::law_pieces_hold_no_separator(b, '/');
        if a == "dists"@ {
            assert(parts[0] == "dists"@);
        }
        if exists|i: int| 0 <= i < rest.len() - 1 && #[trigger] rest[i] == "dists"@ {
            let i = choose|i: int| 0 <= i < rest.len() - 1 && #[trigger] rest[i] == "dists"@;
            assert(parts[i + 1] == "dists"@);
        }
        if exists|i: int| 0 <= i < parts.len() - 1 && #[trigger] parts[i] == "dists"@ {
            let i = choose|i: int| 0 <= i < parts.len() - 1 && #[trigger] parts[i] == "dists"@;
            if i > 0 {
                assert(rest[i - 1] == "dists"@);
            }
        }
    } else {
        assert(a == path);
        text::law_split(path, '/', Seq::empty());
        if text::has_text(seq!['/'] + path, "/dists/"@) {
            reveal_strlit("/dists/");
            let whole = seq!['/'] + path;
            let i = choose|i: int|
                0 <= i <= whole.len() - "/dists/"@.len() && #[trigger] text::text_at(
                    whole,
                    i,
                    "/dists/"@,
                );
            assert(whole.subrange(i, i + 7)[6] == '/');
            assert(whole[i + 6] == path[i + 5]);
        }
    }
}

/// The names in a path decide its cache policy. It is revalidated where a directory
/// in it is named `dists`, or where the last name is `Packages`, `Packages.gz` or
/// `Packages.xz`; everything else is kept for a year.
pub proof fn law_policy_follows_the_names(path: Seq<char>)
    ensures
        ({
            let names = text::split(path, '/');
            let is_index = (exists|i: int|
                0 <= i < names.len() - 1 && #[trigger] names[i] == "dists"@) || names.last()
                == "Packages"@ || names.last() == "Packages.gz"@ || names.last() == "Packages.xz"@;
            &&& is_index ==> cache::cache_policy(path) == "no-cache"@
            &&& !is_index ==> cache::cache_policy(path) == "public, max-age=31536000, immutable"@
        }),
    decreases path.len(),
{
    let names = text::split(path, '/');
    if path.len() > 0 && path[0] == '/' {
        let rest = path.skip(1);
        let below = text::split(rest, '/');
        assert(path == Seq::<char>::empty() + seq!['/'] + rest);
        text::law_split(Seq::empty(), '/', rest);
        text::law_pieces_hold_no_separator(rest, '/');
        law_policy_follows_the_names(rest);
        assert(path == seq!['/'] + rest);
        law_leading_slashes_keep_the_policy(rest);
        reveal_strlit("dists");
        assert(names[0].len() == 0);
        if exists|i: int| 0 <= i < names.len() - 1 && #[trigger] names[i] == "dists"@ {
            let i = choose|i: int| 0 <= i < names.len() - 1 && #[trigger] names[i] == "dists"@;
            assert(below[i - 1] == "dists"@);
        }
        if exists|i: int| 0 <= i < below.len() - 1 && #[trigger] below[i] == "dists"@ {
            let i = choose|i: int| 0 <= i < below.len() - 1 && #[trigger] below[i] == "dists"@;
            assert(names[i + 1] == "dists"@);
        }
        assert(names.last() == below.last());
    } else {
        text::lemma_stripped(path, '/', 0);
        assert(path.skip(0) == path);
        lemma_dists_is_a_directory(path);
        text::law_last_piece(path, '/');
    }
}

/// The query of a request target does not change the path it asks for.
pub proof fn law_query_is_ignored(target: Seq<char>, query: Seq<char>)
    requires
        !target.contains('?'),
    ensures
        path::decoded_target(target + seq!['?'] + query) == path::decoded_target(target),
{
    let whole = target + seq!['?'] + query;
    text::lemma_first_index(whole, '?', target.len() as int);
    text::lemma_first_index(target, '?', target.len() as int);
    assert(whole.take(target.len() as int) == target);
    assert(target.take(target.len() as int) == target);
}

/// The case of a header name does not matter.
pub proof fn law_header_names_ignore_case(
    headers: Seq<(Seq<char>, Seq<u8>)>,
    name: Seq<char>,
    other: Seq<char>,
)
    requires
        text::same_ignoring_case(name, other),
    ensures
        header::value_text(headers, name) == header::value_text(headers, other),
{
    lemma_first_value_ignores_case(headers, name, other);
}

proof fn lemma_first_value_ignores_case(
    headers: Seq<(Seq<char>, Seq<u8>)>,
    name: Seq<char>,
    other: Seq<char>,
)
    requires
        text::same_ignoring_case(name, other),
    ensures
        header::first_value(headers, name) == header::first_value(headers, other),
    decreases headers.len(),
{
    if headers.len() > 0 {
        lemma_first_value_ignores_case(headers.skip(1), name, other);
    }
}

} // verus!
