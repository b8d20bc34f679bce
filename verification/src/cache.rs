//! What a client may keep, and how it finds out whether its copy is current.

use crate::date;
use crate::header;
use crate::header::RequestHeader;
use crate::number;
use crate::text;
use vstd::prelude::*;
use vstd::slice::slice_subrange;

verus! {

/// Whether a path names an index of a repository, which changes in place: an
/// apt file below a `dists/` directory, or a `Packages` index.
pub open spec fn is_index(path: Seq<char>) -> bool {
    let p = text::stripped(path, '/');
    let name = text::after_last(p, '/');
    ||| text::has_text(seq!['/'] + p, "/dists/"@)
    ||| name == "Packages"@
    ||| name == "Packages.gz"@
    ||| name == "Packages.xz"@
}

/// The cache policy for a path: an index is revalidated every time, and a
/// package, which never changes once it is published, is kept for a year.
pub open spec fn cache_policy(path: Seq<char>) -> Seq<char> {
    if is_index(path) {
        "no-cache"@
    } else {
        "public, max-age=31536000, immutable"@
    }
}

/// The entity tag of a file: its modification time and its size, in
/// hexadecimal, in double quotes.
pub open spec fn entity_tag(mtime_secs: nat, size: nat) -> Seq<char> {
    seq!['"'] + number::hexadecimal(mtime_secs) + seq!['-'] + number::hexadecimal(size) + seq!['"']
}

/// `tag` without the `W/` marks it starts with.
pub open spec fn strong_part(tag: Seq<char>) -> Seq<char>
    decreases tag.len(),
{
    if tag.len() >= 2 && tag[0] == 'W' && tag[1] == '/' {
        strong_part(tag.skip(2))
    } else {
        tag
    }
}

/// Whether one entry of an `If-None-Match` list is the entity tag `tag`, weak or
/// not.
pub open spec fn names_tag(entry: Seq<char>, tag: Seq<char>) -> bool {
    strong_part(text::trimmed(entry)) == tag
}

/// Whether a list of entity tags, separated by commas, holds `tag`.
pub open spec fn lists_tag(list: Seq<char>, tag: Seq<char>) -> bool {
    exists|i: int|
        0 <= i < text::split(list, ',').len() && #[trigger] names_tag(
            text::split(list, ',')[i],
            tag,
        )
}

/// Whether an `If-None-Match` header matches a file with the entity tag `tag`: it
/// is a lone `*`, or it lists the tag.
pub open spec fn none_match_hits(value: Seq<char>, tag: Seq<char>) -> bool {
    text::trimmed(value) == seq!['*'] || lists_tag(value, tag)
}

/// Whether the copy of a client is current. `If-None-Match` decides alone where
/// it is there; otherwise the file must not be younger than the date of
/// `If-Modified-Since`.
pub open spec fn current(
    none_match: Option<Seq<char>>,
    since: Option<u64>,
    tag: Seq<char>,
    mtime_secs: u64,
) -> bool {
    match none_match {
        Some(value) => none_match_hits(value, tag),
        None => match since {
            Some(secs) => mtime_secs <= secs,
            None => false,
        },
    }
}

/// The seconds in the `If-Modified-Since` header of a request.
pub open spec fn since_seconds(headers: Seq<(Seq<char>, Seq<u8>)>) -> Option<u64> {
    match header::value_text(headers, "If-Modified-Since"@) {
        Some(value) => date::http_date_seconds(value),
        None => None,
    }
}

/// Whether the headers of a request say that the client has a current copy of
/// the file.
pub open spec fn client_is_current(
    headers: Seq<(Seq<char>, Seq<u8>)>,
    mtime_secs: u64,
    size: u64,
) -> bool {
    current(
        header::value_text(headers, "If-None-Match"@),
        since_seconds(headers),
        entity_tag(mtime_secs as nat, size as nat),
        mtime_secs,
    )
}

/// The cache policy for a path below the served directory.
pub fn cache_control(rel: &str) -> (r: &'static str)
    ensures
        r@ == cache_policy(rel@),
{
    let chars: Vec<char> = text::chars_of(rel);
    let p: &[char] = text::strip(chars.as_slice(), '/');
    let name: &[char] = text::last_piece(p, '/');
    let mut rooted: Vec<char> = Vec::new();
    rooted.push('/');
    rooted.extend_from_slice(p);
    assert(rooted@ =~= seq!['/'] + p@);
    let dists: Vec<char> = text::chars_of("/dists/");
    let plain: Vec<char> = text::chars_of("Packages");
    let gz: Vec<char> = text::chars_of("Packages.gz");
    let xz: Vec<char> = text::chars_of("Packages.xz");
    if text::contains(rooted.as_slice(), dists.as_slice()) || text::same(name, plain.as_slice())
        || text::same(name, gz.as_slice()) || text::same(name, xz.as_slice()) {
        "no-cache"
    } else {
        "public, max-age=31536000, immutable"
    }
}

/// The entity tag of a file.
pub fn etag(mtime_secs: u64, size: u64) -> (r: String)
    ensures
        r@ == entity_tag(mtime_secs as nat, size as nat),
{
    proof {
        reveal_strlit("\"");
        reveal_strlit("-");
    }
    let mut r = String::from_str("\"");
    r.append(number::write_hexadecimal(mtime_secs).as_str());
    r.append("-");
    r.append(number::write_hexadecimal(size).as_str());
    r.append("\"");
    assert(r@ =~= entity_tag(mtime_secs as nat, size as nat));
    r
}

fn strip_weak(tag: &[char]) -> (r: &[char])
    ensures
        r@ == strong_part(tag@),
{
    let mut start: usize = 0;
    assert(tag@.skip(0) == tag@);
    while tag.len() - start >= 2 && tag[start] == 'W' && tag[start + 1] == '/'
        invariant
            start <= tag@.len(),
            strong_part(tag@) == strong_part(tag@.skip(start as int)),
        decreases tag@.len() - start,
    {
        assert(tag@.skip(start as int).skip(2) == tag@.skip(start + 2));
        start = start + 2;
    }
    slice_subrange(tag, start, tag.len())
}

fn tag_listed(list: &[char], tag: &[char]) -> (r: bool)
    ensures
        r == lists_tag(list@, tag@),
{
    let mut start: usize = 0;
    assert(list@.skip(0) == list@);
    loop
        invariant
            start <= list@.len(),
            lists_tag(list@, tag@) == lists_tag(list@.skip(start as int), tag@),
        decreases list@.len() - start,
    {
        let rest: &[char] = slice_subrange(list, start, list.len());
        let comma: usize = text::find_first(rest, ',');
        let entry: &[char] = slice_subrange(rest, 0, comma);
        let hit: bool = text::same(strip_weak(text::trim(entry)), tag);
        proof {
            lemma_lists_tag(rest@, tag@);
            assert(rest@ == list@.skip(start as int));
            assert(entry@ == text::before_first(rest@, ','));
        }
        if hit {
            return true;
        }
        if comma == rest.len() {
            return false;
        }
        assert(rest@.skip(comma + 1) == list@.skip(start + comma + 1));
        start = start + comma + 1;
    }
}

/// A list of tags is its first entry, and the list behind the comma.
proof fn lemma_lists_tag(list: Seq<char>, tag: Seq<char>)
    requires
        0 <= text::first_index(list, ',') <= list.len(),
    ensures
        lists_tag(list, tag) <==> names_tag(text::before_first(list, ','), tag) || (
        text::first_index(list, ',') < list.len() && lists_tag(
            list.skip(text::first_index(list, ',') + 1),
            tag,
        )),
{
    let k = text::first_index(list, ',');
    let all = text::split(list, ',');
    if k < list.len() {
        let rest = text::split(list.skip(k + 1), ',');
        assert(all == seq![list.take(k)] + rest);
        assert(all[0] == list.take(k));
        assert forall|i: int| 0 <= i < rest.len() implies all[i + 1] == rest[i] by {}
        if lists_tag(list, tag) {
            let i = choose|i: int| 0 <= i < all.len() && #[trigger] names_tag(all[i], tag);
            if i > 0 {
                assert(names_tag(rest[i - 1], tag));
            }
        }
        if names_tag(text::before_first(list, ','), tag) {
            assert(names_tag(all[0], tag));
        }
        if lists_tag(list.skip(k + 1), tag) {
            let i = choose|i: int| 0 <= i < rest.len() && #[trigger] names_tag(rest[i], tag);
            assert(names_tag(all[i + 1], tag));
        }
    } else {
        assert(list.take(k) == list);
        assert(all == seq![list]);
        assert(all[0] == list);
        if names_tag(list, tag) {
            assert(names_tag(all[0], tag));
        }
    }
}

/// Whether the copy of a client is current, given its `If-None-Match` header and
/// the seconds in its `If-Modified-Since` header.
pub fn is_current(
    none_match: Option<&str>,
    since: Option<u64>,
    tag: &str,
    mtime_secs: u64,
) -> (r: bool)
    ensures
        r == current(text::slice_text(none_match), since, tag@, mtime_secs),
{
    match none_match {
        Some(value) => {
            let chars: Vec<char> = text::chars_of(value);
            let tag_chars: Vec<char> = text::chars_of(tag);
            let star: Vec<char> = text::chars_of("*");
            proof {
                reveal_strlit("*");
                assert("*"@ =~= seq!['*']);
            }
            text::same(text::trim(chars.as_slice()), star.as_slice()) || tag_listed(
                chars.as_slice(),
                tag_chars.as_slice(),
            )
        },
        None => match since {
            Some(secs) => mtime_secs <= secs,
            None => false,
        },
    }
}

/// Whether the headers of a request carry no `If-None-Match` and, as
/// `If-Modified-Since`, the date that is sent as `Last-Modified` for the second
/// `secs`.
pub open spec fn asks_since(headers: Seq<(Seq<char>, Seq<u8>)>, secs: int) -> bool {
    &&& header::value_text(headers, "If-None-Match"@) is None
    &&& header::value_text(headers, "If-Modified-Since"@) matches Some(value)
    &&& text::trimmed(value) == date::imf_fixdate(secs)
}

/// Whether the headers of a request say that the client has a current copy of
/// a file.
pub fn not_modified(headers: &Vec<RequestHeader>, mtime_secs: u64, size: u64) -> (r: bool)
    ensures
        r == client_is_current(header::received(headers@), mtime_secs, size),
{
    let tag = etag(mtime_secs, size);
    match header::header_value(headers, "If-None-Match") {
        Some(value) => is_current(Some(value.as_str()), None, tag.as_str(), mtime_secs),
        None => {
            let since: Option<u64> = match header::header_value(headers, "If-Modified-Since") {
                Some(value) => date::parse_http_date(value.as_str()),
                None => None,
            };
            is_current(None, since, tag.as_str(), mtime_secs)
        },
    }
}

/// An entity tag is the modification time, a dash and the size, in hexadecimal and
/// between double quotes.
pub proof fn law_entity_tags(mtime_secs: nat, size: nat)
    ensures
        ({
            let tag = entity_tag(mtime_secs, size);
            let time = number::hexadecimal(mtime_secs);
            let n = tag.len() as int;
            &&& tag[0] == '"' && tag[n - 1] == '"'
            &&& tag.subrange(1, n - 1) == time + seq!['-'] + number::hexadecimal(size)
        }),
{
}

/// Of an entity tag, every `W/` in front counts for nothing, and all else counts.
pub proof fn law_weak_marks_do_not_count(tag: Seq<char>)
    ensures
        strong_part(seq!['W', '/'] + tag) == strong_part(tag),
        !seq!['W', '/'].is_prefix_of(tag) ==> strong_part(tag) == tag,
{
    assert((seq!['W', '/'] + tag).skip(2) == tag);
    if tag.len() >= 2 && tag[0] == 'W' && tag[1] == '/' {
        assert(seq!['W', '/'] =~= tag.subrange(0, 2));
    }
}

/// A list without a comma is one entry, which is the tag, weak or not, with or
/// without white space around it.
pub proof fn law_single_entry_lists(entry: Seq<char>, tag: Seq<char>)
    requires
        !entry.contains(','),
    ensures
        lists_tag(entry, tag) <==> strong_part(text::trimmed(entry)) == tag,
{
    text::law_split(entry, ',', Seq::empty());
    assert(text::split(entry, ',')[0] == entry);
    if strong_part(text::trimmed(entry)) == tag {
        assert(names_tag(text::split(entry, ',')[0], tag));
    }
}

/// A list with a comma holds what stands in the list before it and in the list
/// behind it.
pub proof fn law_lists_are_joined_by_commas(a: Seq<char>, b: Seq<char>, tag: Seq<char>)
    ensures
        lists_tag(a + seq![','] + b, tag) <==> lists_tag(a, tag) || lists_tag(b, tag),
    decreases a.len(),
{
    let whole = a + seq![','] + b;
    let k = text::first_index(a, ',');
    text::lemma_first_index_bounds(a, ',');
    text::lemma_first_index_bounds(whole, ',');
    let first = a.take(k);
    assert(!first.contains(',')) by {
        assert forall|j: int| 0 <= j < first.len() implies first[j] != ',' by {
            assert(first[j] == a[j]);
        }
    }
    lemma_lists_tag(a, tag);
    lemma_lists_tag(whole, tag);
    if k < a.len() {
        let rest = a.skip(k + 1);
        assert(whole == first + seq![','] + (rest + seq![','] + b));
        text::law_before_first(first, ',', rest + seq![','] + b);
        assert(a == first + seq![','] + rest);
        text::law_before_first(first, ',', rest);
        assert(whole.skip(k + 1) == rest + seq![','] + b);
        law_lists_are_joined_by_commas(rest, b, tag);
    } else {
        assert(first == a);
        text::law_before_first(a, ',', b);
        assert(whole.skip(k + 1) == b);
    }
}

/// An `If-None-Match` header matches every file where it is `*`, and otherwise the
/// files whose tag it lists.
pub proof fn law_none_match(value: Seq<char>, tag: Seq<char>)
    ensures
        text::trimmed(value) == "*"@ ==> none_match_hits(value, tag),
        text::trimmed(value) != "*"@ ==> (none_match_hits(value, tag) <==> lists_tag(value, tag)),
{
    reveal_strlit("*");
    assert("*"@ =~= seq!['*']);
}

/// `If-None-Match` decides alone where it is there, whatever `If-Modified-Since`
/// holds.
pub proof fn law_none_match_decides_alone(
    headers: Seq<(Seq<char>, Seq<u8>)>,
    value: Seq<char>,
    mtime_secs: u64,
    size: u64,
)
    requires
        header::value_text(headers, "If-None-Match"@) == Some(value),
    ensures
        client_is_current(headers, mtime_secs, size) <==> none_match_hits(
            value,
            entity_tag(mtime_secs as nat, size as nat),
        ),
{
}

/// Without `If-None-Match`, a copy is current where `If-Modified-Since` holds a date
/// at which the file was there as it is, and nowhere else.
pub proof fn law_date_decides_without_a_tag(
    headers: Seq<(Seq<char>, Seq<u8>)>,
    mtime_secs: u64,
    size: u64,
)
    requires
        header::value_text(headers, "If-None-Match"@) is None,
    ensures
        match header::value_text(headers, "If-Modified-Since"@) {
            Some(value) => client_is_current(headers, mtime_secs, size) <==> (
            date::http_date_seconds(value) matches Some(secs) && mtime_secs <= secs),
            None => !client_is_current(headers, mtime_secs, size),
        },
{
}

/// The tags that a client names decide where it names any, and the date that it
/// gives where it names none.
pub proof fn law_validators_decide(
    none_match: Seq<char>,
    since: Option<u64>,
    tag: Seq<char>,
    mtime_secs: u64,
)
    ensures
        current(Some(none_match), since, tag, mtime_secs) <==> none_match_hits(none_match, tag),
        current(None, since, tag, mtime_secs) <==> since is Some && mtime_secs <= since->0,
{
}

} // verus!
