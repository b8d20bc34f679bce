//! Request and response headers.

use crate::text;
use vstd::prelude::*;

verus! {

/// A header of a response.
#[derive(Debug, PartialEq, Eq)]
pub struct Header {
    pub field: String,
    pub value: String,
}

impl View for Header {
    type V = (Seq<char>, Seq<char>);

    open spec fn view(&self) -> (Seq<char>, Seq<char>) {
        (self.field@, self.value@)
    }
}

/// A header of a request, with the bytes of its value as they were received.
#[derive(Debug, PartialEq, Eq)]
pub struct RequestHeader {
    pub field: String,
    pub value: Vec<u8>,
}

impl View for RequestHeader {
    type V = (Seq<char>, Seq<u8>);

    open spec fn view(&self) -> (Seq<char>, Seq<u8>) {
        (self.field@, self.value@)
    }
}

/// The headers of a request, in the order of their arrival.
pub open spec fn received(headers: Seq<RequestHeader>) -> Seq<(Seq<char>, Seq<u8>)> {
    headers.map_values(|h: RequestHeader| h@)
}

/// Whether a field and a value can stand in a header.
pub open spec fn sendable(field: Seq<char>, value: Seq<char>) -> bool {
    vstd::utf8::is_ascii_chars(field) && vstd::utf8::is_ascii_chars(value)
}

/// The text that bytes spell in UTF-8, where they do.
pub open spec fn text_of(bytes: Seq<u8>) -> Option<Seq<char>> {
    if vstd::utf8::valid_utf8(bytes) {
        Some(vstd::utf8::decode_utf8(bytes))
    } else {
        None
    }
}

/// The value of the first header with the given name, whatever its case.
pub open spec fn first_value(headers: Seq<(Seq<char>, Seq<u8>)>, name: Seq<char>) -> Option<Seq<u8>>
    decreases headers.len(),
{
    if headers.len() == 0 {
        None
    } else if text::same_ignoring_case(headers[0].0, name) {
        Some(headers[0].1)
    } else {
        first_value(headers.skip(1), name)
    }
}

/// The value of the first header with the given name, as text. `None` where
/// there is no such header or its value is not UTF-8.
pub open spec fn value_text(headers: Seq<(Seq<char>, Seq<u8>)>, name: Seq<char>) -> Option<Seq<char>> {
    match first_value(headers, name) {
        Some(bytes) => text_of(bytes),
        None => None,
    }
}

/// Calls `tiny_http::Header::from_bytes`, and hands back the field and the value
/// of the header it builds. It accepts exactly the texts that are ASCII, and
/// changes neither.
#[verifier::external_body]
fn built_header(field: &str, value: &str) -> (r: Option<Header>)
    ensures
        r is Some <==> sendable(field@, value@),
        r matches Some(h) ==> h@ == (field@, value@),
{
    match tiny_http::Header::from_bytes(field.as_bytes(), value.as_bytes()) {
        Ok(h) => Some(
            Header { field: h.field.as_str().to_string(), value: h.value.to_string() },
        ),
        Err(()) => None,
    }
}

/// Calls `std::str::from_utf8`: the text of the bytes where they are valid
/// UTF-8, and nothing otherwise.
#[verifier::external_body]
pub(crate) fn utf8_text(bytes: &[u8]) -> (r: Option<String>)
    ensures
        text::string_text(r) == text_of(bytes@),
{
    match std::str::from_utf8(bytes) {
        Ok(s) => Some(s.to_string()),
        Err(_) => None,
    }
}

/// A header with the given field and value.
pub fn hdr(field: &str, value: &str) -> (r: Header)
    requires
        sendable(field@, value@),
    ensures
        r@ == (field@, value@),
{
    built_header(field, value).unwrap()
}

/// The value of the first header with the given name, whatever its case, as
/// text. `None` where there is no such header or its value is not UTF-8.
pub fn header_value(headers: &Vec<RequestHeader>, name: &str) -> (r: Option<String>)
    ensures
        text::string_text(r) == value_text(received(headers@), name@),
{
    let wanted: Vec<char> = text::chars_of(name);
    let ghost all = received(headers@);
    assert(all.skip(0) == all);
    let mut i: usize = 0;
    while i < headers.len()
        invariant
            i <= headers@.len(),
            wanted@ == name@,
            all == received(headers@),
            first_value(all, name@) == first_value(all.skip(i as int), name@),
        decreases headers@.len() - i,
    {
        let field: Vec<char> = text::chars_of(headers[i].field.as_str());
        assert(all.skip(i as int)[0] == headers@[i as int]@);
        if text::equal_ignoring_case(field.as_slice(), wanted.as_slice()) {
            return utf8_text(headers[i].value.as_slice());
        }
        assert(all.skip(i as int).skip(1) == all.skip(i + 1));
        i = i + 1;
    }
    None
}

/// A header is the pair of its field and its value.
pub proof fn law_header_views(sent: Header, headers: Seq<RequestHeader>)
    ensures
        sent@.0 == sent.field@,
        sent@.1 == sent.value@,
        received(headers).len() == headers.len(),
        forall|i: int|
            0 <= i < headers.len() ==> (#[trigger] received(headers)[i]).0 == headers[i].field@
                && received(headers)[i].1 == headers[i].value@,
{
}

/// A header can hold ASCII texts, and no others.
pub proof fn law_sendable_texts(field: Seq<char>, value: Seq<char>)
    ensures
        sendable(field, value) <==> (forall|i: int|
            0 <= i < field.len() ==> '\0' <= #[trigger] field[i] <= '\u{7f}') && (forall|i: int|
            0 <= i < value.len() ==> '\0' <= #[trigger] value[i] <= '\u{7f}'),
{
}

/// Bytes spell the text whose UTF-8 they are, and no other bytes spell a text.
pub proof fn law_text_of_bytes(s: Seq<char>, bytes: Seq<u8>)
    ensures
        text_of(bytes) == Some(s) <==> bytes == vstd::utf8::encode_utf8(s),
        text_of(bytes) is Some <==> exists|t: Seq<char>| bytes == #[trigger] vstd::utf8::encode_utf8(t),
{
    vstd::utf8::encode_utf8_valid_utf8(s);
    vstd::utf8::encode_utf8_decode_utf8(s);
    if vstd::utf8::valid_utf8(bytes) {
        vstd::utf8::decode_utf8_encode_utf8(bytes);
        assert(bytes == vstd::utf8::encode_utf8(vstd::utf8::decode_utf8(bytes)));
    }
    if exists|t: Seq<char>| bytes == #[trigger] vstd::utf8::encode_utf8(t) {
        let t = choose|t: Seq<char>| bytes == #[trigger] vstd::utf8::encode_utf8(t);
        vstd::utf8::encode_utf8_valid_utf8(t);
    }
}

/// The first header of a name decides, whatever follows it.
pub proof fn law_first_header_decides(
    before: Seq<(Seq<char>, Seq<u8>)>,
    field: Seq<char>,
    bytes: Seq<u8>,
    after: Seq<(Seq<char>, Seq<u8>)>,
    name: Seq<char>,
)
    requires
        forall|i: int|
            0 <= i < before.len() ==> !text::same_ignoring_case((#[trigger] before[i]).0, name),
    ensures
        value_text(before, name) is None,
        text::same_ignoring_case(field, name) ==> value_text(
            before + seq![(field, bytes)] + after,
            name,
        ) == text_of(bytes),
    decreases before.len(),
{
    let whole = before + seq![(field, bytes)] + after;
    if before.len() > 0 {
        let rest = before.skip(1);
        assert forall|i: int| 0 <= i < rest.len() implies !text::same_ignoring_case(
            (#[trigger] rest[i]).0,
            name,
        ) by {
            assert(rest[i] == before[i + 1]);
        }
        law_first_header_decides(rest, field, bytes, after, name);
        assert(whole[0] == before[0]);
        assert(whole.skip(1) == rest + seq![(field, bytes)] + after);
    } else {
        assert(whole[0] == (field, bytes));
    }
}

} // verus!
