//! Request targets and the files they resolve to.
//!
//! A resolved path is the sequence of its components, each as the bytes the
//! file system uses; the root directory is the component `/`.

use crate::header;
use crate::text;
use mime_guess::MimeGuess;
use percent_encoding::percent_decode_str;
use vstd::prelude::*;
use vstd::slice::slice_subrange;

verus! {

/// The text of bytes in UTF-8, with what is no UTF-8 replaced: what
/// `percent_encoding` makes of the bytes it decoded.
pub uninterp spec fn lossy_text(bytes: Seq<u8>) -> Seq<char>;

/// The essence of the first media type that `mime_guess` knows for a file
/// extension.
pub uninterp spec fn guessed_type(extension: Seq<char>) -> Option<Seq<char>>;

/// The value of a hexadecimal digit, in either case.
pub open spec fn hex_value(b: u8) -> Option<u8> {
    if 0x30 <= b <= 0x39 {
        Some((b - 0x30) as u8)
    } else if 0x41 <= b <= 0x46 {
        Some((b - 0x41 + 10) as u8)
    } else if 0x61 <= b <= 0x66 {
        Some((b - 0x61 + 10) as u8)
    } else {
        None
    }
}

/// The bytes with each `%` and the two hexadecimal digits behind it replaced by
/// the byte they stand for. A `%` without two such digits stays.
pub open spec fn percent_decoded(bytes: Seq<u8>) -> Seq<u8>
    decreases bytes.len(),
{
    if bytes.len() == 0 {
        Seq::empty()
    } else if bytes.len() >= 3 && bytes[0] == 0x25 && hex_value(bytes[1]) is Some && hex_value(
        bytes[2],
    ) is Some {
        seq![(hex_value(bytes[1])->0 * 16 + hex_value(bytes[2])->0) as u8] + percent_decoded(
            bytes.skip(3),
        )
    } else {
        seq![bytes[0]] + percent_decoded(bytes.skip(1))
    }
}

/// The path that a request target asks for: what stands before its query,
/// percent-decoded.
pub open spec fn decoded_target(target: Seq<char>) -> Seq<char> {
    lossy_text(percent_decoded(vstd::utf8::encode_utf8(text::before_first(target, '?'))))
}

/// The text that a request target spells before its query, percent-decoded;
/// `None` where the decoded bytes are no UTF-8.
pub open spec fn target_text(target: Seq<char>) -> Option<Seq<char>> {
    header::text_of(percent_decoded(vstd::utf8::encode_utf8(text::before_first(target, '?'))))
}

/// The components of a path.
pub open spec fn components(path: Seq<Vec<u8>>) -> Seq<Seq<u8>> {
    path.map_values(|c: Vec<u8>| c@)
}

/// The name of the file at a path: its last component, unless that is the root
/// or a reference to a directory.
pub open spec fn file_name(path: Seq<Seq<u8>>) -> Option<Seq<u8>> {
    if path.len() == 0 || path.last() == seq![0x2fu8] || path.last() == seq![0x2eu8] || path.last()
        == seq![0x2eu8, 0x2eu8] {
        None
    } else {
        Some(path.last())
    }
}

/// The file name under which a download is offered: that of the file, or `file`
/// where a header cannot hold it.
pub open spec fn offered_name(path: Seq<Seq<u8>>) -> Seq<char> {
    match file_name(path) {
        Some(name) => match header::text_of(name) {
            Some(s) => if vstd::utf8::is_ascii_chars(s) {
                s
            } else {
                "file"@
            },
            None => "file"@,
        },
        None => "file"@,
    }
}

/// The index of the last dot in a file name; -1 where there is none.
pub open spec fn last_dot(name: Seq<u8>) -> int
    decreases name.len(),
{
    if name.len() == 0 {
        -1
    } else if name.last() == 0x2e {
        name.len() - 1
    } else {
        last_dot(name.drop_last())
    }
}

/// The extension of a file name: what stands behind its last dot. A dot at the
/// start of the name does not count.
pub open spec fn extension(name: Seq<u8>) -> Option<Seq<u8>> {
    if last_dot(name) > 0 {
        Some(name.skip(last_dot(name) + 1))
    } else {
        None
    }
}

/// The extension of the file at a path, where it is text.
pub open spec fn extension_text(path: Seq<Seq<u8>>) -> Option<Seq<char>> {
    match file_name(path) {
        Some(name) => match extension(name) {
            Some(bytes) => header::text_of(bytes),
            None => None,
        },
        None => None,
    }
}

/// The media type that is announced for the file at a path.
pub open spec fn announced_type(path: Seq<Seq<u8>>) -> Option<Seq<char>> {
    match extension_text(path) {
        Some(s) => guessed_type(s),
        None => None,
    }
}

/// Calls `percent_encoding::percent_decode_str` and `decode_utf8_lossy` on its
/// result: the bytes of `s` are percent-decoded, and read as UTF-8. What
/// stands for bytes that are no UTF-8 is left to the name `lossy_text`.
#[verifier::external_body]
fn percent_decode(s: &str) -> (r: String)
    ensures
        r@ == lossy_text(percent_decoded(vstd::utf8::encode_utf8(s@))),
        vstd::utf8::valid_utf8(percent_decoded(vstd::utf8::encode_utf8(s@))) ==> r@
            == vstd::utf8::decode_utf8(percent_decoded(vstd::utf8::encode_utf8(s@))),
{
    percent_decode_str(s).decode_utf8_lossy().into_owned()
}

/// Calls `mime_guess::MimeGuess::from_ext`, and takes the essence of the first
/// type it offers. Every type it knows is ASCII.
#[verifier::external_body]
fn guess_type(extension: &str) -> (r: Option<String>)
    ensures
        text::string_text(r) == guessed_type(extension@),
        r matches Some(s) ==> vstd::utf8::is_ascii_chars(s@),
{
    match MimeGuess::from_ext(extension).first() {
        Some(m) => Some(m.essence_str().to_string()),
        None => None,
    }
}

/// The path that a request target asks for: what stands before its query,
/// percent-decoded. Where the decoded bytes are UTF-8, the path is their text.
pub fn decode_target(target: &str) -> (r: String)
    ensures
        r@ == decoded_target(target@),
        target_text(target@) matches Some(s) ==> r@ == s,
{
    let chars: Vec<char> = text::chars_of(target);
    let end: usize = text::find_first(chars.as_slice(), '?');
    assert(target@.subrange(0, end as int) == text::before_first(target@, '?'));
    percent_decode(target.substring_char(0, end))
}

/// Bytes without a `%` are decoded to themselves.
proof fn lemma_nothing_to_decode(bytes: Seq<u8>)
    requires
        !bytes.contains(0x25u8),
    ensures
        percent_decoded(bytes) == bytes,
    decreases bytes.len(),
{
    if bytes.len() > 0 {
        let rest = bytes.skip(1);
        assert(bytes[0] != 0x25u8);
        assert forall|i: int| 0 <= i < rest.len() implies rest[i] != 0x25u8 by {
            assert(rest[i] == bytes[i + 1]);
        }
        lemma_nothing_to_decode(rest);
        assert(seq![bytes[0]] + rest == bytes);
    }
}

/// The bytes of a character other than `%` hold no `%`.
proof fn lemma_scalar_bytes(c: char)
    requires
        c != '%',
    ensures
        !vstd::utf8::encode_scalar(c as u32).contains(0x25u8),
{
    let scalar = c as u32;
    vstd::utf8::char_is_scalar(c);
    assert(scalar <= 0x7f ==> (scalar & 0x7f) as u8 == scalar) by (bit_vector);
    assert(forall|x: u8| #[trigger] (0x80u8 | x) >= 0x80u8) by (bit_vector);
    assert(forall|x: u8| #[trigger] (0xc0u8 | x) >= 0x80u8) by (bit_vector);
    assert(forall|x: u8| #[trigger] (0xe0u8 | x) >= 0x80u8) by (bit_vector);
    assert(forall|x: u8| #[trigger] (0xf0u8 | x) >= 0x80u8) by (bit_vector);
}

/// The bytes of a text without a `%` hold no `%`.
proof fn lemma_text_bytes(s: Seq<char>)
    requires
        !s.contains('%'),
    ensures
        !vstd::utf8::encode_utf8(s).contains(0x25u8),
    decreases s.len(),
{
    if s.len() > 0 {
        let rest = s.drop_first();
        assert(s[0] != '%');
        assert forall|i: int| 0 <= i < rest.len() implies rest[i] != '%' by {
            assert(rest[i] == s[i + 1]);
        }
        lemma_scalar_bytes(s[0]);
        lemma_text_bytes(rest);
        let head = vstd::utf8::encode_scalar(s[0] as u32);
        let tail = vstd::utf8::encode_utf8(rest);
        assert forall|i: int| 0 <= i < (head + tail).len() implies (head + tail)[i] != 0x25u8 by {
            if i < head.len() {
                assert(head.contains(head[i]));
            } else {
                assert(tail.contains(tail[i - head.len()]));
            }
        }
    }
}

/// A request target without a `%` spells its own text, up to its query.
pub proof fn law_plain_target_is_kept(target: Seq<char>)
    requires
        !text::before_first(target, '?').contains('%'),
    ensures
        target_text(target) == Some(text::before_first(target, '?')),
{
    let s = text::before_first(target, '?');
    lemma_text_bytes(s);
    lemma_nothing_to_decode(vstd::utf8::encode_utf8(s));
    vstd::utf8::encode_utf8_valid_utf8(s);
    vstd::utf8::encode_utf8_decode_utf8(s);
}

fn same_bytes(a: &[u8], b: &[u8]) -> (r: bool)
    ensures
        r == (a@ == b@),
{
    if a.len() != b.len() {
        return false;
    }
    let mut i: usize = 0;
    while i < a.len()
        invariant
            i <= a@.len(),
            a@.len() == b@.len(),
            forall|j: int| 0 <= j < i ==> a@[j] == b@[j],
        decreases a@.len() - i,
    {
        if a[i] != b[i] {
            return false;
        }
        i = i + 1;
    }
    assert(a@ =~= b@);
    true
}

/// Whether a resolved path lies at or below the directory `root`.
pub fn is_within(root: &Vec<Vec<u8>>, path: &Vec<Vec<u8>>) -> (r: bool)
    ensures
        r == components(root@).is_prefix_of(components(path@)),
{
    let ghost a = components(root@);
    let ghost b = components(path@);
    if path.len() < root.len() {
        assert(a.len() > b.len());
        return false;
    }
    let mut i: usize = 0;
    while i < root.len()
        invariant
            i <= root@.len() <= path@.len(),
            a == components(root@),
            b == components(path@),
            forall|j: int| 0 <= j < i ==> a[j] == b[j],
        decreases root@.len() - i,
    {
        if !same_bytes(root[i].as_slice(), path[i].as_slice()) {
            proof {
                assert(a[i as int] != b[i as int]);
                if a.is_prefix_of(b) {
                    assert(b.subrange(0, a.len() as int)[i as int] == a[i as int]);
                }
            }
            return false;
        }
        assert(a[i as int] == b[i as int]);
        i = i + 1;
    }
    assert(a =~= b.subrange(0, a.len() as int));
    true
}

fn name_of(path: &Vec<Vec<u8>>) -> (r: Option<&Vec<u8>>)
    ensures
        match r {
            Some(name) => file_name(components(path@)) == Some(name@),
            None => file_name(components(path@)) is None,
        },
{
    if path.len() == 0 {
        return None;
    }
    let last: &Vec<u8> = &path[path.len() - 1];
    assert(components(path@).last() == last@);
    if last.len() == 1 && (last[0] == 0x2f || last[0] == 0x2e) {
        assert(last@ =~= seq![last@[0]]);
        return None;
    }
    if last.len() == 2 && last[0] == 0x2e && last[1] == 0x2e {
        assert(last@ =~= seq![0x2eu8, 0x2eu8]);
        return None;
    }
    Some(last)
}

/// The file name under which the file at a path is offered for download: its
/// own where a header can hold it, and `file` otherwise.
pub fn download_name(path: &Vec<Vec<u8>>) -> (r: String)
    ensures
        r@ == offered_name(components(path@)),
        vstd::utf8::is_ascii_chars(r@),
{
    proof {
        reveal_strlit("file");
    }
    match name_of(path) {
        Some(name) => match header::utf8_text(name.as_slice()) {
            Some(s) => {
                if s.is_ascii() {
                    s
                } else {
                    String::from_str("file")
                }
            },
            None => String::from_str("file"),
        },
        None => String::from_str("file"),
    }
}

/// The extension of the file at a path, where it has one that is text.
pub fn file_extension(path: &Vec<Vec<u8>>) -> (r: Option<String>)
    ensures
        text::string_text(r) == extension_text(components(path@)),
{
    let name: &Vec<u8> = match name_of(path) {
        Some(name) => name,
        None => {
            return None;
        },
    };
    let mut i: usize = name.len();
    assert(name@.take(name@.len() as int) == name@);
    while i > 0 && name[i - 1] != 0x2e
        invariant
            i <= name@.len(),
            last_dot(name@) == last_dot(name@.take(i as int)),
        decreases i,
    {
        assert(name@.take(i as int).drop_last() == name@.take(i - 1));
        i = i - 1;
    }
    assert(last_dot(name@) == i - 1);
    if i <= 1 {
        return None;
    }
    let bytes: &[u8] = slice_subrange(name.as_slice(), i, name.len());
    assert(bytes@ == name@.skip(i as int));
    header::utf8_text(bytes)
}

/// The media type that is announced for the file at a path; `None` where none
/// is known for its extension.
pub fn content_type(path: &Vec<Vec<u8>>) -> (r: Option<String>)
    ensures
        text::string_text(r) == announced_type(components(path@)),
        r matches Some(s) ==> vstd::utf8::is_ascii_chars(s@),
{
    match file_extension(path) {
        Some(extension) => guess_type(extension.as_str()),
        None => None,
    }
}

/// Whether `c` is the hexadecimal digit of `value`, a capital or a small one.
pub open spec fn hexadecimal_digit(c: char, value: int) -> bool {
    0 <= value < 16 && (c == "0123456789abcdef"@[value] || c == "0123456789ABCDEF"@[value])
}

/// Whether a text starts with two hexadecimal digits.
pub open spec fn starts_with_digits(s: Seq<char>) -> bool {
    s.len() >= 2 && (exists|high: int| hexadecimal_digit(s[0], high)) && (exists|low: int|
        hexadecimal_digit(s[1], low))
}

/// Whether a piece of a request target stands for one character as it is, with
/// `rest` behind it. A `%` does where no two digits follow it.
pub open spec fn plain_piece(piece: Seq<char>, bytes: Seq<u8>, rest: Seq<char>) -> bool {
    &&& piece.len() == 1
    &&& piece[0] != '?'
    &&& piece[0] == '%' ==> !starts_with_digits(rest)
    &&& bytes == vstd::utf8::encode_utf8(piece)
}

/// Whether a piece of a request target is a byte, written as `%` and two
/// hexadecimal digits.
pub open spec fn escaped_piece(piece: Seq<char>, bytes: Seq<u8>) -> bool {
    exists|high: int, low: int|
        {
            &&& #[trigger] hexadecimal_digit(piece[1], high)
            &&& #[trigger] hexadecimal_digit(piece[2], low)
            &&& piece.len() == 3
            &&& piece[0] == '%'
            &&& bytes == seq![(16 * high + low) as u8]
        }
}

/// Whether the pieces of a request target stand for the given bytes, one by one.
pub open spec fn spelled(pieces: Seq<Seq<char>>, bytes: Seq<Seq<u8>>) -> bool {
    &&& pieces.len() == bytes.len()
    &&& forall|i: int|
        0 <= i < pieces.len() ==> plain_piece(
            #[trigger] pieces[i],
            bytes[i],
            pieces.skip(i + 1).flatten(),
        ) || escaped_piece(pieces[i], bytes[i])
}

/// The digits of either case have the values that decoding gives them, and are
/// ASCII.
proof fn lemma_hexadecimal_digit(c: char, value: int)
    requires
        hexadecimal_digit(c, value),
    ensures
        c as int <= 0x7f,
        c != '?',
        hex_value(c as u8) == Some(value as u8),
{
    reveal_strlit("0123456789abcdef");
    reveal_strlit("0123456789ABCDEF");
}

/// A byte with a value as a digit is a digit.
proof fn lemma_hex_value(c: char)
    requires
        c as int <= 0x7f,
        hex_value(c as u8) is Some,
    ensures
        exists|value: int| hexadecimal_digit(c, value),
{
    reveal_strlit("0123456789abcdef");
    reveal_strlit("0123456789ABCDEF");
    let value = hex_value(c as u8)->0 as int;
    assert(hexadecimal_digit(c, value));
}

/// The bytes of two texts, one behind the other.
proof fn lemma_encoded_concat(a: Seq<char>, b: Seq<char>)
    ensures
        vstd::utf8::encode_utf8(a + b) == vstd::utf8::encode_utf8(a) + vstd::utf8::encode_utf8(b),
    decreases a.len(),
{
    if a.len() == 0 {
        assert(a + b == b);
    } else {
        assert((a + b).drop_first() == a.drop_first() + b);
        lemma_encoded_concat(a.drop_first(), b);
    }
}

/// An ASCII character is one byte, and every byte of another one is none.
proof fn lemma_first_bytes(c: char)
    ensures
        c as int <= 0x7f ==> vstd::utf8::encode_utf8(seq![c]) == seq![c as u8],
        c as int > 0x7f ==> forall|i: int|
            0 <= i < vstd::utf8::encode_utf8(seq![c]).len() ==> #[trigger] vstd::utf8::encode_utf8(
                seq![c],
            )[i] >= 0x80,
        vstd::utf8::encode_utf8(seq![c]).len() > 0,
{
    let scalar = c as u32;
    vstd::utf8::char_is_scalar(c);
    assert(scalar <= 0x7f ==> (scalar & 0x7f) as u8 == scalar) by (bit_vector);
    assert(forall|x: u8| #[trigger] (0x80u8 | x) >= 0x80u8) by (bit_vector);
    assert(forall|x: u8| #[trigger] (0xc0u8 | x) >= 0x80u8) by (bit_vector);
    assert(forall|x: u8| #[trigger] (0xe0u8 | x) >= 0x80u8) by (bit_vector);
    assert(forall|x: u8| #[trigger] (0xf0u8 | x) >= 0x80u8) by (bit_vector);
    assert(seq![c].drop_first() == Seq::<char>::empty());
    assert(vstd::utf8::encode_utf8(Seq::<char>::empty()) == Seq::<u8>::empty());
    assert(vstd::utf8::encode_utf8(seq![c]) == vstd::utf8::encode_scalar(scalar));
}

/// The bytes of a text that is not empty are those of its first character, and
/// those of the rest.
proof fn lemma_encoded_first(s: Seq<char>)
    requires
        s.len() > 0,
    ensures
        vstd::utf8::encode_utf8(s) == vstd::utf8::encode_utf8(seq![s[0]])
            + vstd::utf8::encode_utf8(s.skip(1)),
{
    assert(s == seq![s[0]] + s.skip(1));
    lemma_encoded_concat(seq![s[0]], s.skip(1));
}

/// Two bytes that are digits are two characters that are.
proof fn lemma_encoded_digits(s: Seq<char>)
    requires
        ({
            let bytes = vstd::utf8::encode_utf8(s);
            bytes.len() >= 2 && hex_value(bytes[0]) is Some && hex_value(bytes[1]) is Some
        }),
    ensures
        starts_with_digits(s),
{
    let bytes = vstd::utf8::encode_utf8(s);
    assert(s.len() > 0);
    lemma_encoded_first(s);
    lemma_first_bytes(s[0]);
    assert(bytes[0] == vstd::utf8::encode_utf8(seq![s[0]])[0]);
    assert(s[0] as int <= 0x7f);
    let rest = s.skip(1);
    assert(bytes[1] == vstd::utf8::encode_utf8(rest)[0]);
    assert(rest.len() > 0);
    lemma_encoded_first(rest);
    lemma_first_bytes(rest[0]);
    assert(vstd::utf8::encode_utf8(rest)[0] == vstd::utf8::encode_utf8(seq![rest[0]])[0]);
    assert(rest[0] as int <= 0x7f);
    lemma_hex_value(s[0]);
    lemma_hex_value(s[1]);
}

/// Bytes without a `%` stay in front of what is decoded behind them.
proof fn lemma_decoded_behind(a: Seq<u8>, b: Seq<u8>)
    requires
        !a.contains(0x25u8),
    ensures
        percent_decoded(a + b) == a + percent_decoded(b),
    decreases a.len(),
{
    if a.len() == 0 {
        assert(a + b == b);
        assert(a + percent_decoded(b) == percent_decoded(b));
    } else {
        let rest = a.skip(1);
        assert(a[0] != 0x25u8);
        assert forall|i: int| 0 <= i < rest.len() implies rest[i] != 0x25u8 by {
            assert(rest[i] == a[i + 1]);
        }
        lemma_decoded_behind(rest, b);
        assert((a + b).skip(1) == rest + b);
        assert((a + b)[0] == a[0]);
        assert(seq![a[0]] + (rest + percent_decoded(b)) == a + percent_decoded(b));
    }
}

/// An escaped byte is the byte, in front of what is decoded behind it.
proof fn lemma_escape_decoded(piece: Seq<char>, bytes: Seq<u8>, rest: Seq<char>)
    requires
        escaped_piece(piece, bytes),
    ensures
        percent_decoded(vstd::utf8::encode_utf8(piece + rest)) == bytes + percent_decoded(
            vstd::utf8::encode_utf8(rest),
        ),
        !piece.contains('?'),
{
    let (high, low) = choose|high: int, low: int|
        {
            &&& #[trigger] hexadecimal_digit(piece[1], high)
            &&& #[trigger] hexadecimal_digit(piece[2], low)
            &&& piece.len() == 3
            &&& piece[0] == '%'
            &&& bytes == seq![(16 * high + low) as u8]
        };
    lemma_hexadecimal_digit(piece[1], high);
    lemma_hexadecimal_digit(piece[2], low);
    let tail = vstd::utf8::encode_utf8(rest);
    let escape = vstd::utf8::encode_utf8(piece);
    assert(escape == seq![0x25u8, piece[1] as u8, piece[2] as u8]) by {
        assert(piece == seq!['%'] + (seq![piece[1]] + seq![piece[2]]));
        lemma_encoded_concat(seq!['%'], seq![piece[1]] + seq![piece[2]]);
        lemma_encoded_concat(seq![piece[1]], seq![piece[2]]);
        lemma_first_bytes('%');
        lemma_first_bytes(piece[1]);
        lemma_first_bytes(piece[2]);
    }
    lemma_encoded_concat(piece, rest);
    let whole = escape + tail;
    assert(whole.skip(3) == tail);
    assert(whole[0] == 0x25 && whole[1] == piece[1] as u8 && whole[2] == piece[2] as u8);
}

/// A piece is decoded in front of what is decoded behind it.
proof fn lemma_piece_decoded(piece: Seq<char>, bytes: Seq<u8>, rest: Seq<char>)
    requires
        plain_piece(piece, bytes, rest) || escaped_piece(piece, bytes),
    ensures
        percent_decoded(vstd::utf8::encode_utf8(piece + rest)) == bytes + percent_decoded(
            vstd::utf8::encode_utf8(rest),
        ),
        !piece.contains('?'),
{
    if escaped_piece(piece, bytes) {
        lemma_escape_decoded(piece, bytes, rest);
    } else {
        let tail = vstd::utf8::encode_utf8(rest);
        let whole = bytes + tail;
        let c = piece[0];
        assert(piece == seq![c]);
        lemma_encoded_concat(piece, rest);
        if c == '%' {
            lemma_first_bytes(c);
            assert(whole[0] == 0x25);
            assert(whole.skip(1) == tail);
            if whole.len() >= 3 && hex_value(whole[1]) is Some && hex_value(whole[2]) is Some {
                assert(tail[0] == whole[1] && tail[1] == whole[2]);
                lemma_encoded_digits(rest);
            }
        } else {
            lemma_text_bytes(piece);
            lemma_decoded_behind(bytes, tail);
        }
    }
}

/// Pieces are decoded one by one.
proof fn lemma_pieces_decoded(pieces: Seq<Seq<char>>, bytes: Seq<Seq<u8>>)
    requires
        spelled(pieces, bytes),
    ensures
        percent_decoded(vstd::utf8::encode_utf8(pieces.flatten())) == bytes.flatten(),
        !pieces.flatten().contains('?'),
    decreases pieces.len(),
{
    if pieces.len() > 0 {
        let piece = pieces[0];
        let others = pieces.drop_first();
        let rest = others.flatten();
        assert(pieces.skip(1) == others);
        assert forall|i: int| 0 <= i < others.len() implies plain_piece(
            #[trigger] others[i],
            bytes.drop_first()[i],
            others.skip(i + 1).flatten(),
        ) || escaped_piece(others[i], bytes.drop_first()[i]) by {
            assert(others[i] == pieces[i + 1]);
            assert(bytes.drop_first()[i] == bytes[i + 1]);
            assert(others.skip(i + 1) == pieces.skip(i + 2));
        }
        lemma_pieces_decoded(others, bytes.drop_first());
        assert(pieces.flatten() == piece + rest);
        assert(bytes.flatten() == bytes[0] + bytes.drop_first().flatten());
        assert(plain_piece(pieces[0], bytes[0], pieces.skip(1).flatten()) || escaped_piece(
            pieces[0],
            bytes[0],
        ));
        lemma_piece_decoded(piece, bytes[0], rest);
        assert forall|j: int| 0 <= j < pieces.flatten().len() implies pieces.flatten()[j]
            != '?' by {
            if j < piece.len() {
                assert(pieces.flatten()[j] == piece[j]);
            } else {
                assert(pieces.flatten()[j] == rest[j - piece.len()]);
            }
        }
    }
}

/// Percent-decoding undoes percent-encoding. Whichever characters of a path are
/// written as they are, and whichever of its bytes as `%` and two hexadecimal
/// digits, the path that is asked for is the same; and a query behind it does not
/// count.
pub proof fn law_decoding_undoes_encoding(
    pieces: Seq<Seq<char>>,
    bytes: Seq<Seq<u8>>,
    query: Seq<char>,
    path: Seq<char>,
)
    requires
        spelled(pieces, bytes),
    ensures
        target_text(pieces.flatten()) == header::text_of(bytes.flatten()),
        target_text(pieces.flatten() + seq!['?'] + query) == header::text_of(bytes.flatten()),
        bytes.flatten() == vstd::utf8::encode_utf8(path) ==> target_text(pieces.flatten()) == Some(
            path,
        ) && target_text(pieces.flatten() + seq!['?'] + query) == Some(path),
        decoded_target(pieces.flatten()) == lossy_text(bytes.flatten()),
        decoded_target(pieces.flatten() + seq!['?'] + query) == lossy_text(bytes.flatten()),
{
    lemma_pieces_decoded(pieces, bytes);
    text::law_before_first(pieces.flatten(), '?', query);
    vstd::utf8::encode_utf8_valid_utf8(path);
    vstd::utf8::encode_utf8_decode_utf8(path);
}

/// Every path that a request can ask for is spelled by pieces.
pub proof fn law_every_path_is_spelled(path: Seq<char>)
    requires
        !path.contains('?'),
    ensures
        exists|pieces: Seq<Seq<char>>, bytes: Seq<Seq<u8>>|
            #[trigger] spelled(pieces, bytes) && pieces.flatten() == path,
{
    let r = lemma_spelled(path);
    assert(spelled(r.0, r.1));
}

/// The pieces that spell a path.
proof fn lemma_spelled(path: Seq<char>) -> (r: (Seq<Seq<char>>, Seq<Seq<u8>>))
    requires
        !path.contains('?'),
    ensures
        spelled(r.0, r.1),
        r.0.flatten() == path,
    decreases path.len(),
{
    if path.len() == 0 {
        (Seq::empty(), Seq::empty())
    } else {
        let escaped = path[0] == '%' && starts_with_digits(path.skip(1));
        let n: int = if escaped {
            3
        } else {
            1
        };
        let piece = path.take(n);
        let rest = path.skip(n);
        assert forall|j: int| 0 <= j < rest.len() implies rest[j] != '?' by {
            assert(rest[j] == path[j + n]);
        }
        let (others, below) = lemma_spelled(rest);
        assert(path.contains(path[0]));
        let first: Seq<u8> = if escaped {
            let high = choose|high: int| hexadecimal_digit(path.skip(1)[0], high);
            let low = choose|low: int| hexadecimal_digit(path.skip(1)[1], low);
            assert(hexadecimal_digit(piece[1], high) && hexadecimal_digit(piece[2], low));
            let first = seq![(16 * high + low) as u8];
            assert(escaped_piece(piece, first));
            first
        } else {
            assert(plain_piece(piece, vstd::utf8::encode_utf8(piece), rest));
            vstd::utf8::encode_utf8(piece)
        };
        let pieces = seq![piece] + others;
        let bytes = seq![first] + below;
        assert(pieces.drop_first() == others);
        assert(pieces.flatten() == piece + rest);
        assert(piece + rest == path);
        assert forall|i: int| 0 <= i < pieces.len() implies plain_piece(
            #[trigger] pieces[i],
            bytes[i],
            pieces.skip(i + 1).flatten(),
        ) || escaped_piece(pieces[i], bytes[i]) by {
            if i > 0 {
                assert(pieces[i] == others[i - 1]);
                assert(bytes[i] == below[i - 1]);
                assert(pieces.skip(i + 1) == others.skip(i - 1 + 1));
            } else {
                assert(pieces.skip(1) == others);
            }
        }
        (pieces, bytes)
    }
}

/// A path is the bytes of its components, one by one.
pub proof fn law_components(path: Seq<Vec<u8>>)
    ensures
        components(path).len() == path.len(),
        forall|i: int| 0 <= i < path.len() ==> #[trigger] components(path)[i] == path[i]@,
{
}

/// A file whose name is ASCII is offered under that name.
pub proof fn law_ascii_names_are_offered(directory: Seq<Seq<u8>>, name: Seq<char>)
    requires
        vstd::utf8::is_ascii_chars(name),
        name != seq!['/'] && name != seq!['.'] && name != seq!['.', '.'],
    ensures
        offered_name(directory.push(vstd::utf8::encode_utf8(name))) == name,
{
    let bytes = vstd::utf8::encode_utf8(name);
    vstd::utf8::is_ascii_chars_encode_utf8(name);
    vstd::utf8::encode_utf8_valid_utf8(name);
    vstd::utf8::encode_utf8_decode_utf8(name);
    assert(directory.push(bytes).last() == bytes);
    if bytes == seq![0x2fu8] {
        assert(name[0] as u8 == bytes[0]);
        assert(name =~= seq!['/']);
    }
    if bytes == seq![0x2eu8] {
        assert(name[0] as u8 == bytes[0]);
        assert(name =~= seq!['.']);
    }
    if bytes == seq![0x2eu8, 0x2eu8] {
        assert(name[0] as u8 == bytes[0]);
        assert(name[1] as u8 == bytes[1]);
        assert(name =~= seq!['.', '.']);
    }
}

/// Every other file is offered as `file`.
pub proof fn law_other_names_are_not_offered(path: Seq<Seq<u8>>)
    requires
        path.len() > 0 ==> forall|name: Seq<char>|
            #![trigger vstd::utf8::encode_utf8(name)]
            path.last() == vstd::utf8::encode_utf8(name) ==> !vstd::utf8::is_ascii_chars(name)
                || name == seq!['/'] || name == seq!['.'] || name == seq!['.', '.'],
    ensures
        offered_name(path) == "file"@,
{
    if path.len() > 0 && vstd::utf8::valid_utf8(path.last()) {
        let name = vstd::utf8::decode_utf8(path.last());
        vstd::utf8::decode_utf8_encode_utf8(path.last());
        assert(path.last() == vstd::utf8::encode_utf8(name));
        if vstd::utf8::is_ascii_chars(name) {
            vstd::utf8::is_ascii_chars_encode_utf8(name);
            assert(path.last().len() == name.len());
            assert(name[0] as u8 == path.last()[0]);
            if name == seq!['.', '.'] {
                assert(name[1] as u8 == path.last()[1]);
                assert(path.last() =~= seq![0x2eu8, 0x2eu8]);
            } else if name == seq!['.'] {
                assert(path.last() =~= seq![0x2eu8]);
            } else {
                assert(path.last() =~= seq![0x2fu8]);
            }
        }
    }
}

/// The index of the last dot of a name.
proof fn lemma_last_dot(stem: Seq<u8>, ext: Seq<u8>)
    requires
        !ext.contains(0x2eu8),
    ensures
        last_dot(stem + seq![0x2eu8] + ext) == stem.len(),
        last_dot(ext) == -1,
    decreases ext.len(),
{
    let name = stem + seq![0x2eu8] + ext;
    if ext.len() > 0 {
        let shorter = ext.drop_last();
        assert(ext.contains(ext.last()));
        assert forall|i: int| 0 <= i < shorter.len() implies shorter[i] != 0x2eu8 by {
            assert(shorter[i] == ext[i]);
        }
        lemma_last_dot(stem, shorter);
        assert(name.last() == ext.last());
        assert(name.drop_last() == stem + seq![0x2eu8] + shorter);
    } else {
        assert(name.last() == 0x2eu8);
    }
}

/// The media type of a file is the one that is guessed for what stands behind the
/// last dot of its name.
pub proof fn law_type_follows_the_extension(
    directory: Seq<Seq<u8>>,
    stem: Seq<u8>,
    ext: Seq<char>,
)
    requires
        stem.len() > 0,
        !vstd::utf8::encode_utf8(ext).contains(0x2eu8),
        stem != seq![0x2eu8] || ext.len() > 0,
    ensures
        ({
            let path = directory.push(stem + seq![0x2eu8] + vstd::utf8::encode_utf8(ext));
            extension_text(path) == Some(ext) && announced_type(path) == guessed_type(ext)
        }),
{
    let bytes = vstd::utf8::encode_utf8(ext);
    let name = stem + seq![0x2eu8] + bytes;
    let path = directory.push(name);
    lemma_last_dot(stem, bytes);
    vstd::utf8::encode_utf8_valid_utf8(ext);
    vstd::utf8::encode_utf8_decode_utf8(ext);
    assert(path.last() == name);
    assert(name.skip(stem.len() as int + 1) == bytes);
    assert(name.len() >= 2);
    if name == seq![0x2eu8, 0x2eu8] {
        assert(stem =~= seq![0x2eu8]) by {
            assert(name[0] == stem[0]);
        }
        lemma_encoded_first(ext);
        lemma_first_bytes(ext[0]);
    }
}

/// A name without a dot behind its first byte has no extension, and neither has
/// one whose extension is no UTF-8.
pub proof fn law_files_without_a_type(
    directory: Seq<Seq<u8>>,
    first: Seq<u8>,
    rest: Seq<u8>,
    stem: Seq<u8>,
    ext: Seq<u8>,
)
    requires
        first.len() <= 1,
        !rest.contains(0x2eu8),
        !ext.contains(0x2eu8),
        !vstd::utf8::valid_utf8(ext),
    ensures
        announced_type(directory.push(first + rest)) is None,
        announced_type(directory.push(stem + seq![0x2eu8] + ext)) is None,
        announced_type(Seq::empty()) is None,
{
    let name = first + rest;
    assert(directory.push(name).last() == name);
    lemma_last_dot(Seq::empty(), rest);
    if first.len() == 1 && first[0] == 0x2e {
        assert(name == Seq::<u8>::empty() + seq![0x2eu8] + rest);
    } else {
        assert forall|i: int| 0 <= i < name.len() implies name[i] != 0x2eu8 by {
            if i < first.len() {
                assert(name[i] == first[i]);
            } else {
                assert(name[i] == rest[i - first.len()]);
                assert(rest.contains(rest[i - first.len()]));
            }
        }
        lemma_last_dot(Seq::empty(), name);
    }
    let other = stem + seq![0x2eu8] + ext;
    assert(directory.push(other).last() == other);
    lemma_last_dot(stem, ext);
    assert(other.skip(stem.len() as int + 1) == ext);
}

} // verus!
