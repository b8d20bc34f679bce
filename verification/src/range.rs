//! Byte ranges: a single `Range: bytes=..` request against a file of known size.

use crate::number;
use crate::text;
use vstd::prelude::*;
use vstd::slice::slice_subrange;

verus! {

/// What a byte-range specification asks for, before the size of the file is
/// looked at.
pub enum Wanted {
    /// `start-`: everything from an offset on.
    From(nat),
    /// `start-end`: everything between two offsets, both included.
    Between(nat, nat),
    /// `-n`: the last `n` bytes.
    Last(nat),
}

/// The request that a byte-range specification spells out. White space around
/// it does not count, and an offset is made of digits alone; `None` where it has
/// none of the three forms.
pub open spec fn wanted(spec: Seq<char>) -> Option<Wanted> {
    let t = text::trimmed(spec);
    let dash = text::first_index(t, '-');
    let before = t.take(dash);
    let after = t.skip(dash + 1);
    if dash >= t.len() {
        None
    } else if before.len() == 0 {
        match number::numeral_value(after) {
            Some(n) => Some(Wanted::Last(n)),
            None => None,
        }
    } else {
        match number::numeral_value(before) {
            Some(start) => if after.len() == 0 {
                Some(Wanted::From(start))
            } else {
                match number::numeral_value(after) {
                    Some(end) => Some(Wanted::Between(start, end)),
                    None => None,
                }
            },
            None => None,
        }
    }
}

/// The offsets of the first and the last byte that a request selects in a file
/// of `total` bytes; `None` where it selects no byte. An end behind the last
/// byte is cut to it, and so is a suffix longer than the file.
pub open spec fn satisfied(request: Wanted, total: nat) -> Option<(nat, nat)> {
    match request {
        Wanted::From(start) => if start < total {
            Some((start, (total - 1) as nat))
        } else {
            None
        },
        Wanted::Between(start, end) => if start < total && start <= end {
            Some((start, if end < total { end } else { (total - 1) as nat }))
        } else {
            None
        },
        Wanted::Last(n) => if n > 0 && total > 0 {
            Some((if n < total { (total - n) as nat } else { 0 }, (total - 1) as nat))
        } else {
            None
        },
    }
}

/// The offsets of the first and the last byte that a byte-range specification
/// selects in a file of `total` bytes.
pub open spec fn single_range(spec: Seq<char>, total: nat) -> Option<(nat, nat)> {
    match wanted(spec) {
        Some(request) => satisfied(request, total),
        None => None,
    }
}

/// A pair of machine integers as a pair of numbers.
pub open spec fn as_offsets(pair: Option<(u64, u64)>) -> Option<(nat, nat)> {
    match pair {
        Some((start, end)) => Some((start as nat, end as nat)),
        None => None,
    }
}

fn range_of(spec: &[char], total: u64) -> (r: Option<(u64, u64)>)
    ensures
        as_offsets(r) == single_range(spec@, total as nat),
{
    let t: &[char] = text::trim(spec);
    let dash: usize = text::find_first(t, '-');
    if dash == t.len() {
        return None;
    }
    let before: &[char] = slice_subrange(t, 0, dash);
    let after: &[char] = slice_subrange(t, dash + 1, t.len());
    assert(before@ == t@.take(dash as int));
    assert(after@ == t@.skip(dash + 1));
    if before.len() == 0 {
        let n: u64 = match number::parse_numeral(after) {
            Some(n) => n,
            None => {
                return None;
            },
        };
        if n == 0 || total == 0 {
            return None;
        }
        let start: u64 = if n < total {
            total - n
        } else {
            0
        };
        return Some((start, total - 1));
    }
    let start: u64 = match number::parse_numeral(before) {
        Some(start) => start,
        None => {
            return None;
        },
    };
    if start >= total {
        return None;
    }
    let end: u64 = if after.len() == 0 {
        total - 1
    } else {
        match number::parse_numeral(after) {
            Some(end) => if end < total {
                end
            } else {
                total - 1
            },
            None => {
                return None;
            },
        }
    };
    if end < start {
        return None;
    }
    Some((start, end))
}

/// Parses a byte-range specification (`start-`, `start-end` or `-n`) against a
/// file of `total` bytes. Returns the inclusive offsets of the first and the
/// last byte, or `None` where the specification is malformed or selects no
/// byte.
pub fn parse_single_range(spec: &str, total: u64) -> (r: Option<(u64, u64)>)
    ensures
        as_offsets(r) == single_range(spec@, total as nat),
        match single_range(spec@, total as nat) {
            Some((start, end)) => r matches Some((first, last)) && first == start && last == end,
            None => r is None,
        },
        r matches Some((start, end)) ==> start <= end < total,
{
    let chars: Vec<char> = text::chars_of(spec);
    range_of(chars.as_slice(), total)
}

/// What a `Range` header asks of a file.
#[derive(Clone, Copy, Debug, PartialEq, Eq, Structural)]
pub enum Selection {
    /// All of it: there is no such header, or it counts in another unit.
    Whole,
    /// The bytes between two offsets, both included.
    Part { start: u64, end: u64 },
    /// Nothing that the file holds.
    Unsatisfiable,
}

/// What a `Range` header asks of a file of `total` bytes. One single range in
/// bytes is served; several at once are not.
pub open spec fn selected(header: Option<Seq<char>>, total: u64) -> Selection {
    match header {
        Some(value) => if "bytes="@.is_prefix_of(value) {
            let spec = value.skip("bytes="@.len() as int);
            if spec.contains(',') {
                Selection::Unsatisfiable
            } else {
                match single_range(spec, total as nat) {
                    Some((start, end)) => Selection::Part { start: start as u64, end: end as u64 },
                    None => Selection::Unsatisfiable,
                }
            }
        } else {
            Selection::Whole
        },
        None => Selection::Whole,
    }
}

/// What a `Range` header asks of a file of `total` bytes.
pub fn select(header: Option<&str>, total: u64) -> (r: Selection)
    ensures
        r == selected(text::slice_text(header), total),
        r matches Selection::Part { start, end } ==> start <= end < total,
{
    let value: Vec<char> = match header {
        Some(value) => text::chars_of(value),
        None => {
            return Selection::Whole;
        },
    };
    let unit: Vec<char> = text::chars_of("bytes=");
    if !text::has_prefix(value.as_slice(), unit.as_slice()) {
        return Selection::Whole;
    }
    let spec: &[char] = slice_subrange(value.as_slice(), unit.len(), value.len());
    assert(spec@ == value@.skip("bytes="@.len() as int));
    let comma: usize = text::find_first(spec, ',');
    assert(comma < spec@.len() <==> spec@.contains(','));
    if comma < spec.len() {
        return Selection::Unsatisfiable;
    }
    match range_of(spec, total) {
        Some((start, end)) => Selection::Part { start, end },
        None => Selection::Unsatisfiable,
    }
}

/// The parts of a specification of two runs of digits with a dash between them.
proof fn lemma_specification(before: Seq<char>, a: Seq<char>, b: Seq<char>, after: Seq<char>)
    requires
        forall|i: int| 0 <= i < before.len() ==> text::white_space(before[i]),
        forall|i: int| 0 <= i < after.len() ==> text::white_space(after[i]),
        number::all_decimal_digits(a),
        number::all_decimal_digits(b),
    ensures
        ({
            let t = a + seq!['-'] + b;
            &&& text::trimmed(before + a + seq!['-'] + b + after) == t
            &&& text::first_index(t, '-') == a.len()
            &&& t.take(a.len() as int) == a
            &&& t.skip(a.len() as int + 1) == b
        }),
{
    let t = a + seq!['-'] + b;
    assert(before + a + seq!['-'] + b + after == before + t + after);
    assert(!text::white_space(t[0])) by {
        if a.len() > 0 {
            assert(t[0] == a[0]);
        }
    }
    assert(!text::white_space(t.last())) by {
        if b.len() > 0 {
            assert(t.last() == b.last());
        }
    }
    text::law_trimmed(before, t, after);
    assert(!a.contains('-'));
    text::law_before_first(a, '-', b);
    assert(t.take(a.len() as int) == a);
    assert(t.skip(a.len() as int + 1) == b);
}

/// `start-end` selects the bytes between two offsets, both included; an end behind
/// the last byte is cut to it. Nothing is selected from a start behind the last
/// byte, or behind the end.
pub proof fn law_bounded_range(
    before: Seq<char>,
    a: Seq<char>,
    b: Seq<char>,
    after: Seq<char>,
    total: nat,
)
    requires
        forall|i: int| 0 <= i < before.len() ==> text::white_space(before[i]),
        forall|i: int| 0 <= i < after.len() ==> text::white_space(after[i]),
        number::numeral_value(a) is Some,
        number::numeral_value(b) is Some,
    ensures
        ({
            let start = number::numeral_value(a)->0;
            let end = number::numeral_value(b)->0;
            let found = single_range(before + a + seq!['-'] + b + after, total);
            &&& found is Some <==> start < total && start <= end
            &&& found matches Some((first, last)) ==> first == start && last < total && last <= end
                && (last == end || last + 1 == total)
        }),
{
    lemma_specification(before, a, b, after);
}

/// `start-` selects everything from an offset on, which must lie in the file.
pub proof fn law_open_range(before: Seq<char>, a: Seq<char>, after: Seq<char>, total: nat)
    requires
        forall|i: int| 0 <= i < before.len() ==> text::white_space(before[i]),
        forall|i: int| 0 <= i < after.len() ==> text::white_space(after[i]),
        number::numeral_value(a) is Some,
    ensures
        ({
            let start = number::numeral_value(a)->0;
            let found = single_range(before + a + seq!['-'] + after, total);
            &&& found is Some <==> start < total
            &&& found matches Some((first, last)) ==> first == start && last + 1 == total
        }),
{
    lemma_specification(before, a, Seq::empty(), after);
    assert(before + a + seq!['-'] + Seq::<char>::empty() + after == before + a + seq!['-'] + after);
}

/// `-n` selects the last `n` bytes, and all of them where there are fewer. Nothing
/// is selected where that is no byte.
pub proof fn law_suffix_range(before: Seq<char>, b: Seq<char>, after: Seq<char>, total: nat)
    requires
        forall|i: int| 0 <= i < before.len() ==> text::white_space(before[i]),
        forall|i: int| 0 <= i < after.len() ==> text::white_space(after[i]),
        number::numeral_value(b) is Some,
    ensures
        ({
            let n = number::numeral_value(b)->0;
            let found = single_range(before + seq!['-'] + b + after, total);
            &&& found is Some <==> n > 0 && total > 0
            &&& found matches Some((first, last)) ==> last + 1 == total && (if n <= total {
                first + n == total
            } else {
                first == 0
            })
        }),
{
    lemma_specification(before, Seq::empty(), b, after);
    assert(before + Seq::<char>::empty() + seq!['-'] + b + after == before + seq!['-'] + b + after);
}

/// What selects anything is a numeral, a dash and a numeral, where one of the two
/// may be missing, with nothing but white space around them.
pub proof fn law_ranges_have_a_form(spec: Seq<char>, total: nat)
    requires
        single_range(spec, total) is Some,
    ensures
        exists|before: Seq<char>, a: Seq<char>, b: Seq<char>, after: Seq<char>|
            {
                &&& spec == #[trigger] (before + a + seq!['-'] + b + after)
                &&& forall|i: int| 0 <= i < before.len() ==> text::white_space(before[i])
                &&& forall|i: int| 0 <= i < after.len() ==> text::white_space(after[i])
                &&& a.len() == 0 || number::numeral_value(a) is Some
                &&& b.len() == 0 || number::numeral_value(b) is Some
                &&& a.len() + b.len() > 0
            },
{
    let t = text::trimmed(spec);
    let dash = text::first_index(t, '-');
    text::lemma_first_index_bounds(t, '-');
    let a = t.take(dash);
    let b = t.skip(dash + 1);
    assert(t == a + seq!['-'] + b);
    text::law_trimmed_splits(spec);
    let (before, after) = choose|before: Seq<char>, after: Seq<char>|
        spec == #[trigger] (before + t + after) && (forall|i: int|
            0 <= i < before.len() ==> text::white_space(before[i])) && (forall|i: int|
            0 <= i < after.len() ==> text::white_space(after[i]));
    assert(spec == before + a + seq!['-'] + b + after);
}

/// The offsets of a selection are those of its range.
pub proof fn law_selection_is_the_range(spec: Seq<char>, total: u64)
    requires
        !spec.contains(','),
    ensures
        match single_range(spec, total as nat) {
            Some((first, last)) => selected(Some("bytes="@ + spec), total) matches Selection::Part {
                start,
                end,
            } && start == first && end == last,
            None => selected(Some("bytes="@ + spec), total) is Unsatisfiable,
        },
{
    assert(("bytes="@ + spec).skip("bytes="@.len() as int) == spec);
    assert("bytes="@.is_prefix_of("bytes="@ + spec));
}

/// A file is sent whole where no range in bytes is asked for.
pub proof fn law_whole_file_by_default(value: Seq<char>, total: u64)
    requires
        !(exists|spec: Seq<char>| value == #[trigger] ("bytes="@ + spec)),
    ensures
        selected(None, total) is Whole,
        selected(Some(value), total) is Whole,
{
    if "bytes="@.is_prefix_of(value) {
        assert(value == "bytes="@ + value.skip("bytes="@.len() as int));
    }
}

/// What is selected starts and ends in the file, and is not empty.
pub proof fn law_satisfied_ranges_lie_in_the_file(spec: Seq<char>, total: nat)
    ensures
        single_range(spec, total) matches Some((first, last)) ==> first <= last < total,
{
}

} // verus!
