//! Settings from the environment.

use crate::number;
use crate::text;
use vstd::prelude::*;
use vstd::slice::slice_subrange;

verus! {

/// The number of concurrent transfers where no other is set.
pub const DEFAULT_THREADS: usize = 64;

/// The largest number of concurrent transfers.
pub const MAX_THREADS: usize = 1024;

/// `s` without a leading `+`.
pub open spec fn unsigned_part(s: Seq<char>) -> Seq<char> {
    if s.len() > 0 && s[0] == '+' {
        s.skip(1)
    } else {
        s
    }
}

/// The number of concurrent transfers for a setting: the number it holds,
/// clamped to what is possible. The default where there is no setting, or one
/// that is no number; a number may have a `+` in front of it.
pub open spec fn thread_count(setting: Option<Seq<char>>) -> nat {
    match setting {
        Some(s) => match number::numeral_value(unsigned_part(s)) {
            Some(n) => if n < 1 {
                1
            } else if n < MAX_THREADS {
                n
            } else {
                MAX_THREADS as nat
            },
            None => DEFAULT_THREADS as nat,
        },
        None => DEFAULT_THREADS as nat,
    }
}

/// The number of concurrent transfers for the value of `SERVER_THREADS`.
pub fn num_threads(setting: Option<&str>) -> (r: usize)
    ensures
        r == thread_count(text::slice_text(setting)),
        1 <= r <= MAX_THREADS,
{
    let s: Vec<char> = match setting {
        Some(s) => text::chars_of(s),
        None => {
            return DEFAULT_THREADS;
        },
    };
    let digits: &[char] = if s.len() > 0 && s[0] == '+' {
        slice_subrange(s.as_slice(), 1, s.len())
    } else {
        s.as_slice()
    };
    assert(digits@ == unsigned_part(s@));
    match number::parse_numeral(digits) {
        Some(n) => {
            if n < 1 {
                1
            } else if n < MAX_THREADS as u64 {
                n as usize
            } else {
                MAX_THREADS
            }
        },
        None => DEFAULT_THREADS,
    }
}

/// The directory to serve, for the value of `FILE_SERVER_DIR`.
pub fn served_directory(setting: Option<&str>) -> (r: String)
    ensures
        r@ == match setting {
            Some(s) => s@,
            None => "/www"@,
        },
{
    match setting {
        Some(s) => String::from_str(s),
        None => String::from_str("/www"),
    }
}

/// The address to bind, for the value of `PORT`.
pub fn bind_address(setting: Option<&str>) -> (r: String)
    ensures
        r@ == "0.0.0.0:"@ + match setting {
            Some(s) => s@,
            None => "8000"@,
        },
{
    let mut r = String::from_str("0.0.0.0:");
    match setting {
        Some(s) => {
            r.append(s);
        },
        None => {
            r.append("8000");
        },
    }
    r
}

/// A setting that is a number, with or without a `+` before it, is kept between 1
/// and 1024.
pub proof fn law_threads_are_clamped(digits: Seq<char>)
    requires
        number::numeral_value(digits) is Some,
    ensures
        ({
            let n = number::numeral_value(digits)->0;
            &&& thread_count(Some(digits)) == if n == 0 {
                1
            } else if n <= 1024 {
                n
            } else {
                1024
            }
            &&& thread_count(Some(seq!['+'] + digits)) == thread_count(Some(digits))
        }),
{
    assert(number::decimal_digit(digits[0]));
    assert((seq!['+'] + digits).skip(1) == digits);
}

/// Without a setting, or with one that is no number, there are 64 threads.
pub proof fn law_default_threads(setting: Seq<char>)
    requires
        number::numeral_value(setting) is None,
        forall|digits: Seq<char>|
            setting == #[trigger] (seq!['+'] + digits) ==> number::numeral_value(digits) is None,
    ensures
        thread_count(None) == 64,
        thread_count(Some(setting)) == 64,
{
    if setting.len() > 0 && setting[0] == '+' {
        assert(setting == seq!['+'] + setting.skip(1));
    }
}

} // verus!
