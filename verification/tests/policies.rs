use chrono::{DateTime, NaiveDateTime, Utc};
use file_server::cache::{cache_control, etag, is_current, not_modified};
use file_server::config::{bind_address, num_threads, served_directory};
use file_server::date::{
    calendar_second, checked_http_date, http_date, is_imf_fixdate, parse_http_date,
    system_time_secs, FIRST_SECOND, HTTP_DATE_FORMAT, LAST_SECOND,
};
use file_server::header::{hdr, header_value, RequestHeader};
use file_server::number::{are_digits, parse_numeral, write_decimal, write_hexadecimal};
use file_server::path::{
    content_type, decode_target, download_name, file_extension, is_within,
};
use file_server::range::{parse_single_range, select, Selection};
use file_server::text;
use std::time::{Duration, UNIX_EPOCH};

fn given(field: &str, value: &[u8]) -> RequestHeader {
    RequestHeader { field: field.to_string(), value: value.to_vec() }
}

fn parts(names: &[&[u8]]) -> Vec<Vec<u8>> {
    names.iter().map(|n| n.to_vec()).collect()
}

/// The first second of the year 0.
const YEAR_ZERO: i64 = -62_167_219_200;

/// The first second of the year 10000.
const YEAR_10000: i64 = 253_402_300_800;

#[test]
fn range_normal_open_ended() {
    assert_eq!(parse_single_range("100-", 1000), Some((100, 999)));
}

#[test]
fn range_normal_closed() {
    assert_eq!(parse_single_range("100-199", 1000), Some((100, 199)));
}

#[test]
fn range_end_clamped_to_size() {
    // An end past EOF is clamped to the last byte, not rejected.
    assert_eq!(parse_single_range("100-99999", 1000), Some((100, 999)));
}

#[test]
fn range_suffix() {
    assert_eq!(parse_single_range("-100", 1000), Some((900, 999)));
}

#[test]
fn range_suffix_larger_than_file() {
    // Asking for more trailing bytes than exist yields the whole file.
    assert_eq!(parse_single_range("-5000", 1000), Some((0, 999)));
}

#[test]
fn range_start_at_or_past_eof_is_unsatisfiable() {
    assert_eq!(parse_single_range("1000-", 1000), None);
    assert_eq!(parse_single_range("1001-1100", 1000), None);
}

#[test]
fn range_zero_suffix_and_empty_file() {
    assert_eq!(parse_single_range("-0", 1000), None);
    assert_eq!(parse_single_range("-100", 0), None);
    assert_eq!(parse_single_range("0-", 0), None);
}

#[test]
fn range_malformed() {
    assert_eq!(parse_single_range("abc", 1000), None);
    assert_eq!(parse_single_range("-", 1000), None);
    assert_eq!(parse_single_range("10-5", 1000), None); // end < start
    assert_eq!(parse_single_range("x-y", 1000), None);
}

#[test]
fn range_offsets_are_digits_alone() {
    assert_eq!(parse_single_range(" \t5-7\u{a0}", 10), Some((5, 7)));
    assert_eq!(parse_single_range("+5-10", 1000), None);
    assert_eq!(parse_single_range("5-+10", 1000), None);
    assert_eq!(parse_single_range("-+10", 1000), None);
    assert_eq!(parse_single_range("5 -7", 10), None);
    assert_eq!(parse_single_range("5--7", 10), None);
    assert_eq!(parse_single_range("005-007", 10), Some((5, 7)));
}

#[test]
fn range_offsets_beyond_64_bits_are_past_the_end() {
    assert_eq!(parse_single_range("0-18446744073709551615", 1000), Some((0, 999)));
    assert_eq!(parse_single_range("0-18446744073709551616", 1000), Some((0, 999)));
    assert_eq!(parse_single_range("-18446744073709551616", 1000), Some((0, 999)));
    assert_eq!(parse_single_range("-99999999999999999999999", 1000), Some((0, 999)));
    assert_eq!(parse_single_range("18446744073709551616-", 1000), None);
    assert_eq!(parse_single_range("18446744073709551616-", u64::MAX), None);
    assert_eq!(
        parse_single_range("18446744073709551616-18446744073709551617", u64::MAX),
        None
    );
    assert_eq!(
        parse_single_range("18446744073709551614-99999999999999999999", u64::MAX),
        Some((u64::MAX - 1, u64::MAX - 1))
    );
}

#[test]
fn range_header_selects() {
    assert_eq!(select(None, 10), Selection::Whole);
    assert_eq!(select(Some("lines=1-2"), 10), Selection::Whole);
    assert_eq!(select(Some("Bytes=1-2"), 10), Selection::Whole);
    assert_eq!(select(Some(" bytes=1-2"), 10), Selection::Whole);
    assert_eq!(select(Some("bytes=1-2"), 10), Selection::Part { start: 1, end: 2 });
    assert_eq!(select(Some("bytes= 1-2 "), 10), Selection::Part { start: 1, end: 2 });
    assert_eq!(select(Some("bytes=1-2,4-5"), 10), Selection::Unsatisfiable);
    assert_eq!(select(Some("bytes="), 10), Selection::Unsatisfiable);
    assert_eq!(select(Some("bytes=10-"), 10), Selection::Unsatisfiable);
}

#[test]
fn http_date_format_is_imf_fixdate() {
    // 1_780_084_005 == 2026-05-29 19:46:45 UTC.
    let t = UNIX_EPOCH + Duration::from_secs(1_780_084_005);
    assert_eq!(http_date(t), "Fri, 29 May 2026 19:46:45 GMT");
}

#[test]
fn http_date_round_trips_through_parse() {
    let secs = 1_780_084_005u64;
    let t = UNIX_EPOCH + Duration::from_secs(secs);
    assert_eq!(parse_http_date(&http_date(t)), Some(secs));
}

#[test]
fn parse_http_date_rejects_garbage() {
    assert_eq!(parse_http_date("not a date"), None);
    assert_eq!(parse_http_date("2026-06-10T20:03:25Z"), None); // ISO 8601, not HTTP
}

#[test]
fn http_date_round_trips_at_the_edges() {
    for secs in [0u64, 1, 59, 253_402_300_799, 253_402_300_800, 8_210_266_876_799] {
        let t = UNIX_EPOCH + Duration::new(secs, 999_999_999);
        assert_eq!(calendar_second(t), Some(secs as i64));
        let date = checked_http_date(t).unwrap();
        assert_eq!(parse_http_date(&date), Some(secs));
        assert_eq!(parse_http_date(&format!(" \t{} ", date)), Some(secs));
    }
}

#[test]
fn dates_before_the_epoch_are_written_and_not_read() {
    let t = UNIX_EPOCH - Duration::from_millis(1500);
    assert_eq!(calendar_second(t), Some(-2));
    assert_eq!(http_date(t), "Wed, 31 Dec 1969 23:59:58 GMT");
    assert_eq!(parse_http_date("Wed, 31 Dec 1969 23:59:58 GMT"), None);
    assert_eq!(parse_http_date("Thu, 01 Jan 1970 00:00:00 GMT"), Some(0));
    let t = UNIX_EPOCH - Duration::from_secs(3);
    assert_eq!(calendar_second(t), Some(-3));
}

#[test]
fn only_imf_fixdates_are_accepted() {
    assert_eq!(parse_http_date("Fri, 05 Jun 2026 19:46:45 GMT"), Some(1_780_688_805));
    for s in [
        "Fri, 5 Jun 2026 19:46:45 GMT",
        "Fri,  5 Jun 2026 19:46:45 GMT",
        "Fri, 05  Jun 2026 19:46:45 GMT",
        "fri, 05 Jun 2026 19:46:45 GMT",
        "Fri, 05 JUN 2026 19:46:45 GMT",
        "Fri, 05 Jun 2026 9:46:45 GMT",
        "Fri, 05 Jun 2026 19:46:45GMT",
        "Fri, 05 Jun 2026 19:46:45 gmt",
        "Fri, 05 Jun 2026 19:46:45 GMT+0",
        "Fri,05 Jun 2026 19:46:45 GMT",
        "Fri, 05 Jun +2026 19:46:45 GMT",
        "Fri, 05 Jun +02026 19:46:45 GMT",
        "Fri, 05 Jun 26 19:46:45 GMT",
        "Thu, 05 Jun 2026 19:46:45 GMT", // it is a Friday
        "Fri, 31 Jun 2026 19:46:45 GMT",
        "Fri, 05 Jun 2026 24:46:45 GMT",
        "Friday, 05-Jun-26 19:46:45 GMT",
        "Fri Jun  5 19:46:45 2026",
    ] {
        assert_eq!(parse_http_date(s), None, "{}", s);
    }
}

#[test]
fn imf_fixdates_are_told_by_their_form() {
    let has_form = |s: &str| is_imf_fixdate(&s.chars().collect::<Vec<char>>());
    assert!(has_form("Fri, 05 Jun 2026 19:46:45 GMT"));
    assert!(has_form("Sat, 01 Jan +10000 00:00:00 GMT"));
    assert!(has_form("Mon, 99 Feb 2026 99:99:99 GMT"));
    assert!(!has_form("Fri, 5 Jun 2026 19:46:45 GMT"));
    assert!(!has_form("Sat, 01 Jan +09999 00:00:00 GMT"));
    assert!(!has_form("Fri, 31 Dec -0001 23:59:59 GMT"));
    assert!(!has_form(""));
}

#[test]
fn only_times_that_exist_are_accepted() {
    // A leap second counts as the second before it.
    assert_eq!(parse_http_date("Fri, 05 Jun 2026 19:46:60 GMT"), Some(1_780_688_819));
    assert_eq!(parse_http_date("Thu, 29 Feb 2024 00:00:00 GMT"), Some(1_709_164_800));
    assert_eq!(parse_http_date("Tue, 29 Feb 2000 00:00:00 GMT"), Some(951_782_400));
    assert_eq!(parse_http_date("Mon, 31 Dec +262142 23:59:59 GMT"), Some(LAST_SECOND as u64));
    for s in [
        "Fri, 05 Jun 2026 19:46:61 GMT",
        "Fri, 05 Jun 2026 19:60:45 GMT",
        "Fri, 05 Jun 2026 24:00:00 GMT",
        "Fri, 00 Jun 2026 19:46:45 GMT",
        "Sat, 29 Feb 2025 00:00:00 GMT",
        "Mon, 29 Feb 2100 00:00:00 GMT",
        "Tue, 01 Jan +262143 00:00:00 GMT",
        "Tue, 01 Jan +99999999999999999999 00:00:00 GMT",
    ] {
        assert_eq!(parse_http_date(s), None, "{}", s);
    }
}

#[test]
fn days_are_counted_by_the_gregorian_calendar() {
    let names = ["Thu", "Fri", "Sat", "Sun", "Mon", "Tue", "Wed"];
    let months = [
        "Jan", "Feb", "Mar", "Apr", "May", "Jun", "Jul", "Aug", "Sep", "Oct", "Nov", "Dec",
    ];
    for (first, last) in [(-262143, -262142), (-401, 5), (1590, 2410), (9995, 10005), (262141, 262142)]
    {
        let y: i64 = first - 1;
        let mut number: i64 = 365 * (first - 1970) + y.div_euclid(4) - y.div_euclid(100)
            + y.div_euclid(400)
            - 477;
        for year in first..=last {
            let leap = year % 4 == 0 && (year % 100 != 0 || year % 400 == 0);
            let lengths = [31, if leap { 29 } else { 28 }, 31, 30, 31, 30, 31, 31, 30, 31, 30, 31];
            let year_text = if year < 0 || year > 9999 {
                format!("{:+05}", year)
            } else {
                format!("{:04}", year)
            };
            for month in 0..12 {
                for day in 1..=lengths[month] {
                    let (h, m, s) = (number.rem_euclid(24), number.rem_euclid(60), 59);
                    let secs = number * 86_400 + h * 3_600 + m * 60 + s;
                    let wanted = format!(
                        "{}, {:02} {} {} {:02}:{:02}:{:02} GMT",
                        names[number.rem_euclid(7) as usize],
                        day,
                        months[month],
                        year_text,
                        h,
                        m,
                        s
                    );
                    let d = Duration::from_secs(secs.unsigned_abs());
                    let t = if secs < 0 { UNIX_EPOCH - d } else { UNIX_EPOCH + d };
                    assert_eq!(http_date(t), wanted);
                    let read = if secs < 0 { None } else { Some(secs as u64) };
                    assert_eq!(parse_http_date(&wanted), read, "{}", wanted);
                    number += 1;
                }
            }
        }
    }
}

#[test]
fn dates_outside_the_calendar_are_refused() {
    assert_eq!(LAST_SECOND, DateTime::<Utc>::MAX_UTC.timestamp());
    assert_eq!(FIRST_SECOND, DateTime::<Utc>::MIN_UTC.timestamp());
    let last = UNIX_EPOCH + Duration::from_secs(8_210_266_876_799);
    assert_eq!(http_date(last), "Mon, 31 Dec +262142 23:59:59 GMT");
    assert_eq!(checked_http_date(last + Duration::from_secs(1)), None);
    let first = UNIX_EPOCH - Duration::from_secs(8_334_601_228_800);
    assert_eq!(calendar_second(first), Some(-8_334_601_228_800));
    assert_eq!(http_date(first), "Thu, 01 Jan -262143 00:00:00 GMT");
    assert_eq!(calendar_second(first - Duration::from_nanos(1)), None);
    assert_eq!(checked_http_date(first - Duration::from_nanos(1)), None);
    assert_eq!(checked_http_date(first - Duration::from_secs(1)), None);
}

#[test]
fn written_dates_are_read_back_over_the_whole_calendar() {
    let mut secs = FIRST_SECOND;
    while secs <= LAST_SECOND {
        let t = if secs < 0 {
            UNIX_EPOCH - Duration::from_secs(secs.unsigned_abs())
        } else {
            UNIX_EPOCH + Duration::from_secs(secs.unsigned_abs())
        };
        let date = http_date(t);
        let read = NaiveDateTime::parse_from_str(&date, HTTP_DATE_FORMAT).unwrap();
        assert_eq!(read.and_utc().timestamp(), secs);
        let chars: Vec<char> = date.chars().collect();
        assert_eq!(is_imf_fixdate(&chars), secs >= YEAR_ZERO);
        assert_eq!(chars.len() == 29, YEAR_ZERO <= secs && secs < YEAR_10000);
        let wanted = if secs < 0 { None } else { Some(secs as u64) };
        assert_eq!(parse_http_date(&date), wanted);
        secs += 9_876_543_210;
    }
}

#[test]
fn layout_changes_at_the_year_boundaries() {
    let at = |secs: i64| {
        let d = Duration::from_secs(secs.unsigned_abs());
        http_date(if secs < 0 { UNIX_EPOCH - d } else { UNIX_EPOCH + d })
    };
    assert_eq!(at(YEAR_ZERO), "Sat, 01 Jan 0000 00:00:00 GMT");
    assert_eq!(at(YEAR_ZERO - 1), "Fri, 31 Dec -0001 23:59:59 GMT");
    assert_eq!(at(YEAR_10000 - 1), "Fri, 31 Dec 9999 23:59:59 GMT");
    assert_eq!(at(YEAR_10000), "Sat, 01 Jan +10000 00:00:00 GMT");
}

#[test]
fn system_time_is_cut_to_seconds() {
    assert_eq!(system_time_secs(UNIX_EPOCH), 0);
    assert_eq!(system_time_secs(UNIX_EPOCH + Duration::from_millis(2999)), 2);
    assert_eq!(system_time_secs(UNIX_EPOCH - Duration::from_secs(5)), 0);
}

#[test]
fn cache_control_metadata_revalidates() {
    assert_eq!(cache_control("dists/stable/InRelease"), "no-cache");
    assert_eq!(cache_control("dists/stable/main/binary-amd64/Packages.gz"), "no-cache");
    assert_eq!(cache_control("debian/dists/trixie/Release"), "no-cache");
    assert_eq!(cache_control("Packages"), "no-cache"); // Gentoo index at root
    assert_eq!(cache_control("gentoo/amd64/Packages.gz"), "no-cache");
}

#[test]
fn cache_control_packages_are_immutable() {
    let immutable = "public, max-age=31536000, immutable";
    assert_eq!(cache_control("pool/main/h/hello/hello_2.10_amd64.deb"), immutable);
    assert_eq!(cache_control("app-misc/foo-1.2.3-1.gpkg.tar"), immutable);
    assert_eq!(cache_control("sys-apps/bar-4.0.tbz2"), immutable);
}

#[test]
fn cache_control_looks_at_the_whole_name() {
    let immutable = "public, max-age=31536000, immutable";
    assert_eq!(cache_control("//Packages.xz"), "no-cache");
    assert_eq!(cache_control("Packages/"), immutable);
    assert_eq!(cache_control("Packages.bz2"), immutable);
    assert_eq!(cache_control("dists"), immutable);
    assert_eq!(cache_control(""), immutable);
    assert_eq!(cache_control("mydists/foo_1.0_amd64.deb"), immutable);
    assert_eq!(cache_control("a/mydists/x"), immutable);
    assert_eq!(cache_control("a/dists"), immutable);
    assert_eq!(cache_control("a/dists/x"), "no-cache");
    assert_eq!(cache_control("//dists/x"), "no-cache");
    assert_eq!(cache_control("dists//x"), "no-cache");
    assert_eq!(cache_control("dists/"), "no-cache");
}

#[test]
fn entity_tag_is_time_and_size_in_hexadecimal() {
    assert_eq!(etag(0, 0), "\"0-0\"");
    assert_eq!(etag(1_780_084_005, 1_048_576), "\"6a19ed25-100000\"");
    assert_eq!(etag(u64::MAX, 10), "\"ffffffffffffffff-a\"");
}

#[test]
fn entity_tags_are_found_in_lists() {
    let tag = "\"1-2\"";
    assert!(is_current(Some("\"1-2\""), None, tag, 1));
    assert!(is_current(Some(" W/\"1-2\" "), None, tag, 1));
    assert!(is_current(Some("W/W/\"1-2\""), None, tag, 1));
    assert!(is_current(Some("\"a\", W/\"1-2\",\"b\""), None, tag, 1));
    assert!(is_current(Some(" * "), None, tag, 1));
    assert!(!is_current(Some("*, \"a\""), None, tag, 1));
    assert!(!is_current(Some("\"1-3\""), None, tag, 1));
    assert!(!is_current(Some("w/\"1-2\""), None, tag, 1));
    assert!(!is_current(Some(""), None, tag, 1));
}

#[test]
fn modification_date_counts_without_a_tag() {
    let tag = "\"5-2\"";
    assert!(is_current(None, Some(5), tag, 5));
    assert!(is_current(None, Some(6), tag, 5));
    assert!(!is_current(None, Some(4), tag, 5));
    assert!(!is_current(None, None, tag, 5));
    assert!(!is_current(Some("\"x\""), Some(9), tag, 5));
}

#[test]
fn conditional_headers_are_read() {
    let mtime = 1_780_084_005u64;
    let date = b"Fri, 29 May 2026 19:46:45 GMT";
    assert!(!not_modified(&vec![], mtime, 4));
    assert!(not_modified(&vec![given("if-modified-since", date)], mtime, 4));
    assert!(!not_modified(&vec![given("If-Modified-Since", date)], mtime + 1, 4));
    assert!(!not_modified(&vec![given("If-Modified-Since", b"yesterday")], mtime, 4));
    assert!(not_modified(&vec![given("IF-NONE-MATCH", etag(mtime, 4).as_bytes())], mtime, 4));
    assert!(!not_modified(
        &vec![given("If-Modified-Since", date), given("If-None-Match", b"\"x\"")],
        mtime,
        4
    ));
    // A tag that is not text does not count as one.
    assert!(not_modified(
        &vec![given("If-None-Match", b"\xff"), given("If-Modified-Since", date)],
        mtime,
        4
    ));
}

#[test]
fn headers_are_built_and_found() {
    let h = hdr("Accept-Ranges", "bytes");
    assert_eq!(h.field, "Accept-Ranges");
    assert_eq!(h.value, "bytes");
    let headers = vec![given("RANGE", b"a"), given("Range", b"b"), given("X", b"\xc3\xa9")];
    assert_eq!(header_value(&headers, "Range"), Some("a".to_string()));
    assert_eq!(header_value(&headers, "x"), Some("\u{e9}".to_string()));
    assert_eq!(header_value(&headers, "Y"), None);
    assert_eq!(header_value(&vec![given("Range", b"\xff"), given("Range", b"b")], "Range"), None);
}

#[test]
fn threads_are_clamped() {
    assert_eq!(num_threads(None), 64);
    assert_eq!(num_threads(Some("0")), 1);
    assert_eq!(num_threads(Some("")), 64);
    assert_eq!(num_threads(Some("+")), 64);
    assert_eq!(num_threads(Some("++1")), 64);
    assert_eq!(num_threads(Some("many")), 64);
    assert_eq!(num_threads(Some(" 8")), 64);
    assert_eq!(num_threads(Some("-8")), 64);
    assert_eq!(num_threads(Some("1")), 1);
    assert_eq!(num_threads(Some("+128")), 128);
    assert_eq!(num_threads(Some("1024")), 1024);
    assert_eq!(num_threads(Some("5000")), 1024);
    assert_eq!(num_threads(Some("99999999999999999999999")), 1024);
}

#[test]
fn settings_have_defaults() {
    assert_eq!(served_directory(None), "/www");
    assert_eq!(served_directory(Some("/srv")), "/srv");
    assert_eq!(bind_address(None), "0.0.0.0:8000");
    assert_eq!(bind_address(Some("0")), "0.0.0.0:0");
}

#[test]
fn targets_are_decoded() {
    assert_eq!(decode_target("a%20b/c%2Fd?x=%20"), "a b/c/d");
    assert_eq!(decode_target("%2e%2E/secret"), "../secret");
    assert_eq!(decode_target("100%/%4/%zz"), "100%/%4/%zz");
    assert_eq!(decode_target("%c3%a9"), "\u{e9}");
    assert_eq!(decode_target("x%ff"), "x\u{fffd}");
    assert_eq!(decode_target("?q"), "");
}

#[test]
fn paths_are_compared_by_component() {
    let root = parts(&[b"/", b"www"]);
    assert!(is_within(&root, &root));
    assert!(is_within(&root, &parts(&[b"/", b"www", b"a"])));
    assert!(!is_within(&root, &parts(&[b"/"])));
    assert!(!is_within(&root, &parts(&[b"/", b"www2", b"a"])));
    assert!(!is_within(&root, &parts(&[b"/", b"etc", b"www"])));
}

#[test]
fn names_and_types_come_from_the_path() {
    let txt = parts(&[b"/", b"www", b"hello.txt"]);
    assert_eq!(download_name(&txt), "hello.txt");
    assert_eq!(file_extension(&txt), Some("txt".to_string()));
    assert_eq!(content_type(&txt), Some("text/plain".to_string()));
    assert_eq!(content_type(&parts(&[b"/", b"A.TAR.GZ"])), Some("application/gzip".to_string()));
    assert_eq!(content_type(&parts(&[b"/", b"InRelease"])), None);
    assert_eq!(content_type(&parts(&[b"/", b".txt"])), None);
    assert_eq!(content_type(&parts(&[b"/", b"a.unknownkind"])), None);
    assert_eq!(file_extension(&parts(&[b"/", b"a."])), Some("".to_string()));
    assert_eq!(content_type(&parts(&[b"/", b"a."])), None);
    // A name that no header can hold is not offered; its extension still counts.
    let odd = parts(&[b"/", b"\xff.txt"]);
    assert_eq!(download_name(&odd), "file");
    assert_eq!(content_type(&odd), Some("text/plain".to_string()));
    let accented = parts(&[b"/", b"\xc3\xa9.txt"]);
    assert_eq!(download_name(&accented), "file");
    assert_eq!(content_type(&accented), Some("text/plain".to_string()));
    assert_eq!(download_name(&parts(&[b"/"])), "file");
    assert_eq!(download_name(&parts(&[b"a", b".."])), "file");
    assert_eq!(download_name(&parts(&[])), "file");
}

#[test]
fn numerals_are_written_and_read() {
    assert_eq!(write_decimal(0), "0");
    assert_eq!(write_decimal(u64::MAX), "18446744073709551615");
    assert_eq!(write_hexadecimal(255), "ff");
    let max: Vec<char> = write_decimal(u64::MAX).chars().collect();
    assert_eq!(parse_numeral(&max), Some(u64::MAX));
    assert_eq!(parse_numeral(&['0', '7']), Some(7));
    assert_eq!(parse_numeral(&['9'; 40]), Some(u64::MAX));
    assert_eq!(parse_numeral(&[]), None);
    assert_eq!(parse_numeral(&['+', '7']), None);
    assert_eq!(parse_numeral(&['7', 'a']), None);
    assert!(are_digits(&['0', '9']));
    assert!(!are_digits(&['0', '\u{663}']));
}

#[test]
fn white_space_is_that_of_the_standard_library() {
    for code in 0..=0x10ffffu32 {
        if let Some(c) = char::from_u32(code) {
            assert_eq!(text::is_white_space(c), c.is_whitespace(), "{:x}", code);
        }
    }
}

#[test]
fn text_is_cut_as_by_the_standard_library() {
    for s in ["", " ", "a", "  a b\u{3000}", "//a//b/", "a,b,,c", "ab-cd-", "\u{e9}/\u{e9}", "--", "W/W/x"] {
        let chars = text::chars_of(s);
        let trimmed: String = text::trim(&chars).iter().collect();
        assert_eq!(trimmed, s.trim());
        let stripped: String = text::strip(&chars, '/').iter().collect();
        assert_eq!(stripped, s.trim_start_matches('/'));
        let last: String = text::last_piece(&chars, '/').iter().collect();
        assert_eq!(last, s.rsplit('/').next().unwrap());
        let first: String = chars[..text::find_first(&chars, ',')].iter().collect();
        assert_eq!(first, s.split(',').next().unwrap());
        for p in ["", "a", "b,", "//", "zz"] {
            let pattern = text::chars_of(p);
            assert_eq!(text::contains(&chars, &pattern), s.contains(p));
            assert_eq!(text::has_prefix(&chars, &pattern), s.starts_with(p));
            assert_eq!(
                text::equal_ignoring_case(&chars, &pattern),
                s.eq_ignore_ascii_case(p)
            );
        }
    }
    assert!(text::equal_ignoring_case(&['E', 'T', 'a', 'g'], &['e', 't', 'A', 'G']));
    assert!(!text::equal_ignoring_case(&['\u{c9}'], &['\u{e9}']));
}
