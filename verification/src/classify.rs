//! The content classifier: which addresses are worth fetching.

use crate::chars::{
    chars_of, lemma_run_end, run_end, scan_run, string_of_range, to_lowercase, unicode_lowered,
    CharClass,
};
use crate::normalize::same_chars;
use vstd::prelude::*;

verus! {

/// The largest body, in bytes, that is fetched: 10 MiB.
pub const MAX_SIZE: u64 = 10485760;

/// The endings of addresses that name binary files.
pub open spec fn binary_extensions() -> Seq<Seq<char>> {
    seq![
        ".exe"@,
        ".apk"@,
        ".dmg"@,
        ".pkg"@,
        ".deb"@,
        ".rpm"@,
        ".zip"@,
        ".rar"@,
        ".7z"@,
        ".tar"@,
        ".gz"@,
        ".bz2"@,
        ".pdf"@,
        ".doc"@,
        ".docx"@,
        ".xls"@,
        ".xlsx"@,
        ".ppt"@,
        ".pptx"@,
        ".jpg"@,
        ".jpeg"@,
        ".png"@,
        ".gif"@,
        ".bmp"@,
        ".svg"@,
        ".ico"@,
        ".mp3"@,
        ".mp4"@,
        ".avi"@,
        ".mov"@,
        ".wmv"@,
        ".flv"@,
        ".bin"@,
        ".dll"@,
        ".so"@,
        ".dylib"@,
        ".class"@,
        ".jar"@,
    ]
}

/// The starts of the content types that count as text.
pub open spec fn text_types() -> Seq<Seq<char>> {
    seq![
        "text/html"@,
        "text/plain"@,
        "text/xml"@,
        "application/xml"@,
        "application/xhtml+xml"@,
        "text/css"@,
        "text/javascript"@,
        "application/json"@,
        "application/ld+json"@,
    ]
}

/// Whether `text` ends with `suffix`.
pub open spec fn ends_with(text: Seq<char>, suffix: Seq<char>) -> bool {
    suffix.len() <= text.len() && text.subrange(text.len() - suffix.len(), text.len() as int)
        == suffix
}

/// Whether `text` starts with `prefix`.
pub open spec fn starts_with(text: Seq<char>, prefix: Seq<char>) -> bool {
    prefix.len() <= text.len() && text.subrange(0, prefix.len() as int) == prefix
}

/// Whether `text` ends with one of `endings`.
pub open spec fn ends_with_any(text: Seq<char>, endings: Seq<Seq<char>>) -> bool {
    exists|i: int| 0 <= i < endings.len() && ends_with(text, #[trigger] endings[i])
}

/// Whether `text` starts with one of `starts`.
pub open spec fn starts_with_any(text: Seq<char>, starts: Seq<Seq<char>>) -> bool {
    exists|i: int| 0 <= i < starts.len() && starts_with(text, #[trigger] starts[i])
}

/// The path of an address: the address up to its first `?` or `#`, without
/// the query and the fragment that stand behind them.
pub open spec fn path_of(url: Seq<char>) -> Seq<char> {
    url.subrange(0, run_end(url, 0, CharClass::Path))
}

/// Whether an address names a binary file: the path of the address in small
/// letters ends with one of the binary endings.
pub open spec fn names_binary(url: Seq<char>) -> bool {
    ends_with_any(path_of(unicode_lowered(url)), binary_extensions())
}

/// Whether a content type counts as text.
pub open spec fn is_text_type(content_type: Seq<char>) -> bool {
    starts_with_any(content_type, text_types())
}

/// Whether `c` is a decimal digit.
pub open spec fn is_digit(c: char) -> bool {
    '0' <= c <= '9'
}

/// The number that a run of decimal digits writes.
pub open spec fn decimal(digits: Seq<char>) -> nat
    decreases digits.len(),
{
    if digits.len() == 0 {
        0
    } else {
        (decimal(digits.drop_last()) * 10 + (digits.last() as u32 - '0' as u32)) as nat
    }
}

/// The digits of a number as written: the text without a `+` at its start.
pub open spec fn unsigned_part(text: Seq<char>) -> Seq<char> {
    if text.len() > 0 && text[0] == '+' {
        text.subrange(1, text.len() as int)
    } else {
        text
    }
}

/// The 64 bit number that `text` writes, as `str::parse` reads it: decimal
/// digits, at least one, with at most a `+` before them, and a value that
/// fits.
pub open spec fn parsed_u64(text: Seq<char>) -> Option<u64> {
    let digits = unsigned_part(text);
    if digits.len() > 0 && (forall|i: int| 0 <= i < digits.len() ==> is_digit(#[trigger] digits[i]))
        && decimal(digits) <= u64::MAX {
        Some(decimal(digits) as u64)
    } else {
        None
    }
}

/// Whether the headers of a probe allow the fetch. A content type that is
/// there must count as text; a content length that is there and reads as a
/// number must not be above `MAX_SIZE`. A header that is missing allows it.
pub open spec fn probe_allows(
    content_type: Option<Seq<char>>,
    content_length: Option<Seq<char>>,
) -> bool {
    &&& content_type matches Some(kind) ==> is_text_type(kind)
    &&& content_length matches Some(length) ==> !(parsed_u64(length) matches Some(size) && size
        > MAX_SIZE)
}

fn has_suffix(text: &Vec<char>, suffix: &str) -> (found: bool)
    ensures
        found == ends_with(text@, suffix@),
{
    let tail = chars_of(suffix);
    if tail.len() > text.len() {
        return false;
    }
    same_chars(&tail, text, text.len() - tail.len(), text.len())
}

fn has_prefix(text: &Vec<char>, prefix: &str) -> (found: bool)
    ensures
        found == starts_with(text@, prefix@),
{
    let head = chars_of(prefix);
    if head.len() > text.len() {
        return false;
    }
    same_chars(&head, text, 0, head.len())
}

/// Whether the path of `url_lower`, an address already in small letters,
/// ends with one of the binary endings.
pub fn has_binary_extension(url_lower: &str) -> (binary: bool)
    ensures
        binary == ends_with_any(path_of(url_lower@), binary_extensions()),
{
    let endings: Vec<&'static str> = vec![
        ".exe",
        ".apk",
        ".dmg",
        ".pkg",
        ".deb",
        ".rpm",
        ".zip",
        ".rar",
        ".7z",
        ".tar",
        ".gz",
        ".bz2",
        ".pdf",
        ".doc",
        ".docx",
        ".xls",
        ".xlsx",
        ".ppt",
        ".pptx",
        ".jpg",
        ".jpeg",
        ".png",
        ".gif",
        ".bmp",
        ".svg",
        ".ico",
        ".mp3",
        ".mp4",
        ".avi",
        ".mov",
        ".wmv",
        ".flv",
        ".bin",
        ".dll",
        ".so",
        ".dylib",
        ".class",
        ".jar",
    ];
    let address = chars_of(url_lower);
    let end = scan_run(&address, 0, CharClass::Path);
    proof {
        lemma_run_end(address@, 0, CharClass::Path);
    }
    let text = chars_of(string_of_range(&address, 0, end).as_str());
    let mut i: usize = 0;
    while i < endings.len()
        invariant
            i <= endings.len(),
            text@ == path_of(url_lower@),
            endings@.map_values(|s: &'static str| s@) == binary_extensions(),
            forall|k: int| 0 <= k < i ==> !ends_with(text@, #[trigger] binary_extensions()[k]),
        decreases endings.len() - i,
    {
        assert(endings@.map_values(|s: &'static str| s@)[i as int] == endings[i as int]@);
        if has_suffix(&text, endings[i]) {
            assert(ends_with(text@, binary_extensions()[i as int]));
            return true;
        }
        i += 1;
    }
    false
}

/// Whether the address names a binary file.
pub fn is_binary_extension(url: &String) -> (binary: bool)
    ensures
        binary == names_binary(url@),
{
    let url_lower = to_lowercase(url.as_str());
    has_binary_extension(url_lower.as_str())
}

/// Whether the content type counts as text.
pub fn is_text_content(content_type: &String) -> (text: bool)
    ensures
        text == is_text_type(content_type@),
{
    let starts: Vec<&'static str> = vec![
        "text/html",
        "text/plain",
        "text/xml",
        "application/xml",
        "application/xhtml+xml",
        "text/css",
        "text/javascript",
        "application/json",
        "application/ld+json",
    ];
    let kind = chars_of(content_type.as_str());
    let mut i: usize = 0;
    while i < starts.len()
        invariant
            i <= starts.len(),
            kind@ == content_type@,
            starts@.map_values(|s: &'static str| s@) == text_types(),
            forall|k: int| 0 <= k < i ==> !starts_with(kind@, #[trigger] text_types()[k]),
        decreases starts.len() - i,
    {
        assert(starts@.map_values(|s: &'static str| s@)[i as int] == starts[i as int]@);
        if has_prefix(&kind, starts[i]) {
            assert(starts_with(kind@, text_types()[i as int]));
            return true;
        }
        i += 1;
    }
    false
}

/// Whether the address is worth a probe: it does not name a binary file.
pub fn should_fetch(url: &String) -> (fetch: bool)
    ensures
        fetch == !names_binary(url@),
{
    !is_binary_extension(url)
}

proof fn lemma_decimal_grows(digits: Seq<char>, n: int)
    requires
        0 <= n <= digits.len(),
        forall|i: int| 0 <= i < digits.len() ==> is_digit(#[trigger] digits[i]),
    ensures
        decimal(digits.take(n)) <= decimal(digits),
    decreases digits.len() - n,
{
    if n < digits.len() {
        lemma_decimal_grows(digits, n + 1);
        assert(digits.take(n + 1).drop_last() == digits.take(n));
    } else {
        assert(digits.take(n) == digits);
    }
}

/// The number that `text` writes, if it writes one that fits in 64 bits.
pub fn parse_u64(text: &str) -> (value: Option<u64>)
    ensures
        value == parsed_u64(text@),
{
    let all = chars_of(text);
    let start: usize = if all.len() > 0 && all[0] == '+' {
        1
    } else {
        0
    };
    let ghost digits = unsigned_part(text@);
    if start == all.len() {
        return None;
    }
    let mut value: u64 = 0;
    let mut i: usize = start;
    while i < all.len()
        invariant
            start <= i <= all.len(),
            start < all.len(),
            digits == unsigned_part(text@),
            digits == all@.subrange(start as int, all.len() as int),
            forall|k: int| 0 <= k < i - start ==> is_digit(#[trigger] digits[k]),
            value == decimal(digits.take(i - start)),
        decreases all.len() - i,
    {
        let c = all[i];
        assert(digits[i - start] == c);
        if !('0' <= c && c <= '9') {
            return None;
        }
        let digit: u64 = (c as u32 - '0' as u32) as u64;
        proof {
            assert(digits.take(i - start + 1).drop_last() == digits.take(i - start));
        }
        let grown = match value.checked_mul(10) {
            Some(tens) => tens.checked_add(digit),
            None => None,
        };
        match grown {
            Some(next) => {
                value = next;
            },
            None => {
                proof {
                    if forall|k: int| 0 <= k < digits.len() ==> is_digit(#[trigger] digits[k]) {
                        lemma_decimal_grows(digits, i - start + 1);
                    }
                }
                return None;
            },
        }
        i += 1;
    }
    assert(digits.take(digits.len() as int) == digits);
    Some(value)
}

/// Whether the headers of a probe allow the fetch.
pub fn should_fetch_after_probe(content_type: Option<&String>, content_length: Option<&String>) -> (fetch:
    bool)
    ensures
        fetch == probe_allows(
            match content_type {
                Some(kind) => Some(kind@),
                None => None,
            },
            match content_length {
                Some(length) => Some(length@),
                None => None,
            },
        ),
{
    match content_type {
        Some(kind) => {
            if !is_text_content(kind) {
                return false;
            }
        },
        None => {},
    }
    match content_length {
        Some(length) => {
            match parse_u64(length.as_str()) {
                Some(size) => size <= MAX_SIZE,
                None => true,
            }
        },
        None => true,
    }
}

} // verus!
