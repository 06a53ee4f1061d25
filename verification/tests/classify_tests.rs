use indexer::classify::{
    has_binary_extension, is_binary_extension, is_text_content, parse_u64, should_fetch,
    should_fetch_after_probe, MAX_SIZE,
};

#[test]
fn known_binary_endings_are_rejected() {
    for ending in [
        ".exe", ".apk", ".dmg", ".pkg", ".deb", ".rpm", ".zip", ".rar", ".7z", ".tar", ".gz",
        ".bz2", ".pdf", ".doc", ".docx", ".xls", ".xlsx", ".ppt", ".pptx", ".jpg", ".jpeg",
        ".png", ".gif", ".bmp", ".svg", ".ico", ".mp3", ".mp4", ".avi", ".mov", ".wmv", ".flv",
        ".bin", ".dll", ".so", ".dylib", ".class", ".jar",
    ] {
        let url = format!("https://example.com/file{ending}");
        assert!(is_binary_extension(&url), "{url}");
        assert!(!should_fetch(&url), "{url}");
    }
}

#[test]
fn capitals_do_not_hide_a_binary_ending() {
    assert!(is_binary_extension(&"https://example.com/SETUP.EXE".to_string()));
    assert!(is_binary_extension(&"https://example.com/Photo.JpEg".to_string()));
    assert!(!has_binary_extension("https://example.com/SETUP.EXE"));
    assert!(has_binary_extension("https://example.com/setup.exe"));
}

#[test]
fn pages_are_not_binary() {
    for url in [
        "https://example.com/",
        "https://example.com/index.html",
        "https://example.com/pdf",
        "exe",
        "",
    ] {
        assert!(!is_binary_extension(&url.to_string()), "{url}");
        assert!(should_fetch(&url.to_string()), "{url}");
    }
    assert!(is_binary_extension(&".so".to_string()));
}

#[test]
fn text_types_are_told_by_their_start() {
    for kind in [
        "text/html",
        "text/html; charset=utf-8",
        "text/plain",
        "text/xml",
        "application/xml",
        "application/xhtml+xml",
        "text/css",
        "text/javascript",
        "application/json",
        "application/ld+json",
    ] {
        assert!(is_text_content(&kind.to_string()), "{kind}");
    }
    for kind in ["image/png", "application/pdf", "", "text", " text/html", "TEXT/HTML", "application/octet-stream"] {
        assert!(!is_text_content(&kind.to_string()), "{kind}");
    }
}

#[test]
fn lengths_are_read_as_the_standard_library_reads_them() {
    for text in [
        "0", "7", "0010", "+5", "10485760", "10485761", "18446744073709551615",
        "18446744073709551616", "99999999999999999999999", "", "+", "-1", " 1", "1 ", "1.5",
        "0x10", "++1", "1+", "\u{661}",
    ] {
        assert_eq!(parse_u64(text), text.parse::<u64>().ok(), "{text:?}");
    }
    assert_eq!(parse_u64("10485760"), Some(10485760));
    assert_eq!(parse_u64("18446744073709551615"), Some(u64::MAX));
    assert_eq!(parse_u64("18446744073709551616"), None);
}

#[test]
fn the_ceiling_is_ten_mebibytes() {
    assert_eq!(MAX_SIZE, 10 * 1024 * 1024);
}

#[test]
fn missing_headers_allow_the_fetch() {
    assert!(should_fetch_after_probe(None, None));
}

#[test]
fn a_content_type_that_is_no_text_forbids_the_fetch() {
    let html = "text/html; charset=utf-8".to_string();
    let image = "image/png".to_string();
    let unreadable = String::new();
    assert!(should_fetch_after_probe(Some(&html), None));
    assert!(!should_fetch_after_probe(Some(&image), None));
    assert!(!should_fetch_after_probe(Some(&unreadable), None));
}

#[test]
fn a_length_above_the_ceiling_forbids_the_fetch() {
    let html = "text/html".to_string();
    let at = "10485760".to_string();
    let above = "10485761".to_string();
    let garbled = "ten".to_string();
    let huge = "99999999999999999999999".to_string();
    assert!(should_fetch_after_probe(Some(&html), Some(&at)));
    assert!(!should_fetch_after_probe(Some(&html), Some(&above)));
    assert!(!should_fetch_after_probe(None, Some(&above)));
    assert!(should_fetch_after_probe(None, Some(&garbled)));
    assert!(should_fetch_after_probe(None, Some(&huge)));
    let image = "image/png".to_string();
    assert!(!should_fetch_after_probe(Some(&image), Some(&at)));
}

#[test]
fn a_query_or_a_fragment_does_not_hide_a_binary_ending() {
    for url in [
        "https://example.com/a.zip?download=1",
        "https://example.com/a.zip#top",
        "https://example.com/A.ZIP?x=1#y",
        "https://example.com/setup.exe?",
        "https://example.com/photo.png#",
    ] {
        assert!(is_binary_extension(&url.to_string()), "{url}");
        assert!(!should_fetch(&url.to_string()), "{url}");
    }
    assert!(has_binary_extension("https://example.com/a.zip?download=1"));
    assert!(has_binary_extension("/a.so#x?y"));
}

#[test]
fn a_binary_ending_in_the_query_is_none_of_the_path() {
    for url in [
        "https://example.com/page?file=a.zip",
        "https://example.com/page#a.zip",
        "https://example.com/?a.exe",
        "https://example.com/a.zip.html?x=.zip",
    ] {
        assert!(!is_binary_extension(&url.to_string()), "{url}");
        assert!(should_fetch(&url.to_string()), "{url}");
    }
}
