use marker_fixer::error::{IoResultExt, MarkerFixerError};
use marker_fixer::text::{contains_str, parse_u64, str_is_blank, trimmed, u64_to_decimal, IntParseError};

#[test]
fn trims_unicode_whitespace() {
    assert_eq!(trimmed("  a b \t\n"), "a b");
    assert_eq!(trimmed("\u{3000}x\u{a0}"), "x");
    assert_eq!(trimmed("   "), "");
    assert!(str_is_blank(" \r\n\u{2003}"));
    assert!(!str_is_blank(" . "));
}

#[test]
fn decimal_text_round_trips() {
    for n in [0u64, 7, 10, 141, 30000, u64::MAX] {
        let s = u64_to_decimal(n);
        assert_eq!(s, n.to_string());
        assert_eq!(parse_u64(&s), Ok(n));
    }
}

#[test]
fn parse_u64_matches_std() {
    for s in ["", "+", "-", "-1", "+12", "12a", "007", "18446744073709551616", "99999999999999999999x", " 1"] {
        let ours = parse_u64(s);
        let std = s.parse::<u64>();
        assert_eq!(ours.is_ok(), std.is_ok(), "{s}");
        match (ours, std) {
            (Ok(a), Ok(b)) => assert_eq!(a, b),
            (Err(a), Err(b)) => assert_eq!(a.message(), b.to_string()),
            _ => unreachable!(),
        }
    }
    assert_eq!(parse_u64(""), Err(IntParseError::Empty));
    assert_eq!(parse_u64("18446744073709551616"), Err(IntParseError::PosOverflow));
}

#[test]
fn substring_search() {
    assert!(contains_str("<x:xmpmeta a>", "<x:xmpmeta"));
    assert!(contains_str("abc", ""));
    assert!(!contains_str("ab", "abc"));
    assert!(!contains_str("</x:xmpmetX>", "</x:xmpmeta>"));
}

#[test]
fn error_messages() {
    assert_eq!(MarkerFixerError::NoInputPaths.message(), "No input paths provided");
    assert_eq!(MarkerFixerError::PathMissing("/a".into()).message(), "Path does not exist: /a");
    assert_eq!(
        MarkerFixerError::Io { path: "/p".into(), message: "gone".into() }.message(),
        "I/O error at /p: gone"
    );
    assert_eq!(MarkerFixerError::InvalidMetadata("m".into()).message(), "Invalid media metadata: m");
    assert_eq!(MarkerFixerError::InvalidMp4("m".into()).message(), "Invalid MP4 structure: m");
    assert_eq!(MarkerFixerError::InvalidXmp("m".into()).message(), "Invalid XMP metadata: m");
}

#[test]
fn io_errors_carry_their_path() {
    let ok: Result<u8, std::io::Error> = Ok(3);
    assert_eq!(ok.at_path("/f").ok(), Some(3));
    let err: Result<u8, std::io::Error> = Err(std::io::Error::new(std::io::ErrorKind::Other, "boom"));
    match err.at_path("/f") {
        Err(MarkerFixerError::Io { path, message }) => {
            assert_eq!(path, "/f");
            assert_eq!(message, "boom");
        }
        other => panic!("unexpected {:?}", other),
    }
}
