use marker_fixer::error::MarkerFixerError;
use marker_fixer::ffprobe::{
    bundled_ffprobe_components, chapter_title, detect_frame_rate, exit_failure_error,
    normalize_frame_rate_expr, parse_rational_parts, rate_parts, resolve_ffprobe_path,
    spawn_failure_error, ProbeStream, ToolSource,
};

fn fps(rate: &str) -> Option<f64> {
    rate_parts(rate).map(|(n, d)| n as f64 / d as f64)
}

#[test]
fn parses_common_fps_values() {
    let pairs = [
        ("24000/1001", 23.976023976023978_f64),
        ("24/1", 24.0),
        ("25/1", 25.0),
        ("30000/1001", 29.97002997002997_f64),
        ("30/1", 30.0),
        ("50/1", 50.0),
        ("60/1", 60.0),
    ];

    for (rate, expected) in pairs {
        let parsed = fps(rate).expect("rate should parse");
        assert!((parsed - expected).abs() < 0.000_001);
    }
}

#[test]
fn normalizes_frame_rate_expr_for_xmp() {
    assert_eq!(normalize_frame_rate_expr("60/1"), "f60");
    assert_eq!(normalize_frame_rate_expr("30000/1001"), "f30000/1001");
}

#[test]
fn normalizes_text_that_is_no_rational() {
    assert_eq!(normalize_frame_rate_expr(" 29.97 "), "f29.97");
    assert_eq!(normalize_frame_rate_expr(" 25 / 1 /7"), "f25");
}

#[test]
fn rational_parts_follow_split_and_trim() {
    assert_eq!(parse_rational_parts("24000/1001"), Some((24000, 1001)));
    assert_eq!(parse_rational_parts(" 30 / 1 "), Some((30, 1)));
    assert_eq!(parse_rational_parts("1/2/3"), Some((1, 2)));
    assert_eq!(parse_rational_parts("+7/+2"), Some((7, 2)));
    assert_eq!(parse_rational_parts("30"), None);
    assert_eq!(parse_rational_parts("a/1"), None);
    assert_eq!(parse_rational_parts("1/"), None);
    assert_eq!(parse_rational_parts("-1/1"), None);
}

#[test]
fn unusable_rates_are_refused() {
    assert_eq!(rate_parts("0/0"), None);
    assert_eq!(rate_parts("30/0"), None);
    assert_eq!(rate_parts("0/1"), None);
    assert_eq!(rate_parts("25/1"), Some((25, 1)));
}

fn stream(avg: Option<&str>, r: Option<&str>, kind: Option<&str>) -> ProbeStream {
    ProbeStream {
        avg_frame_rate: avg.map(String::from),
        r_frame_rate: r.map(String::from),
        codec_type: kind.map(String::from),
    }
}

#[test]
fn frame_rate_comes_from_the_first_video_stream() {
    let streams = vec![
        stream(Some("44100/1"), None, Some("audio")),
        stream(Some("0/0"), Some("60/1"), Some("video")),
        stream(Some("30/1"), None, Some("video")),
    ];
    let rate = detect_frame_rate(&streams).expect("rate");
    assert_eq!((rate.numerator, rate.denominator, rate.expr.as_str()), (60, 1, "f60"));

    let avg = detect_frame_rate(&[stream(Some("30000/1001"), Some("30/1"), Some("video"))]).expect("rate");
    assert_eq!(avg.expr, "f30000/1001");
}

#[test]
fn frame_rate_errors() {
    match detect_frame_rate(&[stream(Some("30/1"), None, Some("audio"))]) {
        Err(MarkerFixerError::InvalidMetadata(m)) => assert_eq!(m, "No video stream found in ffprobe output"),
        other => panic!("unexpected {:?}", other),
    }
    match detect_frame_rate(&[stream(Some("0/0"), None, Some("video"))]) {
        Err(MarkerFixerError::InvalidMetadata(m)) => {
            assert_eq!(m, "Unable to derive FPS from avg_frame_rate/r_frame_rate")
        }
        other => panic!("unexpected {:?}", other),
    }
}

#[test]
fn ffprobe_resolution_order() {
    let r = resolve_ffprobe_path(Some("/x/ffprobe"), true, "/b/ffprobe", true).expect("ok");
    assert_eq!((r.path.as_str(), r.source), ("/x/ffprobe", ToolSource::Override));
    match resolve_ffprobe_path(Some("/x/ffprobe"), false, "/b/ffprobe", true) {
        Err(MarkerFixerError::ExternalTool { tool, message }) => {
            assert_eq!(tool, "ffprobe");
            assert_eq!(message, "Provided --ffprobe path does not exist: /x/ffprobe");
        }
        other => panic!("unexpected {:?}", other),
    }
    let b = resolve_ffprobe_path(None, false, "/b/ffprobe", true).expect("ok");
    assert_eq!((b.path.as_str(), b.source), ("/b/ffprobe", ToolSource::Bundled));
    let p = resolve_ffprobe_path(None, false, "/b/ffprobe", false).expect("ok");
    assert_eq!((p.path.as_str(), p.source), ("ffprobe", ToolSource::PathFallback));
    assert_eq!(p.expected_bundle_path, "/b/ffprobe");
}

#[test]
fn bundled_ffprobe_location() {
    assert_eq!(bundled_ffprobe_components("linux", "x86_64"), vec!["fftools", "linux", "x86_64", "ffprobe"]);
    assert_eq!(bundled_ffprobe_components("windows", "x86_64")[3], "ffprobe.exe");
    assert_eq!(bundled_ffprobe_components("macos", "aarch64"), vec!["fftools", "macos", "arm64", "ffprobe"]);
}

#[test]
fn ffprobe_failure_messages() {
    let e = spawn_failure_error("ffprobe", "No such file", true, ToolSource::PathFallback, "/b/ffprobe");
    assert_eq!(
        e.message(),
        "External tool error (ffprobe): failed to execute ffprobe at ffprobe: No such file. \
ffprobe was not found in PATH and no bundled binary was detected. Expected bundled path: /b/ffprobe"
    );
    let e2 = spawn_failure_error("/x", "denied", false, ToolSource::Override, "/b");
    assert_eq!(e2.message(), "External tool error (ffprobe): failed to execute ffprobe at /x: denied");
    let e3 = exit_failure_error("  bad input\n", "/x", "exit status: 1");
    assert_eq!(e3.message(), "External tool error (ffprobe): bad input");
    let e4 = exit_failure_error(" \n", "/x", "exit status: 1");
    assert_eq!(e4.message(), "External tool error (ffprobe): /x exited with status exit status: 1");
}

#[test]
fn chapter_titles_are_trimmed() {
    assert_eq!(chapter_title(Some("  Goal ")), Some("Goal".to_string()));
    assert_eq!(chapter_title(Some(" \t ")), None);
    assert_eq!(chapter_title(None), None);
}
