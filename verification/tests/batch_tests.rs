use marker_fixer::batch::{
    existing_markers, is_mp4, marker_packet, markers_after_parse, markers_from_chapters,
    next_file_step, output_file_name, App, ChapterFrame, FileReport, FileStatus, FileStep,
};
use marker_fixer::error::MarkerFixerError;
use marker_fixer::mp4::{read_xmp_payload_from, write_xmp_into};
use marker_fixer::paths::{sorted_unique_order, PathComponent};
use marker_fixer::xmp::{parse_markers, Marker, ParsedMarkers};

#[test]
fn detects_mp4_extensions_case_insensitively() {
    assert!(is_mp4("video.mp4"));
    assert!(is_mp4("video.MP4"));
    assert!(!is_mp4("video.mov"));
}

#[test]
fn mp4_extension_edge_cases() {
    assert!(!is_mp4(".mp4"));
    assert!(!is_mp4("mp4"));
    assert!(!is_mp4(".."));
    assert!(is_mp4("a.b.Mp4"));
    assert!(!is_mp4("video.mp4."));
}

#[test]
fn output_file_names() {
    assert_eq!(output_file_name("input.mp4", "_fixed"), "input_fixed.mp4");
    assert_eq!(output_file_name("input_fixed.mp4", "_fixed"), "input_fixed_fixed.mp4");
    assert_eq!(output_file_name("clip.MP4", "-x"), "clip-x.MP4");
    assert_eq!(output_file_name("noext", "_fixed"), "noext_fixed");
    assert_eq!(output_file_name(".hidden", "_f"), ".hidden_f");
}

#[test]
fn report_lines_and_exit_code() {
    let reports = vec![
        FileReport { path: "a.mp4".into(), status: FileStatus::Converted },
        FileReport { path: "b.mp4".into(), status: FileStatus::SkippedNoChapters },
        FileReport { path: "c.mov".into(), status: FileStatus::SkippedNotMp4 },
        FileReport { path: "d.mp4".into(), status: FileStatus::Failed("boom".into()) },
    ];
    let lines: Vec<String> = reports.iter().map(App::report_line).collect();
    assert_eq!(
        lines,
        vec!["a.mp4: converted", "b.mp4: skipped(no_chapters)", "c.mov: skipped(not_mp4)", "d.mp4: failed(boom)"]
    );
    assert_eq!(App::exit_code(&reports), 1);
    assert_eq!(App::exit_code(&reports[..3]), 0);
    assert_eq!(App::exit_code(&[]), 0);
}

fn key(parts: &[&str]) -> Vec<PathComponent> {
    parts
        .iter()
        .map(|p| match *p {
            "/" => PathComponent { kind: 1, bytes: b"/".to_vec() },
            name => PathComponent { kind: 4, bytes: name.as_bytes().to_vec() },
        })
        .collect()
}

#[test]
fn paths_sort_by_component_once_each() {
    let keys = vec![
        key(&["dir", "b.mp4"]),
        key(&["dir", "a.mp4"]),
        key(&["dir", "b.mp4"]),
        key(&["dir-x", "a.mp4"]),
        key(&["/", "abs.mp4"]),
        key(&["dir"]),
    ];
    assert_eq!(sorted_unique_order(&keys), vec![4, 5, 1, 0, 3]);
    assert!(sorted_unique_order(&[]).is_empty());
}

#[test]
fn chapters_become_markers() {
    let markers = markers_from_chapters(&[
        ChapterFrame { start_frame: 48, title: Some(" One ".into()) },
        ChapterFrame { start_frame: 141, title: None },
    ]);
    assert_eq!(markers.len(), 2);
    assert_eq!((markers[0].start_frame, markers[0].name.as_deref()), (48, Some("One")));
    assert_eq!((markers[1].start_frame, markers[1].name.as_deref()), (141, None));
    assert_ne!(markers[0].guid, markers[1].guid);
}

#[test]
fn utf8_payloads() {
    let text = "<x:xmpmeta><rdf:Description xmpDM:trackName=\"Markers\"><xmpDM:markers>\
<rdf:Description xmpDM:startTime=\"3\" xmpDM:name=\"héllo\" xmpDM:guid=\"g\"></rdf:Description>\
</xmpDM:markers></rdf:Description></x:xmpmeta>";
    let markers = existing_markers(Some(text.as_bytes()), false).expect("utf8 packet");
    assert_eq!(markers.len(), 1);
    assert_eq!(markers[0].name.as_deref(), Some("héllo"));
    assert!(existing_markers(Some(&[0xff, 0xfe]), false).is_err());
}

#[test]
fn malformed_packets_need_force() {
    let err = Err(MarkerFixerError::InvalidXmp("bad".into()));
    match markers_after_parse(err, false) {
        Err(MarkerFixerError::InvalidXmp(m)) => assert_eq!(m, "bad"),
        other => panic!("unexpected {:?}", other),
    }
    let err2 = Err(MarkerFixerError::InvalidXmp("bad".into()));
    assert_eq!(markers_after_parse(err2, true).expect("forced").len(), 0);
    let ok = Ok(ParsedMarkers { frame_rate: None, markers: vec![Marker { start_frame: 1, name: None, comment: None, guid: "g".into() }] });
    assert_eq!(markers_after_parse(ok, false).expect("ok").len(), 1);
    assert_eq!(existing_markers(None, false).expect("none").len(), 0);
    match existing_markers(Some(&[0xff]), false) {
        Err(MarkerFixerError::InvalidXmp(m)) => assert_eq!(m, "XMP payload is not valid UTF-8"),
        other => panic!("unexpected {:?}", other),
    }
    assert_eq!(existing_markers(Some(&[0xff]), true).expect("forced").len(), 0);
}

fn plain_box(kind: &[u8; 4], payload: &[u8]) -> Vec<u8> {
    let mut v = ((8 + payload.len()) as u32).to_be_bytes().to_vec();
    v.extend_from_slice(kind);
    v.extend_from_slice(payload);
    v
}

fn sample_video() -> Vec<u8> {
    let mut f = plain_box(b"ftyp", b"isom0000");
    f.extend(plain_box(b"moov", &[1; 40]));
    f.extend(plain_box(b"mdat", &[2; 100]));
    f
}

fn twelve_chapters() -> Vec<ChapterFrame> {
    (0..12).map(|i| ChapterFrame { start_frame: i * 600, title: Some(format!("Chapter {}", i + 1)) }).collect()
}

fn convert(video: &[u8], force: bool) -> Result<Vec<u8>, MarkerFixerError> {
    let payload = read_xmp_payload_from(video)?;
    let existing = existing_markers(payload.as_deref(), force)?;
    let xml = marker_packet("f60", existing, markers_from_chapters(&twelve_chapters()));
    write_xmp_into(video, xml.as_bytes())
}

fn count_xmp_markers(video: &[u8]) -> usize {
    let payload = read_xmp_payload_from(video).expect("read").expect("xmp should exist");
    String::from_utf8(payload).expect("utf8").matches("xmpDM:startTime=").count()
}

#[test]
fn converts_obs_chapters_into_xmp_markers() {
    let output = convert(&sample_video(), false).expect("conversion");
    assert!(read_xmp_payload_from(&output).expect("read").is_some(), "expected xmp in output file");
    assert_eq!(count_xmp_markers(&output), 12);
}

#[test]
fn merge_run_does_not_duplicate_existing_markers() {
    let first = convert(&sample_video(), false).expect("first run");
    let second = convert(&first, false).expect("second run");
    assert_eq!(count_xmp_markers(&second), 12);
}

#[test]
fn malformed_xmp_requires_force_flag() {
    let first = convert(&sample_video(), false).expect("first run");
    let payload = read_xmp_payload_from(&first).expect("read").expect("xmp");
    let corrupted = String::from_utf8(payload).expect("utf8").replace("</x:xmpmeta>", "</x:xmpmetX>");
    assert!(parse_markers(&corrupted).is_err());
    let broken = write_xmp_into(&first, corrupted.as_bytes()).expect("write");
    assert!(convert(&broken, false).is_err());
    let forced = convert(&broken, true).expect("forced run");
    assert_eq!(count_xmp_markers(&forced), 12);
}

fn step_text(step: FileStep) -> String {
    match step {
        FileStep::Probe => "probe".to_string(),
        FileStep::Convert => "convert".to_string(),
        FileStep::Report(status) => App::report_line(&FileReport { path: "f".to_string(), status }),
    }
}

#[test]
fn file_steps_follow_the_decisions() {
    let probe_error = || Some(Err(MarkerFixerError::ExternalTool { tool: "ffprobe".to_string(), message: "boom".to_string() }));
    assert_eq!(step_text(next_file_step(false, None, false, None)), "f: skipped(not_mp4)");
    assert_eq!(step_text(next_file_step(true, None, false, None)), "probe");
    assert_eq!(
        step_text(next_file_step(true, probe_error(), false, None)),
        "f: failed(External tool error (ffprobe): boom)"
    );
    assert_eq!(step_text(next_file_step(true, Some(Ok(0)), false, None)), "f: skipped(no_chapters)");
    assert_eq!(step_text(next_file_step(true, Some(Ok(3)), true, None)), "f: converted");
    assert_eq!(step_text(next_file_step(true, Some(Ok(3)), false, None)), "convert");
    assert_eq!(step_text(next_file_step(true, Some(Ok(3)), false, Some(Ok(())))), "f: converted");
    assert_eq!(
        step_text(next_file_step(true, Some(Ok(3)), false, Some(Err(MarkerFixerError::InvalidMp4("bad".to_string()))))),
        "f: failed(Invalid MP4 structure: bad)"
    );
}
