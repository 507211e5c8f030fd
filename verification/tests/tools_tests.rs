use marker_fixer::error::MarkerFixerError;
use marker_fixer::tools::{
    available_on_path, bundled_tools_components, download_specs, platform_and_arch,
    resolve_tool_for_execution, resolve_tool_step, tool_filename, ToolCheck, ToolFacts, ToolKind,
    ToolLookup,
};

#[test]
fn tool_names() {
    assert_eq!(ToolKind::Ffmpeg.binary_name(), "ffmpeg");
    assert_eq!(ToolKind::Ffprobe.display_name(), "ffprobe");
    assert_eq!(tool_filename(ToolKind::Ffmpeg, "windows"), "ffmpeg.exe");
    assert_eq!(tool_filename(ToolKind::Ffprobe, "linux"), "ffprobe");
}

#[test]
fn platform_directories() {
    assert_eq!(platform_and_arch("macos", "aarch64"), ("macos".to_string(), "arm64".to_string()));
    assert_eq!(platform_and_arch("linux", "x86_64"), ("linux".to_string(), "x86_64".to_string()));
    assert_eq!(bundled_tools_components("macos", "aarch64"), vec!["fftools", "macos", "arm64"]);
}

#[test]
fn download_urls_per_platform() {
    let specs = download_specs("linux", "x86_64").expect("supported");
    assert_eq!(specs.len(), 2);
    assert_eq!(specs[0].filename, "ffmpeg");
    assert_eq!(
        specs[1].url,
        "https://github.com/eugeneware/ffmpeg-static/releases/download/b6.1.1/ffprobe-linux-x64"
    );
    assert_eq!(download_specs("windows", "x86_64").expect("supported")[1].filename, "ffprobe.exe");
    match download_specs("freebsd", "riscv64") {
        Err(MarkerFixerError::ExternalTool { tool, message }) => {
            assert_eq!(tool, "runtime-downloader");
            assert_eq!(message, "unsupported platform for auto-download: freebsd/riscv64");
        }
        other => panic!("unexpected {:?}", other.map(|v| v.len())),
    }
}

#[test]
fn path_probe_outcome() {
    assert!(available_on_path(true, false));
    assert!(available_on_path(false, false));
    assert!(!available_on_path(false, true));
}

#[test]
fn lookup_walks_override_bundle_path_and_download() {
    let mut facts = ToolFacts::new();
    match resolve_tool_step(ToolKind::Ffmpeg, None, "/b/ffmpeg", true, &facts) {
        ToolLookup::Check(c) => assert_eq!(c, ToolCheck::BundledExists),
        other => panic!("unexpected {:?}", other),
    }
    facts.bundled_exists = Some(false);
    match resolve_tool_step(ToolKind::Ffmpeg, None, "/b/ffmpeg", true, &facts) {
        ToolLookup::Check(c) => assert_eq!(c, ToolCheck::OnPath),
        other => panic!("unexpected {:?}", other),
    }
    facts.on_path = Some(false);
    match resolve_tool_step(ToolKind::Ffmpeg, None, "/b/ffmpeg", true, &facts) {
        ToolLookup::Check(c) => assert_eq!(c, ToolCheck::Download),
        other => panic!("unexpected {:?}", other),
    }
    facts.download = Some(Ok(()));
    facts.bundled_exists_after_download = Some(true);
    match resolve_tool_step(ToolKind::Ffmpeg, None, "/b/ffmpeg", true, &facts) {
        ToolLookup::Found(p) => assert_eq!(p, "/b/ffmpeg"),
        other => panic!("unexpected {:?}", other),
    }
    match resolve_tool_for_execution(ToolKind::Ffmpeg, None, "/b/ffmpeg", &facts) {
        ToolLookup::Failed(e) => assert_eq!(
            e.message(),
            "External tool error (ffmpeg): ffmpeg not found. Searched override path, bundled location (/b/ffmpeg), and system PATH."
        ),
        other => panic!("unexpected {:?}", other),
    }
}

#[test]
fn lookup_with_override_and_path() {
    let mut facts = ToolFacts::new();
    facts.override_exists = Some(false);
    match resolve_tool_for_execution(ToolKind::Ffprobe, Some("/o/ffprobe"), "/b", &facts) {
        ToolLookup::Failed(e) => {
            assert_eq!(e.message(), "External tool error (ffprobe): Provided path does not exist: /o/ffprobe")
        }
        other => panic!("unexpected {:?}", other),
    }
    let mut facts2 = ToolFacts::new();
    facts2.bundled_exists = Some(false);
    facts2.on_path = Some(true);
    match resolve_tool_for_execution(ToolKind::Ffprobe, None, "/b", &facts2) {
        ToolLookup::Found(p) => assert_eq!(p, "ffprobe"),
        other => panic!("unexpected {:?}", other),
    }
}
