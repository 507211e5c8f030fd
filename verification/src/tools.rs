//! Finding the FFmpeg tools: where bundled binaries live for each platform, where they are
//! downloaded from, and the order in which a tool is looked for.
use vstd::prelude::*;

use crate::error::{ErrorView, MarkerFixerError};
use crate::text::str_eq;

verus! {

broadcast use vstd::string::group_string_axioms;

/// One of the two FFmpeg tools.
#[derive(Debug, Clone, Copy, PartialEq, Eq, Structural)]
pub enum ToolKind {
    Ffmpeg,
    Ffprobe,
}

impl ToolKind {
    pub open spec fn spec_binary_name(self) -> Seq<char> {
        match self {
            ToolKind::Ffmpeg => "ffmpeg"@,
            ToolKind::Ffprobe => "ffprobe"@,
        }
    }

    /// The name of the tool's binary.
    pub fn binary_name(self) -> (r: &'static str)
        ensures
            r@ == self.spec_binary_name(),
    {
        match self {
            ToolKind::Ffmpeg => "ffmpeg",
            ToolKind::Ffprobe => "ffprobe",
        }
    }

    /// The name the tool goes by in messages: its binary's name.
    pub fn display_name(self) -> (r: &'static str)
        ensures
            r@ == self.spec_binary_name(),
    {
        self.binary_name()
    }
}

/// The platform and architecture directories of the bundled tools for the operating system
/// `os` and architecture `arch` that Rust reports: `aarch64` on macOS is `arm64`.
pub open spec fn spec_platform_and_arch(os: Seq<char>, arch: Seq<char>) -> (Seq<char>, Seq<char>) {
    if os == "macos"@ && arch == "aarch64"@ {
        ("macos"@, "arm64"@)
    } else {
        (os, arch)
    }
}

/// The platform and architecture directories of the bundled tools.
pub fn platform_and_arch(os: &str, arch: &str) -> (r: (String, String))
    ensures
        (r.0@, r.1@) == spec_platform_and_arch(os@, arch@),
{
    if str_eq(os, "macos") && str_eq(arch, "aarch64") {
        ("macos".to_string(), "arm64".to_string())
    } else {
        (os.to_string(), arch.to_string())
    }
}

/// The directory of the bundled tools below the executable's directory, as its components.
pub fn bundled_tools_components(os: &str, arch: &str) -> (r: Vec<String>)
    ensures
        r@.len() == 3,
        r@[0]@ == "fftools"@,
        (r@[1]@, r@[2]@) == spec_platform_and_arch(os@, arch@),
{
    let (p, a) = platform_and_arch(os, arch);
    let mut v: Vec<String> = Vec::new();
    v.push("fftools".to_string());
    v.push(p);
    v.push(a);
    v
}

pub open spec fn spec_tool_filename(tool: ToolKind, os: Seq<char>) -> Seq<char> {
    if os == "windows"@ {
        tool.spec_binary_name() + ".exe"@
    } else {
        tool.spec_binary_name()
    }
}

/// The file name of a tool's binary on the operating system `os`.
pub fn tool_filename(tool: ToolKind, os: &str) -> (r: String)
    ensures
        r@ == spec_tool_filename(tool, os@),
{
    let mut s = tool.binary_name().to_string();
    if str_eq(os, "windows") {
        s.append(".exe");
    }
    s
}

/// A binary to download: the file name to store it under and its URL.
#[derive(Debug, Clone, Copy)]
pub struct DownloadSpec {
    pub filename: &'static str,
    pub url: &'static str,
}

/// What [`download_specs`] gives, as (file name, URL) pairs.
pub open spec fn spec_download_specs(os: Seq<char>, arch: Seq<char>) -> Option<
    Seq<(Seq<char>, Seq<char>)>,
> {
    if os == "macos"@ && arch == "aarch64"@ {
        Some(
            seq![
                ("ffmpeg"@, "https://github.com/eugeneware/ffmpeg-static/releases/download/b6.1.1/ffmpeg-darwin-arm64"@),
                ("ffprobe"@, "https://github.com/eugeneware/ffmpeg-static/releases/download/b6.1.1/ffprobe-darwin-arm64"@),
            ],
        )
    } else if os == "macos"@ && arch == "x86_64"@ {
        Some(
            seq![
                ("ffmpeg"@, "https://github.com/eugeneware/ffmpeg-static/releases/download/b6.1.1/ffmpeg-darwin-x64"@),
                ("ffprobe"@, "https://github.com/eugeneware/ffmpeg-static/releases/download/b6.1.1/ffprobe-darwin-x64"@),
            ],
        )
    } else if os == "linux"@ && arch == "x86_64"@ {
        Some(
            seq![
                ("ffmpeg"@, "https://github.com/eugeneware/ffmpeg-static/releases/download/b6.1.1/ffmpeg-linux-x64"@),
                ("ffprobe"@, "https://github.com/eugeneware/ffmpeg-static/releases/download/b6.1.1/ffprobe-linux-x64"@),
            ],
        )
    } else if os == "windows"@ && arch == "x86_64"@ {
        Some(
            seq![
                ("ffmpeg.exe"@, "https://github.com/eugeneware/ffmpeg-static/releases/download/b6.1.1/ffmpeg-win32-x64"@),
                ("ffprobe.exe"@, "https://github.com/eugeneware/ffmpeg-static/releases/download/b6.1.1/ffprobe-win32-x64"@),
            ],
        )
    } else {
        None
    }
}

pub open spec fn unsupported_platform_error(os: Seq<char>, arch: Seq<char>) -> ErrorView {
    ErrorView::ExternalTool {
        tool: "runtime-downloader"@,
        message: "unsupported platform for auto-download: "@ + os + "/"@ + arch,
    }
}

fn spec_pair(a: &'static str, b: &'static str) -> (r: DownloadSpec)
    ensures
        r.filename@ == a@,
        r.url@ == b@,
{
    DownloadSpec { filename: a, url: b }
}

/// The binaries to download for the operating system `os` and architecture `arch`.
pub fn download_specs(os: &str, arch: &str) -> (r: Result<Vec<DownloadSpec>, MarkerFixerError>)
    ensures
        match (r, spec_download_specs(os@, arch@)) {
            (Ok(v), Some(s)) => v@.len() == s.len() && forall|i: int|
                0 <= i < s.len() ==> (#[trigger] v@[i].filename@, v@[i].url@) == s[i],
            (Err(e), None) => e@ == unsupported_platform_error(os@, arch@),
            _ => false,
        },
{
    let (a, b, c, d) = if str_eq(os, "macos") && str_eq(arch, "aarch64") {
        (
            "ffmpeg",
            "https://github.com/eugeneware/ffmpeg-static/releases/download/b6.1.1/ffmpeg-darwin-arm64",
            "ffprobe",
            "https://github.com/eugeneware/ffmpeg-static/releases/download/b6.1.1/ffprobe-darwin-arm64",
        )
    } else if str_eq(os, "macos") && str_eq(arch, "x86_64") {
        (
            "ffmpeg",
            "https://github.com/eugeneware/ffmpeg-static/releases/download/b6.1.1/ffmpeg-darwin-x64",
            "ffprobe",
            "https://github.com/eugeneware/ffmpeg-static/releases/download/b6.1.1/ffprobe-darwin-x64",
        )
    } else if str_eq(os, "linux") && str_eq(arch, "x86_64") {
        (
            "ffmpeg",
            "https://github.com/eugeneware/ffmpeg-static/releases/download/b6.1.1/ffmpeg-linux-x64",
            "ffprobe",
            "https://github.com/eugeneware/ffmpeg-static/releases/download/b6.1.1/ffprobe-linux-x64",
        )
    } else if str_eq(os, "windows") && str_eq(arch, "x86_64") {
        (
            "ffmpeg.exe",
            "https://github.com/eugeneware/ffmpeg-static/releases/download/b6.1.1/ffmpeg-win32-x64",
            "ffprobe.exe",
            "https://github.com/eugeneware/ffmpeg-static/releases/download/b6.1.1/ffprobe-win32-x64",
        )
    } else {
        let mut m = "unsupported platform for auto-download: ".to_string();
        m.append(os);
        m.append("/");
        m.append(arch);
        return Err(
            MarkerFixerError::ExternalTool { tool: "runtime-downloader".to_string(), message: m },
        );
    };
    let mut v: Vec<DownloadSpec> = Vec::new();
    v.push(spec_pair(a, b));
    v.push(spec_pair(c, d));
    Ok(v)
}

// ---------------------------------------------------------------- looking a tool up

/// What is known so far while a tool is looked for; `None` is not yet checked.
#[derive(Debug)]
pub struct ToolFacts {
    /// Whether the path given on the command line exists.
    pub override_exists: Option<bool>,
    /// Whether the bundled binary exists.
    pub bundled_exists: Option<bool>,
    /// Whether the binary runs from `PATH`.
    pub on_path: Option<bool>,
    /// How the download of the bundled tools ended.
    pub download: Option<Result<(), MarkerFixerError>>,
    /// Whether the bundled binary exists after the download.
    pub bundled_exists_after_download: Option<bool>,
}

impl ToolFacts {
    /// Nothing checked yet.
    pub fn new() -> (r: ToolFacts)
        ensures
            r.override_exists is None,
            r.bundled_exists is None,
            r.on_path is None,
            r.download is None,
            r.bundled_exists_after_download is None,
    {
        ToolFacts {
            override_exists: None,
            bundled_exists: None,
            on_path: None,
            download: None,
            bundled_exists_after_download: None,
        }
    }
}

/// A check to make before the lookup can go on.
#[derive(Debug, Clone, Copy, PartialEq, Eq, Structural)]
pub enum ToolCheck {
    OverrideExists,
    BundledExists,
    OnPath,
    Download,
    BundledExistsAfterDownload,
}

/// The next step of a lookup: make a check, or the outcome.
#[derive(Debug)]
pub enum ToolLookup {
    Check(ToolCheck),
    Found(String),
    Failed(MarkerFixerError),
}

/// Whether a tool counts as found on `PATH` after running it with `-version`: it started, or
/// it failed for another reason than not being found.
pub fn available_on_path(started: bool, not_found: bool) -> (r: bool)
    ensures
        r == (started || !not_found),
{
    started || !not_found
}

pub open spec fn tool_missing_override_error(tool: ToolKind, path: Seq<char>) -> ErrorView {
    ErrorView::ExternalTool {
        tool: tool.spec_binary_name(),
        message: "Provided path does not exist: "@ + path,
    }
}

pub open spec fn tool_not_found_error(tool: ToolKind, bundled: Seq<char>) -> ErrorView {
    ErrorView::ExternalTool {
        tool: tool.spec_binary_name(),
        message: tool.spec_binary_name()
            + " not found. Searched override path, bundled location ("@ + bundled
            + "), and system PATH."@,
    }
}

/// The step of a lookup, as a value of the specification.
pub enum LookupView {
    Check(ToolCheck),
    Found(Seq<char>),
    Failed(ErrorView),
}

impl View for ToolLookup {
    type V = LookupView;

    open spec fn view(&self) -> LookupView {
        match self {
            ToolLookup::Check(c) => LookupView::Check(*c),
            ToolLookup::Found(p) => LookupView::Found(p@),
            ToolLookup::Failed(e) => LookupView::Failed(e@),
        }
    }
}

/// The order in which a tool is looked for: the path given on the command line (which must
/// exist), the bundled binary, `PATH`, and, when allowed, a download of the bundled tools
/// after which the bundled binary is looked for once more.
pub open spec fn spec_lookup_step(
    tool: ToolKind,
    override_path: Option<Seq<char>>,
    bundled: Seq<char>,
    allow_download: bool,
    f: ToolFacts,
) -> LookupView {
    match override_path {
        Some(p) => match f.override_exists {
            None => LookupView::Check(ToolCheck::OverrideExists),
            Some(true) => LookupView::Found(p),
            Some(false) => LookupView::Failed(tool_missing_override_error(tool, p)),
        },
        None => match f.bundled_exists {
            None => LookupView::Check(ToolCheck::BundledExists),
            Some(true) => LookupView::Found(bundled),
            Some(false) => match f.on_path {
                None => LookupView::Check(ToolCheck::OnPath),
                Some(true) => LookupView::Found(tool.spec_binary_name()),
                Some(false) => if allow_download {
                    match f.download {
                        None => LookupView::Check(ToolCheck::Download),
                        Some(Err(e)) => LookupView::Failed(e@),
                        Some(Ok(())) => match f.bundled_exists_after_download {
                            None => LookupView::Check(ToolCheck::BundledExistsAfterDownload),
                            Some(true) => LookupView::Found(bundled),
                            Some(false) => LookupView::Failed(tool_not_found_error(tool, bundled)),
                        },
                    }
                } else {
                    LookupView::Failed(tool_not_found_error(tool, bundled))
                },
            },
        },
    }
}

fn not_found_error(tool: ToolKind, bundled: &str) -> (r: MarkerFixerError)
    ensures
        r@ == tool_not_found_error(tool, bundled@),
{
    let mut m = tool.display_name().to_string();
    m.append(" not found. Searched override path, bundled location (");
    m.append(bundled);
    m.append("), and system PATH.");
    MarkerFixerError::ExternalTool { tool: tool.display_name().to_string(), message: m }
}

/// The next step of the lookup of `tool`, given what is known so far (`facts`), the path given
/// on the command line, the path of the bundled binary, and whether a download is allowed.
pub fn resolve_tool_step(
    tool: ToolKind,
    override_path: Option<&str>,
    bundled: &str,
    allow_download: bool,
    facts: &ToolFacts,
) -> (r: ToolLookup)
    ensures
        r@ == spec_lookup_step(
            tool,
            match override_path {
                Some(p) => Some(p@),
                None => None,
            },
            bundled@,
            allow_download,
            *facts,
        ),
{
    match override_path {
        Some(p) => match facts.override_exists {
            None => ToolLookup::Check(ToolCheck::OverrideExists),
            Some(true) => ToolLookup::Found(p.to_string()),
            Some(false) => {
                let mut m = "Provided path does not exist: ".to_string();
                m.append(p);
                ToolLookup::Failed(
                    MarkerFixerError::ExternalTool { tool: tool.display_name().to_string(), message: m },
                )
            },
        },
        None => match facts.bundled_exists {
            None => ToolLookup::Check(ToolCheck::BundledExists),
            Some(true) => ToolLookup::Found(bundled.to_string()),
            Some(false) => match facts.on_path {
                None => ToolLookup::Check(ToolCheck::OnPath),
                Some(true) => ToolLookup::Found(tool.binary_name().to_string()),
                Some(false) => if allow_download {
                    match &facts.download {
                        None => ToolLookup::Check(ToolCheck::Download),
                        Some(Err(e)) => ToolLookup::Failed(e.clone_error()),
                        Some(Ok(())) => match facts.bundled_exists_after_download {
                            None => ToolLookup::Check(ToolCheck::BundledExistsAfterDownload),
                            Some(true) => ToolLookup::Found(bundled.to_string()),
                            Some(false) => ToolLookup::Failed(not_found_error(tool, bundled)),
                        },
                    }
                } else {
                    ToolLookup::Failed(not_found_error(tool, bundled))
                },
            },
        },
    }
}

/// The next step of the lookup of a tool that is about to run: as [`resolve_tool_step`],
/// without a download.
pub fn resolve_tool_for_execution(
    tool: ToolKind,
    override_path: Option<&str>,
    bundled: &str,
    facts: &ToolFacts,
) -> (r: ToolLookup)
    ensures
        r@ == spec_lookup_step(
            tool,
            match override_path {
                Some(p) => Some(p@),
                None => None,
            },
            bundled@,
            false,
            *facts,
        ),
{
    resolve_tool_step(tool, override_path, bundled, false, facts)
}


/// The fact that a check finds out is not known yet.
pub open spec fn unknown(c: ToolCheck, f: ToolFacts) -> bool {
    match c {
        ToolCheck::OverrideExists => f.override_exists is None,
        ToolCheck::BundledExists => f.bundled_exists is None,
        ToolCheck::OnPath => f.on_path is None,
        ToolCheck::Download => f.download is None,
        ToolCheck::BundledExistsAfterDownload => f.bundled_exists_after_download is None,
    }
}

/// The lookup only asks for what it does not know yet, so a lookup that records each answer
/// ends after at most five checks.
pub proof fn lookup_asks_only_unknown_facts(
    tool: ToolKind,
    override_path: Option<Seq<char>>,
    bundled: Seq<char>,
    allow_download: bool,
    f: ToolFacts,
)
    ensures
        spec_lookup_step(tool, override_path, bundled, allow_download, f) matches LookupView::Check(
            c,
        ) ==> unknown(c, f),
{
}

/// The tools are downloaded only as a last resort: when no path was given on the command
/// line, the bundled binary does not exist, the tool does not run from `PATH`, and a download
/// is allowed.
pub proof fn download_only_as_last_resort(
    tool: ToolKind,
    override_path: Option<Seq<char>>,
    bundled: Seq<char>,
    allow_download: bool,
    f: ToolFacts,
)
    requires
        spec_lookup_step(tool, override_path, bundled, allow_download, f) == LookupView::Check(
            ToolCheck::Download,
        ),
    ensures
        override_path is None,
        f.bundled_exists == Some(false),
        f.on_path == Some(false),
        allow_download,
{
}

/// A path given on the command line is the only place the tool is looked for: the lookup
/// finds that path, fails, or asks whether it exists.
pub proof fn override_path_is_final(
    tool: ToolKind,
    p: Seq<char>,
    bundled: Seq<char>,
    allow_download: bool,
    f: ToolFacts,
)
    ensures
        match spec_lookup_step(tool, Some(p), bundled, allow_download, f) {
            LookupView::Found(q) => q == p,
            LookupView::Check(c) => c == ToolCheck::OverrideExists,
            LookupView::Failed(e) => e == tool_missing_override_error(tool, p),
        },
{
}


/// When no path is given on the command line and the bundled binary exists, the lookup finds
/// the bundled binary itself, at the bundled path, whatever is known of `PATH` or a download.
pub proof fn bundled_binary_is_used(
    tool: ToolKind,
    bundled: Seq<char>,
    allow_download: bool,
    f: ToolFacts,
)
    requires
        f.bundled_exists == Some(true),
    ensures
        spec_lookup_step(tool, None, bundled, allow_download, f) == LookupView::Found(bundled),
{
}

/// The bare binary name, to be run from `PATH`, is found only when no path is given on the
/// command line, the bundled binary is known not to exist and the tool runs from `PATH`.
pub proof fn path_binary_only_without_bundle(
    tool: ToolKind,
    override_path: Option<Seq<char>>,
    bundled: Seq<char>,
    allow_download: bool,
    f: ToolFacts,
)
    requires
        spec_lookup_step(tool, override_path, bundled, allow_download, f) == LookupView::Found(
            tool.spec_binary_name(),
        ),
        tool.spec_binary_name() != bundled,
        override_path != Some(tool.spec_binary_name()),
    ensures
        override_path is None,
        f.bundled_exists == Some(false),
        f.on_path == Some(true),
{
}

} // verus!
