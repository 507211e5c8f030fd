//! What the library makes of `ffprobe`'s report: the frame rate of the video stream, chapter
//! titles, where the `ffprobe` binary is looked for, and the errors its runs end in.
use vstd::prelude::*;

use crate::error::{ErrorView, MarkerFixerError};
use crate::tools::{platform_and_arch, spec_platform_and_arch};
use crate::text::{
    parse_u64, spec_decimal, spec_parse_u64, spec_trim, str_chars, str_eq, string_from_chars,
    trimmed, u64_to_decimal,
};

verus! {

broadcast use vstd::string::group_string_axioms;

/// A stream as `ffprobe` reports it, with the fields the frame rate is read from.
#[derive(Debug, Clone)]
pub struct ProbeStream {
    pub avg_frame_rate: Option<String>,
    pub r_frame_rate: Option<String>,
    pub codec_type: Option<String>,
}

/// The index of the first `/` in `s`.
pub open spec fn slash_index(s: Seq<char>) -> Option<int>
    decreases s.len(),
{
    if s.len() == 0 {
        None
    } else if s[0] == '/' {
        Some(0)
    } else {
        match slash_index(s.drop_first()) {
            Some(i) => Some(i + 1),
            None => None,
        }
    }
}

/// The text before the first `/` (all of `s` when there is none).
pub open spec fn before_slash(s: Seq<char>) -> Seq<char> {
    match slash_index(s) {
        Some(i) => s.subrange(0, i),
        None => s,
    }
}

/// The first two pieces of `s` split at `/` (`str::split('/')`), the second absent when `s`
/// holds no `/`.
pub open spec fn first_two_pieces(s: Seq<char>) -> (Seq<char>, Option<Seq<char>>) {
    match slash_index(s) {
        None => (s, None),
        Some(i) => (s.subrange(0, i), Some(before_slash(s.subrange(i + 1, s.len() as int)))),
    }
}

/// A rational `n/d`: two numbers split by `/`, each with whitespace around it; anything after
/// a second `/` is ignored.
pub open spec fn spec_rational_parts(s: Seq<char>) -> Option<(u64, u64)> {
    let (a, b) = first_two_pieces(s);
    match b {
        None => None,
        Some(b) => match (spec_parse_u64(spec_trim(a)), spec_parse_u64(spec_trim(b))) {
            (Ok(n), Ok(d)) => Some((n, d)),
            _ => None,
        },
    }
}

proof fn lemma_slash_index(s: Seq<char>)
    ensures
        slash_index(s) matches Some(i) ==> 0 <= i < s.len() && s[i] == '/' && forall|j: int|
            0 <= j < i ==> s[j] != '/',
        slash_index(s) is None ==> forall|j: int| 0 <= j < s.len() ==> s[j] != '/',
    decreases s.len(),
{
    if s.len() > 0 {
        lemma_slash_index(s.drop_first());
        assert forall|j: int| 1 <= j < s.len() implies s[j] == s.drop_first()[j - 1] by {}
    }
}

proof fn lemma_slash_index_at(s: Seq<char>, i: int)
    requires
        0 <= i <= s.len(),
        i < s.len() ==> s[i] == '/',
        forall|j: int| 0 <= j < i ==> s[j] != '/',
    ensures
        i < s.len() ==> slash_index(s) == Some(i),
        i == s.len() ==> slash_index(s) is None,
{
    lemma_slash_index(s);
    if let Some(k) = slash_index(s) {
        if k < i {
            assert(s[k] != '/');
        }
    }
}

fn find_slash(cs: &Vec<char>, from: usize) -> (r: usize)
    requires
        from <= cs.len(),
    ensures
        from <= r <= cs.len(),
        r < cs.len() ==> cs@[r as int] == '/',
        forall|j: int| from <= j < r ==> cs@[j] != '/',
{
    let mut i = from;
    while i < cs.len() && cs[i] != '/'
        invariant
            from <= i <= cs.len(),
            forall|j: int| from <= j < i ==> cs@[j] != '/',
        decreases cs.len() - i,
    {
        i = i + 1;
    }
    i
}

fn chars_range(cs: &Vec<char>, lo: usize, hi: usize) -> (r: String)
    requires
        lo <= hi <= cs.len(),
    ensures
        r@ == cs@.subrange(lo as int, hi as int),
{
    let mut v: Vec<char> = Vec::new();
    let mut i = lo;
    while i < hi
        invariant
            lo <= i <= hi <= cs.len(),
            v@ == cs@.subrange(lo as int, i as int),
        decreases hi - i,
    {
        v.push(cs[i]);
        i = i + 1;
    }
    string_from_chars(v.as_slice())
}

/// The numerator and denominator of a rational `n/d`.
pub fn parse_rational_parts(value: &str) -> (r: Option<(u64, u64)>)
    ensures
        r == spec_rational_parts(value@),
{
    let cs = str_chars(value);
    let i = find_slash(&cs, 0);
    proof {
        lemma_slash_index_at(cs@, i as int);
    }
    if i == cs.len() {
        return None;
    }
    let j = find_slash(&cs, i + 1);
    proof {
        let rest = cs@.subrange(i + 1, cs@.len() as int);
        assert forall|k: int| 0 <= k < (j - i - 1) implies rest[k] != '/' by {
            assert(rest[k] == cs@[i + 1 + k]);
        }
        if j < cs.len() {
            assert(rest[j - i - 1] == cs@[j as int]);
        }
        lemma_slash_index_at(rest, j - i - 1);
        assert(before_slash(rest) =~= cs@.subrange(i + 1, j as int));
    }
    let a = chars_range(&cs, 0, i);
    let b = chars_range(&cs, i + 1, j);
    let ta = trimmed(a.as_str());
    let tb = trimmed(b.as_str());
    match (parse_u64(ta.as_str()), parse_u64(tb.as_str())) {
        (Ok(n), Ok(d)) => Some((n, d)),
        _ => None,
    }
}

/// A frame rate `n/d` that gives a positive, finite number of frames per second.
pub open spec fn spec_rate_parts(s: Seq<char>) -> Option<(u64, u64)> {
    match spec_rational_parts(s) {
        Some((n, d)) => if n > 0 && d > 0 {
            Some((n, d))
        } else {
            None
        },
        None => None,
    }
}

/// The numerator and denominator of a usable frame rate: both parts parse and the quotient
/// `n / d` is a positive, finite number, which for two `u64` is `n > 0` and `d > 0`.
pub fn rate_parts(value: &str) -> (r: Option<(u64, u64)>)
    ensures
        r == spec_rate_parts(value@),
{
    match parse_rational_parts(value) {
        Some((n, d)) => if n > 0 && d > 0 {
            Some((n, d))
        } else {
            None
        },
        None => None,
    }
}

/// The frame rate as XMP writes it: `f` and the numerator, then `/` and the denominator when
/// it is not 1; `f` and the trimmed text when it is no rational.
pub open spec fn spec_normalize_frame_rate(s: Seq<char>) -> Seq<char> {
    match spec_rational_parts(s) {
        Some((n, d)) => if d == 1 {
            "f"@ + spec_decimal(n as nat)
        } else {
            "f"@ + spec_decimal(n as nat) + "/"@ + spec_decimal(d as nat)
        },
        None => "f"@ + spec_trim(s),
    }
}

/// The frame rate as the XMP marker track writes it.
pub fn normalize_frame_rate_expr(value: &str) -> (r: String)
    ensures
        r@ == spec_normalize_frame_rate(value@),
{
    let mut out = "f".to_string();
    match parse_rational_parts(value) {
        Some((n, d)) => {
            let ns = u64_to_decimal(n);
            out.append(ns.as_str());
            if d != 1 {
                out.append("/");
                let ds = u64_to_decimal(d);
                out.append(ds.as_str());
            }
        },
        None => {
            let t = trimmed(value);
            out.append(t.as_str());
        },
    }
    out
}

/// The frame rate of a video: numerator and denominator, and its text for XMP.
#[derive(Debug, Clone)]
pub struct FrameRate {
    pub numerator: u64,
    pub denominator: u64,
    pub expr: String,
}

pub struct ProbeStreamView {
    pub avg_frame_rate: Option<Seq<char>>,
    pub r_frame_rate: Option<Seq<char>>,
    pub codec_type: Option<Seq<char>>,
}

pub open spec fn opt_str_view(o: Option<String>) -> Option<Seq<char>> {
    match o {
        Some(s) => Some(s@),
        None => None,
    }
}

impl View for ProbeStream {
    type V = ProbeStreamView;

    open spec fn view(&self) -> ProbeStreamView {
        ProbeStreamView {
            avg_frame_rate: opt_str_view(self.avg_frame_rate),
            r_frame_rate: opt_str_view(self.r_frame_rate),
            codec_type: opt_str_view(self.codec_type),
        }
    }
}

/// The index of the first video stream.
pub open spec fn first_video(ss: Seq<ProbeStreamView>) -> Option<int>
    decreases ss.len(),
{
    if ss.len() == 0 {
        None
    } else if ss[0].codec_type == Some("video"@) {
        Some(0)
    } else {
        match first_video(ss.drop_first()) {
            Some(i) => Some(i + 1),
            None => None,
        }
    }
}

/// A usable rate out of an optional field.
pub open spec fn usable_rate(o: Option<Seq<char>>) -> Option<(u64, u64)> {
    match o {
        Some(s) => spec_rate_parts(s),
        None => None,
    }
}

pub open spec fn no_video_error() -> ErrorView {
    ErrorView::InvalidMetadata("No video stream found in ffprobe output"@)
}

pub open spec fn no_rate_error() -> ErrorView {
    ErrorView::InvalidMetadata("Unable to derive FPS from avg_frame_rate/r_frame_rate"@)
}

/// The frame rate of the first video stream: its average rate when usable, else its base
/// rate; with the rate's text and its form for XMP.
pub open spec fn spec_detect_rate(ss: Seq<ProbeStreamView>) -> Result<(u64, u64, Seq<char>), ErrorView> {
    match first_video(ss) {
        None => Err(no_video_error()),
        Some(i) => {
            let v = ss[i];
            match usable_rate(v.avg_frame_rate) {
                Some((n, d)) => Ok((n, d, spec_normalize_frame_rate(v.avg_frame_rate->Some_0))),
                None => match usable_rate(v.r_frame_rate) {
                    Some((n, d)) => Ok((n, d, spec_normalize_frame_rate(v.r_frame_rate->Some_0))),
                    None => Err(no_rate_error()),
                },
            }
        },
    }
}

proof fn lemma_first_video(ss: Seq<ProbeStreamView>)
    ensures
        first_video(ss) matches Some(i) ==> 0 <= i < ss.len() && ss[i].codec_type == Some("video"@)
            && forall|j: int| 0 <= j < i ==> ss[j].codec_type != Some("video"@),
        first_video(ss) is None ==> forall|j: int|
            0 <= j < ss.len() ==> ss[j].codec_type != Some("video"@),
    decreases ss.len(),
{
    if ss.len() > 0 {
        lemma_first_video(ss.drop_first());
        assert forall|j: int| 1 <= j < ss.len() implies ss[j] == ss.drop_first()[j - 1] by {}
    }
}

fn rate_from(field: &Option<String>) -> (r: Option<(u64, u64)>)
    ensures
        r == usable_rate(opt_str_view(*field)),
{
    match field {
        Some(s) => rate_parts(s.as_str()),
        None => None,
    }
}

/// The frame rate of the video, as the first video stream gives it.
pub fn detect_frame_rate(streams: &[ProbeStream]) -> (r: Result<FrameRate, MarkerFixerError>)
    ensures
        match (r, spec_detect_rate(streams@.map_values(|s: ProbeStream| s@))) {
            (Ok(f), Ok((n, d, e))) => f.numerator == n && f.denominator == d && f.expr@ == e,
            (Err(x), Err(e)) => x@ == e,
            _ => false,
        },
{
    let ghost sv = streams@.map_values(|s: ProbeStream| s@);
    proof {
        lemma_first_video(sv);
    }
    let mut i: usize = 0;
    while i < streams.len()
        invariant
            i <= streams.len(),
            sv == streams@.map_values(|s: ProbeStream| s@),
            forall|j: int| 0 <= j < i ==> sv[j].codec_type != Some("video"@),
            first_video(sv) matches Some(k) ==> 0 <= k < sv.len() && sv[k].codec_type == Some(
                "video"@,
            ) && forall|j: int| 0 <= j < k ==> sv[j].codec_type != Some("video"@),
            first_video(sv) is None ==> forall|j: int|
                0 <= j < sv.len() ==> sv[j].codec_type != Some("video"@),
        decreases streams.len() - i,
    {
        let s = &streams[i];
        assert(sv[i as int] == s@);
        let is_video = match &s.codec_type {
            Some(c) => str_eq(c.as_str(), "video"),
            None => false,
        };
        if is_video {
            assert(first_video(sv) == Some(i as int)) by {
                if let Some(k) = first_video(sv) {
                    if k < i {
                    } else if k > i {
                    }
                }
            }
            if let Some((n, d)) = rate_from(&s.avg_frame_rate) {
                let e = match &s.avg_frame_rate {
                    Some(a) => normalize_frame_rate_expr(a.as_str()),
                    None => String::new(),
                };
                return Ok(FrameRate { numerator: n, denominator: d, expr: e });
            }
            if let Some((n, d)) = rate_from(&s.r_frame_rate) {
                let e = match &s.r_frame_rate {
                    Some(a) => normalize_frame_rate_expr(a.as_str()),
                    None => String::new(),
                };
                return Ok(FrameRate { numerator: n, denominator: d, expr: e });
            }
            return Err(
                MarkerFixerError::InvalidMetadata(
                    "Unable to derive FPS from avg_frame_rate/r_frame_rate".to_string(),
                ),
            );
        }
        i = i + 1;
    }
    Err(MarkerFixerError::InvalidMetadata("No video stream found in ffprobe output".to_string()))
}


/// Where the `ffprobe` that runs was found.
#[derive(Debug, Clone, Copy, PartialEq, Eq, Structural)]
pub enum ToolSource {
    Override,
    Bundled,
    PathFallback,
}

/// The `ffprobe` to run, where it was found, and where a bundled one is looked for.
#[derive(Debug, Clone)]
pub struct ToolResolution {
    pub path: String,
    pub source: ToolSource,
    pub expected_bundle_path: String,
}

/// The error for an `--ffprobe` path that does not exist.
pub open spec fn missing_override_error(path: Seq<char>) -> ErrorView {
    ErrorView::ExternalTool {
        tool: "ffprobe"@,
        message: "Provided --ffprobe path does not exist: "@ + path,
    }
}

/// Chooses the `ffprobe` to run: the path given on the command line when there is one (an
/// error when it does not exist), else the bundled binary when it exists, else `ffprobe` from
/// `PATH`. `override_exists` and `bundle_exists` say whether those paths exist.
pub fn resolve_ffprobe_path(
    ffprobe_override: Option<&str>,
    override_exists: bool,
    expected_bundle_path: &str,
    bundle_exists: bool,
) -> (r: Result<ToolResolution, MarkerFixerError>)
    ensures
        match ffprobe_override {
            Some(p) => if override_exists {
                r matches Ok(t) && t.path@ == p@ && t.source == ToolSource::Override
                    && t.expected_bundle_path@ == expected_bundle_path@
            } else {
                r matches Err(e) && e@ == missing_override_error(p@)
            },
            None => if bundle_exists {
                r matches Ok(t) && t.path@ == expected_bundle_path@ && t.source
                    == ToolSource::Bundled && t.expected_bundle_path@ == expected_bundle_path@
            } else {
                r matches Ok(t) && t.path@ == "ffprobe"@ && t.source == ToolSource::PathFallback
                    && t.expected_bundle_path@ == expected_bundle_path@
            },
        },
{
    match ffprobe_override {
        Some(p) => {
            if override_exists {
                Ok(
                    ToolResolution {
                        path: p.to_string(),
                        source: ToolSource::Override,
                        expected_bundle_path: expected_bundle_path.to_string(),
                    },
                )
            } else {
                let mut m = "Provided --ffprobe path does not exist: ".to_string();
                m.append(p);
                Err(MarkerFixerError::ExternalTool { tool: "ffprobe".to_string(), message: m })
            }
        },
        None => {
            if bundle_exists {
                Ok(
                    ToolResolution {
                        path: expected_bundle_path.to_string(),
                        source: ToolSource::Bundled,
                        expected_bundle_path: expected_bundle_path.to_string(),
                    },
                )
            } else {
                Ok(
                    ToolResolution {
                        path: "ffprobe".to_string(),
                        source: ToolSource::PathFallback,
                        expected_bundle_path: expected_bundle_path.to_string(),
                    },
                )
            }
        },
    }
}

/// The name of the bundled `ffprobe` on the operating system `os`.
pub open spec fn spec_ffprobe_file_name(os: Seq<char>) -> Seq<char> {
    if os == "windows"@ {
        "ffprobe.exe"@
    } else {
        "ffprobe"@
    }
}

/// The path of the bundled `ffprobe`, below the executable's directory, as its components:
/// `fftools`, the platform and architecture directories (as the bundle lays them out, see
/// [`spec_platform_and_arch`]) and the file name.
pub fn bundled_ffprobe_components(os: &str, arch: &str) -> (r: Vec<String>)
    ensures
        r@.len() == 4,
        r@[0]@ == "fftools"@,
        (r@[1]@, r@[2]@) == spec_platform_and_arch(os@, arch@),
        r@[3]@ == spec_ffprobe_file_name(os@),
{
    let (p, a) = platform_and_arch(os, arch);
    let mut v: Vec<String> = Vec::new();
    v.push("fftools".to_string());
    v.push(p);
    v.push(a);
    if str_eq(os, "windows") {
        v.push("ffprobe.exe".to_string());
    } else {
        v.push("ffprobe".to_string());
    }
    v
}

/// The error for an `ffprobe` that could not be started, from the path shown, the I/O
/// error's message, whether that error was "not found", where the binary was found and where
/// a bundled one was looked for.
pub open spec fn spawn_failure_message(
    path: Seq<char>,
    io_message: Seq<char>,
    not_found: bool,
    source: ToolSource,
    expected: Seq<char>,
) -> Seq<char> {
    let base = "failed to execute ffprobe at "@ + path + ": "@ + io_message;
    if not_found && source == ToolSource::PathFallback {
        base + ". ffprobe was not found in PATH and no bundled binary was detected."@
            + " Expected bundled path: "@ + expected
    } else {
        base
    }
}

/// The error for an `ffprobe` that could not be started.
pub fn spawn_failure_error(
    path: &str,
    io_message: &str,
    not_found: bool,
    source: ToolSource,
    expected: &str,
) -> (r: MarkerFixerError)
    ensures
        r@ == (ErrorView::ExternalTool {
            tool: "ffprobe"@,
            message: spawn_failure_message(path@, io_message@, not_found, source, expected@),
        }),
{
    let mut m = "failed to execute ffprobe at ".to_string();
    m.append(path);
    m.append(": ");
    m.append(io_message);
    if not_found && source == ToolSource::PathFallback {
        m.append(". ffprobe was not found in PATH and no bundled binary was detected.");
        m.append(" Expected bundled path: ");
        m.append(expected);
    }
    MarkerFixerError::ExternalTool { tool: "ffprobe".to_string(), message: m }
}

/// The message for an `ffprobe` that exited with a failure: what it wrote to standard error,
/// trimmed, or, when that is blank, its path and exit status.
pub open spec fn exit_failure_message(stderr: Seq<char>, path: Seq<char>, status: Seq<char>) -> Seq<
    char,
> {
    if spec_trim(stderr).len() == 0 {
        path + " exited with status "@ + status
    } else {
        spec_trim(stderr)
    }
}

/// The error for an `ffprobe` that exited with a failure.
pub fn exit_failure_error(stderr: &str, path: &str, status: &str) -> (r: MarkerFixerError)
    ensures
        r@ == (ErrorView::ExternalTool {
            tool: "ffprobe"@,
            message: exit_failure_message(stderr@, path@, status@),
        }),
{
    let t = trimmed(stderr);
    let m = if t.as_str().is_empty() {
        let mut m = path.to_string();
        m.append(" exited with status ");
        m.append(status);
        m
    } else {
        t
    };
    MarkerFixerError::ExternalTool { tool: "ffprobe".to_string(), message: m }
}

/// A chapter title as a marker name: trimmed, and none when blank.
pub fn chapter_title(title: Option<&str>) -> (r: Option<String>)
    ensures
        opt_str_view(r) == crate::xmp::chapter_marker_name(
            match title {
                Some(t) => Some(t@),
                None => None,
            },
        ),
{
    match title {
        Some(t) => {
            let v = trimmed(t);
            if v.as_str().is_empty() {
                None
            } else {
                Some(v)
            }
        },
        None => None,
    }
}

} // verus!
