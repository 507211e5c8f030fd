//! The conversion of a batch of files: which files are videos, the name of each output file,
//! the marker packet written into it, and the report of the run.
use vstd::prelude::*;

use crate::error::{ErrorView, MarkerFixerError};
use crate::text::{chars_eq_ignore_ascii_case, eq_ignore_ascii_case, str_chars, string_from_chars};
use crate::xmp::{
    generate_xmp, has_xmpmeta_boundaries, is_merge_of, marker_matches_found, marker_from_chapter, markers_view,
    merge_markers, missing_boundaries_error, parse_markers, parse_outcome_matches,
    spec_generate_xmp, spec_scan_markers, spec_xml_tokens, Marker, MarkerView, ParsedMarkers,
};
use vstd::utf8::{decode_utf8, valid_utf8};

verus! {

broadcast use vstd::string::group_string_axioms;

/// The options of a run.
#[derive(Debug, Clone)]
pub struct Cli {
    pub paths: Vec<String>,
    pub in_place: bool,
    pub output_suffix: String,
    pub force: bool,
    pub ffprobe: Option<String>,
    pub ffmpeg: Option<String>,
    pub verbose: bool,
    pub dry_run: bool,
}

/// What became of one file.
#[derive(Debug, Clone)]
pub enum FileStatus {
    Converted,
    SkippedNoChapters,
    SkippedNotMp4,
    Failed(String),
}

/// A file and what became of it.
#[derive(Debug, Clone)]
pub struct FileReport {
    pub path: String,
    pub status: FileStatus,
}

/// The mathematical value of a [`FileStatus`].
pub enum FileStatusView {
    Converted,
    SkippedNoChapters,
    SkippedNotMp4,
    Failed(Seq<char>),
}

impl View for FileStatus {
    type V = FileStatusView;

    open spec fn view(&self) -> FileStatusView {
        match self {
            FileStatus::Converted => FileStatusView::Converted,
            FileStatus::SkippedNoChapters => FileStatusView::SkippedNoChapters,
            FileStatus::SkippedNotMp4 => FileStatusView::SkippedNotMp4,
            FileStatus::Failed(m) => FileStatusView::Failed(m@),
        }
    }
}

/// The next thing to do for one file: run `ffprobe` on it, convert it, or report what became
/// of it.
#[derive(Debug)]
pub enum FileStep {
    Probe,
    Convert,
    Report(FileStatus),
}

/// The mathematical value of a [`FileStep`].
pub enum FileStepView {
    Probe,
    Convert,
    Report(FileStatusView),
}

impl View for FileStep {
    type V = FileStepView;

    open spec fn view(&self) -> FileStepView {
        match self {
            FileStep::Probe => FileStepView::Probe,
            FileStep::Convert => FileStepView::Convert,
            FileStep::Report(st) => FileStepView::Report(st@),
        }
    }
}

/// The next step for a file, from what is known so far: whether it is an MP4 file, how the
/// probe ended (the number of chapters, or its error), whether this is a dry run, and how the
/// conversion ended. A file that is no MP4 is skipped; a probe that failed fails the file; a
/// video without chapters is skipped; a dry run reports the file converted without writing;
/// otherwise the file is converted, and the conversion's outcome is reported.
pub open spec fn spec_next_file_step(
    is_mp4: bool,
    probe: Option<Result<usize, ErrorView>>,
    dry_run: bool,
    converted: Option<Result<(), ErrorView>>,
) -> FileStepView {
    if !is_mp4 {
        FileStepView::Report(FileStatusView::SkippedNotMp4)
    } else {
        match probe {
            None => FileStepView::Probe,
            Some(Err(e)) => FileStepView::Report(FileStatusView::Failed(e.message())),
            Some(Ok(chapters)) => if chapters == 0 {
                FileStepView::Report(FileStatusView::SkippedNoChapters)
            } else if dry_run {
                FileStepView::Report(FileStatusView::Converted)
            } else {
                match converted {
                    None => FileStepView::Convert,
                    Some(Ok(())) => FileStepView::Report(FileStatusView::Converted),
                    Some(Err(e)) => FileStepView::Report(FileStatusView::Failed(e.message())),
                }
            },
        }
    }
}

pub open spec fn opt_result_view<T>(r: Option<Result<T, MarkerFixerError>>) -> Option<
    Result<T, ErrorView>,
> {
    match r {
        None => None,
        Some(Ok(v)) => Some(Ok(v)),
        Some(Err(e)) => Some(Err(e@)),
    }
}

/// The next step for a file (see [`spec_next_file_step`]); the caller performs it and asks
/// again with what it found out.
pub fn next_file_step(
    is_mp4: bool,
    probe: Option<Result<usize, MarkerFixerError>>,
    dry_run: bool,
    converted: Option<Result<(), MarkerFixerError>>,
) -> (r: FileStep)
    ensures
        r@ == spec_next_file_step(
            is_mp4,
            opt_result_view(probe),
            dry_run,
            opt_result_view(converted),
        ),
{
    if !is_mp4 {
        return FileStep::Report(FileStatus::SkippedNotMp4);
    }
    match probe {
        None => FileStep::Probe,
        Some(Err(e)) => FileStep::Report(FileStatus::Failed(e.message())),
        Some(Ok(chapters)) => if chapters == 0 {
            FileStep::Report(FileStatus::SkippedNoChapters)
        } else if dry_run {
            FileStep::Report(FileStatus::Converted)
        } else {
            match converted {
                None => FileStep::Convert,
                Some(Ok(())) => FileStep::Report(FileStatus::Converted),
                Some(Err(e)) => FileStep::Report(FileStatus::Failed(e.message())),
            }
        },
    }
}

/// The run over a batch of files.
pub struct App;

/// The line that reports a file: its path, then what became of it.
pub open spec fn spec_report_line(path: Seq<char>, status: FileStatus) -> Seq<char> {
    match status {
        FileStatus::Converted => path + ": converted"@,
        FileStatus::SkippedNoChapters => path + ": skipped(no_chapters)"@,
        FileStatus::SkippedNotMp4 => path + ": skipped(not_mp4)"@,
        FileStatus::Failed(m) => path + ": failed("@ + m@ + ")"@,
    }
}

/// Some file of the batch failed.
pub open spec fn any_failed(rs: Seq<FileReport>) -> bool {
    exists|i: int| 0 <= i < rs.len() && #[trigger] rs[i].status is Failed
}

impl App {
    /// The line that reports what became of a file.
    pub fn report_line(report: &FileReport) -> (r: String)
        ensures
            r@ == spec_report_line(report.path@, report.status),
    {
        let mut s = report.path.clone();
        match &report.status {
            FileStatus::Converted => s.append(": converted"),
            FileStatus::SkippedNoChapters => s.append(": skipped(no_chapters)"),
            FileStatus::SkippedNotMp4 => s.append(": skipped(not_mp4)"),
            FileStatus::Failed(m) => {
                s.append(": failed(");
                s.append(m.as_str());
                s.append(")");
            },
        }
        s
    }

    /// The exit code of a run: 1 when some file failed, 0 otherwise.
    pub fn exit_code(reports: &[FileReport]) -> (r: i32)
        ensures
            r == (if any_failed(reports@) {
                1i32
            } else {
                0i32
            }),
    {
        let mut i: usize = 0;
        while i < reports.len()
            invariant
                i <= reports.len(),
                forall|j: int| 0 <= j < i ==> !(#[trigger] reports@[j].status is Failed),
            decreases reports.len() - i,
        {
            if let FileStatus::Failed(_) = &reports[i].status {
                assert(reports@[i as int].status is Failed);
                return 1;
            }
            i = i + 1;
        }
        0
    }
}

// ---------------------------------------------------------------- file names

/// The index of the last `.` in `s`.
pub open spec fn last_dot(s: Seq<char>) -> Option<int>
    decreases s.len(),
{
    if s.len() == 0 {
        None
    } else if s.last() == '.' {
        Some(s.len() - 1)
    } else {
        last_dot(s.drop_last())
    }
}

/// The extension of a file name, as `Path::extension` gives it: the text after the last `.`,
/// unless there is none, the name starts with its only dot, or the name is `..`.
pub open spec fn spec_extension(name: Seq<char>) -> Option<Seq<char>> {
    if name == ".."@ {
        None
    } else {
        match last_dot(name) {
            Some(i) => if i > 0 {
                Some(name.subrange(i + 1, name.len() as int))
            } else {
                None
            },
            None => None,
        }
    }
}

/// The name without its extension, as `Path::file_stem` gives it.
pub open spec fn spec_file_stem(name: Seq<char>) -> Seq<char> {
    match spec_extension(name) {
        Some(e) => name.subrange(0, name.len() - e.len() - 1),
        None => name,
    }
}

proof fn lemma_last_dot(s: Seq<char>)
    ensures
        last_dot(s) matches Some(i) ==> 0 <= i < s.len() && s[i] == '.' && forall|j: int|
            i < j < s.len() ==> s[j] != '.',
        last_dot(s) is None ==> forall|j: int| 0 <= j < s.len() ==> s[j] != '.',
    decreases s.len(),
{
    if s.len() > 0 {
        lemma_last_dot(s.drop_last());
        assert forall|j: int| 0 <= j < s.len() - 1 implies s[j] == s.drop_last()[j] by {}
    }
}

proof fn lemma_last_dot_at(s: Seq<char>, i: int)
    requires
        -1 <= i < s.len(),
        i >= 0 ==> s[i] == '.',
        forall|j: int| i < j < s.len() ==> s[j] != '.',
    ensures
        i >= 0 ==> last_dot(s) == Some(i),
        i < 0 ==> last_dot(s) is None,
{
    lemma_last_dot(s);
    if let Some(k) = last_dot(s) {
        if k > i {
            assert(s[k] != '.');
        }
    }
}

fn last_dot_index(cs: &Vec<char>) -> (r: Option<usize>)
    ensures
        r matches Some(i) ==> i < cs.len(),
        match last_dot(cs@) {
            Some(i) => r == Some(i as usize),
            None => r is None,
        },
{
    let mut i = cs.len();
    while i > 0 && cs[i - 1] != '.'
        invariant
            i <= cs.len(),
            forall|j: int| i <= j < cs.len() ==> cs@[j] != '.',
        decreases i,
    {
        i = i - 1;
    }
    proof {
        lemma_last_dot_at(cs@, i - 1);
    }
    if i == 0 {
        None
    } else {
        Some(i - 1)
    }
}

fn is_dot_dot(cs: &Vec<char>) -> (r: bool)
    ensures
        r == (cs@ == ".."@),
{
    proof {
        reveal_strlit("..");
    }
    let r = cs.len() == 2 && cs[0] == '.' && cs[1] == '.';
    if r {
        assert(cs@ =~= ".."@);
    }
    r
}

/// The bounds of the stem of a name and, when it has one, where its extension starts.
fn split_name(cs: &Vec<char>) -> (r: (usize, Option<usize>))
    ensures
        r.0 <= cs.len(),
        match spec_extension(cs@) {
            Some(e) => r.1 matches Some(k) && k <= cs.len() && e == cs@.subrange(k as int, cs.len() as int)
                && r.0 + 1 == k && spec_file_stem(cs@) == cs@.subrange(0, r.0 as int),
            None => r.1 is None && r.0 == cs.len() && spec_file_stem(cs@) == cs@,
        },
{
    proof {
        lemma_last_dot(cs@);
    }
    if is_dot_dot(cs) {
        return (cs.len(), None);
    }
    match last_dot_index(cs) {
        Some(i) => {
            if i > 0 {
                (i, Some(i + 1))
            } else {
                (cs.len(), None)
            }
        },
        None => (cs.len(), None),
    }
}

/// Whether the file name has the extension `mp4`, in any case.
pub fn is_mp4(file_name: &str) -> (r: bool)
    ensures
        r == (spec_extension(file_name@) matches Some(e) && eq_ignore_ascii_case(e, "mp4"@)),
{
    let cs = str_chars(file_name);
    let (_, ext) = split_name(&cs);
    match ext {
        None => false,
        Some(k) => {
            let mut e: Vec<char> = Vec::new();
            let mut i = k;
            while i < cs.len()
                invariant
                    k <= i <= cs.len(),
                    e@ == cs@.subrange(k as int, i as int),
                decreases cs.len() - i,
            {
                e.push(cs[i]);
                i = i + 1;
            }
            let m = str_chars("mp4");
            chars_eq_ignore_ascii_case(e.as_slice(), m.as_slice())
        },
    }
}

/// The name of the output file: the stem, the suffix, then the extension of the input.
pub open spec fn spec_output_file_name(name: Seq<char>, suffix: Seq<char>) -> Seq<char> {
    match spec_extension(name) {
        Some(e) => spec_file_stem(name) + suffix + "."@ + e,
        None => name + suffix,
    }
}

/// The name of the file that a converted copy of `file_name` is written to, beside it.
pub fn output_file_name(file_name: &str, suffix: &str) -> (r: String)
    ensures
        r@ == spec_output_file_name(file_name@, suffix@),
{
    let cs = str_chars(file_name);
    let (stem_end, ext) = split_name(&cs);
    let mut out: Vec<char> = Vec::new();
    let mut i: usize = 0;
    while i < stem_end
        invariant
            stem_end <= cs.len(),
            i <= stem_end,
            out@ == cs@.subrange(0, i as int),
        decreases stem_end - i,
    {
        out.push(cs[i]);
        i = i + 1;
    }
    let sx = str_chars(suffix);
    let mut j: usize = 0;
    while j < sx.len()
        invariant
            j <= sx.len(),
            out@ == cs@.subrange(0, stem_end as int) + sx@.subrange(0, j as int),
        decreases sx.len() - j,
    {
        out.push(sx[j]);
        j = j + 1;
        assert(out@ =~= cs@.subrange(0, stem_end as int) + sx@.subrange(0, j as int));
    }
    assert(sx@.subrange(0, sx.len() as int) =~= sx@);
    match ext {
        Some(k) => {
            out.push('.');
            let ghost base = out@;
            let mut q = k;
            while q < cs.len()
                invariant
                    k <= q <= cs.len(),
                    out@ == base + cs@.subrange(k as int, q as int),
                decreases cs.len() - q,
            {
                out.push(cs[q]);
                q = q + 1;
                assert(out@ =~= base + cs@.subrange(k as int, q as int));
            }
            proof {
                reveal_strlit(".");
                assert(out@ =~= cs@.subrange(0, stem_end as int) + sx@ + "."@ + cs@.subrange(
                    k as int,
                    cs.len() as int,
                ));
            }
        },
        None => {
            assert(cs@.subrange(0, cs.len() as int) =~= cs@);
        },
    }
    string_from_chars(out.as_slice())
}

// ---------------------------------------------------------------- the marker packet

/// A chapter, placed at the frame it starts on.
#[derive(Debug, Clone)]
pub struct ChapterFrame {
    pub start_frame: u64,
    pub title: Option<String>,
}

/// The markers for the chapters, one each, in order, each with a fresh identifier.
pub fn markers_from_chapters(chapters: &[ChapterFrame]) -> (r: Vec<Marker>)
    ensures
        r.len() == chapters.len(),
        forall|i: int|
            0 <= i < chapters.len() ==> {
                let m = #[trigger] r@[i];
                &&& m.start_frame == chapters@[i].start_frame
                &&& crate::xmp::opt_view(m.name) == crate::xmp::chapter_marker_name(
                    crate::xmp::opt_view(chapters@[i].title),
                )
                &&& m.comment is None
                &&& crate::xmp::is_uuid_text(m.guid@)
            },
{
    let mut r: Vec<Marker> = Vec::new();
    let mut i: usize = 0;
    while i < chapters.len()
        invariant
            i <= chapters.len(),
            r.len() == i,
            forall|j: int|
                0 <= j < i ==> {
                    let m = #[trigger] r@[j];
                    &&& m.start_frame == chapters@[j].start_frame
                    &&& crate::xmp::opt_view(m.name) == crate::xmp::chapter_marker_name(
                        crate::xmp::opt_view(chapters@[j].title),
                    )
                    &&& m.comment is None
                    &&& crate::xmp::is_uuid_text(m.guid@)
                },
        decreases chapters.len() - i,
    {
        let c = &chapters[i];
        let title = match &c.title {
            Some(t) => Some(t.as_str()),
            None => None,
        };
        let m = marker_from_chapter(c.start_frame, title);
        r.push(m);
        i = i + 1;
    }
    r
}

/// `std::str::from_utf8`: the text that the bytes encode in UTF-8, or `None` when they are not
/// valid UTF-8.
#[verifier::external_body]
pub(crate) fn utf8_text(bytes: &[u8]) -> (r: Option<String>)
    ensures
        r is Some <==> valid_utf8(bytes@),
        r matches Some(s) ==> s@ == decode_utf8(bytes@),
{
    std::str::from_utf8(bytes).ok().map(|s| s.to_string())
}

pub open spec fn not_utf8_error() -> ErrorView {
    ErrorView::InvalidXmp("XMP payload is not valid UTF-8"@)
}

/// The markers kept from an existing packet, given how reading it ended: its markers, or,
/// when it was malformed, none with `force` and its error without.
pub fn markers_after_parse(parsed: Result<ParsedMarkers, MarkerFixerError>, force: bool) -> (r:
    Result<Vec<Marker>, MarkerFixerError>)
    ensures
        match parsed {
            Ok(p) => r matches Ok(v) && markers_view(v@) == markers_view(p.markers@),
            Err(e) => if force {
                r matches Ok(v) && v.len() == 0
            } else {
                r matches Err(x) && x@ == e@
            },
        },
{
    match parsed {
        Ok(p) => Ok(p.markers),
        Err(e) => if force {
            Ok(Vec::new())
        } else {
            Err(e)
        },
    }
}

/// The markers already in a file whose XMP payload is `payload` (`None` when it has none).
/// A payload that is not UTF-8 or not a readable packet is an error, unless `force`, when it
/// counts as empty.
pub fn existing_markers(payload: Option<&[u8]>, force: bool) -> (r: Result<Vec<Marker>, MarkerFixerError>)
    ensures
        payload is None ==> (r matches Ok(v) && v.len() == 0),
        payload matches Some(b) && !valid_utf8(b@) ==> if force {
            r matches Ok(v) && v.len() == 0
        } else {
            r matches Err(x) && x@ == not_utf8_error()
        },
        payload matches Some(b) && valid_utf8(b@) && !has_xmpmeta_boundaries(decode_utf8(b@))
            ==> if force {
            r matches Ok(v) && v.len() == 0
        } else {
            r matches Err(x) && x@ == missing_boundaries_error()
        },
        payload matches Some(b) && valid_utf8(b@) && has_xmpmeta_boundaries(decode_utf8(b@))
            ==> match spec_scan_markers(spec_xml_tokens(decode_utf8(payload->Some_0@))) {
                Ok(st) => r matches Ok(v) && v.len() == st.found.len() && forall|i: int|
                    0 <= i < st.found.len() ==> marker_matches_found(
                        #[trigger] v@[i]@,
                        st.found[i],
                    ),
                Err(e) => if force {
                    r matches Ok(v) && v.len() == 0
                } else {
                    r matches Err(x) && x@ == e
                },
            },
{
    match payload {
        None => Ok(Vec::new()),
        Some(bytes) => match utf8_text(bytes) {
            None => if force {
                Ok(Vec::new())
            } else {
                Err(MarkerFixerError::InvalidXmp("XMP payload is not valid UTF-8".to_string()))
            },
            Some(text) => {
                let parsed = parse_markers(text.as_str());
                let ghost pv = parsed;
                let r = markers_after_parse(parsed, force);
                let ghost rv = r;
                proof {
                    if has_xmpmeta_boundaries(text@) {
                        let sc = spec_scan_markers(spec_xml_tokens(text@));
                        if let (Ok(p), Ok(st), Ok(v)) = (pv, sc, rv) {
                            assert(markers_view(v@).len() == v@.len());
                            assert(markers_view(p.markers@).len() == p.markers@.len());
                            assert forall|i: int| 0 <= i < st.found.len() implies marker_matches_found(
                                #[trigger] v@[i]@,
                                st.found[i],
                            ) by {
                                assert(marker_matches_found(p.markers@[i]@, st.found[i]));
                                assert(markers_view(v@)[i] == v@[i]@);
                                assert(markers_view(p.markers@)[i] == p.markers@[i]@);
                            }
                        }
                    }
                }
                r
            },
        },
    }
}

/// The XMP packet for a file: the existing markers merged with the chapter markers, in a
/// marker track at `frame_rate`.
pub fn marker_packet(frame_rate: &str, existing: Vec<Marker>, incoming: Vec<Marker>) -> (r: String)
    ensures
        exists|ms: Seq<MarkerView>|
            is_merge_of(ms, markers_view(existing@) + markers_view(incoming@)) && r@
                == spec_generate_xmp(frame_rate@, ms),
{
    let ghost all = markers_view(existing@) + markers_view(incoming@);
    let merged = merge_markers(existing, incoming);
    let xml = generate_xmp(frame_rate, merged.as_slice());
    assert(is_merge_of(markers_view(merged@), all));
    xml
}


/// The output file never takes the input's name: with a suffix that is not empty, the output
/// name differs from the input name (it is longer by the suffix).
pub proof fn output_name_differs(name: Seq<char>, suffix: Seq<char>)
    requires
        suffix.len() > 0,
    ensures
        spec_output_file_name(name, suffix) != name,
        spec_output_file_name(name, suffix).len() == name.len() + suffix.len(),
{
    lemma_last_dot(name);
    reveal_strlit(".");
    let out = spec_output_file_name(name, suffix);
    match spec_extension(name) {
        Some(e) => {
            let i = last_dot(name)->Some_0;
            assert(e.len() == name.len() - i - 1);
            assert(spec_file_stem(name).len() == i);
            assert("."@.len() == 1);
            assert(out.len() == i + suffix.len() + 1 + e.len());
        },
        None => {
            assert(out.len() == name.len() + suffix.len());
        },
    }
    assert(out.len() != name.len());
}


/// An MP4 file whose probe found no chapters is reported as skipped for having none, on a dry
/// run as well, and whatever is known of a conversion: there is nothing to convert.
pub proof fn no_chapters_means_skipped(
    dry_run: bool,
    converted: Option<Result<(), ErrorView>>,
)
    ensures
        spec_next_file_step(true, Some(Ok(0usize)), dry_run, converted) == FileStepView::Report(
            FileStatusView::SkippedNoChapters,
        ),
{
}

/// A dry run never converts: its step is never a conversion, and a probed MP4 file with
/// chapters is reported converted without one.
pub proof fn dry_run_never_converts(
    is_mp4: bool,
    probe: Option<Result<usize, ErrorView>>,
    chapters: usize,
    converted: Option<Result<(), ErrorView>>,
)
    ensures
        !(spec_next_file_step(is_mp4, probe, true, converted) is Convert),
        chapters > 0 ==> spec_next_file_step(true, Some(Ok(chapters)), true, converted)
            == FileStepView::Report(FileStatusView::Converted),
{
}

/// A file is converted only when it is an MP4 file whose probe found chapters, on a run that
/// is not a dry run, and no conversion was made yet.
pub proof fn conversion_needs_chapters(
    is_mp4: bool,
    probe: Option<Result<usize, ErrorView>>,
    dry_run: bool,
    converted: Option<Result<(), ErrorView>>,
)
    requires
        spec_next_file_step(is_mp4, probe, dry_run, converted) is Convert,
    ensures
        is_mp4,
        probe matches Some(Ok(n)) && n > 0,
        !dry_run,
        converted is None,
{
}

} // verus!
