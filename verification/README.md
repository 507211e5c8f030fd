# marker_fixer

Turns the chapter markers of an MP4 recording into Premiere Pro markers: an Adobe XMP packet
with a marker track, written into a copy of the file beside it.

## Layout

- `src/` — the library, verified with Verus.
  - `mp4.rs`: the root boxes of an MP4 file, the XMP `uuid` box, reading and writing the
    packet; proves that reading after a write gives the written packet back.
  - `xmp.rs`: markers, merging marker lists, writing and reading the XMP packet.
  - `xml.rs`: the `quick_xml` reader, behind small trusted functions whose results are
    named as functions of the text and the event's place in it.
  - `ffprobe.rs`: frame rates and chapter titles from `ffprobe`'s report, where `ffprobe` is
    looked for, and the errors of its runs.
  - `tools.rs`: where the FFmpeg tools are bundled and downloaded from, and the order in
    which a tool is looked for.
  - `paths.rs`: the order in which input files are processed.
  - `batch.rs`: file names, the steps taken for each file, the packet written for it, and
    the report of a run.
  - `text.rs`, `error.rs`: text utilities and the error type.
- `app/` — the command-line program: arguments, files, `ffprobe` runs, downloads.
- `tests/` — tests of the library.
