//! The top-level box structure of an MP4 file, and the Adobe XMP `uuid` box in it.
//!
//! A file is read as a sequence of root boxes. Each box starts with a 32-bit big-endian size
//! and a four-byte type; size 1 means a 64-bit size follows, size 0 means the box runs to the
//! end of the file. A `uuid` box carries a 16-byte identifier after its header; the XMP packet
//! is the payload of the first `uuid` box whose identifier is [`spec_adobe_xmp_uuid`].
use vstd::prelude::*;

use crate::error::{ErrorView, MarkerFixerError, result_view};
use crate::text::spec_decimal;

verus! {

broadcast use vstd::string::group_string_axioms;

/// Bytes in a box header: the 32-bit size and the type.
pub const BOX_HEADER_LEN: u64 = 8;

/// Bytes of the 64-bit size that follows a header whose size field is 1.
pub const BOX_EXTENDED_SIZE_LEN: u64 = 8;

/// Bytes of the identifier of a `uuid` box.
pub const BOX_UUID_LEN: u64 = 16;

/// Bytes from a box's start that decide its header: size, type, extended size and identifier.
pub const HEADER_WINDOW_LEN: u64 = 32;

/// The identifier of Adobe's XMP `uuid` box, `BE7ACFCB-97A9-42E8-9C71-999491E3AFAC`.
pub open spec fn spec_adobe_xmp_uuid() -> Seq<u8> {
    seq![
        0xBEu8, 0x7Au8, 0xCFu8, 0xCBu8, 0x97u8, 0xA9u8, 0x42u8, 0xE8u8,
        0x9Cu8, 0x71u8, 0x99u8, 0x94u8, 0x91u8, 0xE3u8, 0xAFu8, 0xACu8,
    ]
}

/// The box type `uuid`.
pub open spec fn spec_uuid_type() -> Seq<u8> {
    seq![0x75u8, 0x75u8, 0x69u8, 0x64u8]
}

/// The identifier of Adobe's XMP `uuid` box.
pub fn adobe_xmp_uuid() -> (r: [u8; 16])
    ensures
        r@ == spec_adobe_xmp_uuid(),
{
    let r: [u8; 16] = [
        0xBE, 0x7A, 0xCF, 0xCB, 0x97, 0xA9, 0x42, 0xE8, 0x9C, 0x71, 0x99, 0x94, 0x91, 0xE3, 0xAF,
        0xAC,
    ];
    assert(r@ =~= spec_adobe_xmp_uuid());
    r
}

/// A box at the top level of the file, as the scan finds it.
#[derive(Debug, Clone, Copy, PartialEq, Eq)]
pub struct RootBox {
    /// Offset of the box's first byte.
    pub start: u64,
    /// Offset just past the box's last byte.
    pub end: u64,
    pub box_type: [u8; 4],
    /// Bytes before the payload: header, extended size and `uuid` identifier.
    pub header_len: u64,
    pub uuid: Option<[u8; 16]>,
}

/// The mathematical value of a [`RootBox`].
pub struct BoxSpec {
    pub start: int,
    pub end: int,
    pub box_type: Seq<u8>,
    pub header_len: int,
    pub uuid: Option<Seq<u8>>,
}

impl View for RootBox {
    type V = BoxSpec;

    open spec fn view(&self) -> BoxSpec {
        BoxSpec {
            start: self.start as int,
            end: self.end as int,
            box_type: self.box_type@,
            header_len: self.header_len as int,
            uuid: match self.uuid {
                Some(u) => Some(u@),
                None => None,
            },
        }
    }
}

pub open spec fn boxes_view(v: Seq<RootBox>) -> Seq<BoxSpec> {
    v.map_values(|b: RootBox| b@)
}

pub open spec fn scan_result_view(r: Result<Vec<RootBox>, MarkerFixerError>) -> Result<
    Seq<BoxSpec>,
    ErrorView,
> {
    match r {
        Ok(v) => Ok(boxes_view(v@)),
        Err(e) => Err(e@),
    }
}

/// The 32-bit big-endian number at `w[i..i + 4]`.
pub open spec fn be_u32(w: Seq<u8>, i: int) -> int {
    w[i] as int * 16777216 + w[i + 1] as int * 65536 + w[i + 2] as int * 256 + w[i + 3] as int
}

/// The 64-bit big-endian number at `w[i..i + 8]`.
pub open spec fn be_u64(w: Seq<u8>, i: int) -> int {
    be_u32(w, i) * 4294967296 + be_u32(w, i + 4)
}

/// The error of a read past the end of the file (`read_exact`).
pub open spec fn short_read_error() -> ErrorView {
    ErrorView::Io { path: "<mp4>"@, message: "failed to fill whole buffer"@ }
}

pub open spec fn invalid_size_error(o: int, size: int) -> ErrorView {
    ErrorView::InvalidMp4(
        "box at offset "@ + spec_decimal(o as nat) + " has invalid size "@ + spec_decimal(
            size as nat,
        ),
    )
}

pub open spec fn exceeds_file_error(o: int) -> ErrorView {
    ErrorView::InvalidMp4("box at offset "@ + spec_decimal(o as nat) + " exceeds file length"@)
}

pub open spec fn uuid_too_short_error(o: int) -> ErrorView {
    ErrorView::InvalidMp4("uuid box at offset "@ + spec_decimal(o as nat) + " is too short"@)
}

/// The size of a box whose window is `w`, `remain` bytes before the end of the file, with
/// the length of its header before any `uuid` identifier.
pub open spec fn box_size_and_header(w: Seq<u8>, remain: int) -> (int, int) {
    let size32 = be_u32(w, 0);
    if size32 == 1 {
        (be_u64(w, 8), 16)
    } else if size32 == 0 {
        (remain, 8)
    } else {
        (size32, 8)
    }
}

/// The box that starts at offset `o`, `remain` bytes before the end of the file, whose first
/// bytes (at most [`HEADER_WINDOW_LEN`]) are `w`.
#[verifier::opaque]
pub open spec fn box_in(w: Seq<u8>, o: int, remain: int) -> Result<BoxSpec, ErrorView> {
    let size32 = be_u32(w, 0);
    let ty = w.subrange(4, 8);
    if size32 == 1 && remain < 16 {
        Err(short_read_error())
    } else {
        let (size, hlen) = box_size_and_header(w, remain);
        if size < hlen {
            Err(invalid_size_error(o, size))
        } else if size > remain {
            Err(exceeds_file_error(o))
        } else if ty == spec_uuid_type() {
            if size < hlen + 16 {
                Err(uuid_too_short_error(o))
            } else {
                Ok(
                    BoxSpec {
                        start: o,
                        end: o + size,
                        box_type: ty,
                        header_len: hlen + 16,
                        uuid: Some(w.subrange(hlen, hlen + 16)),
                    },
                )
            }
        } else {
            Ok(BoxSpec { start: o, end: o + size, box_type: ty, header_len: hlen, uuid: None })
        }
    }
}

/// The bytes of `f` from `o` that decide the header of the box there.
pub open spec fn header_window(f: Seq<u8>, o: int) -> Seq<u8> {
    f.subrange(o, if o + 32 <= f.len() { o + 32 } else { f.len() as int })
}

/// The box of file `f` that starts at offset `o`.
pub open spec fn box_at(f: Seq<u8>, o: int) -> Result<BoxSpec, ErrorView> {
    box_in(header_window(f, o), o, f.len() - o)
}

pub proof fn lemma_box_in_bounds(w: Seq<u8>, o: int, remain: int)
    ensures
        box_in(w, o, remain) matches Ok(b) ==> {
            &&& b.start == o
            &&& o + 8 <= b.end <= o + remain
            &&& b.start + b.header_len <= b.end
            &&& b.header_len >= 8
        },
{
    reveal(box_in);
}

/// The boxes of `f` from offset `o` on, up to the first box that fails.
pub open spec fn spec_scan(f: Seq<u8>, o: int) -> Result<Seq<BoxSpec>, ErrorView>
    decreases f.len() - o,
{
    if o < 0 || o + 8 > f.len() {
        Ok(seq![])
    } else {
        match box_at(f, o) {
            Err(e) => Err(e),
            Ok(b) => {
                proof {
                    lemma_box_in_bounds(header_window(f, o), o, f.len() - o);
                }
                match spec_scan(f, b.end) {
                    Err(e) => Err(e),
                    Ok(rest) => Ok(seq![b] + rest),
                }
            },
        }
    }
}

/// `pre` followed by the boxes of `r`, or the error of `r`.
pub open spec fn prepend_boxes(pre: Seq<BoxSpec>, r: Result<Seq<BoxSpec>, ErrorView>) -> Result<
    Seq<BoxSpec>,
    ErrorView,
> {
    match r {
        Ok(rest) => Ok(pre + rest),
        Err(e) => Err(e),
    }
}


fn read_be_u32(w: &[u8], i: usize) -> (r: u64)
    requires
        i + 4 <= w.len(),
    ensures
        r == be_u32(w@, i as int),
        r <= 0xFFFF_FFFF,
{
    (w[i] as u64) * 16777216 + (w[i + 1] as u64) * 65536 + (w[i + 2] as u64) * 256 + (w[i
        + 3] as u64)
}

fn read_be_u64(w: &[u8], i: usize) -> (r: u64)
    requires
        i + 8 <= w.len(),
    ensures
        r == be_u64(w@, i as int),
{
    let hi = read_be_u32(w, i);
    let lo = read_be_u32(w, i + 4);
    hi * 4294967296 + lo
}

fn mp4_error(prefix: &str, offset: u64, suffix: &str) -> (r: MarkerFixerError)
    ensures
        r@ == ErrorView::InvalidMp4(prefix@ + spec_decimal(offset as nat) + suffix@),
{
    let mut m = prefix.to_string();
    let d = crate::text::u64_to_decimal(offset);
    m.append(d.as_str());
    m.append(suffix);
    MarkerFixerError::InvalidMp4(m)
}

/// Reads the header of the box that starts at `offset`, `file_len - offset` bytes before the
/// end of the file, from the first bytes of the box (`window`).
pub fn parse_box_at(window: &[u8], offset: u64, file_len: u64) -> (r: Result<
    RootBox,
    MarkerFixerError,
>)
    requires
        offset + 8 <= file_len,
        window.len() == (if file_len - offset >= 32 { 32 } else { file_len - offset }),
    ensures
        result_view(r) == box_in(window@, offset as int, file_len - offset),
{
    reveal(box_in);
    let remain = file_len - offset;
    let size32 = read_be_u32(window, 0);
    let box_type: [u8; 4] = [window[4], window[5], window[6], window[7]];
    assert(box_type@ =~= window@.subrange(4, 8));
    if size32 == 1 && remain < 16 {
        let r = MarkerFixerError::Io {
            path: "<mp4>".to_string(),
            message: "failed to fill whole buffer".to_string(),
        };
        return Err(r);
    }
    let (box_size, header_len) = if size32 == 1 {
        (read_be_u64(window, 8), 16u64)
    } else if size32 == 0 {
        (remain, 8u64)
    } else {
        (size32, 8u64)
    };
    if box_size < header_len {
        let mut m = "box at offset ".to_string();
        let d = crate::text::u64_to_decimal(offset);
        m.append(d.as_str());
        m.append(" has invalid size ");
        let d2 = crate::text::u64_to_decimal(box_size);
        m.append(d2.as_str());
        return Err(MarkerFixerError::InvalidMp4(m));
    }
    if box_size > remain {
        return Err(mp4_error("box at offset ", offset, " exceeds file length"));
    }
    let is_uuid = box_type[0] == 0x75 && box_type[1] == 0x75 && box_type[2] == 0x69 && box_type[3]
        == 0x64;
    assert(is_uuid == (box_type@ == spec_uuid_type())) by {
        if box_type@ == spec_uuid_type() {
            assert(box_type@[0] == 0x75 && box_type@[1] == 0x75 && box_type@[2] == 0x69
                && box_type@[3] == 0x64);
        }
        if is_uuid {
            assert(box_type@ =~= spec_uuid_type());
        }
    }
    if is_uuid {
        if box_size < header_len + 16 {
            return Err(mp4_error("uuid box at offset ", offset, " is too short"));
        }
        let h = header_len as usize;
        let uuid: [u8; 16] = [
            window[h],
            window[h + 1],
            window[h + 2],
            window[h + 3],
            window[h + 4],
            window[h + 5],
            window[h + 6],
            window[h + 7],
            window[h + 8],
            window[h + 9],
            window[h + 10],
            window[h + 11],
            window[h + 12],
            window[h + 13],
            window[h + 14],
            window[h + 15],
        ];
        assert(uuid@ =~= window@.subrange(h as int, h + 16));
        Ok(
            RootBox {
                start: offset,
                end: offset + box_size,
                box_type,
                header_len: header_len + 16,
                uuid: Some(uuid),
            },
        )
    } else {
        Ok(RootBox { start: offset, end: offset + box_size, box_type, header_len, uuid: None })
    }
}


/// The number of header bytes to read at `offset` of a file of `file_len` bytes.
pub open spec fn window_len(offset: int, file_len: int) -> int {
    if file_len - offset >= 32 {
        32
    } else {
        file_len - offset
    }
}

/// A scan of the root boxes of a file that is read piece by piece: the scan names the bytes
/// it needs next ([`RootBoxScan::next_window`]) and is handed them ([`RootBoxScan::feed`]).
pub struct RootBoxScan {
    pub file_len: u64,
    pub offset: u64,
    pub boxes: Vec<RootBox>,
}

impl RootBoxScan {
    pub open spec fn wf(&self) -> bool {
        self.offset <= self.file_len
    }

    /// A scan of a file of `file_len` bytes that has found nothing yet.
    pub fn new(file_len: u64) -> (r: RootBoxScan)
        ensures
            r.wf(),
            r.file_len == file_len,
            r.offset == 0,
            r.boxes@.len() == 0,
    {
        RootBoxScan { file_len, offset: 0, boxes: Vec::new() }
    }

    /// The offset and length of the bytes that the next box's header is read from, or
    /// `None` when fewer than a header's bytes are left and the scan is complete.
    pub fn next_window(&self) -> (r: Option<(u64, u64)>)
        requires
            self.wf(),
        ensures
            r is None <==> self.offset + 8 > self.file_len,
            r matches Some((o, n)) ==> o == self.offset && n == window_len(
                self.offset as int,
                self.file_len as int,
            ),
    {
        if self.file_len - self.offset < BOX_HEADER_LEN {
            None
        } else if self.file_len - self.offset >= HEADER_WINDOW_LEN {
            Some((self.offset, HEADER_WINDOW_LEN))
        } else {
            Some((self.offset, self.file_len - self.offset))
        }
    }

    /// Reads the box at the current offset from its first bytes, records it and moves past it.
    pub fn feed(&mut self, window: &[u8]) -> (r: Result<(), MarkerFixerError>)
        requires
            old(self).wf(),
            old(self).offset + 8 <= old(self).file_len,
            window.len() == window_len(old(self).offset as int, old(self).file_len as int),
        ensures
            final(self).wf(),
            final(self).file_len == old(self).file_len,
            match box_in(
                window@,
                old(self).offset as int,
                old(self).file_len - old(self).offset,
            ) {
                Ok(b) => r is Ok && final(self).boxes@.len() == old(self).boxes@.len() + 1
                    && boxes_view(final(self).boxes@) == boxes_view(old(self).boxes@).push(b)
                    && final(self).offset == b.end,
                Err(e) => r matches Err(x) && x@ == e,
            },
    {
        match parse_box_at(window, self.offset, self.file_len) {
            Ok(b) => {
                proof {
                    lemma_box_in_bounds(window@, self.offset as int, self.file_len - self.offset);
                }
                let ghost before = self.boxes@;
                self.offset = b.end;
                self.boxes.push(b);
                assert(boxes_view(self.boxes@) =~= boxes_view(before).push(b@));
                Ok(())
            },
            Err(e) => Err(e),
        }
    }
}

fn copy_window(data: &[u8], start: u64, len: u64) -> (r: Vec<u8>)
    requires
        start + len <= data.len(),
    ensures
        r@ == data@.subrange(start as int, start + len),
{
    let mut r: Vec<u8> = Vec::new();
    let mut i: usize = 0;
    let s = start as usize;
    let n = len as usize;
    while i < n
        invariant
            s == start,
            n == len,
            s + n <= data.len(),
            i <= n,
            r@ == data@.subrange(s as int, s + i),
        decreases n - i,
    {
        r.push(data[s + i]);
        i = i + 1;
        assert(r@ =~= data@.subrange(s as int, s + i));
    }
    r
}

/// The root boxes of the file whose bytes are `data`.
pub fn parse_root_boxes(data: &[u8]) -> (r: Result<Vec<RootBox>, MarkerFixerError>)
    ensures
        scan_result_view(r) == spec_scan(data@, 0),
{
    let file_len = data.len() as u64;
    let mut scan = RootBoxScan::new(file_len);
    assert(boxes_view(scan.boxes@) =~= Seq::<BoxSpec>::empty());
    assert(prepend_boxes(seq![], spec_scan(data@, 0)) == spec_scan(data@, 0)) by {
        if let Ok(x) = spec_scan(data@, 0) {
            assert(Seq::<BoxSpec>::empty() + x =~= x);
        }
    }
    loop
        invariant
            scan.wf(),
            scan.file_len == data.len(),
            spec_scan(data@, 0) == prepend_boxes(
                boxes_view(scan.boxes@),
                spec_scan(data@, scan.offset as int),
            ),
        decreases data.len() - scan.offset,
    {
        match scan.next_window() {
            None => {
                assert(spec_scan(data@, scan.offset as int) == Ok::<Seq<BoxSpec>, ErrorView>(
                    seq![],
                ));
                assert(boxes_view(scan.boxes@) + seq![] =~= boxes_view(scan.boxes@));
                return Ok(scan.boxes);
            },
            Some((o, n)) => {
                let window = copy_window(data, o, n);
                assert(window@ == header_window(data@, o as int));
                let ghost pre = boxes_view(scan.boxes@);
                let ghost off = scan.offset as int;
                match scan.feed(window.as_slice()) {
                    Ok(()) => {
                        proof {
                            let b = box_at(data@, off)->Ok_0;
                            lemma_box_in_bounds(header_window(data@, off), off, data@.len() - off);
                            match spec_scan(data@, b.end) {
                                Ok(rest) => {
                                    assert(pre.push(b) + rest =~= pre + (seq![b] + rest));
                                },
                                Err(_) => {},
                            }
                        }
                    },
                    Err(e) => {
                        return Err(e);
                    },
                }
            },
        }
    }
}


// ---------------------------------------------------------------- the XMP box

/// The box carries the XMP packet: a `uuid` box with Adobe's identifier.
pub open spec fn is_xmp_box(b: BoxSpec) -> bool {
    b.box_type == spec_uuid_type() && b.uuid == Some(spec_adobe_xmp_uuid())
}

/// The index of the first XMP box of `bs`.
pub open spec fn first_xmp(bs: Seq<BoxSpec>) -> Option<int>
    decreases bs.len(),
{
    if bs.len() == 0 {
        None
    } else if is_xmp_box(bs[0]) {
        Some(0)
    } else {
        match first_xmp(bs.drop_first()) {
            Some(i) => Some(i + 1),
            None => None,
        }
    }
}

pub proof fn lemma_first_xmp(bs: Seq<BoxSpec>)
    ensures
        first_xmp(bs) matches Some(i) ==> 0 <= i < bs.len() && is_xmp_box(bs[i]) && forall|j: int|
            0 <= j < i ==> !is_xmp_box(#[trigger] bs[j]),
        first_xmp(bs) is None ==> forall|j: int| 0 <= j < bs.len() ==> !is_xmp_box(#[trigger] bs[j]),
    decreases bs.len(),
{
    if bs.len() > 0 {
        lemma_first_xmp(bs.drop_first());
        assert forall|j: int| 1 <= j < bs.len() implies bs[j] == bs.drop_first()[j - 1] by {}
    }
}

/// The payload of the box `b` of file `f`: the bytes after its header.
pub open spec fn box_payload(f: Seq<u8>, b: BoxSpec) -> Seq<u8> {
    f.subrange(b.start + b.header_len, b.end)
}

/// What reading the XMP packet of file `f` gives: the payload of its first XMP box, `None`
/// when it has none, or the error of its box structure.
pub open spec fn spec_read_xmp(f: Seq<u8>) -> Result<Option<Seq<u8>>, ErrorView> {
    match spec_scan(f, 0) {
        Err(e) => Err(e),
        Ok(bs) => match first_xmp(bs) {
            None => Ok(None),
            Some(i) => Ok(Some(box_payload(f, bs[i]))),
        },
    }
}

/// The four big-endian bytes of `t < 2^32`.
pub open spec fn be32_bytes(t: int) -> Seq<u8> {
    seq![(t / 16777216) as u8, ((t / 65536) % 256) as u8, ((t / 256) % 256) as u8, (t % 256) as u8]
}

/// The XMP box that carries `payload`.
pub open spec fn spec_xmp_box(payload: Seq<u8>) -> Seq<u8> {
    be32_bytes(24 + payload.len() as int) + spec_uuid_type() + spec_adobe_xmp_uuid() + payload
}

/// A payload fits a box with a 32-bit size.
pub open spec fn payload_fits(payload: Seq<u8>) -> bool {
    24 + payload.len() <= u32::MAX
}

pub open spec fn too_large_error() -> ErrorView {
    ErrorView::InvalidMp4("xmp payload too large for 32-bit box size"@)
}

/// What writing the XMP packet `p` into file `f` gives: the file with its first XMP box
/// replaced by a box that carries `p`, or with that box appended when there is none.
pub open spec fn spec_write_xmp(f: Seq<u8>, p: Seq<u8>) -> Result<Seq<u8>, ErrorView> {
    match spec_scan(f, 0) {
        Err(e) => Err(e),
        Ok(bs) => if !payload_fits(p) {
            Err(too_large_error())
        } else {
            match first_xmp(bs) {
                Some(i) => Ok(
                    f.subrange(0, bs[i].start) + spec_xmp_box(p) + f.subrange(
                        bs[i].end,
                        f.len() as int,
                    ),
                ),
                None => Ok(f + spec_xmp_box(p)),
            }
        },
    }
}

fn is_xmp_root_box(b: &RootBox) -> (r: bool)
    ensures
        r == is_xmp_box(b@),
{
    let t = &b.box_type;
    let ty_ok = t[0] == 0x75 && t[1] == 0x75 && t[2] == 0x69 && t[3] == 0x64;
    assert(ty_ok == (b.box_type@ == spec_uuid_type())) by {
        if b.box_type@ == spec_uuid_type() {
            assert(b.box_type@[0] == 0x75 && b.box_type@[1] == 0x75 && b.box_type@[2] == 0x69
                && b.box_type@[3] == 0x64);
        }
        if ty_ok {
            assert(b.box_type@ =~= spec_uuid_type());
        }
    }
    if !ty_ok {
        return false;
    }
    match &b.uuid {
        None => false,
        Some(u) => {
            let a = adobe_xmp_uuid();
            let mut i: usize = 0;
            while i < 16
                invariant
                    i <= 16,
                    a@ == spec_adobe_xmp_uuid(),
                    b.uuid == Some(*u),
                    b.box_type@ == spec_uuid_type(),
                    forall|k: int| 0 <= k < i ==> u@[k] == a@[k],
                decreases 16 - i,
            {
                if u[i] != a[i] {
                    assert(u@ != spec_adobe_xmp_uuid());
                    return false;
                }
                i = i + 1;
            }
            assert(u@ =~= spec_adobe_xmp_uuid());
            true
        },
    }
}

/// The index of the first XMP box.
pub fn find_xmp_box(boxes: &[RootBox]) -> (r: Option<usize>)
    ensures
        r matches Some(k) ==> k < boxes.len(),
        first_xmp(boxes_view(boxes@)) matches Some(i) ==> 0 <= i < boxes.len() && is_xmp_box(
            boxes@[i]@,
        ),
        match first_xmp(boxes_view(boxes@)) {
            Some(i) => r == Some(i as usize),
            None => r is None,
        },
{
    let ghost bv = boxes_view(boxes@);
    proof {
        lemma_first_xmp(bv);
    }
    let mut i: usize = 0;
    while i < boxes.len()
        invariant
            i <= boxes.len(),
            bv == boxes_view(boxes@),
            forall|j: int| 0 <= j < i ==> !is_xmp_box(#[trigger] bv[j]),
            first_xmp(bv) matches Some(k) ==> 0 <= k < bv.len() && is_xmp_box(bv[k])
                && forall|j: int| 0 <= j < k ==> !is_xmp_box(#[trigger] bv[j]),
            first_xmp(bv) is None ==> forall|j: int|
                0 <= j < bv.len() ==> !is_xmp_box(#[trigger] bv[j]),
        decreases boxes.len() - i,
    {
        if is_xmp_root_box(&boxes[i]) {
            assert(bv[i as int] == boxes@[i as int]@);
            return Some(i);
        }
        assert(bv[i as int] == boxes@[i as int]@);
        i = i + 1;
    }
    None
}

/// Where the XMP packet lies: the offset and length of the payload of the first XMP box.
pub fn xmp_payload_range(boxes: &[RootBox]) -> (r: Option<(u64, u64)>)
    requires
        forall|j: int|
            0 <= j < boxes.len() ==> #[trigger] boxes@[j].start + boxes@[j].header_len
                <= u64::MAX,
    ensures
        match first_xmp(boxes_view(boxes@)) {
            Some(i) => r matches Some((s, n)) && s == boxes@[i].start + boxes@[i].header_len && n
                == (if boxes@[i].end >= s {
                boxes@[i].end - s
            } else {
                0
            }),
            None => r is None,
        },
{
    match find_xmp_box(boxes) {
        None => None,
        Some(i) => {
            let b = &boxes[i];
            let s = b.start + b.header_len;
            Some((s, b.end.saturating_sub(s)))
        },
    }
}

/// The payload of the first XMP box of the file whose bytes are `data`.
pub fn read_xmp_payload_from(data: &[u8]) -> (r: Result<Option<Vec<u8>>, MarkerFixerError>)
    ensures
        match (r, spec_read_xmp(data@)) {
            (Ok(Some(v)), Ok(Some(p))) => v@ == p,
            (Ok(None), Ok(None)) => true,
            (Err(e), Err(x)) => e@ == x,
            _ => false,
        },
{
    let boxes = match parse_root_boxes(data) {
        Ok(b) => b,
        Err(e) => {
            return Err(e);
        },
    };
    let ghost bv = boxes_view(boxes@);
    proof {
        lemma_scan_facts(data@, 0);
        lemma_first_xmp(bv);
        assert(bv.len() == boxes@.len());
        assert forall|j: int| 0 <= j < boxes.len() implies #[trigger] boxes@[j].start
            + boxes@[j].header_len <= boxes@[j].end by {
            assert(bv[j] == boxes@[j]@);
            assert(bv[j].start + 8 <= bv[j].end);
        }
    }
    match xmp_payload_range(boxes.as_slice()) {
        None => Ok(None),
        Some((s, n)) => {
            proof {
                let i = first_xmp(bv)->Some_0;
                assert(bv[i] == boxes@[i]@);
                assert(bv[i].start + 8 <= bv[i].end <= data.len());
            }
            Ok(Some(copy_window(data, s, n)))
        },
    }
}

/// The bytes of the XMP box that carries `payload`, as they are written into a file, or an
/// error when the box size does not fit 32 bits.
pub fn write_xmp_box(payload: &[u8]) -> (r: Result<Vec<u8>, MarkerFixerError>)
    ensures
        payload_fits(payload@) ==> (r matches Ok(v) && v@ == spec_xmp_box(payload@)),
        !payload_fits(payload@) ==> (r matches Err(e) && e@ == too_large_error()),
{
    if payload.len() as u64 > 0xFFFF_FFFF - 24 {
        return Err(
            MarkerFixerError::InvalidMp4("xmp payload too large for 32-bit box size".to_string()),
        );
    }
    let total = (payload.len() as u64) + 24;
    let mut v: Vec<u8> = Vec::new();
    v.push((total / 16777216) as u8);
    v.push(((total / 65536) % 256) as u8);
    v.push(((total / 256) % 256) as u8);
    v.push((total % 256) as u8);
    v.push(0x75);
    v.push(0x75);
    v.push(0x69);
    v.push(0x64);
    let a = adobe_xmp_uuid();
    let mut i: usize = 0;
    while i < 16
        invariant
            i <= 16,
            a@ == spec_adobe_xmp_uuid(),
            v@ == be32_bytes(total as int) + spec_uuid_type() + a@.subrange(0, i as int),
        decreases 16 - i,
    {
        v.push(a[i]);
        i = i + 1;
        assert(v@ =~= be32_bytes(total as int) + spec_uuid_type() + a@.subrange(0, i as int));
    }
    let mut j: usize = 0;
    while j < payload.len()
        invariant
            j <= payload.len(),
            v@ == be32_bytes(total as int) + spec_uuid_type() + spec_adobe_xmp_uuid()
                + payload@.subrange(0, j as int),
        decreases payload.len() - j,
    {
        v.push(payload[j]);
        j = j + 1;
        assert(v@ =~= be32_bytes(total as int) + spec_uuid_type() + spec_adobe_xmp_uuid()
            + payload@.subrange(0, j as int));
    }
    assert(payload@.subrange(0, payload.len() as int) =~= payload@);
    Ok(v)
}

/// How to write a file whose XMP packet is replaced: copy `head_len` bytes from the start,
/// write the new XMP box, then copy `tail_len` bytes from `tail_start`.
#[derive(Debug, Clone, Copy, PartialEq, Eq)]
pub struct XmpWritePlan {
    pub head_len: u64,
    pub tail_start: u64,
    pub tail_len: u64,
}

/// `plan` replaces the first XMP box of the boxes `bs` of a file of `file_len` bytes: it
/// copies the bytes before that box and those after it; with no XMP box, it copies the whole
/// file and appends.
pub open spec fn is_plan_for(plan: XmpWritePlan, bs: Seq<BoxSpec>, file_len: int) -> bool {
    match first_xmp(bs) {
        Some(i) => plan.head_len == bs[i].start && plan.tail_start == bs[i].end
            && plan.tail_len == (if file_len >= bs[i].end {
            file_len - bs[i].end
        } else {
            0
        }),
        None => plan.head_len == file_len && plan.tail_start == file_len && plan.tail_len == 0,
    }
}

/// The file that `plan` makes of `f` with the box bytes `b`: the first `head_len` bytes of
/// `f`, then `b`, then `tail_len` bytes of `f` from `tail_start`.
pub open spec fn planned_file(f: Seq<u8>, plan: XmpWritePlan, b: Seq<u8>) -> Seq<u8> {
    f.subrange(0, plan.head_len as int) + b + f.subrange(
        plan.tail_start as int,
        plan.tail_start + plan.tail_len,
    )
}

/// The plan that replaces the first XMP box of a file of `file_len` bytes with root boxes
/// `boxes`, or appends a new XMP box when there is none.
pub fn plan_xmp_write(boxes: &[RootBox], file_len: u64) -> (r: XmpWritePlan)
    ensures
        is_plan_for(r, boxes_view(boxes@), file_len as int),
{
    let ghost bv = boxes_view(boxes@);
    match find_xmp_box(boxes) {
        Some(i) => {
            let b = &boxes[i];
            assert(bv[i as int] == b@);
            XmpWritePlan { head_len: b.start, tail_start: b.end, tail_len: file_len.saturating_sub(b.end) }
        },
        None => XmpWritePlan { head_len: file_len, tail_start: file_len, tail_len: 0 },
    }
}

/// The bytes of the file `data` with its XMP packet replaced by `payload`.
pub fn write_xmp_into(data: &[u8], payload: &[u8]) -> (r: Result<Vec<u8>, MarkerFixerError>)
    ensures
        match (r, spec_write_xmp(data@, payload@)) {
            (Ok(v), Ok(g)) => v@ == g,
            (Err(e), Err(x)) => e@ == x,
            _ => false,
        },
{
    let boxes = match parse_root_boxes(data) {
        Ok(b) => b,
        Err(e) => {
            return Err(e);
        },
    };
    let ghost bv = boxes_view(boxes@);
    proof {
        lemma_scan_facts(data@, 0);
        lemma_first_xmp(bv);
        assert(bv.len() == boxes@.len());
        assert forall|j: int| 0 <= j < boxes.len() implies #[trigger] boxes@[j].end
            <= data.len() by {
            assert(bv[j] == boxes@[j]@);
            assert(bv[j].start + 8 <= bv[j].end);
        }
    }
    let plan = plan_xmp_write(boxes.as_slice(), data.len() as u64);
    proof {
        if let Some(i) = first_xmp(bv) {
            assert(bv[i] == boxes@[i]@);
            assert(bv[i].start + 8 <= bv[i].end);
            assert(bv[i].end <= data.len());
        }
    }
    let xmp = write_xmp_box(payload)?;
    let mut out = copy_window(data, 0, plan.head_len);
    let tail = copy_window(data, plan.tail_start, plan.tail_len);
    let mut x = xmp;
    let mut t = tail;
    out.append(&mut x);
    out.append(&mut t);
    proof {
        match first_xmp(boxes_view(boxes@)) {
            Some(i) => {
                assert(bv[i] == boxes@[i]@);
            },
            None => {
                assert(data@.subrange(0, data.len() as int) =~= data@);
                assert(data@.subrange(data.len() as int, data.len() as int) =~= Seq::<u8>::empty());
            },
        }
    }
    Ok(out)
}

// ---------------------------------------------------------------- facts about the scan

/// Every box of a successful scan is the box found at its start, the boxes follow each other
/// without gaps, and each lies within the file.
pub proof fn lemma_scan_facts(f: Seq<u8>, o: int)
    requires
        0 <= o,
        spec_scan(f, o) is Ok,
    ensures
        ({
            let bs = spec_scan(f, o)->Ok_0;
            &&& forall|i: int| 0 <= i < bs.len() ==> box_at(f, #[trigger] bs[i].start) == Ok::<
                BoxSpec,
                ErrorView,
            >(bs[i])
            &&& forall|i: int| 0 <= i < bs.len() ==> spec_scan(f, #[trigger] bs[i].start) == Ok::<
                Seq<BoxSpec>,
                ErrorView,
            >(bs.subrange(i, bs.len() as int))
            &&& forall|i: int|
                0 <= i < bs.len() ==> #[trigger] bs[i].start + 8 <= bs[i].end <= f.len()
                    && bs[i].start + bs[i].header_len <= bs[i].end && bs[i].start >= o
            &&& forall|i: int|
                0 <= i < bs.len() - 1 ==> #[trigger] bs[i + 1].start == bs[i].end
            &&& bs.len() > 0 ==> bs[0].start == o
            &&& bs.len() == 0 ==> o + 8 > f.len()
            &&& bs.len() > 0 ==> bs.last().end + 8 > f.len()
        }),
    decreases f.len() - o,
{
    let bs = spec_scan(f, o)->Ok_0;
    if o + 8 <= f.len() {
        let b = box_at(f, o)->Ok_0;
        lemma_box_in_bounds(header_window(f, o), o, f.len() - o);
        lemma_scan_facts(f, b.end);
        let rest = spec_scan(f, b.end)->Ok_0;
        assert(bs == seq![b] + rest);
        assert(bs[0] == b);
        assert forall|i: int| 1 <= i < bs.len() implies bs[i] == rest[i - 1] by {}
        assert forall|i: int| 0 <= i < bs.len() implies box_at(f, #[trigger] bs[i].start) == Ok::<
            BoxSpec,
            ErrorView,
        >(bs[i]) by {
            if i > 0 {
                assert(bs[i] == rest[i - 1]);
            }
        }
        assert forall|i: int| 0 <= i < bs.len() implies spec_scan(f, #[trigger] bs[i].start)
            == Ok::<Seq<BoxSpec>, ErrorView>(bs.subrange(i, bs.len() as int)) by {
            if i > 0 {
                assert(bs[i] == rest[i - 1]);
                assert(bs.subrange(i, bs.len() as int) =~= rest.subrange(
                    i - 1,
                    rest.len() as int,
                ));
            } else {
                assert(bs.subrange(0, bs.len() as int) =~= bs);
            }
        }
        assert forall|i: int| 0 <= i < bs.len() implies #[trigger] bs[i].start + 8 <= bs[i].end
            <= f.len() && bs[i].start + bs[i].header_len <= bs[i].end && bs[i].start >= o by {
            if i > 0 {
                assert(bs[i] == rest[i - 1]);
            }
        }
        assert forall|i: int| 0 <= i < bs.len() - 1 implies #[trigger] bs[i + 1].start
            == bs[i].end by {
            assert(bs[i + 1] == rest[i]);
            if i > 0 {
                assert(bs[i] == rest[i - 1]);
                assert(rest[(i - 1) + 1].start == rest[i - 1].end);
            } else {
                assert(rest[0].start == b.end);
            }
        }
        if rest.len() > 0 {
            assert(bs.last() == rest.last());
        }
    }
}


/// The box's 32-bit size field is 0: it runs to the end of the file, whatever the file's length.
pub open spec fn runs_to_end(f: Seq<u8>, b: BoxSpec) -> bool {
    be_u32(header_window(f, b.start), 0) == 0
}

/// A new box can be appended after the boxes of `f`: they cover the whole file, and none of
/// them runs to the end of the file whatever its length.
pub open spec fn appendable(f: Seq<u8>) -> bool {
    let bs = spec_scan(f, 0)->Ok_0;
    &&& bs.len() == 0 ==> f.len() == 0
    &&& bs.len() > 0 ==> bs.last().end == f.len()
    &&& forall|i: int| 0 <= i < bs.len() ==> !runs_to_end(f, #[trigger] bs[i])
}

/// The XMP box that carries `p`, at offset `s`.
pub open spec fn xmp_box_spec(s: int, p: Seq<u8>) -> BoxSpec {
    BoxSpec {
        start: s,
        end: s + 24 + p.len(),
        box_type: spec_uuid_type(),
        header_len: 24,
        uuid: Some(spec_adobe_xmp_uuid()),
    }
}

/// The boxes `bs` moved by `d` bytes.
pub open spec fn shift_boxes(bs: Seq<BoxSpec>, d: int) -> Seq<BoxSpec> {
    bs.map_values(
        |b: BoxSpec|
            BoxSpec {
                start: b.start + d,
                end: b.end + d,
                box_type: b.box_type,
                header_len: b.header_len,
                uuid: b.uuid,
            },
    )
}

proof fn lemma_be32_roundtrip(t: int)
    requires
        0 <= t <= u32::MAX,
    ensures
        be_u32(be32_bytes(t), 0) == t,
{
    let w = be32_bytes(t);
    let a = t / 16777216;
    let b = (t / 65536) % 256;
    let c = (t / 256) % 256;
    let d = t % 256;
    assert(0 <= a < 256 && 0 <= b < 256 && 0 <= c < 256 && 0 <= d < 256) by (nonlinear_arith)
        requires
            0 <= t <= u32::MAX,
            a == t / 16777216,
            b == (t / 65536) % 256,
            c == (t / 256) % 256,
            d == t % 256,
    ;
    assert(a * 16777216 + b * 65536 + c * 256 + d == t) by (nonlinear_arith)
        requires
            0 <= t <= u32::MAX,
            a == t / 16777216,
            b == (t / 65536) % 256,
            c == (t / 256) % 256,
            d == t % 256,
    ;
    assert(w[0] as int == a);
    assert(w[1] as int == b);
    assert(w[2] as int == c);
    assert(w[3] as int == d);
}

proof fn lemma_size_zero_runs_to_end(w: Seq<u8>, o: int, remain: int)
    requires
        box_in(w, o, remain) is Ok,
        be_u32(w, 0) == 0,
    ensures
        box_in(w, o, remain)->Ok_0.end == o + remain,
{
    reveal(box_in);
}

/// A box reads the same from any window and remainder that agree with it on its own bytes,
/// unless its size field says it runs to the end of the file.
proof fn lemma_box_in_stable(w1: Seq<u8>, w2: Seq<u8>, o: int, r1: int, r2: int)
    requires
        box_in(w1, o, r1) is Ok,
        be_u32(w1, 0) != 0,
        ({
            let b = box_in(w1, o, r1)->Ok_0;
            let k = if b.end - o <= 32 { b.end - o } else { 32 };
            &&& w1.len() >= k
            &&& w2.len() >= k
            &&& forall|i: int| 0 <= i < k ==> w1[i] == w2[i]
            &&& r2 >= b.end - o
        }),
    ensures
        box_in(w2, o, r2) == box_in(w1, o, r1),
{
    reveal(box_in);
    let b = box_in(w1, o, r1)->Ok_0;
    lemma_box_in_bounds(w1, o, r1);
    let k = if b.end - o <= 32 { b.end - o } else { 32 };
    assert(k >= 8);
    assert(w1[0] == w2[0] && w1[1] == w2[1] && w1[2] == w2[2] && w1[3] == w2[3]);
    assert(be_u32(w1, 0) == be_u32(w2, 0));
    assert(w1.subrange(4, 8) =~= w2.subrange(4, 8));
    let size32 = be_u32(w1, 0);
    if size32 == 1 {
        assert(k >= 16);
        assert(w1[8] == w2[8] && w1[9] == w2[9] && w1[10] == w2[10] && w1[11] == w2[11]);
        assert(w1[12] == w2[12] && w1[13] == w2[13] && w1[14] == w2[14] && w1[15] == w2[15]);
        assert(be_u64(w1, 8) == be_u64(w2, 8));
    }
    let (size, hlen) = box_size_and_header(w1, r1);
    assert(box_size_and_header(w2, r2) == (size, hlen));
    if w1.subrange(4, 8) == spec_uuid_type() {
        assert(k >= hlen + 16);
        assert(w1.subrange(hlen, hlen + 16) =~= w2.subrange(hlen, hlen + 16));
    }
}

/// A box reads the same at another offset from the same bytes, moved by the difference.
proof fn lemma_box_in_shift(w: Seq<u8>, o1: int, o2: int, remain: int)
    requires
        box_in(w, o1, remain) is Ok,
    ensures
        box_in(w, o2, remain) is Ok,
        ({
            let b1 = box_in(w, o1, remain)->Ok_0;
            let b2 = box_in(w, o2, remain)->Ok_0;
            &&& b2.start == b1.start + (o2 - o1)
            &&& b2.end == b1.end + (o2 - o1)
            &&& b2.box_type == b1.box_type
            &&& b2.header_len == b1.header_len
            &&& b2.uuid == b1.uuid
        }),
{
    reveal(box_in);
}

proof fn lemma_prepend_empty(r: Result<Seq<BoxSpec>, ErrorView>)
    ensures
        prepend_boxes(seq![], r) == r,
{
    if let Ok(x) = r {
        assert(Seq::<BoxSpec>::empty() + x =~= x);
    }
}

proof fn lemma_scan_bounds(f: Seq<u8>, o: int)
    requires
        0 <= o,
        spec_scan(f, o) is Ok,
    ensures
        forall|i: int|
            0 <= i < spec_scan(f, o)->Ok_0.len() ==> o <= #[trigger] spec_scan(f, o)->Ok_0[i].start
                && spec_scan(f, o)->Ok_0[i].start + 8 <= spec_scan(f, o)->Ok_0[i].end <= f.len(),
    decreases f.len() - o,
{
    let bs = spec_scan(f, o)->Ok_0;
    if o + 8 <= f.len() {
        let b = box_at(f, o)->Ok_0;
        lemma_box_in_bounds(header_window(f, o), o, f.len() - o);
        lemma_scan_bounds(f, b.end);
        let rest = spec_scan(f, b.end)->Ok_0;
        assert(bs == seq![b] + rest);
        assert forall|i: int| 0 <= i < bs.len() implies o <= #[trigger] bs[i].start && bs[i].start
            + 8 <= bs[i].end <= f.len() by {
            if i > 0 {
                assert(bs[i] == rest[i - 1]);
            }
        }
    }
}

/// The first box of a scan reads the same in `g` when `g` agrees with `f` on its bytes and it
/// does not run to the end of the file.
proof fn lemma_first_box_same(f: Seq<u8>, g: Seq<u8>, o: int, p: int)
    requires
        0 <= o,
        o + 8 <= f.len(),
        box_at(f, o) is Ok,
        !runs_to_end(f, box_at(f, o)->Ok_0),
        box_at(f, o)->Ok_0.end <= p,
        p <= f.len(),
        p <= g.len(),
        forall|i: int| 0 <= i < p ==> f[i] == g[i],
    ensures
        box_at(g, o) == box_at(f, o),
{
    let b = box_at(f, o)->Ok_0;
    lemma_box_in_bounds(header_window(f, o), o, f.len() - o);
    let w1 = header_window(f, o);
    let w2 = header_window(g, o);
    let kk = if b.end - o <= 32 { b.end - o } else { 32 };
    assert forall|i: int| 0 <= i < kk implies w1[i] == w2[i] by {
        assert(w1[i] == f[o + i]);
        assert(w2[i] == g[o + i]);
    }
    lemma_box_in_stable(w1, w2, o, f.len() - o, g.len() - o);
}

/// The scan of `g` runs through the first `k` boxes of the scan of `f` when `g` agrees with
/// `f` up to their end, and none of them runs to the end of the file.
proof fn lemma_scan_prefix(f: Seq<u8>, g: Seq<u8>, o: int, k: int, p: int)
    requires
        0 <= o,
        spec_scan(f, o) is Ok,
        0 <= k <= spec_scan(f, o)->Ok_0.len(),
        k == 0 ==> p == o,
        k > 0 ==> p == spec_scan(f, o)->Ok_0[k - 1].end,
        forall|j: int| 0 <= j < k ==> !runs_to_end(f, #[trigger] spec_scan(f, o)->Ok_0[j]),
        p <= f.len(),
        p <= g.len(),
        forall|i: int| 0 <= i < p ==> f[i] == g[i],
    ensures
        spec_scan(g, o) == prepend_boxes(spec_scan(f, o)->Ok_0.take(k), spec_scan(g, p)),
    decreases k,
{
    let bs = spec_scan(f, o)->Ok_0;
    if k == 0 {
        assert(bs.take(0) =~= Seq::<BoxSpec>::empty());
        lemma_prepend_empty(spec_scan(g, p));
    } else {
        assert(o + 8 <= f.len());
        let b = box_at(f, o)->Ok_0;
        lemma_box_in_bounds(header_window(f, o), o, f.len() - o);
        let rest = spec_scan(f, b.end)->Ok_0;
        assert(bs == seq![b] + rest);
        assert(bs[0] == b);
        assert(rest.len() == bs.len() - 1);
        if k > 1 {
            lemma_scan_bounds(f, b.end);
            assert(rest[k - 2] == bs[k - 1]);
            assert(b.end <= rest[k - 2].start);
        }
        assert(!runs_to_end(f, bs[0]));
        lemma_first_box_same(f, g, o, p);
        assert forall|j: int| 0 <= j < k - 1 implies !runs_to_end(f, #[trigger] rest[j]) by {
            assert(rest[j] == bs[j + 1]);
        }
        lemma_scan_prefix(f, g, b.end, k - 1, p);
        assert(bs.take(k) =~= seq![b] + rest.take(k - 1));
        match spec_scan(g, p) {
            Ok(x) => {
                assert(bs.take(k) + x =~= seq![b] + (rest.take(k - 1) + x));
            },
            Err(_) => {},
        }
    }
}

/// Files that end with the same bytes scan alike from where those bytes begin.
proof fn lemma_scan_shift(f: Seq<u8>, g: Seq<u8>, of: int, og: int)
    requires
        0 <= of <= f.len(),
        0 <= og <= g.len(),
        f.subrange(of, f.len() as int) == g.subrange(og, g.len() as int),
        spec_scan(f, of) is Ok,
    ensures
        spec_scan(g, og) == Ok::<Seq<BoxSpec>, ErrorView>(
            shift_boxes(spec_scan(f, of)->Ok_0, og - of),
        ),
    decreases f.len() - of,
{
    let bs = spec_scan(f, of)->Ok_0;
    let d = og - of;
    let fsuf = f.subrange(of, f.len() as int);
    let gsuf = g.subrange(og, g.len() as int);
    assert(fsuf.len() == f.len() - of);
    assert(gsuf.len() == g.len() - og);
    assert(f.len() - of == g.len() - og);
    if of + 8 > f.len() {
        assert(shift_boxes(bs, d) =~= Seq::<BoxSpec>::empty());
    } else {
        let wf = header_window(f, of);
        let wg = header_window(g, og);
        assert(wf =~= wg) by {
            assert forall|i: int| 0 <= i < wf.len() implies wf[i] == wg[i] by {
                assert(wf[i] == f.subrange(of, f.len() as int)[i]);
                assert(wg[i] == g.subrange(og, g.len() as int)[i]);
            }
        }
        lemma_box_in_shift(wf, of, og, f.len() - of);
        lemma_box_in_bounds(wf, of, f.len() - of);
        let b = box_at(f, of)->Ok_0;
        let bg = box_at(g, og)->Ok_0;
        assert(f.subrange(b.end, f.len() as int) =~= g.subrange(bg.end, g.len() as int)) by {
            assert forall|i: int| 0 <= i < f.len() - b.end implies f.subrange(
                b.end,
                f.len() as int,
            )[i] == g.subrange(bg.end, g.len() as int)[i] by {
                assert(f.subrange(b.end, f.len() as int)[i] == f.subrange(of, f.len() as int)[(b.end
                    - of) + i]);
                assert(g.subrange(bg.end, g.len() as int)[i] == g.subrange(og, g.len() as int)[(
                b.end - of) + i]);
            }
        }
        lemma_scan_shift(f, g, b.end, bg.end);
        let rest = spec_scan(f, b.end)->Ok_0;
        assert(shift_boxes(bs, d) =~= seq![bg] + shift_boxes(rest, d));
    }
}

proof fn lemma_first_xmp_at(s: Seq<BoxSpec>, k: int)
    requires
        0 <= k < s.len(),
        is_xmp_box(s[k]),
        forall|j: int| 0 <= j < k ==> !is_xmp_box(#[trigger] s[j]),
    ensures
        first_xmp(s) == Some(k),
    decreases k,
{
    if k > 0 {
        assert forall|j: int| 0 <= j < k - 1 implies !is_xmp_box(#[trigger] s.drop_first()[j]) by {
            assert(s.drop_first()[j] == s[j + 1]);
        }
        assert(s.drop_first()[k - 1] == s[k]);
        lemma_first_xmp_at(s.drop_first(), k - 1);
        assert(!is_xmp_box(s[0]));
    }
}

/// The new XMP box reads back as an XMP box that carries `p`.
proof fn lemma_xmp_box_reads(g: Seq<u8>, s: int, p: Seq<u8>)
    requires
        0 <= s,
        payload_fits(p),
        s + spec_xmp_box(p).len() <= g.len(),
        g.subrange(s, s + spec_xmp_box(p).len()) == spec_xmp_box(p),
    ensures
        box_at(g, s) == Ok::<BoxSpec, ErrorView>(xmp_box_spec(s, p)),
        box_payload(g, xmp_box_spec(s, p)) == p,
        !runs_to_end(g, xmp_box_spec(s, p)),
{
    reveal(box_in);
    let bx = spec_xmp_box(p);
    let t = 24 + p.len() as int;
    assert(bx.len() == t);
    let w = header_window(g, s);
    assert forall|i: int| 0 <= i < w.len() && i < t implies w[i] == bx[i] by {
        assert(w[i] == g[s + i]);
        assert(g.subrange(s, s + t)[i] == g[s + i]);
    }
    lemma_be32_roundtrip(t);
    let hb = be32_bytes(t);
    assert(w[0] == hb[0] && w[1] == hb[1] && w[2] == hb[2] && w[3] == hb[3]);
    assert(be_u32(w, 0) == be_u32(hb, 0));
    assert(w.subrange(4, 8) =~= spec_uuid_type());
    assert(w.subrange(8, 24) =~= spec_adobe_xmp_uuid());
    let b = xmp_box_spec(s, p);
    assert(box_payload(g, b) =~= p) by {
        assert forall|i: int| 0 <= i < p.len() implies box_payload(g, b)[i] == p[i] by {
            assert(box_payload(g, b)[i] == g[s + 24 + i]);
            assert(g.subrange(s, s + t)[24 + i] == g[s + 24 + i]);
            assert(bx[24 + i] == p[i]);
        }
    }
}

/// The boxes `bs` with the box at `k` replaced by the XMP box that carries `p`, and the boxes
/// after it moved by the difference in size.
pub open spec fn replaced_boxes(bs: Seq<BoxSpec>, k: int, p: Seq<u8>) -> Seq<BoxSpec> {
    let s = bs[k].start;
    bs.take(k) + seq![xmp_box_spec(s, p)] + shift_boxes(
        bs.subrange(k + 1, bs.len() as int),
        (s + 24 + p.len()) - bs[k].end,
    )
}

/// What the boxes of a written file are, in terms of the index `k` of the new XMP box and
/// the offsets `s..e` of the bytes of `f` that it takes the place of.
pub open spec fn written_scan_shape(f: Seq<u8>, p: Seq<u8>, k: int, s: int, e: int) -> bool {
    &&& spec_write_xmp(f, p) is Ok
    &&& 0 <= s <= e <= f.len()
    &&& spec_write_xmp(f, p)->Ok_0 == f.subrange(0, s) + spec_xmp_box(p) + f.subrange(
        e,
        f.len() as int,
    )
    &&& spec_scan(spec_write_xmp(f, p)->Ok_0, 0) is Ok
    &&& 0 <= k < spec_scan(spec_write_xmp(f, p)->Ok_0, 0)->Ok_0.len()
    &&& first_xmp(spec_scan(spec_write_xmp(f, p)->Ok_0, 0)->Ok_0) == Some(k)
    &&& spec_scan(spec_write_xmp(f, p)->Ok_0, 0)->Ok_0[k] == xmp_box_spec(s, p)
}

proof fn lemma_written_scan_append(f: Seq<u8>, p: Seq<u8>)
    requires
        spec_scan(f, 0) is Ok,
        payload_fits(p),
        first_xmp(spec_scan(f, 0)->Ok_0) is None,
        appendable(f),
    ensures
        written_scan_shape(f, p, spec_scan(f, 0)->Ok_0.len() as int, f.len() as int, f.len() as int),
        spec_scan(spec_write_xmp(f, p)->Ok_0, 0) == Ok::<Seq<BoxSpec>, ErrorView>(
            spec_scan(f, 0)->Ok_0 + seq![xmp_box_spec(f.len() as int, p)],
        ),
{
    let bs = spec_scan(f, 0)->Ok_0;
    let bx = spec_xmp_box(p);
    let g = f + bx;
    let n = bs.len() as int;
    let fl = f.len() as int;
    assert(spec_write_xmp(f, p) == Ok::<Seq<u8>, ErrorView>(g));
    let xb = xmp_box_spec(fl, p);
    assert(spec_scan(g, fl) == Ok::<Seq<BoxSpec>, ErrorView>(seq![xb])) by {
        assert(g.subrange(fl, fl + bx.len() as int) =~= bx);
        lemma_xmp_box_reads(g, fl, p);
        assert(xb.end == g.len());
        assert(spec_scan(g, g.len() as int) == Ok::<Seq<BoxSpec>, ErrorView>(seq![]));
        assert(seq![xb] + Seq::<BoxSpec>::empty() =~= seq![xb]);
    }
    let gs = bs + seq![xb];
    assert(spec_scan(g, 0) == Ok::<Seq<BoxSpec>, ErrorView>(gs)) by {
        assert forall|i: int| 0 <= i < fl implies f[i] == g[i] by {}
        assert(bs.take(n) =~= bs);
        lemma_scan_prefix(f, g, 0, n, fl);
    }
    assert(first_xmp(gs) == Some(n)) by {
        lemma_first_xmp(bs);
        assert(gs[n] == xb);
        assert forall|j: int| 0 <= j < n implies !is_xmp_box(#[trigger] gs[j]) by {
            assert(gs[j] == bs[j]);
        }
        lemma_first_xmp_at(gs, n);
    }
    assert(g =~= f.subrange(0, fl) + bx + f.subrange(fl, fl));
}

proof fn lemma_boxes_before_do_not_run_to_end(f: Seq<u8>, k: int)
    requires
        spec_scan(f, 0) is Ok,
        0 <= k < spec_scan(f, 0)->Ok_0.len(),
    ensures
        forall|j: int| 0 <= j < k ==> !runs_to_end(f, #[trigger] spec_scan(f, 0)->Ok_0[j]),
{
    let bs = spec_scan(f, 0)->Ok_0;
    lemma_scan_facts(f, 0);
    assert forall|j: int| 0 <= j < k implies !runs_to_end(f, #[trigger] bs[j]) by {
        if runs_to_end(f, bs[j]) {
            assert(box_at(f, bs[j].start) == Ok::<BoxSpec, ErrorView>(bs[j]));
            lemma_size_zero_runs_to_end(
                header_window(f, bs[j].start),
                bs[j].start,
                f.len() - bs[j].start,
            );
            assert(bs[j + 1].start == bs[j].end);
            assert(bs[j + 1].start + 8 <= bs[j + 1].end);
        }
    }
}

proof fn lemma_written_scan_replace(f: Seq<u8>, p: Seq<u8>, k: int)
    requires
        spec_scan(f, 0) is Ok,
        payload_fits(p),
        first_xmp(spec_scan(f, 0)->Ok_0) == Some(k),
    ensures
        written_scan_shape(
            f,
            p,
            k,
            spec_scan(f, 0)->Ok_0[k].start,
            spec_scan(f, 0)->Ok_0[k].end,
        ),
        spec_scan(spec_write_xmp(f, p)->Ok_0, 0) == Ok::<Seq<BoxSpec>, ErrorView>(
            replaced_boxes(spec_scan(f, 0)->Ok_0, k, p),
        ),
{
    let bs = spec_scan(f, 0)->Ok_0;
    lemma_first_xmp(bs);
    let bx = spec_xmp_box(p);
    let n = bs.len() as int;
    let s = bs[k].start;
    let e = bs[k].end;
    let g = f.subrange(0, s) + bx + f.subrange(e, f.len() as int);
    assert(spec_write_xmp(f, p) == Ok::<Seq<u8>, ErrorView>(g));
    assert(0 <= s && s + 8 <= e && e <= f.len() && spec_scan(f, s) == Ok::<Seq<BoxSpec>, ErrorView>(
        bs.subrange(k, n),
    ) && (k > 0 ==> bs[k - 1].end == s) && (k == 0 ==> s == 0)) by {
        lemma_scan_facts(f, 0);
        if k > 0 {
            assert(bs[(k - 1) + 1].start == bs[k - 1].end);
        }
    }
    let xb = xmp_box_spec(s, p);
    let d = (s + bx.len()) - e;
    let moved = shift_boxes(bs.subrange(k + 1, n), d);
    assert(spec_scan(g, s) == Ok::<Seq<BoxSpec>, ErrorView>(seq![xb] + moved)) by {
        assert(g.subrange(s, s + bx.len()) =~= bx);
        lemma_xmp_box_reads(g, s, p);
        lemma_box_in_bounds(header_window(f, s), s, f.len() - s);
        assert(spec_scan(f, e) == Ok::<Seq<BoxSpec>, ErrorView>(bs.subrange(k + 1, n))) by {
            lemma_scan_facts(f, 0);
            assert(box_at(f, s) == Ok::<BoxSpec, ErrorView>(bs[k]));
            match spec_scan(f, e) {
                Ok(x) => {
                    assert(seq![bs[k]] + x == bs.subrange(k, n));
                    assert(x =~= (seq![bs[k]] + x).drop_first());
                    assert(bs.subrange(k + 1, n) =~= bs.subrange(k, n).drop_first());
                },
                Err(_) => {},
            }
        }
        assert(f.subrange(e, f.len() as int) =~= g.subrange(s + bx.len(), g.len() as int));
        lemma_scan_shift(f, g, e, s + bx.len());
        assert(xb.end == s + bx.len());
    }
    let gs = bs.take(k) + (seq![xb] + moved);
    assert(replaced_boxes(bs, k, p) =~= gs);
    assert(spec_scan(g, 0) == Ok::<Seq<BoxSpec>, ErrorView>(gs)) by {
        lemma_boxes_before_do_not_run_to_end(f, k);
        assert forall|i: int| 0 <= i < s implies f[i] == g[i] by {}
        lemma_scan_prefix(f, g, 0, k, s);
    }
    assert(first_xmp(gs) == Some(k)) by {
        assert(gs[k] == xb);
        assert forall|j: int| 0 <= j < k implies !is_xmp_box(#[trigger] gs[j]) by {
            assert(gs[j] == bs[j]);
        }
        lemma_first_xmp_at(gs, k);
    }
}

/// The boxes of a file after its XMP packet was written: the boxes before the first XMP box
/// (or all boxes, when there was none), the new XMP box, then the boxes that followed.
proof fn lemma_written_scan(f: Seq<u8>, p: Seq<u8>)
    requires
        spec_scan(f, 0) is Ok,
        payload_fits(p),
        first_xmp(spec_scan(f, 0)->Ok_0) is None ==> appendable(f),
    ensures
        ({
            let bs = spec_scan(f, 0)->Ok_0;
            match first_xmp(bs) {
                Some(i) => written_scan_shape(f, p, i, bs[i].start, bs[i].end),
                None => written_scan_shape(f, p, bs.len() as int, f.len() as int, f.len() as int),
            }
        }),
{
    match first_xmp(spec_scan(f, 0)->Ok_0) {
        Some(i) => lemma_written_scan_replace(f, p, i),
        None => lemma_written_scan_append(f, p),
    }
}

/// Reading the XMP packet of a file after writing `p` into it gives `p` back. This holds of
/// every file whose box structure reads, as long as `p` fits a 32-bit box; when the file has
/// no XMP box yet, its boxes must also cover it exactly, none running to its end by a size of
/// zero, so that a box can follow them.
pub proof fn read_after_write(f: Seq<u8>, p: Seq<u8>)
    requires
        spec_scan(f, 0) is Ok,
        payload_fits(p),
        first_xmp(spec_scan(f, 0)->Ok_0) is None ==> appendable(f),
    ensures
        spec_write_xmp(f, p) is Ok,
        spec_read_xmp(spec_write_xmp(f, p)->Ok_0) == Ok::<Option<Seq<u8>>, ErrorView>(Some(p)),
{
    lemma_written_scan(f, p);
    let bs = spec_scan(f, 0)->Ok_0;
    let s = match first_xmp(bs) {
        Some(i) => bs[i].start,
        None => f.len() as int,
    };
    let g = spec_write_xmp(f, p)->Ok_0;
    let bx = spec_xmp_box(p);
    assert(g.subrange(s, s + bx.len()) =~= bx);
    lemma_xmp_box_reads(g, s, p);
}

/// A second write replaces the first: writing `p2` after `p1` gives the file that writing
/// `p2` alone gives, under the conditions of [`read_after_write`].
pub proof fn write_twice(f: Seq<u8>, p1: Seq<u8>, p2: Seq<u8>)
    requires
        spec_scan(f, 0) is Ok,
        payload_fits(p1),
        first_xmp(spec_scan(f, 0)->Ok_0) is None ==> appendable(f),
    ensures
        spec_write_xmp(f, p1) is Ok,
        spec_write_xmp(spec_write_xmp(f, p1)->Ok_0, p2) == spec_write_xmp(f, p2),
{
    lemma_written_scan(f, p1);
    let bs = spec_scan(f, 0)->Ok_0;
    let s = match first_xmp(bs) {
        Some(i) => bs[i].start,
        None => f.len() as int,
    };
    let e = match first_xmp(bs) {
        Some(i) => bs[i].end,
        None => f.len() as int,
    };
    let g = spec_write_xmp(f, p1)->Ok_0;
    let b1 = spec_xmp_box(p1);
    if payload_fits(p2) {
        let gs = spec_scan(g, 0)->Ok_0;
        let k = first_xmp(gs)->Some_0;
        assert(gs[k].start == s && gs[k].end == s + b1.len());
        assert(g.subrange(0, s) =~= f.subrange(0, s));
        assert(g.subrange(s + b1.len(), g.len() as int) =~= f.subrange(e, f.len() as int));
        match first_xmp(bs) {
            Some(i) => {},
            None => {
                assert(f.subrange(0, f.len() as int) =~= f);
                assert(f.subrange(f.len() as int, f.len() as int) =~= Seq::<u8>::empty());
                assert(f + spec_xmp_box(p2) =~= f.subrange(0, f.len() as int) + spec_xmp_box(p2)
                    + f.subrange(f.len() as int, f.len() as int));
            },
        }
    }
}


/// Writing the XMP packet changes no other box: the boxes of the written file are the boxes of
/// the file, with the first XMP box replaced (and the boxes after it moved by the change in
/// size), or with the new XMP box after them when there was none.
pub proof fn write_keeps_other_boxes(f: Seq<u8>, p: Seq<u8>)
    requires
        spec_scan(f, 0) is Ok,
        payload_fits(p),
        first_xmp(spec_scan(f, 0)->Ok_0) is None ==> appendable(f),
    ensures
        spec_write_xmp(f, p) is Ok,
        spec_scan(spec_write_xmp(f, p)->Ok_0, 0) == Ok::<Seq<BoxSpec>, ErrorView>(
            match first_xmp(spec_scan(f, 0)->Ok_0) {
                Some(k) => replaced_boxes(spec_scan(f, 0)->Ok_0, k, p),
                None => spec_scan(f, 0)->Ok_0 + seq![xmp_box_spec(f.len() as int, p)],
            },
        ),
{
    match first_xmp(spec_scan(f, 0)->Ok_0) {
        Some(k) => lemma_written_scan_replace(f, p, k),
        None => lemma_written_scan_append(f, p),
    }
}


/// The size that the box at offset `o` of `f` declares, and the length of its header before
/// any `uuid` identifier.
pub open spec fn declared_box_size(f: Seq<u8>, o: int) -> (int, int) {
    box_size_and_header(header_window(f, o), f.len() - o)
}

/// A box that declares a size reaching past the end of the file is refused as invalid MP4
/// structure (and the scan stops there), however large the declared size: as exceeding the
/// file when the size covers its header, as an invalid size otherwise. The one exception is a
/// 64-bit size field cut off by the end of the file, which is a short read.
pub proof fn box_past_end_is_refused(f: Seq<u8>, o: int)
    requires
        0 <= o,
        o + 8 <= f.len(),
        o + declared_box_size(f, o).0 > f.len(),
        !(be_u32(header_window(f, o), 0) == 1 && f.len() - o < 16),
    ensures
        spec_scan(f, o) matches Err(e) && e is InvalidMp4,
        declared_box_size(f, o).0 >= declared_box_size(f, o).1 ==> spec_scan(f, o) == Err::<
            Seq<BoxSpec>,
            ErrorView,
        >(exceeds_file_error(o)),
{
    reveal(box_in);
}


/// What a write plan makes of a file is the write: for a file whose box structure reads and
/// a payload that fits, copying the head, writing the XMP box and copying the tail, as
/// [`plan_xmp_write`] plans them, gives the file that [`spec_write_xmp`] describes.
pub proof fn planned_write_is_the_write(f: Seq<u8>, p: Seq<u8>, plan: XmpWritePlan)
    requires
        spec_scan(f, 0) is Ok,
        payload_fits(p),
        is_plan_for(plan, spec_scan(f, 0)->Ok_0, f.len() as int),
    ensures
        spec_write_xmp(f, p) == Ok::<Seq<u8>, ErrorView>(planned_file(f, plan, spec_xmp_box(p))),
{
    lemma_scan_facts(f, 0);
    let bs = spec_scan(f, 0)->Ok_0;
    lemma_first_xmp(bs);
    match first_xmp(bs) {
        Some(i) => {
            assert(bs[i].start + 8 <= bs[i].end <= f.len());
            assert(plan.tail_start + plan.tail_len == f.len());
        },
        None => {
            assert(f.subrange(0, f.len() as int) =~= f);
            assert(f.subrange(f.len() as int, f.len() as int) =~= Seq::<u8>::empty());
            assert(f + spec_xmp_box(p) =~= f.subrange(0, f.len() as int) + spec_xmp_box(p)
                + f.subrange(f.len() as int, f.len() as int));
        },
    }
}

/// The scan of `f` from offset `p` reaches offset `o`: `o` is `p`, or the box at `p` reads
/// and the scan from its end reaches `o`.
pub open spec fn scan_reaches(f: Seq<u8>, p: int, o: int) -> bool
    decreases f.len() - p,
{
    if p == o {
        true
    } else if p < 0 || p + 8 > f.len() {
        false
    } else {
        match box_at(f, p) {
            Err(_) => false,
            Ok(b) => {
                proof {
                    lemma_box_in_bounds(header_window(f, p), p, f.len() - p);
                }
                scan_reaches(f, b.end, o)
            },
        }
    }
}

proof fn lemma_reached_error(f: Seq<u8>, p: int, o: int)
    requires
        scan_reaches(f, p, o),
        spec_scan(f, o) is Err,
    ensures
        spec_scan(f, p) == spec_scan(f, o),
    decreases f.len() - p,
{
    if p != o {
        let b = box_at(f, p)->Ok_0;
        lemma_box_in_bounds(header_window(f, p), p, f.len() - p);
        lemma_reached_error(f, b.end, o);
    }
}

/// The walk over the boxes of a file, from its start, refuses a box that it reaches whose
/// declared size runs past the end of the file: reading the file's boxes
/// ([`parse_root_boxes`]) ends in an invalid-MP4 error, however large the declared size. The
/// one exception is a 64-bit size field cut off by the end of the file, which is a short read.
pub proof fn walk_refuses_box_past_end(f: Seq<u8>, o: int)
    requires
        scan_reaches(f, 0, o),
        0 <= o,
        o + 8 <= f.len(),
        o + declared_box_size(f, o).0 > f.len(),
        !(be_u32(header_window(f, o), 0) == 1 && f.len() - o < 16),
    ensures
        spec_scan(f, 0) matches Err(e) && e is InvalidMp4,
{
    box_past_end_is_refused(f, o);
    lemma_reached_error(f, 0, o);
}


/// The number that the eight bytes of `f` from `i` give, most significant first.
pub open spec fn bytes_be64(f: Seq<u8>, i: int) -> int {
    f[i] * 72057594037927936 + f[i + 1] * 281474976710656 + f[i + 2] * 1099511627776
        + f[i + 3] * 4294967296 + f[i + 4] * 16777216 + f[i + 5] * 65536 + f[i + 6] * 256
        + f[i + 7]
}

/// A box whose 32-bit size field is 1 takes its size from all eight bytes that follow its
/// type: a box read there ends that many bytes after its start, with a 16-byte header before
/// any identifier. When that size covers the header, lies within the file, and the box is no
/// `uuid` box, the box is read.
pub proof fn extended_size_uses_all_eight_bytes(f: Seq<u8>, o: int)
    requires
        0 <= o,
        o + 16 <= f.len(),
        f[o] == 0 && f[o + 1] == 0 && f[o + 2] == 0 && f[o + 3] == 1,
    ensures
        box_at(f, o) matches Ok(b) ==> (b.end == o + bytes_be64(f, o + 8) && b.header_len >= 16),
        16 <= bytes_be64(f, o + 8) <= f.len() - o && f.subrange(o + 4, o + 8) != spec_uuid_type()
            ==> (box_at(f, o) matches Ok(b) && b.end == o + bytes_be64(f, o + 8) && b.header_len
            == 16),
{
    reveal(box_in);
    let w = header_window(f, o);
    assert(w[0] == f[o] && w[1] == f[o + 1] && w[2] == f[o + 2] && w[3] == f[o + 3]);
    assert forall|k: int| 8 <= k < 16 implies w[k] == f[o + k] by {}
    assert(w.subrange(4, 8) =~= f.subrange(o + 4, o + 8));
    assert(be_u32(w, 0) == 1);
    assert(be_u64(w, 8) == bytes_be64(f, o + 8));
}

} // verus!
