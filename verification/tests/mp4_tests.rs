use marker_fixer::error::MarkerFixerError;
use marker_fixer::mp4::{
    adobe_xmp_uuid, find_xmp_box, parse_box_at, parse_root_boxes, plan_xmp_write,
    read_xmp_payload_from, write_xmp_into, write_xmp_box, xmp_payload_range, RootBoxScan,
    XmpWritePlan,
};

fn plain_box(kind: &[u8; 4], payload: &[u8]) -> Vec<u8> {
    let mut v = ((8 + payload.len()) as u32).to_be_bytes().to_vec();
    v.extend_from_slice(kind);
    v.extend_from_slice(payload);
    v
}

fn sample_file() -> Vec<u8> {
    let mut f = plain_box(b"ftyp", b"isom0000");
    f.extend(plain_box(b"moov", &[1, 2, 3, 4, 5]));
    f.extend(plain_box(b"mdat", &[9; 20]));
    f
}

#[test]
fn parses_root_boxes_in_order() {
    let f = sample_file();
    let boxes = parse_root_boxes(&f).expect("boxes");
    assert_eq!(boxes.len(), 3);
    assert_eq!((boxes[0].start, boxes[0].end, &boxes[0].box_type), (0, 16, b"ftyp"));
    assert_eq!((boxes[1].start, boxes[1].end, &boxes[1].box_type), (16, 29, b"moov"));
    assert_eq!((boxes[2].start, boxes[2].end, boxes[2].header_len), (29, 57, 8));
    assert_eq!(find_xmp_box(&boxes), None);
}

#[test]
fn extended_and_open_ended_sizes() {
    let mut f = vec![0, 0, 0, 1];
    f.extend_from_slice(b"free");
    f.extend_from_slice(&20u64.to_be_bytes());
    f.extend_from_slice(&[7, 7, 7, 7]);
    f.extend_from_slice(&[0, 0, 0, 0]);
    f.extend_from_slice(b"mdat");
    f.extend_from_slice(&[1, 2, 3]);
    let boxes = parse_root_boxes(&f).expect("boxes");
    assert_eq!(boxes.len(), 2);
    assert_eq!((boxes[0].end, boxes[0].header_len), (20, 16));
    assert_eq!((boxes[1].start, boxes[1].end), (20, 31));
}

#[test]
fn trailing_bytes_shorter_than_a_header_are_ignored() {
    let mut f = sample_file();
    f.extend_from_slice(&[0, 0, 0]);
    assert_eq!(parse_root_boxes(&f).expect("boxes").len(), 3);
}

fn mp4_message(r: Result<Vec<marker_fixer::mp4::RootBox>, MarkerFixerError>) -> String {
    match r {
        Err(MarkerFixerError::InvalidMp4(m)) => m,
        other => panic!("unexpected {:?}", other),
    }
}

#[test]
fn reports_invalid_box_sizes() {
    let mut f = sample_file();
    f.extend_from_slice(&[0, 0, 0, 4]);
    f.extend_from_slice(b"bad!");
    assert_eq!(mp4_message(parse_root_boxes(&f)), "box at offset 57 has invalid size 4");

    let mut g = plain_box(b"ftyp", b"ab");
    g.extend_from_slice(&[0, 0, 1, 0]);
    g.extend_from_slice(b"mdat");
    assert_eq!(mp4_message(parse_root_boxes(&g)), "box at offset 10 exceeds file length");

    let mut h = vec![0, 0, 0, 20];
    h.extend_from_slice(b"uuid");
    h.extend_from_slice(&[0; 12]);
    assert_eq!(mp4_message(parse_root_boxes(&h)), "uuid box at offset 0 is too short");
}

#[test]
fn short_extended_size_is_a_read_error() {
    let mut f = vec![0, 0, 0, 1];
    f.extend_from_slice(b"free");
    f.extend_from_slice(&[0, 0, 0]);
    match parse_root_boxes(&f) {
        Err(MarkerFixerError::Io { path, message }) => {
            assert_eq!(path, "<mp4>");
            assert_eq!(message, "failed to fill whole buffer");
        }
        other => panic!("unexpected {:?}", other),
    }
}

#[test]
fn xmp_box_layout() {
    let b = write_xmp_box(b"<x/>").expect("box");
    assert_eq!(&b[0..4], &28u32.to_be_bytes());
    assert_eq!(&b[4..8], b"uuid");
    assert_eq!(&b[8..24], &adobe_xmp_uuid());
    assert_eq!(&b[24..], b"<x/>");
}

#[test]
fn read_after_write_gives_the_payload_back() {
    let f = sample_file();
    assert_eq!(read_xmp_payload_from(&f).expect("read"), None);
    let g = write_xmp_into(&f, b"first packet").expect("write");
    assert_eq!(&g[..f.len()], &f[..]);
    assert_eq!(read_xmp_payload_from(&g).expect("read"), Some(b"first packet".to_vec()));
    let h = write_xmp_into(&g, b"second").expect("write");
    assert_eq!(read_xmp_payload_from(&h).expect("read"), Some(b"second".to_vec()));
    assert_eq!(h, write_xmp_into(&f, b"second").expect("write"));
}

#[test]
fn replacing_keeps_the_boxes_around_the_xmp_box() {
    let mut f = plain_box(b"ftyp", b"isom");
    f.extend(write_xmp_box(b"old payload").expect("box"));
    f.extend(plain_box(b"mdat", &[5; 10]));
    let boxes = parse_root_boxes(&f).expect("boxes");
    assert_eq!(find_xmp_box(&boxes), Some(1));
    assert_eq!(xmp_payload_range(&boxes), Some((12 + 24, 11)));
    assert_eq!(
        plan_xmp_write(&boxes, f.len() as u64),
        XmpWritePlan { head_len: 12, tail_start: 47, tail_len: 18 }
    );
    let g = write_xmp_into(&f, b"new").expect("write");
    let mut expected = plain_box(b"ftyp", b"isom");
    expected.extend(write_xmp_box(b"new").expect("box"));
    expected.extend(plain_box(b"mdat", &[5; 10]));
    assert_eq!(g, expected);
    assert_eq!(read_xmp_payload_from(&g).expect("read"), Some(b"new".to_vec()));
}

#[test]
fn scan_fed_piece_by_piece() {
    let f = sample_file();
    let mut scan = RootBoxScan::new(f.len() as u64);
    while let Some((offset, len)) = scan.next_window() {
        let window = &f[offset as usize..(offset + len) as usize];
        scan.feed(window).expect("feed");
    }
    assert_eq!(scan.boxes, parse_root_boxes(&f).expect("boxes"));
    let b = parse_box_at(&f[16..48], 16, f.len() as u64).expect("box");
    assert_eq!(b.end, 29);
}

#[test]
fn processing_never_overwrites_original_input_file() {
    let f = sample_file();
    let before = f.clone();
    let out = write_xmp_into(&f, b"payload").expect("write");
    assert_eq!(before, f, "original input should stay untouched");
    assert_ne!(out, f);
}

#[test]
fn a_box_past_the_end_after_good_boxes_is_refused() {
    let mut f = sample_file();
    f.extend_from_slice(&[0, 0, 0, 1]);
    f.extend_from_slice(b"mdat");
    f.extend_from_slice(&u64::MAX.to_be_bytes());
    assert_eq!(mp4_message(parse_root_boxes(&f)), "box at offset 57 exceeds file length");
    let mut g = sample_file();
    g.extend_from_slice(&[0, 0, 1, 0]);
    g.extend_from_slice(b"free");
    assert_eq!(mp4_message(parse_root_boxes(&g)), "box at offset 57 exceeds file length");
}

fn planned_write(data: &[u8], payload: &[u8]) -> Vec<u8> {
    let boxes = parse_root_boxes(data).expect("boxes");
    let plan = plan_xmp_write(&boxes, data.len() as u64);
    let mut out = data[..plan.head_len as usize].to_vec();
    out.extend(write_xmp_box(payload).expect("box"));
    let tail_start = plan.tail_start as usize;
    out.extend_from_slice(&data[tail_start..tail_start + plan.tail_len as usize]);
    out
}

#[test]
fn the_planned_write_is_the_write() {
    let f = sample_file();
    let once = planned_write(&f, b"<x:xmpmeta/>");
    assert_eq!(once, write_xmp_into(&f, b"<x:xmpmeta/>").expect("write"));
    let twice = planned_write(&once, b"other packet");
    assert_eq!(twice, write_xmp_into(&once, b"other packet").expect("write"));
    assert_eq!(read_xmp_payload_from(&twice).expect("read"), Some(b"other packet".to_vec()));
}
