//! Premiere markers and the XMP packet that carries them: merging marker lists, writing the
//! packet, and reading markers back out of one.
use vstd::prelude::*;

use crate::error::{ErrorView, MarkerFixerError};
use crate::text::{
    contains_str, is_blank, parse_u64, spec_contains, spec_decimal, spec_parse_u64, spec_trim,
    occurs_at, str_chars, str_eq, str_is_blank, trimmed, IntParseError,
};
use crate::xml::{
    attribute_key, attribute_value, open_reader, read_xml_event, start_tag_attributes,
    start_tag_name, trim_text, xml_attribute_count, xml_attribute_key, xml_attribute_value,
    xml_event, xml_start_name, XmlAttrAt, XmlEvent, XmlEventView, XmlReader, XmlReaderView,
};

verus! {

broadcast use vstd::string::group_string_axioms;

/// A marker on the timeline: a frame, an optional name and comment, and an identifier.
#[derive(Debug, Clone, PartialEq, Eq)]
pub struct Marker {
    pub start_frame: u64,
    pub name: Option<String>,
    pub comment: Option<String>,
    pub guid: String,
}

/// The mathematical value of a [`Marker`].
pub struct MarkerView {
    pub start_frame: u64,
    pub name: Option<Seq<char>>,
    pub comment: Option<Seq<char>>,
    pub guid: Seq<char>,
}

pub open spec fn opt_view(o: Option<String>) -> Option<Seq<char>> {
    match o {
        Some(s) => Some(s@),
        None => None,
    }
}

impl View for Marker {
    type V = MarkerView;

    open spec fn view(&self) -> MarkerView {
        MarkerView {
            start_frame: self.start_frame,
            name: opt_view(self.name),
            comment: opt_view(self.comment),
            guid: self.guid@,
        }
    }
}

pub open spec fn markers_view(v: Seq<Marker>) -> Seq<MarkerView> {
    v.map_values(|m: Marker| m@)
}

/// The markers of an XMP packet, with the frame rate of its marker track.
#[derive(Debug, Clone)]
pub struct ParsedMarkers {
    pub frame_rate: Option<String>,
    pub markers: Vec<Marker>,
}

/// Some text that is not blank.
pub open spec fn has_words(o: Option<Seq<char>>) -> bool {
    match o {
        Some(s) => !is_blank(s),
        None => false,
    }
}

/// A marker has text when its name or its comment is not blank.
pub open spec fn view_has_text(m: MarkerView) -> bool {
    has_words(m.name) || has_words(m.comment)
}

fn opt_has_words(o: &Option<String>) -> (r: bool)
    ensures
        r == has_words(opt_view(*o)),
{
    match o {
        Some(s) => !str_is_blank(s.as_str()),
        None => false,
    }
}

/// Whether the marker's name or comment holds more than whitespace.
pub fn marker_has_text(marker: &Marker) -> (r: bool)
    ensures
        r == view_has_text(marker@),
{
    opt_has_words(&marker.name) || opt_has_words(&marker.comment)
}

fn clone_opt_string(o: &Option<String>) -> (r: Option<String>)
    ensures
        opt_view(r) == opt_view(*o),
{
    match o {
        Some(s) => Some(s.clone()),
        None => None,
    }
}

impl Marker {
    /// A copy of the marker.
    pub fn duplicate(&self) -> (r: Marker)
        ensures
            r@ == self@,
    {
        Marker {
            start_frame: self.start_frame,
            name: clone_opt_string(&self.name),
            comment: clone_opt_string(&self.comment),
            guid: self.guid.clone(),
        }
    }
}

// ---------------------------------------------------------------- merging

/// The marker that stands for frame `k` once the markers `s` were merged in order: the first
/// one at `k`, replaced by a later one at `k` that has text while the one kept has none.
pub open spec fn merged_at(s: Seq<MarkerView>, k: u64) -> Option<MarkerView>
    decreases s.len(),
{
    if s.len() == 0 {
        None
    } else {
        let m = s.last();
        let before = merged_at(s.drop_last(), k);
        if m.start_frame != k {
            before
        } else {
            match before {
                None => Some(m),
                Some(c) => if view_has_text(m) && !view_has_text(c) {
                    Some(m)
                } else {
                    Some(c)
                },
            }
        }
    }
}

/// Some marker of `s` is at frame `k`.
pub open spec fn has_frame(s: Seq<MarkerView>, k: u64) -> bool {
    exists|j: int| 0 <= j < s.len() && s[j].start_frame == k
}

/// The frames of `s` strictly increase.
pub open spec fn strictly_sorted(s: Seq<MarkerView>) -> bool {
    forall|i: int, j: int| 0 <= i < j < s.len() ==> s[i].start_frame < s[j].start_frame
}

/// What merging the markers `all` (the existing ones, then the incoming ones) gives: one
/// marker per frame, in frame order, each the marker [`merged_at`] that frame.
pub open spec fn is_merge_of(r: Seq<MarkerView>, all: Seq<MarkerView>) -> bool {
    &&& strictly_sorted(r)
    &&& forall|i: int| 0 <= i < r.len() ==> merged_at(all, r[i].start_frame) == Some(r[i])
    &&& forall|k: u64| has_frame(all, k) ==> has_frame(r, k)
}

proof fn lemma_merged_at_some(s: Seq<MarkerView>, k: u64)
    ensures
        merged_at(s, k) is Some <==> has_frame(s, k),
        merged_at(s, k) matches Some(m) ==> m.start_frame == k,
    decreases s.len(),
{
    if s.len() > 0 {
        lemma_merged_at_some(s.drop_last(), k);
        if has_frame(s.drop_last(), k) {
            let j = choose|j: int| 0 <= j < s.drop_last().len() && s.drop_last()[j].start_frame == k;
            assert(s[j] == s.drop_last()[j]);
        }
        if has_frame(s, k) && s.last().start_frame != k {
            let j = choose|j: int| 0 <= j < s.len() && s[j].start_frame == k;
            assert(j < s.len() - 1);
            assert(s.drop_last()[j] == s[j]);
        }
        if s.last().start_frame == k {
            assert(s[s.len() - 1].start_frame == k);
        }
    }
}

/// Adds the marker `m` to the merge `acc` of the markers `pre`.
fn merge_into(acc: &mut Vec<Marker>, m: Marker, Ghost(pre): Ghost<Seq<MarkerView>>)
    requires
        is_merge_of(markers_view(old(acc)@), pre),
    ensures
        is_merge_of(markers_view(final(acc)@), pre.push(m@)),
{
    let ghost cur = pre.push(m@);
    assert(cur.drop_last() =~= pre);
    assert(cur.last() == m@);
    proof {
        assert forall|k: u64| k != m.start_frame implies merged_at(cur, k) == merged_at(pre, k) by {}
        assert forall|k: u64| #[trigger] has_frame(cur, k) implies has_frame(pre, k) || k
            == m.start_frame by {
            let j = choose|j: int| 0 <= j < cur.len() && cur[j].start_frame == k;
            if j < pre.len() {
                assert(pre[j] == cur[j]);
            }
        }
    }
    let mut i: usize = 0;
    while i < acc.len() && acc[i].start_frame < m.start_frame
        invariant
            i <= acc.len(),
            forall|j: int| 0 <= j < i ==> #[trigger] acc@[j].start_frame < m.start_frame,
        decreases acc.len() - i,
    {
        i = i + 1;
    }
    let ghost av = markers_view(acc@);
    proof {
        lemma_merged_at_some(pre, m.start_frame);
    }
    if i < acc.len() && acc[i].start_frame == m.start_frame {
        // a marker for this frame is already kept
        assert(av[i as int] == acc@[i as int]@);
        assert(merged_at(pre, m.start_frame) == Some(av[i as int]));
        if marker_has_text(&m) && !marker_has_text(&acc[i]) {
            acc.set(i, m);
            proof {
                let nv = markers_view(acc@);
                assert forall|j: int| 0 <= j < nv.len() && j != i implies nv[j] == av[j] by {}
                assert(nv[i as int] == m@);
                assert(strictly_sorted(nv)) by {
                    assert forall|a: int, b: int| 0 <= a < b < nv.len() implies nv[a].start_frame
                        < nv[b].start_frame by {
                        assert(av[a].start_frame < av[b].start_frame);
                    }
                }
                assert forall|j: int| 0 <= j < nv.len() implies merged_at(
                    cur,
                    nv[j].start_frame,
                ) == Some(nv[j]) by {
                    if j != i {
                        assert(av[j].start_frame != m.start_frame);
                    }
                }
                assert forall|k: u64| has_frame(cur, k) implies has_frame(nv, k) by {
                    if k == m.start_frame {
                        assert(nv[i as int].start_frame == k);
                    } else {
                        assert(has_frame(pre, k));
                        let j = choose|j: int| 0 <= j < av.len() && av[j].start_frame == k;
                        assert(nv[j] == av[j]);
                    }
                }
            }
        } else {
            proof {
                assert forall|j: int| 0 <= j < av.len() implies merged_at(
                    cur,
                    av[j].start_frame,
                ) == Some(av[j]) by {
                    if j != i {
                        assert(av[j].start_frame != m.start_frame);
                    }
                }
                assert forall|k: u64| has_frame(cur, k) implies has_frame(av, k) by {
                    if k == m.start_frame {
                        assert(av[i as int].start_frame == k);
                    }
                }
            }
        }
    } else {
        // a new frame: insert in order
        proof {
            assert forall|j: int| 0 <= j < av.len() implies av[j].start_frame != m.start_frame
                by {
                if j < i {
                    assert(acc@[j].start_frame < m.start_frame);
                } else if j > i {
                    assert(av[i as int].start_frame < av[j].start_frame);
                    assert(av[i as int] == acc@[i as int]@);
                } else {
                    assert(av[j] == acc@[j]@);
                }
            }
            assert(!has_frame(pre, m.start_frame)) by {
                if has_frame(pre, m.start_frame) {
                    assert(has_frame(av, m.start_frame));
                }
            }
        }
        acc.insert(i, m);
        proof {
            let nv = markers_view(acc@);
            assert(nv.len() == av.len() + 1);
            assert forall|j: int| 0 <= j < i implies nv[j] == av[j] by {}
            assert forall|j: int| i < j < nv.len() implies nv[j] == av[j - 1] by {}
            assert(nv[i as int] == m@);
            assert(strictly_sorted(nv)) by {
                assert forall|a: int, b: int| 0 <= a < b < nv.len() implies nv[a].start_frame
                    < nv[b].start_frame by {
                    if b < i {
                        assert(av[a].start_frame < av[b].start_frame);
                    } else if b == i {
                        assert(acc@[a].start_frame == av[a].start_frame);
                    } else if a < i {
                        assert(av[a].start_frame < av[b - 1].start_frame || a == b - 1);
                    } else if a == i {
                        assert(av[b - 1].start_frame >= m.start_frame);
                    } else {
                        assert(av[a - 1].start_frame < av[b - 1].start_frame);
                    }
                }
            }
            assert forall|j: int| 0 <= j < nv.len() implies merged_at(
                cur,
                nv[j].start_frame,
            ) == Some(nv[j]) by {
                if j != i {
                    let jj = if j < i { j } else { j - 1 };
                    assert(nv[j] == av[jj]);
                    assert(av[jj].start_frame != m.start_frame);
                }
            }
            assert forall|k: u64| has_frame(cur, k) implies has_frame(nv, k) by {
                if k == m.start_frame {
                    assert(nv[i as int].start_frame == k);
                } else {
                    assert(has_frame(pre, k));
                    let j = choose|j: int| 0 <= j < av.len() && av[j].start_frame == k;
                    let jj = if j < i { j } else { j + 1 };
                    assert(nv[jj] == av[j]);
                }
            }
        }
    }
}

/// Merges two marker lists: one marker per frame, in frame order. Where several markers share
/// a frame, the first one is kept unless a later one has text and the kept one has none.
pub fn merge_markers(existing: Vec<Marker>, incoming: Vec<Marker>) -> (r: Vec<Marker>)
    ensures
        is_merge_of(markers_view(r@), markers_view(existing@) + markers_view(incoming@)),
{
    let ghost all = markers_view(existing@) + markers_view(incoming@);
    let mut acc: Vec<Marker> = Vec::new();
    assert(markers_view(acc@) =~= Seq::<MarkerView>::empty());
    let mut n: usize = 0;
    while n < existing.len()
        invariant
            n <= existing.len(),
            is_merge_of(markers_view(acc@), markers_view(existing@).take(n as int)),
        decreases existing.len() - n,
    {
        let m = existing[n].duplicate();
        assert(markers_view(existing@).take(n as int).push(m@) =~= markers_view(existing@).take(
            n + 1,
        ));
        merge_into(&mut acc, m, Ghost(markers_view(existing@).take(n as int)));
        n = n + 1;
    }
    assert(markers_view(existing@).take(existing.len() as int) =~= all.take(existing.len() as int));
    let mut q: usize = 0;
    while q < incoming.len()
        invariant
            q <= incoming.len(),
            all == markers_view(existing@) + markers_view(incoming@),
            is_merge_of(markers_view(acc@), all.take(existing.len() + q)),
        decreases incoming.len() - q,
    {
        let m = incoming[q].duplicate();
        assert(all.take(existing.len() + q).push(m@) =~= all.take(existing.len() + q + 1));
        merge_into(&mut acc, m, Ghost(all.take(existing.len() + q)));
        q = q + 1;
    }
    assert(all.take(existing.len() + incoming.len()) =~= all);
    acc
}


proof fn lemma_merged_at_member(s: Seq<MarkerView>, k: u64)
    ensures
        merged_at(s, k) matches Some(c) ==> exists|i: int|
            0 <= i < s.len() && s[i] == c && s[i].start_frame == k,
    decreases s.len(),
{
    if s.len() > 0 {
        lemma_merged_at_member(s.drop_last(), k);
        if let Some(c) = merged_at(s.drop_last(), k) {
            let i = choose|i: int|
                0 <= i < s.drop_last().len() && s.drop_last()[i] == c && s.drop_last()[i].start_frame
                    == k;
            assert(s[i] == s.drop_last()[i]);
        }
        assert(s[s.len() - 1] == s.last());
    }
}

/// Among the markers at one frame, the merge keeps the first that has text.
pub proof fn merge_keeps_first_marker_with_text(all: Seq<MarkerView>, j: int)
    requires
        0 <= j < all.len(),
        view_has_text(all[j]),
        forall|i: int|
            0 <= i < j && #[trigger] all[i].start_frame == all[j].start_frame ==> !view_has_text(
                all[i],
            ),
    ensures
        merged_at(all, all[j].start_frame) == Some(all[j]),
    decreases all.len(),
{
    let k = all[j].start_frame;
    let pre = all.drop_last();
    let n = all.len() - 1;
    if j < n {
        assert(pre[j] == all[j]);
        assert forall|i: int| 0 <= i < j && #[trigger] pre[i].start_frame == pre[j].start_frame
            implies !view_has_text(pre[i]) by {
            assert(pre[i] == all[i]);
        }
        merge_keeps_first_marker_with_text(pre, j);
    } else {
        lemma_merged_at_member(pre, k);
        if let Some(c) = merged_at(pre, k) {
            let i = choose|i: int| 0 <= i < pre.len() && pre[i] == c && pre[i].start_frame == k;
            assert(pre[i] == all[i]);
        }
    }
}

/// When no marker at a frame has text, the merge keeps the first marker at that frame.
pub proof fn merge_keeps_first_marker_without_text(all: Seq<MarkerView>, j: int)
    requires
        0 <= j < all.len(),
        forall|i: int| 0 <= i < j ==> #[trigger] all[i].start_frame != all[j].start_frame,
        forall|i: int|
            0 <= i < all.len() && #[trigger] all[i].start_frame == all[j].start_frame
                ==> !view_has_text(all[i]),
    ensures
        merged_at(all, all[j].start_frame) == Some(all[j]),
    decreases all.len(),
{
    let k = all[j].start_frame;
    let pre = all.drop_last();
    let n = all.len() - 1;
    if j < n {
        assert(pre[j] == all[j]);
        assert forall|i: int| 0 <= i < j implies #[trigger] pre[i].start_frame
            != pre[j].start_frame by {
            assert(pre[i] == all[i]);
        }
        assert forall|i: int| 0 <= i < pre.len() && #[trigger] pre[i].start_frame
            == pre[j].start_frame implies !view_has_text(pre[i]) by {
            assert(pre[i] == all[i]);
        }
        merge_keeps_first_marker_without_text(pre, j);
        assert(all[n] == all.last());
    } else {
        lemma_merged_at_some(pre, k);
        if has_frame(pre, k) {
            let i = choose|i: int| 0 <= i < pre.len() && pre[i].start_frame == k;
            assert(pre[i] == all[i]);
        }
    }
}

proof fn lemma_sorted_same_frames_same_len(a: Seq<MarkerView>, b: Seq<MarkerView>)
    requires
        strictly_sorted(a),
        strictly_sorted(b),
        forall|k: u64| has_frame(a, k) <==> has_frame(b, k),
    ensures
        a.len() == b.len(),
        forall|i: int| 0 <= i < a.len() ==> #[trigger] a[i].start_frame == b[i].start_frame,
    decreases a.len(),
{
    if a.len() == 0 {
        if b.len() > 0 {
            assert(has_frame(b, b[0].start_frame));
        }
    } else if b.len() == 0 {
        assert(has_frame(a, a[0].start_frame));
    } else {
        let la = a.last();
        let lb = b.last();
        assert(a[a.len() - 1] == la && b[b.len() - 1] == lb);
        assert(has_frame(a, la.start_frame));
        assert(has_frame(b, lb.start_frame));
        let ia = choose|j: int| 0 <= j < a.len() && a[j].start_frame == lb.start_frame;
        let ib = choose|j: int| 0 <= j < b.len() && b[j].start_frame == la.start_frame;
        assert(la.start_frame == lb.start_frame) by {
            if ia < a.len() - 1 {
                assert(a[ia].start_frame < la.start_frame);
            }
            if ib < b.len() - 1 {
                assert(b[ib].start_frame < lb.start_frame);
            }
        }
        let a2 = a.drop_last();
        let b2 = b.drop_last();
        assert forall|k: u64| has_frame(a2, k) <==> has_frame(b2, k) by {
            if has_frame(a2, k) {
                let j = choose|j: int| 0 <= j < a2.len() && a2[j].start_frame == k;
                assert(a2[j] == a[j]);
                assert(a[j].start_frame < la.start_frame);
                assert(has_frame(a, k));
                let jb = choose|jb: int| 0 <= jb < b.len() && b[jb].start_frame == k;
                assert(jb != b.len() - 1);
                assert(b2[jb] == b[jb]);
            }
            if has_frame(b2, k) {
                let j = choose|j: int| 0 <= j < b2.len() && b2[j].start_frame == k;
                assert(b2[j] == b[j]);
                assert(b[j].start_frame < lb.start_frame);
                assert(has_frame(b, k));
                let ja = choose|ja: int| 0 <= ja < a.len() && a[ja].start_frame == k;
                assert(ja != a.len() - 1);
                assert(a2[ja] == a[ja]);
            }
        }
        assert(strictly_sorted(a2)) by {
            assert forall|i: int, j: int| 0 <= i < j < a2.len() implies a2[i].start_frame
                < a2[j].start_frame by {
                assert(a2[i] == a[i] && a2[j] == a[j]);
            }
        }
        assert(strictly_sorted(b2)) by {
            assert forall|i: int, j: int| 0 <= i < j < b2.len() implies b2[i].start_frame
                < b2[j].start_frame by {
                assert(b2[i] == b[i] && b2[j] == b[j]);
            }
        }
        lemma_sorted_same_frames_same_len(a2, b2);
        assert forall|i: int| 0 <= i < a.len() implies #[trigger] a[i].start_frame
            == b[i].start_frame by {
            if i < a.len() - 1 {
                assert(a2[i] == a[i] && b2[i] == b[i]);
            }
        }
    }
}

proof fn lemma_merge_frames(r: Seq<MarkerView>, all: Seq<MarkerView>)
    requires
        is_merge_of(r, all),
    ensures
        forall|k: u64| has_frame(r, k) <==> has_frame(all, k),
{
    assert forall|k: u64| has_frame(r, k) implies has_frame(all, k) by {
        let j = choose|j: int| 0 <= j < r.len() && r[j].start_frame == k;
        lemma_merged_at_some(all, k);
    }
}

/// Merging markers whose frames all carry a marker already adds no marker: the merge has as
/// many markers as the merge of the existing markers alone.
pub proof fn remerge_adds_no_marker(
    existing: Seq<MarkerView>,
    incoming: Seq<MarkerView>,
    merged: Seq<MarkerView>,
    merged_existing: Seq<MarkerView>,
)
    requires
        forall|k: u64| has_frame(incoming, k) ==> has_frame(existing, k),
        is_merge_of(merged, existing + incoming),
        is_merge_of(merged_existing, existing),
    ensures
        merged.len() == merged_existing.len(),
{
    lemma_merge_frames(merged, existing + incoming);
    lemma_merge_frames(merged_existing, existing);
    let all = existing + incoming;
    assert forall|k: u64| has_frame(all, k) <==> has_frame(existing, k) by {
        if has_frame(all, k) {
            let j = choose|j: int| 0 <= j < all.len() && all[j].start_frame == k;
            if j < existing.len() {
                assert(all[j] == existing[j]);
            } else {
                assert(all[j] == incoming[j - existing.len()]);
                assert(has_frame(incoming, k));
            }
        }
        if has_frame(existing, k) {
            let j = choose|j: int| 0 <= j < existing.len() && existing[j].start_frame == k;
            assert(all[j] == existing[j]);
        }
    }
    lemma_sorted_same_frames_same_len(merged, merged_existing);
}


// ---------------------------------------------------------------- writing the packet

/// The replacement that XML escaping gives one character: `<`, `>`, `&`, `'` and `"` become
/// entities, every other character stands for itself.
pub open spec fn escape_char(c: char) -> Seq<char> {
    if c == '<' {
        "&lt;"@
    } else if c == '>' {
        "&gt;"@
    } else if c == '&' {
        "&amp;"@
    } else if c == '\'' {
        "&apos;"@
    } else if c == '"' {
        "&quot;"@
    } else {
        seq![c]
    }
}

/// `s` with the XML special characters replaced by entities.
pub open spec fn spec_escape(s: Seq<char>) -> Seq<char>
    decreases s.len(),
{
    if s.len() == 0 {
        seq![]
    } else {
        spec_escape(s.drop_last()) + escape_char(s.last())
    }
}

/// `quick_xml::escape::escape`: replaces `<`, `>`, `&`, `'` and `"` with `&lt;`, `&gt;`,
/// `&amp;`, `&apos;` and `&quot;`, and leaves every other character as it is.
#[verifier::external_body]
pub(crate) fn xml_escape(s: &str) -> (r: String)
    ensures
        r@ == spec_escape(s@),
{
    quick_xml::escape::escape(s).into_owned()
}

/// A lowercase hyphenated random (version 4) UUID: 36 characters, `-` at positions 8, 13, 18
/// and 23, the version digit `4` at position 14, the variant digit `8`, `9`, `a` or `b` at
/// position 19, and a lowercase hexadecimal digit everywhere else.
pub open spec fn is_uuid_text(s: Seq<char>) -> bool {
    &&& s.len() == 36
    &&& forall|i: int|
        0 <= i < 36 ==> if i == 8 || i == 13 || i == 18 || i == 23 {
            s[i] == '-'
        } else {
            ('0' <= #[trigger] s[i] <= '9') || ('a' <= s[i] <= 'f')
        }
    &&& s[14] == '4'
    &&& (s[19] == '8' || s[19] == '9' || s[19] == 'a' || s[19] == 'b')
}

/// A fresh random identifier: `uuid::Uuid::new_v4()`, displayed in its hyphenated lowercase
/// form. `new_v4` sets the version bits to 4 and the variant bits to `10`, so the digit at
/// position 14 is `4` and the one at position 19 is `8`, `9`, `a` or `b`. Which identifier
/// comes out is chance; its form is what the contract states.
#[verifier::external_body]
pub(crate) fn new_guid() -> (r: String)
    ensures
        is_uuid_text(r@),
{
    uuid::Uuid::new_v4().to_string()
}

/// The name of a marker made from a chapter title: the title trimmed, or none when blank.
pub open spec fn chapter_marker_name(title: Option<Seq<char>>) -> Option<Seq<char>> {
    match title {
        Some(t) => if spec_trim(t).len() == 0 {
            None
        } else {
            Some(spec_trim(t))
        },
        None => None,
    }
}

/// The marker for a chapter that starts at `start_frame`, with the identifier `guid`.
pub fn marker_with_guid(start_frame: u64, title: Option<&str>, guid: String) -> (r: Marker)
    ensures
        r@ == (MarkerView {
            start_frame,
            name: chapter_marker_name(
                match title {
                    Some(t) => Some(t@),
                    None => None,
                },
            ),
            comment: None,
            guid: guid@,
        }),
{
    let name = match title {
        Some(t) => {
            let v = trimmed(t);
            if v.as_str().is_empty() {
                None
            } else {
                Some(v)
            }
        },
        None => None,
    };
    Marker { start_frame, name, comment: None, guid }
}

/// The marker for a chapter that starts at `start_frame`, with a fresh identifier.
pub fn marker_from_chapter(start_frame: u64, title: Option<&str>) -> (r: Marker)
    ensures
        r.start_frame == start_frame,
        opt_view(r.name) == chapter_marker_name(
            match title {
                Some(t) => Some(t@),
                None => None,
            },
        ),
        r.comment is None,
        is_uuid_text(r.guid@),
{
    let guid = new_guid();
    marker_with_guid(start_frame, title, guid)
}

/// The text of an optional attribute: ` key="value"` with the value escaped, when the value
/// is not blank.
pub open spec fn optional_attr(key: Seq<char>, value: Option<Seq<char>>) -> Seq<char> {
    if has_words(value) {
        " "@ + key + "=\""@ + spec_escape(value->Some_0) + "\""@
    } else {
        seq![]
    }
}

/// The `rdf:li` element of one marker.
pub open spec fn marker_xml(m: MarkerView) -> Seq<char> {
    "         <rdf:li>\n"@ + "          <rdf:Description xmpDM:startTime=\""@ + spec_decimal(
        m.start_frame as nat,
    ) + "\" xmpDM:type=\"Comment\" xmpDM:guid=\""@ + spec_escape(m.guid) + "\""@ + optional_attr(
        "xmpDM:name"@,
        m.name,
    ) + optional_attr("xmpDM:comment"@, m.comment) + "/>\n"@ + "         </rdf:li>\n"@
}

/// The elements of the markers `ms`, in order.
pub open spec fn markers_xml(ms: Seq<MarkerView>) -> Seq<char>
    decreases ms.len(),
{
    if ms.len() == 0 {
        seq![]
    } else {
        markers_xml(ms.drop_last()) + marker_xml(ms.last())
    }
}

/// The start of an XMP packet, up to the marker list of a track at `frame_rate`.
pub open spec fn xmp_head(frame_rate: Seq<char>) -> Seq<char> {
    "<?xpacket begin=\"\u{feff}\" id=\"W5M0MpCehiHzreSzNTczkc9d\"?>\n"@
        + "<x:xmpmeta xmlns:x=\"adobe:ns:meta/\">\n"@
        + " <rdf:RDF xmlns:rdf=\"http://www.w3.org/1999/02/22-rdf-syntax-ns#\">\n"@
        + "  <rdf:Description rdf:about=\"\" xmlns:xmpDM=\"http://ns.adobe.com/xmp/1.0/DynamicMedia/\">\n"@
        + "   <xmpDM:Tracks>\n"@ + "    <rdf:Bag>\n"@ + "     <rdf:li>\n"@
        + "      <rdf:Description xmpDM:trackName=\"Markers\" xmpDM:frameRate=\""@ + spec_escape(
        frame_rate,
    ) + "\">\n"@ + "       <xmpDM:markers>\n"@ + "        <rdf:Seq>\n"@
}

/// The end of an XMP packet, after the marker list.
pub open spec fn xmp_tail() -> Seq<char> {
    "        </rdf:Seq>\n"@ + "       </xmpDM:markers>\n"@ + "      </rdf:Description>\n"@
        + "     </rdf:li>\n"@ + "    </rdf:Bag>\n"@ + "   </xmpDM:Tracks>\n"@
        + "  </rdf:Description>\n"@ + " </rdf:RDF>\n"@ + "</x:xmpmeta>\n"@
        + "<?xpacket end=\"w\"?>\n"@
}

/// The XMP packet with a marker track at `frame_rate` that holds `markers`.
pub open spec fn spec_generate_xmp(frame_rate: Seq<char>, markers: Seq<MarkerView>) -> Seq<char> {
    xmp_head(frame_rate) + markers_xml(markers) + xmp_tail()
}

fn push_optional_attr(xml: &mut String, key: &str, value: &Option<String>)
    ensures
        final(xml)@ == old(xml)@ + optional_attr(key@, opt_view(*value)),
{
    if opt_has_words(value) {
        match value {
            Some(v) => {
                xml.append(" ");
                xml.append(key);
                xml.append("=\"");
                let e = xml_escape(v.as_str());
                xml.append(e.as_str());
                xml.append("\"");
            },
            None => {},
        }
    }
}

fn push_marker_xml(xml: &mut String, m: &Marker)
    ensures
        final(xml)@ == old(xml)@ + marker_xml(m@),
{
    let ghost before = xml@;
    xml.append("         <rdf:li>\n");
    xml.append("          <rdf:Description xmpDM:startTime=\"");
    let frame = crate::text::u64_to_decimal(m.start_frame);
    xml.append(frame.as_str());
    xml.append("\" xmpDM:type=\"Comment\" xmpDM:guid=\"");
    let g = xml_escape(m.guid.as_str());
    xml.append(g.as_str());
    xml.append("\"");
    push_optional_attr(xml, "xmpDM:name", &m.name);
    push_optional_attr(xml, "xmpDM:comment", &m.comment);
    xml.append("/>\n");
    xml.append("         </rdf:li>\n");
    assert(xml@ =~= before + marker_xml(m@));
}

/// The XMP packet with a marker track at `frame_rate` that holds `markers`.
pub fn generate_xmp(frame_rate: &str, markers: &[Marker]) -> (r: String)
    ensures
        r@ == spec_generate_xmp(frame_rate@, markers_view(markers@)),
{
    let mut xml = String::new();
    xml.append("<?xpacket begin=\"\u{feff}\" id=\"W5M0MpCehiHzreSzNTczkc9d\"?>\n");
    xml.append("<x:xmpmeta xmlns:x=\"adobe:ns:meta/\">\n");
    xml.append(" <rdf:RDF xmlns:rdf=\"http://www.w3.org/1999/02/22-rdf-syntax-ns#\">\n");
    xml.append(
        "  <rdf:Description rdf:about=\"\" xmlns:xmpDM=\"http://ns.adobe.com/xmp/1.0/DynamicMedia/\">\n",
    );
    xml.append("   <xmpDM:Tracks>\n");
    xml.append("    <rdf:Bag>\n");
    xml.append("     <rdf:li>\n");
    xml.append("      <rdf:Description xmpDM:trackName=\"Markers\" xmpDM:frameRate=\"");
    let rate = xml_escape(frame_rate);
    xml.append(rate.as_str());
    xml.append("\">\n");
    xml.append("       <xmpDM:markers>\n");
    xml.append("        <rdf:Seq>\n");
    let ghost head = xml@;
    assert(head =~= xmp_head(frame_rate@));
    let ghost mv = markers_view(markers@);
    let mut i: usize = 0;
    while i < markers.len()
        invariant
            i <= markers.len(),
            mv == markers_view(markers@),
            head == xmp_head(frame_rate@),
            xml@ == head + markers_xml(mv.take(i as int)),
        decreases markers.len() - i,
    {
        let m = &markers[i];
        push_marker_xml(&mut xml, m);
        proof {
            assert(mv[i as int] == m@);
            assert(mv.take(i + 1).drop_last() =~= mv.take(i as int));
        }
        i = i + 1;
    }
    xml.append("        </rdf:Seq>\n");
    xml.append("       </xmpDM:markers>\n");
    xml.append("      </rdf:Description>\n");
    xml.append("     </rdf:li>\n");
    xml.append("    </rdf:Bag>\n");
    xml.append("   </xmpDM:Tracks>\n");
    xml.append("  </rdf:Description>\n");
    xml.append(" </rdf:RDF>\n");
    xml.append("</x:xmpmeta>\n");
    xml.append("<?xpacket end=\"w\"?>\n");
    assert(mv.take(markers.len() as int) =~= mv);
    assert(xml@ =~= spec_generate_xmp(frame_rate@, mv));
    xml
}


// ---------------------------------------------------------------- reading the packet

/// An attribute of an opening tag: its key, and its value or why the value did not decode.
#[derive(Debug)]
pub struct XmlAttribute {
    pub key: String,
    pub value: Result<String, String>,
}

/// What the XML reader yields, as owned values.
#[derive(Debug)]
pub enum XmlToken {
    Start { name: String, attributes: Vec<XmlAttribute> },
    End { name: String },
    Eof,
    Invalid { position: u64, message: String },
    Other,
}

pub struct XmlAttributeView {
    pub key: Seq<char>,
    pub value: Result<Seq<char>, Seq<char>>,
}

pub enum XmlTokenView {
    Start { name: Seq<char>, attributes: Seq<XmlAttributeView> },
    End { name: Seq<char> },
    Eof,
    Invalid { position: u64, message: Seq<char> },
    Other,
}

impl View for XmlAttribute {
    type V = XmlAttributeView;

    open spec fn view(&self) -> XmlAttributeView {
        XmlAttributeView {
            key: self.key@,
            value: match self.value {
                Ok(v) => Ok(v@),
                Err(m) => Err(m@),
            },
        }
    }
}

impl View for XmlToken {
    type V = XmlTokenView;

    open spec fn view(&self) -> XmlTokenView {
        match self {
            XmlToken::Start { name, attributes } => XmlTokenView::Start {
                name: name@,
                attributes: attributes@.map_values(|a: XmlAttribute| a@),
            },
            XmlToken::End { name } => XmlTokenView::End { name: name@ },
            XmlToken::Eof => XmlTokenView::Eof,
            XmlToken::Invalid { position, message } => XmlTokenView::Invalid {
                position: *position,
                message: message@,
            },
            XmlToken::Other => XmlTokenView::Other,
        }
    }
}

pub open spec fn tokens_view(v: Seq<XmlToken>) -> Seq<XmlTokenView> {
    v.map_values(|t: XmlToken| t@)
}

/// The attributes of an `rdf:Description` that the marker track reads; the last occurrence
/// of a key counts.
pub struct DescriptionAttrs {
    pub track_name: Option<Seq<char>>,
    pub frame_rate: Option<Seq<char>>,
    pub start_time: Option<Seq<char>>,
    pub name: Option<Seq<char>>,
    pub comment: Option<Seq<char>>,
    pub guid: Option<Seq<char>>,
}

pub open spec fn no_description_attrs() -> DescriptionAttrs {
    DescriptionAttrs {
        track_name: None,
        frame_rate: None,
        start_time: None,
        name: None,
        comment: None,
        guid: None,
    }
}

/// `d` with the attribute `key` set to `v`, when it is one that the marker track reads.
pub open spec fn with_attr(d: DescriptionAttrs, key: Seq<char>, v: Seq<char>) -> DescriptionAttrs {
    if key == "xmpDM:trackName"@ {
        DescriptionAttrs { track_name: Some(v), ..d }
    } else if key == "xmpDM:frameRate"@ {
        DescriptionAttrs { frame_rate: Some(v), ..d }
    } else if key == "xmpDM:startTime"@ {
        DescriptionAttrs { start_time: Some(v), ..d }
    } else if key == "xmpDM:name"@ {
        DescriptionAttrs { name: Some(v), ..d }
    } else if key == "xmpDM:comment"@ {
        DescriptionAttrs { comment: Some(v), ..d }
    } else if key == "xmpDM:guid"@ {
        DescriptionAttrs { guid: Some(v), ..d }
    } else {
        d
    }
}

/// The attributes read in order; the first value that did not decode stops them.
pub open spec fn read_description_attrs(attrs: Seq<XmlAttributeView>) -> Result<
    DescriptionAttrs,
    Seq<char>,
>
    decreases attrs.len(),
{
    if attrs.len() == 0 {
        Ok(no_description_attrs())
    } else {
        match read_description_attrs(attrs.drop_last()) {
            Err(m) => Err(m),
            Ok(d) => match attrs.last().value {
                Err(m) => Err(m),
                Ok(v) => Ok(with_attr(d, attrs.last().key, v)),
            },
        }
    }
}

/// A marker as the packet gives it, with the identifier it names, if any.
pub struct FoundMarker {
    pub start_frame: u64,
    pub name: Option<Seq<char>>,
    pub comment: Option<Seq<char>>,
    pub guid: Option<Seq<char>>,
}

/// Where the reading of a packet stands: inside the marker track, inside its marker list,
/// the track's frame rate, the markers found, and whether the document has ended.
pub struct MarkerScan {
    pub in_track: bool,
    pub in_list: bool,
    pub frame_rate: Option<Seq<char>>,
    pub found: Seq<FoundMarker>,
    pub done: bool,
}

pub open spec fn initial_marker_scan() -> MarkerScan {
    MarkerScan { in_track: false, in_list: false, frame_rate: None, found: seq![], done: false }
}

/// Non-blank text, or none.
pub open spec fn words_or_none(o: Option<Seq<char>>) -> Option<Seq<char>> {
    if has_words(o) {
        o
    } else {
        None
    }
}

pub open spec fn decode_error(m: Seq<char>) -> ErrorView {
    ErrorView::InvalidXmp("failed to decode xmp attribute: "@ + m)
}

pub open spec fn start_time_error(t: Seq<char>, e: IntParseError) -> ErrorView {
    ErrorView::InvalidXmp("invalid marker startTime '"@ + t + "': "@ + e.spec_message())
}

pub open spec fn syntax_error(position: u64, m: Seq<char>) -> ErrorView {
    ErrorView::InvalidXmp("invalid xmp xml at position "@ + spec_decimal(position as nat) + ": "@ + m)
}

/// What an `rdf:Description` with attributes `d` does to the scan.
pub open spec fn description_step(st: MarkerScan, d: DescriptionAttrs) -> Result<
    MarkerScan,
    ErrorView,
> {
    let st1 = if d.track_name == Some("Markers"@) {
        MarkerScan {
            in_track: true,
            frame_rate: if d.frame_rate is Some {
                d.frame_rate
            } else {
                st.frame_rate
            },
            ..st
        }
    } else {
        st
    };
    if st1.in_list && d.start_time is Some {
        let t = d.start_time->Some_0;
        match spec_parse_u64(t) {
            Err(e) => Err(start_time_error(t, e)),
            Ok(frame) => Ok(
                MarkerScan {
                    found: st1.found.push(
                        FoundMarker {
                            start_frame: frame,
                            name: words_or_none(d.name),
                            comment: words_or_none(d.comment),
                            guid: d.guid,
                        },
                    ),
                    ..st1
                },
            ),
        }
    } else {
        Ok(st1)
    }
}

/// What one token does to the scan.
pub open spec fn marker_scan_step(st: MarkerScan, t: XmlTokenView) -> Result<MarkerScan, ErrorView> {
    match t {
        XmlTokenView::Start { name, attributes } => if name == "rdf:Description"@ {
            match read_description_attrs(attributes) {
                Err(m) => Err(decode_error(m)),
                Ok(d) => description_step(st, d),
            }
        } else if name == "xmpDM:markers"@ && st.in_track {
            Ok(MarkerScan { in_list: true, ..st })
        } else {
            Ok(st)
        },
        XmlTokenView::End { name } => if name == "xmpDM:markers"@ {
            Ok(MarkerScan { in_list: false, ..st })
        } else if name == "rdf:Description"@ && st.in_track && !st.in_list {
            Ok(MarkerScan { in_track: false, ..st })
        } else {
            Ok(st)
        },
        XmlTokenView::Eof => Ok(MarkerScan { done: true, ..st }),
        XmlTokenView::Invalid { position, message } => Err(syntax_error(position, message)),
        XmlTokenView::Other => Ok(st),
    }
}

/// The scan after the tokens `ts`; tokens after the end of the document change nothing.
pub open spec fn spec_scan_markers(ts: Seq<XmlTokenView>) -> Result<MarkerScan, ErrorView>
    decreases ts.len(),
{
    if ts.len() == 0 {
        Ok(initial_marker_scan())
    } else {
        match spec_scan_markers(ts.drop_last()) {
            Err(e) => Err(e),
            Ok(st) => if st.done {
                Ok(st)
            } else {
                marker_scan_step(st, ts.last())
            },
        }
    }
}

/// The marker `m` is what the packet gave as `f`: the identifier it named, or a fresh one.
pub open spec fn marker_matches_found(m: MarkerView, f: FoundMarker) -> bool {
    &&& m.start_frame == f.start_frame
    &&& m.name == f.name
    &&& m.comment == f.comment
    &&& match f.guid {
        Some(g) => m.guid == g,
        None => is_uuid_text(m.guid),
    }
}

/// The markers `p` are what the scan `st` found.
pub open spec fn parsed_matches_scan(p: ParsedMarkers, st: MarkerScan) -> bool {
    &&& opt_view(p.frame_rate) == st.frame_rate
    &&& p.markers.len() == st.found.len()
    &&& forall|i: int|
        0 <= i < st.found.len() ==> marker_matches_found(#[trigger] p.markers@[i]@, st.found[i])
}

/// The outcome `r` is the outcome `s` of a scan.
pub open spec fn parse_outcome_matches(
    r: Result<ParsedMarkers, MarkerFixerError>,
    s: Result<MarkerScan, ErrorView>,
) -> bool {
    match (r, s) {
        (Ok(p), Ok(st)) => parsed_matches_scan(p, st),
        (Err(e), Err(x)) => e@ == x,
        _ => false,
    }
}

/// The attributes of an `rdf:Description` that the marker track reads, as owned values.
struct DescAttrsExec {
    track_name: Option<String>,
    frame_rate: Option<String>,
    start_time: Option<String>,
    name: Option<String>,
    comment: Option<String>,
    guid: Option<String>,
}

impl DescAttrsExec {
    spec fn spec_view(&self) -> DescriptionAttrs {
        DescriptionAttrs {
            track_name: opt_view(self.track_name),
            frame_rate: opt_view(self.frame_rate),
            start_time: opt_view(self.start_time),
            name: opt_view(self.name),
            comment: opt_view(self.comment),
            guid: opt_view(self.guid),
        }
    }
}

fn read_desc_attrs(attrs: &Vec<XmlAttribute>) -> (r: Result<DescAttrsExec, String>)
    ensures
        match (r, read_description_attrs(attrs@.map_values(|a: XmlAttribute| a@))) {
            (Ok(d), Ok(x)) => d.spec_view() == x,
            (Err(m), Err(x)) => m@ == x,
            _ => false,
        },
{
    let ghost av = attrs@.map_values(|a: XmlAttribute| a@);
    let mut d = DescAttrsExec {
        track_name: None,
        frame_rate: None,
        start_time: None,
        name: None,
        comment: None,
        guid: None,
    };
    let mut i: usize = 0;
    assert(av.take(0) =~= Seq::<XmlAttributeView>::empty());
    while i < attrs.len()
        invariant
            i <= attrs.len(),
            av == attrs@.map_values(|a: XmlAttribute| a@),
            read_description_attrs(av.take(i as int)) == Ok::<DescriptionAttrs, Seq<char>>(
                d.spec_view(),
            ),
        decreases attrs.len() - i,
    {
        let a = &attrs[i];
        assert(av.take(i + 1).drop_last() =~= av.take(i as int));
        assert(av.take(i + 1).last() == a@);
        match &a.value {
            Err(m) => {
                assert(av.take(i + 1).last().value == Err::<Seq<char>, Seq<char>>(m@));
                proof {
                    lemma_attrs_error_sticks(av, i as int + 1);
                }
                return Err(m.clone());
            },
            Ok(v) => {
                let k = a.key.as_str();
                if str_eq(k, "xmpDM:trackName") {
                    d.track_name = Some(v.clone());
                } else if str_eq(k, "xmpDM:frameRate") {
                    d.frame_rate = Some(v.clone());
                } else if str_eq(k, "xmpDM:startTime") {
                    d.start_time = Some(v.clone());
                } else if str_eq(k, "xmpDM:name") {
                    d.name = Some(v.clone());
                } else if str_eq(k, "xmpDM:comment") {
                    d.comment = Some(v.clone());
                } else if str_eq(k, "xmpDM:guid") {
                    d.guid = Some(v.clone());
                }
            },
        }
        i = i + 1;
    }
    assert(av.take(attrs.len() as int) =~= av);
    Ok(d)
}

proof fn lemma_attrs_error_sticks(av: Seq<XmlAttributeView>, n: int)
    requires
        0 < n <= av.len(),
        read_description_attrs(av.take(n)) is Err,
    ensures
        read_description_attrs(av) == read_description_attrs(av.take(n)),
    decreases av.len() - n,
{
    if n < av.len() {
        assert(av.take(n + 1).drop_last() =~= av.take(n));
        assert(read_description_attrs(av.take(n + 1)) == read_description_attrs(av.take(n)));
        lemma_attrs_error_sticks(av, n + 1);
    } else {
        assert(av.take(n) =~= av);
    }
}


proof fn lemma_scan_markers_settled(ts: Seq<XmlTokenView>, n: int)
    requires
        0 <= n <= ts.len(),
        match spec_scan_markers(ts.take(n)) {
            Err(_) => true,
            Ok(st) => st.done,
        },
    ensures
        spec_scan_markers(ts) == spec_scan_markers(ts.take(n)),
    decreases ts.len() - n,
{
    if n < ts.len() {
        assert(ts.take(n + 1).drop_last() =~= ts.take(n));
        assert(spec_scan_markers(ts.take(n + 1)) == spec_scan_markers(ts.take(n)));
        lemma_scan_markers_settled(ts, n + 1);
    } else {
        assert(ts.take(n) =~= ts);
    }
}

fn opt_words_or_none(o: Option<String>) -> (r: Option<String>)
    ensures
        opt_view(r) == words_or_none(opt_view(o)),
{
    if opt_has_words(&o) {
        o
    } else {
        None
    }
}

fn invalid_xmp2(a: &str, b: &str) -> (r: MarkerFixerError)
    ensures
        r@ == ErrorView::InvalidXmp(a@ + b@),
{
    let mut m = a.to_string();
    m.append(b);
    MarkerFixerError::InvalidXmp(m)
}

fn invalid_xmp4(a: &str, b: &str, c: &str, d: &str) -> (r: MarkerFixerError)
    ensures
        r@ == ErrorView::InvalidXmp(a@ + b@ + c@ + d@),
{
    let mut m = a.to_string();
    m.append(b);
    m.append(c);
    m.append(d);
    MarkerFixerError::InvalidXmp(m)
}

/// Reads the markers out of the tokens of an XMP packet: the markers of the list inside the
/// `rdf:Description` whose track name is `Markers`, with that track's frame rate. A marker
/// that names no identifier gets a fresh one.
pub fn scan_markers(tokens: &[XmlToken]) -> (r: Result<ParsedMarkers, MarkerFixerError>)
    ensures
        parse_outcome_matches(r, spec_scan_markers(tokens_view(tokens@))),
{
    let ghost tv = tokens_view(tokens@);
    let mut in_track = false;
    let mut in_list = false;
    let mut frame_rate: Option<String> = None;
    let mut markers: Vec<Marker> = Vec::new();
    let ghost mut found: Seq<FoundMarker> = seq![];
    let mut i: usize = 0;
    assert(tv.take(0) =~= Seq::<XmlTokenView>::empty());
    while i < tokens.len()
        invariant
            i <= tokens.len(),
            tv == tokens_view(tokens@),
            spec_scan_markers(tv.take(i as int)) == Ok::<MarkerScan, ErrorView>(
                MarkerScan {
                    in_track,
                    in_list,
                    frame_rate: opt_view(frame_rate),
                    found,
                    done: false,
                },
            ),
            markers.len() == found.len(),
            forall|j: int|
                0 <= j < found.len() ==> marker_matches_found(#[trigger] markers@[j]@, found[j]),
        decreases tokens.len() - i,
    {
        let ghost st = MarkerScan {
            in_track,
            in_list,
            frame_rate: opt_view(frame_rate),
            found,
            done: false,
        };
        let t = &tokens[i];
        assert(tv.take(i + 1).drop_last() =~= tv.take(i as int));
        assert(tv.take(i + 1).last() == t@);
        assert(spec_scan_markers(tv.take(i + 1)) == marker_scan_step(st, t@));
        match t {
            XmlToken::Start { name, attributes } => {
                if str_eq(name.as_str(), "rdf:Description") {
                    let d = match read_desc_attrs(attributes) {
                        Ok(d) => d,
                        Err(m) => {
                            let e = invalid_xmp2("failed to decode xmp attribute: ", m.as_str());
                            proof {
                                lemma_scan_markers_settled(tv, i + 1);
                                assert(tv.take(tokens.len() as int) =~= tv);
                            }
                            return Err(e);
                        },
                    };
                    let ghost dv = d.spec_view();
                    let is_markers_track = match &d.track_name {
                        Some(tn) => str_eq(tn.as_str(), "Markers"),
                        None => false,
                    };
                    if is_markers_track {
                        in_track = true;
                        if d.frame_rate.is_some() {
                            frame_rate = d.frame_rate;
                        }
                    }
                    if in_list && d.start_time.is_some() {
                        let start_time = match d.start_time {
                            Some(v) => v,
                            None => String::new(),
                        };
                        match parse_u64(start_time.as_str()) {
                            Err(err) => {
                                let msg = err.message();
                                let e = invalid_xmp4(
                                    "invalid marker startTime '",
                                    start_time.as_str(),
                                    "': ",
                                    msg.as_str(),
                                );
                                proof {
                                    lemma_scan_markers_settled(tv, i + 1);
                                    assert(tv.take(tokens.len() as int) =~= tv);
                                }
                                return Err(e);
                            },
                            Ok(frame) => {
                                let guid = match d.guid {
                                    Some(g) => g,
                                    None => new_guid(),
                                };
                                let m = Marker {
                                    start_frame: frame,
                                    name: opt_words_or_none(d.name),
                                    comment: opt_words_or_none(d.comment),
                                    guid,
                                };
                                let ghost fm = FoundMarker {
                                    start_frame: frame,
                                    name: words_or_none(dv.name),
                                    comment: words_or_none(dv.comment),
                                    guid: dv.guid,
                                };
                                markers.push(m);
                                proof {
                                    found = found.push(fm);
                                    assert forall|j: int| 0 <= j < found.len() implies marker_matches_found(
                                        #[trigger] markers@[j]@,
                                        found[j],
                                    ) by {}
                                }
                            },
                        }
                    }
                } else if str_eq(name.as_str(), "xmpDM:markers") && in_track {
                    in_list = true;
                }
            },
            XmlToken::End { name } => {
                if str_eq(name.as_str(), "xmpDM:markers") {
                    in_list = false;
                } else if str_eq(name.as_str(), "rdf:Description") && in_track && !in_list {
                    in_track = false;
                }
            },
            XmlToken::Eof => {
                proof {
                    lemma_scan_markers_settled(tv, i + 1);
                    assert(tv.take(tokens.len() as int) =~= tv);
                }
                return Ok(ParsedMarkers { frame_rate, markers });
            },
            XmlToken::Invalid { position, message } => {
                let pos = crate::text::u64_to_decimal(*position);
                let e = invalid_xmp4(
                    "invalid xmp xml at position ",
                    pos.as_str(),
                    ": ",
                    message.as_str(),
                );
                proof {
                    lemma_scan_markers_settled(tv, i + 1);
                    assert(tv.take(tokens.len() as int) =~= tv);
                }
                return Err(e);
            },
            XmlToken::Other => {},
        }
        i = i + 1;
    }
    assert(tv.take(tokens.len() as int) =~= tv);
    Ok(ParsedMarkers { frame_rate, markers })
}


/// The token ends the document: its end or a syntax error.
pub open spec fn ends_document(t: XmlTokenView) -> bool {
    t is Eof || t is Invalid
}

/// The attribute at `i` of the opening tag that a reader at `at` reads, its value decoded
/// with the decoder of the reader after that event.
pub open spec fn attribute_at(at: XmlReaderView, i: int) -> XmlAttributeView {
    let a = XmlAttrAt { tag: at, index: i as nat };
    XmlAttributeView {
        key: xml_attribute_key(a),
        value: xml_attribute_value(a, XmlReaderView { events: at.events + 1, ..at }),
    }
}

/// The token that a reader standing at `at` reads.
pub open spec fn token_at(at: XmlReaderView) -> XmlTokenView {
    match xml_event(at) {
        XmlEventView::Start => XmlTokenView::Start {
            name: xml_start_name(at),
            attributes: Seq::new(xml_attribute_count(at), |i: int| attribute_at(at, i)),
        },
        XmlEventView::End(n) => XmlTokenView::End { name: n },
        XmlEventView::Eof => XmlTokenView::Eof,
        XmlEventView::Invalid { position, message } => XmlTokenView::Invalid { position, message },
        XmlEventView::Other => XmlTokenView::Other,
    }
}

/// The tokens of `text` (trimmed) from the `k`-th on, up to and including the end of the
/// document or the first syntax error, and at most `budget + 1` of them.
pub open spec fn tokens_from(text: Seq<char>, k: nat, budget: nat) -> Seq<XmlTokenView>
    decreases budget,
{
    let t = token_at(XmlReaderView { text, trimmed: true, events: k });
    if ends_document(t) || budget == 0 {
        seq![t]
    } else {
        seq![t] + tokens_from(text, k + 1, (budget - 1) as nat)
    }
}

/// The tokens of the XML document `text`, with whitespace around text trimmed: up to and
/// including its end or its first syntax error, and at most one more than it has characters.
pub open spec fn spec_xml_tokens(text: Seq<char>) -> Seq<XmlTokenView> {
    tokens_from(text, 0, text.len())
}

/// The token read by a reader at `at`, as owned values.
fn read_xml_token<'a>(reader: &mut XmlReader<'a>) -> (r: XmlToken)
    ensures
        final(reader)@ == (XmlReaderView { events: old(reader)@.events + 1, ..old(reader)@ }),
        r@ == token_at(old(reader)@),
{
    let ghost at = reader@;
    match read_xml_event(reader) {
        XmlEvent::Start(e) => {
            let name = start_tag_name(&e);
            let raw = start_tag_attributes(&e);
            let mut attributes: Vec<XmlAttribute> = Vec::new();
            let mut j: usize = 0;
            while j < raw.len()
                invariant
                    j <= raw.len(),
                    raw@.len() == xml_attribute_count(at),
                    forall|i: int| 0 <= i < raw@.len() ==> #[trigger] raw@[i]@ == (XmlAttrAt { tag: at, index: i as nat }),
                    reader@ == (XmlReaderView { events: at.events + 1, ..at }),
                    attributes@.len() == j,
                    forall|i: int| 0 <= i < j ==> #[trigger] attributes@[i]@ == attribute_at(at, i),
                decreases raw.len() - j,
            {
                let key = attribute_key(&raw[j]);
                let value = attribute_value(&raw[j], reader);
                attributes.push(XmlAttribute { key, value });
                proof {
                    assert(raw@[j as int]@ == (XmlAttrAt { tag: at, index: j as nat }));
                    assert(attributes@[j as int]@ == attribute_at(at, j as int));
                }
                j = j + 1;
            }
            let tok = XmlToken::Start { name, attributes };
            proof {
                assert(attributes@.map_values(|a: XmlAttribute| a@) =~= Seq::new(
                    xml_attribute_count(at),
                    |i: int| attribute_at(at, i),
                ));
            }
            tok
        },
        XmlEvent::End(name) => XmlToken::End { name },
        XmlEvent::Eof => XmlToken::Eof,
        XmlEvent::Invalid { position, message } => XmlToken::Invalid { position, message },
        XmlEvent::Other => XmlToken::Other,
    }
}

/// The tokens of the XML document `xml` (text trimmed), up to and including its end or its
/// first syntax error. Every event but the end of the document consumes at least one character
/// of input, so the document ends within `xml@.len() + 1` events; reading stops there.
pub fn read_xml_tokens(xml: &str) -> (r: Vec<XmlToken>)
    ensures
        tokens_view(r@) == spec_xml_tokens(xml@),
{
    let mut reader = open_reader(xml);
    trim_text(&mut reader);
    let mut tokens: Vec<XmlToken> = Vec::new();
    let mut budget: usize = str_chars(xml).len();
    assert(tokens_view(tokens@) + tokens_from(xml@, 0, budget as nat) =~= spec_xml_tokens(xml@));
    loop
        invariant
            reader@.text == xml@,
            reader@.trimmed,
            tokens_view(tokens@) + tokens_from(xml@, reader@.events, budget as nat)
                == spec_xml_tokens(xml@),
        decreases budget,
    {
        let ghost k = reader@.events;
        let ghost before = tokens_view(tokens@);
        let tok = read_xml_token(&mut reader);
        let stop = match &tok {
            XmlToken::Eof => true,
            XmlToken::Invalid { .. } => true,
            _ => false,
        };
        assert(stop == ends_document(tok@));
        tokens.push(tok);
        assert(tokens_view(tokens@) =~= before.push(tok@));
        let ghost t = token_at(XmlReaderView { text: xml@, trimmed: true, events: k });
        assert(tok@ == t);
        if stop || budget == 0 {
            assert(tokens_from(xml@, k, budget as nat) == seq![t]);
            assert(tokens_view(tokens@) =~= before + seq![t]);
            return tokens;
        }
        assert(tokens_from(xml@, k, budget as nat) == seq![t] + tokens_from(xml@, k + 1, (budget - 1) as nat));
        assert(before + (seq![t] + tokens_from(xml@, k + 1, (budget - 1) as nat)) =~= before.push(t) + tokens_from(xml@, k + 1, (budget - 1) as nat));
        budget = budget - 1;
    }
}

pub open spec fn missing_boundaries_error() -> ErrorView {
    ErrorView::InvalidXmp("XMP payload is missing required <x:xmpmeta> boundaries"@)
}

/// The document holds both `<x:xmpmeta` and `</x:xmpmeta>`.
pub open spec fn has_xmpmeta_boundaries(xml: Seq<char>) -> bool {
    spec_contains(xml, "<x:xmpmeta"@) && spec_contains(xml, "</x:xmpmeta>"@)
}

/// Reads the markers of an XMP packet. A packet without `<x:xmpmeta` and `</x:xmpmeta>` is
/// refused; otherwise the outcome is what [`scan_markers`] makes of the packet's tokens.
pub fn parse_markers(xmp_xml: &str) -> (r: Result<ParsedMarkers, MarkerFixerError>)
    ensures
        !has_xmpmeta_boundaries(xmp_xml@) ==> (r matches Err(e) && e@ == missing_boundaries_error()),
        has_xmpmeta_boundaries(xmp_xml@) ==> parse_outcome_matches(
            r,
            spec_scan_markers(spec_xml_tokens(xmp_xml@)),
        ),
{
    if !contains_str(xmp_xml, "<x:xmpmeta") || !contains_str(xmp_xml, "</x:xmpmeta>") {
        return Err(
            MarkerFixerError::InvalidXmp(
                "XMP payload is missing required <x:xmpmeta> boundaries".to_string(),
            ),
        );
    }
    let tokens = read_xml_tokens(xmp_xml);
    scan_markers(tokens.as_slice())
}


/// A merge is determined by the markers merged: two lists that are both a merge of the same
/// markers are the same list.
pub proof fn merge_is_determined(r1: Seq<MarkerView>, r2: Seq<MarkerView>, all: Seq<MarkerView>)
    requires
        is_merge_of(r1, all),
        is_merge_of(r2, all),
    ensures
        r1 == r2,
{
    lemma_merge_frames(r1, all);
    lemma_merge_frames(r2, all);
    lemma_sorted_same_frames_same_len(r1, r2);
    assert forall|i: int| 0 <= i < r1.len() implies r1[i] == r2[i] by {
        assert(r1[i].start_frame == r2[i].start_frame);
        assert(merged_at(all, r1[i].start_frame) == Some(r1[i]));
        assert(merged_at(all, r2[i].start_frame) == Some(r2[i]));
    }
    assert(r1 =~= r2);
}


proof fn lemma_merged_at_no_text(s: Seq<MarkerView>, k: u64)
    ensures
        merged_at(s, k) matches Some(c) && !view_has_text(c) ==> forall|j: int|
            0 <= j < s.len() && #[trigger] s[j].start_frame == k ==> !view_has_text(s[j]),
    decreases s.len(),
{
    if s.len() > 0 {
        let pre = s.drop_last();
        lemma_merged_at_no_text(pre, k);
        lemma_merged_at_some(pre, k);
        if let Some(c) = merged_at(s, k) {
            if !view_has_text(c) {
                assert forall|j: int| 0 <= j < s.len() && #[trigger] s[j].start_frame == k
                    implies !view_has_text(s[j]) by {
                    if j < s.len() - 1 {
                        assert(pre[j] == s[j]);
                        assert(has_frame(pre, k));
                    } else {
                        assert(s[j] == s.last());
                    }
                }
            }
        }
    }
}

proof fn lemma_merged_at_extend(s: Seq<MarkerView>, t: Seq<MarkerView>, k: u64, c: MarkerView)
    requires
        merged_at(s, k) == Some(c),
        view_has_text(c) || forall|j: int|
            0 <= j < t.len() && #[trigger] t[j].start_frame == k ==> !view_has_text(t[j]),
    ensures
        merged_at(s + t, k) == Some(c),
    decreases t.len(),
{
    if t.len() == 0 {
        assert(s + t =~= s);
    } else {
        let t2 = t.drop_last();
        assert forall|j: int| 0 <= j < t2.len() && #[trigger] t2[j].start_frame == k
            implies view_has_text(c) || !view_has_text(t2[j]) by {
            assert(t2[j] == t[j]);
        }
        lemma_merged_at_extend(s, t2, k, c);
        assert((s + t).drop_last() =~= s + t2);
        assert((s + t).last() == t[t.len() - 1]);
    }
}

proof fn lemma_merged_at_sorted(r: Seq<MarkerView>, j: int)
    requires
        strictly_sorted(r),
        0 <= j < r.len(),
    ensures
        merged_at(r, r[j].start_frame) == Some(r[j]),
{
    if view_has_text(r[j]) {
        merge_keeps_first_marker_with_text(r, j);
    } else {
        assert forall|i: int| 0 <= i < r.len() && #[trigger] r[i].start_frame == r[j].start_frame
            implies !view_has_text(r[i]) by {
            if i < j {
                assert(r[i].start_frame < r[j].start_frame);
            } else if i > j {
                assert(r[j].start_frame < r[i].start_frame);
            }
        }
        merge_keeps_first_marker_without_text(r, j);
    }
}

/// Merging the same incoming markers a second time changes nothing: the merge of a merge
/// with the markers it took in is that merge.
pub proof fn remerge_changes_nothing(
    existing: Seq<MarkerView>,
    incoming: Seq<MarkerView>,
    merged: Seq<MarkerView>,
    remerged: Seq<MarkerView>,
)
    requires
        is_merge_of(merged, existing + incoming),
        is_merge_of(remerged, merged + incoming),
    ensures
        remerged == merged,
{
    let all = existing + incoming;
    assert forall|i: int| 0 <= i < merged.len() implies merged_at(
        merged + incoming,
        #[trigger] merged[i].start_frame,
    ) == Some(merged[i]) by {
        let k = merged[i].start_frame;
        let c = merged[i];
        lemma_merged_at_sorted(merged, i);
        if !view_has_text(c) {
            lemma_merged_at_no_text(all, k);
            assert forall|j: int| 0 <= j < incoming.len() && #[trigger] incoming[j].start_frame
                == k implies !view_has_text(incoming[j]) by {
                assert(all[existing.len() + j] == incoming[j]);
            }
        }
        lemma_merged_at_extend(merged, incoming, k, c);
    }
    assert forall|k: u64| has_frame(merged + incoming, k) implies has_frame(merged, k) by {
        let mi = merged + incoming;
        let j = choose|j: int| 0 <= j < mi.len() && mi[j].start_frame == k;
        if j < merged.len() {
            assert(mi[j] == merged[j]);
        } else {
            assert(mi[j] == incoming[j - merged.len()]);
            assert(all[existing.len() + j - merged.len()] == incoming[j - merged.len()]);
            assert(has_frame(all, k));
        }
    }
    assert(is_merge_of(merged, merged + incoming));
    merge_is_determined(remerged, merged, merged + incoming);
}


proof fn lemma_markers_xml_concat(a: Seq<MarkerView>, b: Seq<MarkerView>)
    ensures
        markers_xml(a + b) == markers_xml(a) + markers_xml(b),
    decreases b.len(),
{
    if b.len() == 0 {
        assert(a + b =~= a);
        assert(markers_xml(a) + markers_xml(b) =~= markers_xml(a));
    } else {
        lemma_markers_xml_concat(a, b.drop_last());
        assert((a + b).drop_last() =~= a + b.drop_last());
        assert((a + b).last() == b.last());
        assert(markers_xml(a) + markers_xml(b) =~= markers_xml(a) + markers_xml(b.drop_last())
            + marker_xml(b.last()));
    }
}

proof fn lemma_occurs_in_parts(
    a: Seq<char>,
    b: Seq<char>,
    p: Seq<char>,
    n: Seq<char>,
    q: Seq<char>,
    c: Seq<char>,
)
    ensures
        spec_contains(a + b + (p + n + q) + c, n),
{
    let g = a + b + (p + n + q) + c;
    let at = a.len() + b.len() + p.len();
    assert(g =~= (a + b + p) + n + (q + c));
    assert(g.subrange(at as int, (at + n.len()) as int) =~= n);
    assert(occurs_at(g, n, at as int));
}

/// The packet is the marker's element with the text around it.
proof fn lemma_packet_around_marker(frame_rate: Seq<char>, ms: Seq<MarkerView>, i: int)
    requires
        0 <= i < ms.len(),
    ensures
        spec_generate_xmp(frame_rate, ms) == xmp_head(frame_rate) + markers_xml(ms.take(i))
            + marker_xml(ms[i]) + (markers_xml(ms.skip(i + 1)) + xmp_tail()),
{
    let one = seq![ms[i]];
    assert(ms =~= ms.take(i) + (one + ms.skip(i + 1)));
    lemma_markers_xml_concat(ms.take(i), one + ms.skip(i + 1));
    lemma_markers_xml_concat(one, ms.skip(i + 1));
    assert(one.drop_last() =~= Seq::<MarkerView>::empty());
    assert(one.last() == ms[i]);
    assert(markers_xml(one.drop_last()) =~= Seq::<char>::empty());
    assert(markers_xml(one) =~= marker_xml(ms[i]));
}

/// The start of a marker's element, up to its identifier attribute.
pub open spec fn marker_open(m: MarkerView) -> Seq<char> {
    "         <rdf:li>\n"@ + "          <rdf:Description xmpDM:startTime=\""@ + spec_decimal(
        m.start_frame as nat,
    ) + "\" xmpDM:type=\"Comment\" xmpDM:guid=\""@ + spec_escape(m.guid) + "\""@
}

proof fn lemma_marker_parts(m: MarkerView)
    ensures
        marker_xml(m) == marker_open(m) + optional_attr("xmpDM:name"@, m.name) + (optional_attr(
            "xmpDM:comment"@,
            m.comment,
        ) + ("/>\n"@ + "         </rdf:li>\n"@)),
{
    assert(marker_xml(m) =~= marker_open(m) + optional_attr("xmpDM:name"@, m.name) + (
    optional_attr("xmpDM:comment"@, m.comment) + ("/>\n"@ + "         </rdf:li>\n"@)));
}

proof fn lemma_name_attr(v: Option<Seq<char>>)
    requires
        has_words(v),
    ensures
        optional_attr("xmpDM:name"@, v) == " xmpDM:name=\""@ + spec_escape(v->Some_0) + "\""@,
{
    reveal_strlit(" ");
    reveal_strlit("xmpDM:name");
    reveal_strlit("=\"");
    reveal_strlit(" xmpDM:name=\"");
    assert(" "@ + "xmpDM:name"@ + "=\""@ =~= " xmpDM:name=\""@);
}

proof fn lemma_comment_attr(v: Option<Seq<char>>)
    requires
        has_words(v),
    ensures
        optional_attr("xmpDM:comment"@, v) == " xmpDM:comment=\""@ + spec_escape(v->Some_0)
            + "\""@,
{
    reveal_strlit(" ");
    reveal_strlit("xmpDM:comment");
    reveal_strlit("=\"");
    reveal_strlit(" xmpDM:comment=\"");
    assert(" "@ + "xmpDM:comment"@ + "=\""@ =~= " xmpDM:comment=\""@);
}

/// The generated packet keeps the text of every marker: for each marker whose name is not
/// blank it holds ` xmpDM:name="` with the escaped name, and for each marker whose comment is
/// not blank ` xmpDM:comment="` with the escaped comment.
pub proof fn generated_packet_keeps_marker_text(frame_rate: Seq<char>, ms: Seq<MarkerView>, i: int)
    requires
        0 <= i < ms.len(),
    ensures
        has_words(ms[i].name) ==> spec_contains(
            spec_generate_xmp(frame_rate, ms),
            " xmpDM:name=\""@ + spec_escape(ms[i].name->Some_0) + "\""@,
        ),
        has_words(ms[i].comment) ==> spec_contains(
            spec_generate_xmp(frame_rate, ms),
            " xmpDM:comment=\""@ + spec_escape(ms[i].comment->Some_0) + "\""@,
        ),
{
    let m = ms[i];
    lemma_packet_around_marker(frame_rate, ms, i);
    lemma_marker_parts(m);
    let a = xmp_head(frame_rate);
    let b = markers_xml(ms.take(i));
    let c = markers_xml(ms.skip(i + 1)) + xmp_tail();
    let na = optional_attr("xmpDM:name"@, m.name);
    let ca = optional_attr("xmpDM:comment"@, m.comment);
    let close = "/>\n"@ + "         </rdf:li>\n"@;
    if has_words(m.name) {
        lemma_name_attr(m.name);
        lemma_occurs_in_parts(a, b, marker_open(m), na, ca + close, c);
    }
    if has_words(m.comment) {
        lemma_comment_attr(m.comment);
        lemma_occurs_in_parts(a, b, marker_open(m) + na, ca, close, c);
        assert(marker_open(m) + na + (ca + close) =~= (marker_open(m) + na) + ca + close);
    }
}


/// The token opens the marker track: an `rdf:Description` whose attributes read and whose
/// track name is `Markers`.
pub open spec fn opens_marker_track(t: XmlTokenView) -> bool {
    t matches XmlTokenView::Start { name, attributes } && name == "rdf:Description"@ && (
    read_description_attrs(attributes) matches Ok(d) && d.track_name == Some("Markers"@))
}

/// The token opens a marker list.
pub open spec fn opens_marker_list(t: XmlTokenView) -> bool {
    t matches XmlTokenView::Start { name, .. } && name == "xmpDM:markers"@
}

/// The token closes a marker list.
pub open spec fn closes_marker_list(t: XmlTokenView) -> bool {
    t matches XmlTokenView::End { name } && name == "xmpDM:markers"@
}

/// The token is the `rdf:Description` of a marker whose start time is `frame`.
pub open spec fn describes_marker_at(t: XmlTokenView, frame: u64) -> bool {
    t matches XmlTokenView::Start { name, attributes } && name == "rdf:Description"@ && (
    read_description_attrs(attributes) matches Ok(d) && d.start_time matches Some(s)
        && spec_parse_u64(s) == Ok::<u64, IntParseError>(frame))
}

/// Some token before the `n`-th opens the marker track.
pub open spec fn track_opened_before(ts: Seq<XmlTokenView>, n: int) -> bool {
    exists|h: int| 0 <= h < n && opens_marker_track(#[trigger] ts[h])
}

/// A marker list opens at token `i`, after the marker track opened, and no token after it
/// and before the `j`-th closes it.
pub open spec fn list_open_between(ts: Seq<XmlTokenView>, i: int, j: int) -> bool {
    &&& 0 <= i < j <= ts.len()
    &&& opens_marker_list(ts[i])
    &&& forall|k: int| i < k < j ==> !closes_marker_list(#[trigger] ts[k])
    &&& track_opened_before(ts, i)
}

/// Some token describes a marker at `frame` inside a marker list of the marker track.
pub open spec fn marker_in_track_list(ts: Seq<XmlTokenView>, frame: u64) -> bool {
    exists|i: int, j: int|
        #![trigger list_open_between(ts, i, j), ts[j]]
        list_open_between(ts, i, j) && j < ts.len() && describes_marker_at(ts[j], frame)
}

pub open spec fn scan_provenance(ts: Seq<XmlTokenView>) -> bool {
    match spec_scan_markers(ts) {
        Err(_) => true,
        Ok(st) => {
            &&& st.in_track ==> track_opened_before(ts, ts.len() as int)
            &&& (st.in_list && !st.done) ==> exists|i: int|
                list_open_between(ts, i, ts.len() as int)
            &&& forall|m: int|
                0 <= m < st.found.len() ==> marker_in_track_list(
                    ts,
                    #[trigger] st.found[m].start_frame,
                )
        },
    }
}

proof fn lemma_track_extends(pre: Seq<XmlTokenView>, ts: Seq<XmlTokenView>, n: int)
    requires
        pre == ts.drop_last(),
        ts.len() > 0,
        0 <= n <= pre.len(),
        track_opened_before(pre, n),
    ensures
        track_opened_before(ts, n),
{
    let h = choose|h: int| 0 <= h < n && opens_marker_track(#[trigger] pre[h]);
    assert(ts[h] == pre[h]);
}

proof fn lemma_list_extends(pre: Seq<XmlTokenView>, ts: Seq<XmlTokenView>, i: int, j: int)
    requires
        pre == ts.drop_last(),
        ts.len() > 0,
        list_open_between(pre, i, j),
    ensures
        list_open_between(ts, i, j),
{
    lemma_track_extends(pre, ts, i);
    assert(ts[i] == pre[i]);
    assert forall|k: int| i < k < j implies !closes_marker_list(#[trigger] ts[k]) by {
        assert(ts[k] == pre[k]);
    }
}

proof fn lemma_found_extends(pre: Seq<XmlTokenView>, ts: Seq<XmlTokenView>, frame: u64)
    requires
        pre == ts.drop_last(),
        ts.len() > 0,
        marker_in_track_list(pre, frame),
    ensures
        marker_in_track_list(ts, frame),
{
    let (i, j) = choose|i: int, j: int|
        #![trigger list_open_between(pre, i, j), pre[j]]
        list_open_between(pre, i, j) && j < pre.len() && describes_marker_at(pre[j], frame);
    lemma_list_extends(pre, ts, i, j);
    assert(ts[j] == pre[j]);
}

proof fn lemma_scan_provenance(ts: Seq<XmlTokenView>)
    ensures
        scan_provenance(ts),
    decreases ts.len(),
{
    if ts.len() > 0 {
        let pre = ts.drop_last();
        let n = pre.len() as int;
        let t = ts.last();
        assert(ts[n] == t);
        lemma_scan_provenance(pre);
        if let Ok(st) = spec_scan_markers(pre) {
            if st.in_track {
                lemma_track_extends(pre, ts, n);
            }
            let open_i = choose|i: int| list_open_between(pre, i, n);
            if st.in_list && !st.done {
                lemma_list_extends(pre, ts, open_i, n);
            }
            assert forall|m: int| 0 <= m < st.found.len() implies marker_in_track_list(
                ts,
                #[trigger] st.found[m].start_frame,
            ) by {
                lemma_found_extends(pre, ts, st.found[m].start_frame);
            }
            if !st.done {
                if let Ok(st2) = marker_scan_step(st, t) {
                    assert(spec_scan_markers(ts) == Ok::<MarkerScan, ErrorView>(st2));
                    // what stays open after this token
                    if st2.in_track && !st.in_track {
                        assert(opens_marker_track(ts[n]));
                    }
                    if st2.in_list && !st2.done {
                        if st.in_list {
                            assert(!closes_marker_list(ts[n]));
                            assert(list_open_between(ts, open_i, n + 1));
                        } else {
                            assert(opens_marker_list(ts[n]));
                            assert(list_open_between(ts, n, n + 1));
                        }
                    }
                    if st2.found.len() > st.found.len() {
                        assert(st2.found.len() == st.found.len() + 1);
                        let frame = st2.found[st.found.len() as int].start_frame;
                        assert(describes_marker_at(ts[n], frame));
                        assert(list_open_between(ts, open_i, n));
                        assert(marker_in_track_list(ts, frame));
                        assert forall|m: int| 0 <= m < st2.found.len() implies marker_in_track_list(
                            ts,
                            #[trigger] st2.found[m].start_frame,
                        ) by {
                            if m < st.found.len() {
                                assert(st2.found[m] == st.found[m]);
                            }
                        }
                    } else {
                        assert(st2.found == st.found);
                    }
                }
            } else {
                assert(spec_scan_markers(ts) == Ok::<MarkerScan, ErrorView>(st));
            }
        }
    }
}

/// Every marker that reading a packet's tokens finds lies in a marker list of the marker
/// track: some token before it opens an `xmpDM:markers` list, no token between them closes
/// that list, and before the list some `rdf:Description` with the track name `Markers` opened.
/// A marker list under a track of another name gives no marker.
pub proof fn markers_come_from_the_marker_track(ts: Seq<XmlTokenView>)
    ensures
        spec_scan_markers(ts) matches Ok(st) ==> forall|m: int|
            0 <= m < st.found.len() ==> marker_in_track_list(ts, #[trigger] st.found[m].start_frame),
{
    lemma_scan_provenance(ts);
}

} // verus!
