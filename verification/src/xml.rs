//! Pull-reading an XML document with `quick_xml`.
//!
//! A reader over a text yields its events one after the other. What the `k`-th event of a
//! text is (with or without text trimming), and the name and attributes of an opening tag
//! read there, depend on that text alone, so they are named below and the wrappers equate
//! what they hand over with those names. The reader keeps, as ghost state, its text, whether
//! it trims text and how many events it has read; each opening tag and attribute it hands out
//! keeps where it was read.
use vstd::prelude::*;

use quick_xml::events::attributes::Attribute;
use quick_xml::events::{BytesStart, Event};
use quick_xml::reader::Reader;

verus! {

#[verifier::external_type_specification]
#[verifier::external_body]
#[verifier::reject_recursive_types(R)]
pub struct ExReader<R>(Reader<R>);

#[verifier::external_type_specification]
#[verifier::external_body]
pub struct ExBytesStart<'a>(BytesStart<'a>);

#[verifier::external_type_specification]
#[verifier::external_body]
pub struct ExAttribute<'a>(Attribute<'a>);

/// Where a reader stands: its text, whether whitespace around text is trimmed, and how many
/// events it has read.
pub struct XmlReaderView {
    pub text: Seq<char>,
    pub trimmed: bool,
    pub events: nat,
}

/// The attribute at `index` (among those that parse, in order) of the opening tag read by a
/// reader that stood at `tag`.
pub struct XmlAttrAt {
    pub tag: XmlReaderView,
    pub index: nat,
}

/// An event, without the content of an opening tag: an opening tag, a closing tag with its
/// name, the end of the document, a syntax error with the position and message, or anything
/// else.
pub enum XmlEventView {
    Start,
    End(Seq<char>),
    Eof,
    Invalid { position: u64, message: Seq<char> },
    Other,
}

/// `Reader::read_event`: the event that a reader standing at `at` reads next.
pub uninterp spec fn xml_event(at: XmlReaderView) -> XmlEventView;

/// `BytesStart::name`: the qualified name of the opening tag read by a reader at `tag`.
pub uninterp spec fn xml_start_name(tag: XmlReaderView) -> Seq<char>;

/// `BytesStart::attributes` without the attributes that do not parse: how many there are.
pub uninterp spec fn xml_attribute_count(tag: XmlReaderView) -> nat;

/// `Attribute::key`: the key of an attribute.
pub uninterp spec fn xml_attribute_key(attr: XmlAttrAt) -> Seq<char>;

/// `Attribute::decode_and_unescape_value` with the decoder of a reader at `reader`: the value
/// with its entities resolved, or the message of the error that stopped it.
pub uninterp spec fn xml_attribute_value(attr: XmlAttrAt, reader: XmlReaderView) -> Result<
    Seq<char>,
    Seq<char>,
>;

/// A `quick_xml` reader over a text.
pub struct XmlReader<'a> {
    reader: Reader<&'a [u8]>,
    at: Ghost<XmlReaderView>,
}

impl<'a> View for XmlReader<'a> {
    type V = XmlReaderView;

    closed spec fn view(&self) -> XmlReaderView {
        self.at@
    }
}

/// An opening tag, with where its reader stood when it read it.
pub struct StartTag<'a> {
    tag: BytesStart<'a>,
    at: Ghost<XmlReaderView>,
}

impl<'a> View for StartTag<'a> {
    type V = XmlReaderView;

    closed spec fn view(&self) -> XmlReaderView {
        self.at@
    }
}

/// An attribute of an opening tag, with where it was read.
pub struct TagAttribute<'b> {
    attr: Attribute<'b>,
    at: Ghost<XmlAttrAt>,
}

impl<'b> View for TagAttribute<'b> {
    type V = XmlAttrAt;

    closed spec fn view(&self) -> XmlAttrAt {
        self.at@
    }
}

/// One event of the reader: an opening tag, a closing tag with its name, the end of the
/// document, a syntax error with the reader's position and message, or anything else.
pub enum XmlEvent<'a> {
    Start(StartTag<'a>),
    End(String),
    Eof,
    Invalid { position: u64, message: String },
    Other,
}

impl<'a> XmlEvent<'a> {
    pub open spec fn kind(&self) -> XmlEventView {
        match self {
            XmlEvent::Start(_) => XmlEventView::Start,
            XmlEvent::End(n) => XmlEventView::End(n@),
            XmlEvent::Eof => XmlEventView::Eof,
            XmlEvent::Invalid { position, message } => XmlEventView::Invalid {
                position: *position,
                message: message@,
            },
            XmlEvent::Other => XmlEventView::Other,
        }
    }
}

/// `Reader::from_str`: a reader over the document `xml` that has read nothing yet.
#[verifier::external_body]
pub(crate) fn open_reader<'a>(xml: &'a str) -> (r: XmlReader<'a>)
    ensures
        r@ == (XmlReaderView { text: xml@, trimmed: false, events: 0 }),
{
    XmlReader {
        reader: Reader::from_str(xml),
        at: Ghost(XmlReaderView { text: xml@, trimmed: false, events: 0 }),
    }
}

/// `Config::trim_text(true)` on the reader's configuration, before it reads: whitespace
/// around text is dropped, and text that is only whitespace yields no event.
#[verifier::external_body]
pub(crate) fn trim_text(reader: &mut XmlReader)
    requires
        old(reader)@.events == 0,
    ensures
        final(reader)@ == (XmlReaderView { trimmed: true, ..old(reader)@ }),
{
    reader.reader.config_mut().trim_text(true);
    reader.at = Ghost(XmlReaderView { trimmed: true, ..reader.at@ });
}

/// `Reader::read_event`: the next event of the document. An opening tag keeps where the
/// reader stood when it read it.
#[verifier::external_body]
pub(crate) fn read_xml_event<'a>(reader: &mut XmlReader<'a>) -> (r: XmlEvent<'a>)
    ensures
        final(reader)@ == (XmlReaderView { events: old(reader)@.events + 1, ..old(reader)@ }),
        r.kind() == xml_event(old(reader)@),
        r matches XmlEvent::Start(t) ==> t@ == old(reader)@,
{
    let at = Ghost(reader.at@);
    reader.at = Ghost(XmlReaderView { events: reader.at@.events + 1, ..reader.at@ });
    match reader.reader.read_event() {
        Ok(Event::Start(e)) => XmlEvent::Start(StartTag { tag: e, at }),
        Ok(Event::End(e)) => XmlEvent::End(String::from_utf8_lossy(e.name().as_ref()).into_owned()),
        Ok(Event::Eof) => XmlEvent::Eof,
        Ok(_) => XmlEvent::Other,
        Err(err) => XmlEvent::Invalid { position: reader.reader.buffer_position(), message: err.to_string() },
    }
}

/// `BytesStart::name`: the qualified name of an opening tag.
#[verifier::external_body]
pub(crate) fn start_tag_name(t: &StartTag) -> (r: String)
    ensures
        r@ == xml_start_name(t@),
{
    String::from_utf8_lossy(t.tag.name().as_ref()).into_owned()
}

/// `BytesStart::attributes`: the attributes of an opening tag, in order, without those that
/// do not parse (as `Iterator::flatten` drops them), each with its place.
#[verifier::external_body]
pub(crate) fn start_tag_attributes<'b>(t: &'b StartTag) -> (r: Vec<TagAttribute<'b>>)
    ensures
        r@.len() == xml_attribute_count(t@),
        forall|i: int| 0 <= i < r@.len() ==> #[trigger] r@[i]@ == (XmlAttrAt { tag: t@, index: i as nat }),
{
    t.tag.attributes().flatten().enumerate().map(|(i, attr)| TagAttribute { attr, at: Ghost(XmlAttrAt { tag: t.at@, index: i as nat }) }).collect()
}

/// The key of an attribute (`Attribute::key`).
#[verifier::external_body]
pub(crate) fn attribute_key(a: &TagAttribute) -> (r: String)
    ensures
        r@ == xml_attribute_key(a@),
{
    String::from_utf8_lossy(a.attr.key.as_ref()).into_owned()
}

/// `Attribute::decode_and_unescape_value` with the reader's decoder: the value with its
/// entities resolved, or the message of the error that stopped it.
#[verifier::external_body]
pub(crate) fn attribute_value(a: &TagAttribute, reader: &XmlReader) -> (r: Result<String, String>)
    ensures
        match r {
            Ok(v) => xml_attribute_value(a@, reader@) == Ok::<Seq<char>, Seq<char>>(v@),
            Err(m) => xml_attribute_value(a@, reader@) == Err::<Seq<char>, Seq<char>>(m@),
        },
{
    a.attr.decode_and_unescape_value(reader.reader.decoder()).map(|v| v.into_owned()).map_err(|e| e.to_string())
}

} // verus!
