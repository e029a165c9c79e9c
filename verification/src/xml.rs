//! The XML event stream that the extractors read, as plain values.
//!
//! Tokenising XML is the work of `quick-xml`. Its events are turned here into
//! the library's own `XmlEvent` values, which hold only bytes and strings, so
//! that the extraction logic can be stated and proved over them.

use vstd::prelude::*;
use vstd::string::StringSliceAdditionalSpecFns;
use vstd::utf8::{decode_utf8, valid_utf8};
use quick_xml::events::BytesStart;
use quick_xml::events::Event::{Empty, End, Eof, Start, Text};
use quick_xml::Reader;

verus! {

/// An attribute as its raw key and its raw (still escaped) value.
pub type RawAttribute = (Vec<u8>, Vec<u8>);

/// An opening or self-closing tag: its raw qualified name and the attributes
/// that parse, in document order (one that `quick-xml` cannot parse is left
/// out, and the attributes after it are still read).
#[derive(Debug)]
pub struct XmlTag {
    pub name: Vec<u8>,
    pub attributes: Vec<RawAttribute>,
}

/// One event of the XML reader.
#[derive(Debug)]
pub enum XmlEvent {
    /// `<tag ...>`
    Start(XmlTag),
    /// `<tag .../>`
    Empty(XmlTag),
    /// `</tag>`, with the raw qualified name.
    End(Vec<u8>),
    /// Character data; the unescaped text, or `None` when unescaping failed.
    Text(Option<String>),
    /// End of the document.
    Eof,
    /// A syntax error, with the reader's message.
    Error(String),
    /// Anything else (comments, CDATA, declarations, ...).
    Other,
}

/// The mathematical value of an `XmlTag`.
pub struct XmlTagView {
    pub name: Seq<u8>,
    pub attributes: Seq<(Seq<u8>, Seq<u8>)>,
}

/// The mathematical value of an `XmlEvent`.
pub enum XmlEventView {
    Start(XmlTagView),
    Empty(XmlTagView),
    End(Seq<u8>),
    Text(Option<Seq<char>>),
    Eof,
    Error(Seq<char>),
    Other,
}

pub open spec fn attribute_view(a: RawAttribute) -> (Seq<u8>, Seq<u8>) {
    (a.0@, a.1@)
}

impl View for XmlTag {
    type V = XmlTagView;

    open spec fn view(&self) -> XmlTagView {
        XmlTagView {
            name: self.name@,
            attributes: self.attributes@.map_values(|a: RawAttribute| attribute_view(a)),
        }
    }
}

impl View for XmlEvent {
    type V = XmlEventView;

    open spec fn view(&self) -> XmlEventView {
        match self {
            XmlEvent::Start(t) => XmlEventView::Start(t@),
            XmlEvent::Empty(t) => XmlEventView::Empty(t@),
            XmlEvent::End(n) => XmlEventView::End(n@),
            XmlEvent::Text(t) => XmlEventView::Text(
                match t {
                    Some(s) => Some(s@),
                    None => None,
                },
            ),
            XmlEvent::Eof => XmlEventView::Eof,
            XmlEvent::Error(m) => XmlEventView::Error(m@),
            XmlEvent::Other => XmlEventView::Other,
        }
    }
}

/// The values of a sequence of events.
pub open spec fn events_view(events: Seq<XmlEvent>) -> Seq<XmlEventView> {
    events.map_values(|e: XmlEvent| e@)
}

/// An event that ends the reading: the end of the document or an error.
pub open spec fn is_stop(e: XmlEventView) -> bool {
    e is Eof || e is Error
}

/// `k` is where reading stops: no stop before `k`, and either a stop at `k`
/// or `k` is the end of the sequence.
pub open spec fn stops_at(events: Seq<XmlEventView>, k: int) -> bool {
    &&& 0 <= k <= events.len()
    &&& forall|j: int| 0 <= j < k ==> !is_stop(#[trigger] events[j])
    &&& k < events.len() ==> is_stop(events[k])
}

/// The position of the first stop, or the length when there is none.
pub open spec fn stop_index(events: Seq<XmlEventView>) -> int {
    choose|k: int| stops_at(events, k)
}

/// The events that are processed: those before the first stop.
pub open spec fn before_stop(events: Seq<XmlEventView>) -> Seq<XmlEventView> {
    events.take(stop_index(events))
}

/// The message of the error that ends the reading, if an error ends it.
pub open spec fn stop_error(events: Seq<XmlEventView>) -> Option<Seq<char>> {
    let k = stop_index(events);
    if 0 <= k < events.len() && events[k] is Error {
        Some(events[k]->Error_0)
    } else {
        None
    }
}

/// A complete stream: it ends with its first and only stop.
pub open spec fn is_event_stream(events: Seq<XmlEventView>) -> bool {
    &&& events.len() > 0
    &&& is_stop(events.last())
    &&& forall|j: int| 0 <= j < events.len() - 1 ==> !is_stop(#[trigger] events[j])
}

/// There is exactly one place where reading stops.
pub proof fn lemma_stop_index(events: Seq<XmlEventView>, k: int)
    requires
        stops_at(events, k),
    ensures
        stop_index(events) == k,
{
    let c = stop_index(events);
    assert(stops_at(events, c));
    if c < k {
        assert(!is_stop(events[c]));
    } else if k < c {
        assert(!is_stop(events[k]));
    }
}

/// Every sequence of events has a place where reading stops.
pub proof fn lemma_stop_index_exists(events: Seq<XmlEventView>)
    ensures
        stops_at(events, stop_index(events)),
    decreases events.len(),
{
    if events.len() == 0 {
        lemma_stop_index(events, 0);
    } else if is_stop(events[0]) {
        lemma_stop_index(events, 0);
    } else {
        let rest = events.drop_first();
        lemma_stop_index_exists(rest);
        let k = stop_index(rest);
        assert forall|j: int| 0 <= j < k + 1 implies !is_stop(#[trigger] events[j]) by {
            if j > 0 {
                assert(events[j] == rest[j - 1]);
            }
        }
        if k < rest.len() {
            assert(events[k + 1] == rest[k]);
        }
        lemma_stop_index(events, k + 1);
    }
}

/// The events that `quick-xml` yields for the document `xml`, with text
/// trimming on or off, up to and including the first end of document or error.
pub uninterp spec fn xml_events(xml: Seq<char>, trim_text: bool) -> Seq<XmlEventView>;

/// The events that a reader has still to yield, up to and including the first
/// end of document or error. Once it has yielded that stop, the reader goes on
/// answering (the end of the document again, or more events after an error
/// about well-formedness); what it yields then is not described here.
pub uninterp spec fn pending_events(reader: Reader<&[u8]>) -> Seq<XmlEventView>;

#[verifier::external_type_specification]
#[verifier::external_body]
#[verifier::reject_recursive_types(R)]
pub struct ExXmlReader<R>(Reader<R>);

/// Opens a `quick-xml` reader over `xml`.
///
/// Trusted: calls `Reader::from_str` and `Config::trim_text` of `quick-xml`.
/// The contract claims that the reader yields the events named by
/// `xml_events(xml, trim_text)`, a function of the two arguments alone, and
/// that these events come to an end of document or an error after finitely
/// many steps (the reader consumes its finite input as it goes).
#[verifier::external_body]
fn open_xml_reader(xml: &str, trim_text: bool) -> (reader: Reader<&[u8]>)
    ensures
        pending_events(reader) == xml_events(xml@, trim_text),
        is_event_stream(pending_events(reader)),
{
    let mut reader = Reader::from_str(xml);
    reader.config_mut().trim_text(trim_text);
    reader
}

/// Reads the next event and converts it into plain values.
///
/// Trusted: calls `Reader::read_event_into`, then, to convert the event,
/// `BytesStart::name`, `BytesStart::attributes`, the name bytes of `BytesEnd` and
/// `BytesText::unescape`. The contract claims that the event is the first of
/// the reader's pending events and, when it is not a stop, that the reader
/// moves past it. What the reader holds after a stop is left unsaid.
#[verifier::external_body]
fn next_xml_event(reader: &mut Reader<&[u8]>) -> (event: XmlEvent)
    requires
        pending_events(*old(reader)).len() > 0,
    ensures
        event@ == pending_events(*old(reader))[0],
        !is_stop(pending_events(*old(reader))[0]) ==> pending_events(*final(reader))
            == pending_events(*old(reader)).drop_first(),
{
    let tag = |e: BytesStart| XmlTag {
        name: e.name().0.to_vec(),
        attributes: e.attributes().flatten().map(|a| (a.key.0.to_vec(), a.value.to_vec())).collect(),
    };
    match reader.read_event_into(&mut vec![]) {
        Ok(Start(e)) => XmlEvent::Start(tag(e)),
        Ok(Empty(e)) => XmlEvent::Empty(tag(e)),
        Ok(End(e)) => XmlEvent::End(e.to_vec()),
        Ok(Text(e)) => XmlEvent::Text(e.unescape().ok().map(String::from)),
        Ok(Eof) => XmlEvent::Eof,
        Err(e) => XmlEvent::Error(e.to_string()),
        _ => XmlEvent::Other,
    }
}

impl XmlEvent {
    /// Whether the event ends the reading.
    pub fn is_stop(&self) -> (b: bool)
        ensures
            b == is_stop(self@),
    {
        match self {
            XmlEvent::Eof | XmlEvent::Error(_) => true,
            _ => false,
        }
    }
}

/// Reads every event of `xml`, up to and including the first end of document
/// or error.
pub fn read_xml_events(xml: &str, trim_text: bool) -> (events: Vec<XmlEvent>)
    ensures
        events_view(events@) == xml_events(xml@, trim_text),
{
    let mut reader = open_xml_reader(xml, trim_text);
    let ghost all = pending_events(reader);
    let mut events: Vec<XmlEvent> = Vec::new();
    loop
        invariant_except_break
            events@.len() < all.len(),
            pending_events(reader) == all.skip(events@.len() as int),
            events_view(events@) == all.take(events@.len() as int),
        invariant
            is_event_stream(all),
            all == xml_events(xml@, trim_text),
        ensures
            events_view(events@) == all,
        decreases all.len() - events@.len(),
    {
        let ghost n = events@.len() as int;
        let event = next_xml_event(&mut reader);
        let stop = event.is_stop();
        events.push(event);
        assert(events_view(events@) =~= all.take(n + 1));
        if stop {
            assert(n == all.len() - 1);
            assert(events_view(events@) =~= all);
            break;
        }
        assert(n + 1 < all.len());
        assert(pending_events(reader) =~= all.skip(n + 1));
    }
    events
}

/// The text that `String::from_utf8_lossy` makes of `bytes`.
pub uninterp spec fn lossy_utf8(bytes: Seq<u8>) -> Seq<char>;

/// Decodes bytes as UTF-8, replacing invalid sequences.
///
/// Trusted: calls `String::from_utf8_lossy` of std. The contract claims that
/// the result is a function of the bytes alone and, as the documentation of
/// std says, that valid UTF-8 is decoded unchanged.
#[verifier::external_body]
fn utf8_lossy(bytes: &[u8]) -> (s: String)
    ensures
        s@ == lossy_utf8(bytes@),
        valid_utf8(bytes@) ==> s@ == decode_utf8(bytes@),
{
    String::from_utf8_lossy(bytes).into_owned()
}

/// The raw value of the first attribute at or after position `i` whose key
/// is `key`.
pub open spec fn find_attr_from(attrs: Seq<(Seq<u8>, Seq<u8>)>, key: Seq<u8>, i: int) -> Option<Seq<u8>>
    decreases attrs.len() - i,
{
    if i < 0 || i >= attrs.len() {
        None
    } else if attrs[i].0 == key {
        Some(attrs[i].1)
    } else {
        find_attr_from(attrs, key, i + 1)
    }
}

/// The value of attribute `key` of a tag: the first attribute with that key,
/// its raw value decoded lossily as UTF-8.
pub open spec fn tag_attr(tag: XmlTagView, key: Seq<u8>) -> Option<Seq<char>> {
    match find_attr_from(tag.attributes, key, 0) {
        Some(v) => Some(lossy_utf8(v)),
        None => None,
    }
}

/// The view of an optional string.
pub open spec fn opt_view(s: Option<String>) -> Option<Seq<char>> {
    match s {
        Some(t) => Some(t@),
        None => None,
    }
}

/// Whether two byte strings are equal.
pub fn bytes_eq(a: &[u8], b: &[u8]) -> (r: bool)
    ensures
        r == (a@ == b@),
{
    if a.len() != b.len() {
        return false;
    }
    let mut i: usize = 0;
    while i < a.len()
        invariant
            a@.len() == b@.len(),
            i <= a@.len(),
            forall|j: int| 0 <= j < i ==> a@[j] == b@[j],
        decreases a.len() - i,
    {
        if a[i] != b[i] {
            return false;
        }
        i = i + 1;
    }
    assert(a@ =~= b@);
    true
}

/// The value of the attribute `name` of `tag`, if it has one: the first
/// attribute with that key, decoded lossily as UTF-8.
pub fn get_attr(tag: &XmlTag, name: &str) -> (value: Option<String>)
    ensures
        opt_view(value) == tag_attr(tag@, name.spec_bytes()),
{
    let key = name.as_bytes();
    let ghost attrs = tag@.attributes;
    let mut i: usize = 0;
    while i < tag.attributes.len()
        invariant
            attrs == tag@.attributes,
            attrs.len() == tag.attributes@.len(),
            key@ == name.spec_bytes(),
            i <= attrs.len(),
            find_attr_from(attrs, key@, 0) == find_attr_from(attrs, key@, i as int),
        decreases tag.attributes.len() - i,
    {
        assert(attrs[i as int] == attribute_view(tag.attributes@[i as int]));
        let (k, v) = &tag.attributes[i];
        if bytes_eq(k.as_slice(), key) {
            return Some(utf8_lossy(v.as_slice()));
        }
        i = i + 1;
    }
    None
}

} // verus!
