//! A pull source of XML events over a byte stream, read with quick-xml, and
//! the attributes of an element as plain values.
use vstd::prelude::*;
use quick_xml::events::attributes::Attributes;
use quick_xml::events::{BytesStart, Event};
use quick_xml::Reader;
use crate::text::str_eq;

verus! {

#[verifier::external_type_specification]
#[verifier::external_body]
#[verifier::reject_recursive_types(R)]
pub struct ExReader<R>(Reader<R>);

#[verifier::external_type_specification]
#[verifier::external_body]
pub struct ExBytesStart<'a>(BytesStart<'a>);

#[verifier::external_type_specification]
#[verifier::external_body]
pub struct ExAttributes<'a>(Attributes<'a>);

#[verifier::external_type_specification]
#[verifier::external_body]
pub struct ExXmlAttribute<'a>(quick_xml::events::attributes::Attribute<'a>);

#[verifier::external_type_specification]
#[verifier::external_body]
pub struct ExAttrError(quick_xml::events::attributes::AttrError);

/// The document could not be read as XML (or the bytes under it could not
/// be decompressed).
#[derive(Debug, Clone, Copy, PartialEq, Eq, Structural)]
pub enum XmlError {
    /// The bytes under the document could not be read or decompressed.
    Read,
    /// The document is not well-formed.
    Syntax,
    /// The document holds more events than the source counts.
    TooLong,
}

/// One attribute of an element: its local name and its unescaped value.
#[derive(Debug, Clone)]
pub struct Attr {
    pub key: String,
    pub value: String,
}

/// An element's start: its name, and its attributes as read from the tag
/// (an error where they are not well-formed).
pub struct XmlElement {
    pub name: String,
    pub attrs: Result<Vec<Attr>, XmlError>,
}

/// What a pull of the source yields. Self-closing elements come as a start
/// followed by an end; text, comments and declarations come as `Other`.
pub enum XmlEvent {
    Start(XmlElement),
    End(String),
    Other,
    Eof,
}

/// An event as the reader gives it, the start tag kept for its attributes.
enum RawEvent {
    Start(String, BytesStart<'static>),
    End(String),
    Other,
    Eof,
}

/// Relies on quick_xml's `Reader::read_event_into`: the next event of the
/// document, with element names decoded as UTF-8.
#[verifier::external_body]
fn read_event<R: std::io::BufRead>(reader: &mut Reader<R>) -> (r: Result<RawEvent, XmlError>) {
    let mut buf = Vec::new();
    match reader.read_event_into(&mut buf) {
        Ok(Event::Start(e)) => Ok(RawEvent::Start(String::from_utf8_lossy(e.name().as_ref()).into_owned(), e.into_owned())),
        Ok(Event::End(e)) => Ok(RawEvent::End(String::from_utf8_lossy(e.name().as_ref()).into_owned())),
        Ok(Event::Eof) => Ok(RawEvent::Eof),
        Ok(_) => Ok(RawEvent::Other),
        Err(quick_xml::Error::Io(_)) => Err(XmlError::Read),
        Err(_) => Err(XmlError::Syntax),
    }
}

/// Relies on quick_xml's `Reader::read_to_end_into`: skips what follows the
/// start of the element `name` up to and including its end.
#[verifier::external_body]
fn read_to_end<R: std::io::BufRead>(reader: &mut Reader<R>, name: &str) -> (r: Result<(), XmlError>) {
    let mut buf = Vec::new();
    match reader.read_to_end_into(quick_xml::name::QName(name.as_bytes()), &mut buf) {
        Ok(_) => Ok(()),
        Err(quick_xml::Error::Io(_)) => Err(XmlError::Read),
        Err(_) => Err(XmlError::Syntax),
    }
}

/// Relies on quick_xml's `Reader::expand_empty_elements`: a self-closing
/// element is reported as a start and an end.
#[verifier::external_body]
fn expand_empty_elements<R>(reader: &mut Reader<R>) {
    reader.expand_empty_elements(true);
}

/// Relies on quick_xml's `BytesStart::attributes`: an iterator over the
/// element's attributes.
#[verifier::external_body]
fn attributes_of<'a>(element: &'a BytesStart<'static>) -> (r: Attributes<'a>) {
    element.attributes()
}

/// Relies on quick_xml's `BytesStart::attributes_raw`: the length in bytes of
/// the text that holds the attributes.
#[verifier::external_body]
fn attributes_len(element: &BytesStart<'static>) -> (r: usize) {
    element.attributes_raw().len()
}

/// Relies on quick_xml's `Attributes::next` and `Attribute::unescape_value`:
/// the next attribute, its key decoded as UTF-8 and its value unescaped.
#[verifier::external_body]
fn next_attribute(it: &mut Attributes<'_>) -> (r: Option<Result<Attr, XmlError>>) {
    match it.next() {
        None => None,
        Some(Ok(a)) => Some(match (std::str::from_utf8(a.key.local_name().into_inner()), a.unescape_value()) {
            (Ok(k), Ok(v)) => Ok(Attr { key: k.to_string(), value: v.into_owned() }),
            _ => Err(XmlError::Syntax),
        }),
        Some(Err(_)) => Some(Err(XmlError::Syntax)),
    }
}

/// The attributes of a start tag, in document order. An attribute takes at
/// least one byte of the tag, so a tag yields no more attributes than its
/// attribute text has bytes; more is reported as malformed.
fn read_attributes(element: &BytesStart<'static>) -> (r: Result<Vec<Attr>, XmlError>) {
    let limit = attributes_len(element);
    let mut it = attributes_of(element);
    let mut out: Vec<Attr> = Vec::new();
    let mut count: usize = 0;
    while count < limit
        invariant
            count <= limit,
        decreases limit - count,
    {
        match next_attribute(&mut it) {
            None => {
                return Ok(out);
            },
            Some(Err(e)) => {
                return Err(e);
            },
            Some(Ok(a)) => {
                out.push(a);
            },
        }
        count = count + 1;
    }
    match next_attribute(&mut it) {
        None => Ok(out),
        Some(_) => Err(XmlError::Syntax),
    }
}

/// The value of the attribute named `key`: of the last one where a key
/// repeats.
pub open spec fn attr_value(attrs: Seq<Attr>, key: Seq<char>) -> Option<Seq<char>>
    decreases attrs.len(),
{
    if attrs.len() == 0 {
        None
    } else if attrs.last().key@ == key {
        Some(attrs.last().value@)
    } else {
        attr_value(attrs.drop_last(), key)
    }
}

/// Looks up the attribute named `key`.
pub fn attribute_value(attrs: &Vec<Attr>, key: &str) -> (r: Option<String>)
    ensures
        r matches Some(v) ==> attr_value(attrs@, key@) == Some(v@),
        r is None ==> attr_value(attrs@, key@) is None,
{
    let mut i: usize = attrs.len();
    assert(attrs@.take(i as int) =~= attrs@);
    while i > 0
        invariant
            i <= attrs@.len(),
            attr_value(attrs@, key@) == attr_value(attrs@.take(i as int), key@),
        decreases i,
    {
        let ghost pre = attrs@.take(i as int);
        assert(pre.drop_last() =~= attrs@.take(i - 1));
        if str_eq(attrs[i - 1].key.as_str(), key) {
            return Some(attrs[i - 1].value.clone());
        }
        i = i - 1;
    }
    None
}

/// An event handed out by a source, as plain values: a start with its name
/// and attributes, an end, something else, the end of the document, or the
/// rest of an element passed over whole.
pub enum Ev {
    Start(Seq<char>, Result<Seq<Attr>, XmlError>),
    End(Seq<char>),
    Other,
    Eof,
    Skipped(Seq<char>),
}

pub open spec fn attrs_view(a: Result<Vec<Attr>, XmlError>) -> Result<Seq<Attr>, XmlError> {
    match a {
        Ok(v) => Ok(v@),
        Err(e) => Err(e),
    }
}

pub open spec fn event_view(e: XmlEvent) -> Ev {
    match e {
        XmlEvent::Start(el) => Ev::Start(el.name@, attrs_view(el.attrs)),
        XmlEvent::End(n) => Ev::End(n@),
        XmlEvent::Other => Ev::Other,
        XmlEvent::Eof => Ev::Eof,
    }
}

/// A stream of XML events. The source counts the events it hands out, down
/// from `u64::MAX`, which bounds every loop that pulls from it, and keeps a
/// record of them.
#[verifier::reject_recursive_types(R)]
pub struct XmlSource<R> {
    reader: Reader<R>,
    remaining: u64,
    log: Ghost<Seq<Ev>>,
}

impl<R: std::io::BufRead> XmlSource<R> {
    pub closed spec fn fuel(&self) -> nat {
        self.remaining as nat
    }

    /// The events handed out so far, in order.
    pub closed spec fn events(&self) -> Seq<Ev> {
        self.log@
    }

    /// A source over `reader`, reporting self-closing elements as a start and
    /// an end.
    pub fn new(reader: Reader<R>) -> (r: Self)
        ensures
            r.fuel() == u64::MAX,
            r.events() == Seq::<Ev>::empty(),
    {
        let mut reader = reader;
        expand_empty_elements(&mut reader);
        XmlSource { reader, remaining: u64::MAX, log: Ghost(Seq::empty()) }
    }

    /// The next event, with the attributes of a start read from its tag.
    pub fn next(&mut self) -> (r: Result<XmlEvent, XmlError>)
        ensures
            r is Ok ==> final(self).fuel() < old(self).fuel(),
            final(self).fuel() <= old(self).fuel(),
            r matches Ok(e) ==> final(self).events() == old(self).events().push(event_view(e)),
            r is Err ==> final(self).events() == old(self).events(),
    {
        if self.remaining == 0 {
            return Err(XmlError::TooLong);
        }
        self.remaining = self.remaining - 1;
        let r = match read_event(&mut self.reader) {
            Ok(RawEvent::Start(name, start)) => Ok(XmlEvent::Start(XmlElement { name, attrs: read_attributes(&start) })),
            Ok(RawEvent::End(name)) => Ok(XmlEvent::End(name)),
            Ok(RawEvent::Other) => Ok(XmlEvent::Other),
            Ok(RawEvent::Eof) => Ok(XmlEvent::Eof),
            Err(e) => Err(e),
        };
        if let Ok(e) = &r {
            self.log = Ghost(self.log@.push(event_view(*e)));
        }
        r
    }

    /// Skips the rest of `element`, whose start was the last event read.
    pub fn skip(&mut self, element: &XmlElement) -> (r: Result<(), XmlError>)
        ensures
            r is Ok ==> final(self).fuel() < old(self).fuel(),
            final(self).fuel() <= old(self).fuel(),
            r is Ok ==> final(self).events() == old(self).events().push(Ev::Skipped(element.name@)),
            r is Err ==> final(self).events() == old(self).events(),
    {
        if self.remaining == 0 {
            return Err(XmlError::TooLong);
        }
        self.remaining = self.remaining - 1;
        let r = read_to_end(&mut self.reader, element.name.as_str());
        if r.is_ok() {
            self.log = Ghost(self.log@.push(Ev::Skipped(element.name@)));
        }
        r
    }
}

} // verus!
