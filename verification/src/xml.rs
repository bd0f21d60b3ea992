//! XML as a row of events.
use vstd::prelude::*;
use crate::text::{part, starts};
use quick_xml::events::Event::{Empty, End, Eof, Start, Text};
use crate::xml::XmlEvent::{Close, Failed, Finish, Open, Other, Single, Words};

verus! {

/// One event of reading XML: an element opens or stands alone (what is between its brackets), an
/// element closes (its name), words, something else, an error, the end. All of it is as written,
/// with its entities unresolved.
#[derive(Debug)]
pub enum XmlEvent {
    Open(String),
    Single(String),
    Close(String),
    Words(String),
    Other,
    Failed(String),
    Finish,
}

/// `XmlEvent` over character sequences.
#[verifier::ext_equal]
pub enum Xml {
    Open(Seq<char>),
    Single(Seq<char>),
    Close(Seq<char>),
    Words(Seq<char>),
    Other,
    Failed(Seq<char>),
    Finish,
}

impl DeepView for XmlEvent {
    type V = Xml;

    open spec fn deep_view(&self) -> Xml {
        match *self {
            XmlEvent::Open(tag) => Xml::Open(tag@),
            XmlEvent::Single(tag) => Xml::Single(tag@),
            XmlEvent::Close(name) => Xml::Close(name@),
            XmlEvent::Words(t) => Xml::Words(t@),
            XmlEvent::Other => Xml::Other,
            XmlEvent::Failed(t) => Xml::Failed(t@),
            XmlEvent::Finish => Xml::Finish,
        }
    }
}

/// The events of a text taken as XML, up to the end or the first error.
pub uninterp spec fn xml_events(xml: Seq<char>) -> Seq<Xml>;

/// The attributes of a tag with the given name, each a name and a value as written.
pub uninterp spec fn xml_attrs(tag: Seq<char>, name: Seq<char>) -> Seq<(Seq<char>, Seq<char>)>;

/// `quick_xml::Reader::read_event` until the end or the first error, texts trimmed: one event of
/// the library's own for each. Which they are is left to the name `xml_events`.
#[verifier::external_body]
pub(crate) fn read_events(xml: &str) -> (r: Vec<XmlEvent>)
    ensures
        r.deep_view() == xml_events(xml@),
{
    let text = |b: &[u8]| String::from_utf8_lossy(b).into_owned();
    let (mut out, mut reader) = (Vec::new(), quick_xml::Reader::from_str(xml));
    reader.config_mut().trim_text(true);
    while !matches!(out.last(), Some(Failed(_) | Finish)) {
        out.push(match reader.read_event() {
            Ok(Start(e)) => Open(text(&e)),
            Ok(Empty(e)) => Single(text(&e)),
            Ok(End(e)) => Close(text(&e)),
            Ok(Text(e)) => Words(text(&e)),
            Ok(Eof) => Finish,
            Ok(_) => Other,
            Err(e) => Failed(e.to_string()),
        });
    }
    out
}

/// `quick_xml::events::attributes::Attributes`: the attributes behind the name of a tag that can
/// be read, under the name `xml_attrs`.
#[verifier::external_body]
pub(crate) fn read_attrs(tag: &str, name: &str) -> (r: Vec<(String, String)>)
    requires
        starts(tag@, name@),
    ensures
        r.deep_view() == xml_attrs(tag@, name@),
{
    let text = |b: &[u8]| String::from_utf8_lossy(b).into_owned();
    quick_xml::events::attributes::Attributes::new(tag, name.len())
        .flatten()
        .map(|a| (text(a.key.as_ref()), text(&a.value)))
        .collect()
}

/// White space in XML.
pub open spec fn is_blank(c: char) -> bool {
    c == ' ' || c == '\t' || c == '\r' || c == '\n'
}

/// How far the name of a tag goes, from position `i` on.
pub open spec fn name_end(tag: Seq<char>, i: int) -> int
    decreases tag.len() - i,
{
    if 0 <= i < tag.len() && !is_blank(tag[i]) {
        name_end(tag, i + 1)
    } else {
        i
    }
}

/// The name of a tag: what precedes its first white space.
pub open spec fn tag_name(tag: Seq<char>) -> Seq<char> {
    tag.take(name_end(tag, 0))
}

/// The attributes of a tag.
pub open spec fn tag_attrs(tag: Seq<char>) -> Seq<(Seq<char>, Seq<char>)> {
    xml_attrs(tag, tag_name(tag))
}

/// The name of a tag.
pub fn name_of_tag(tag: &[char]) -> (r: Vec<char>)
    ensures
        r@ == tag_name(tag@),
        starts(tag@, r@),
{
    let mut i: usize = 0;
    while i < tag.len() && tag[i] != ' ' && tag[i] != '\t' && tag[i] != '\r' && tag[i] != '\n'
        invariant
            i <= tag@.len(),
            name_end(tag@, 0) == name_end(tag@, i as int),
        decreases tag@.len() - i,
    {
        i = i + 1;
    }
    let r = part(tag, 0, i);
    assert(r@ =~= tag@.take(i as int));
    assert(tag@.subrange(0, r@.len() as int) =~= r@);
    r
}

/// The attributes of a tag.
pub fn attrs_of(tag: &str) -> (r: Vec<(String, String)>)
    ensures
        r.deep_view() == tag_attrs(tag@),
{
    let cs = crate::text::chars_of(tag);
    let name = name_of_tag(&cs);
    let n = crate::text::string_of(&name);
    read_attrs(tag, n.as_str())
}

} // verus!
