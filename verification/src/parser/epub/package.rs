//! The files that say what a book is made of: which encryption it declares, where its package
//! file is, and what that lists.
use vstd::prelude::*;
use crate::archive::{entry_text, Archive, Zip};
use crate::error::{displayed, joined, AppError, AppResult, Failure};
use crate::parser::epub::hrefs::{normalize, normalized, plain_text, resolve_entities};
use crate::parser::is_word;
use crate::text::{
    char_from, char_from_is_first, chars_of, find_char, part, same_str, string_of,
};
use crate::xml::{
    attrs_of, name_of_tag, read_events, tag_attrs, tag_name, xml_events, Xml, XmlEvent,
};

verus! {

// ---------------------------------------------------------------------------
// Attributes
// ---------------------------------------------------------------------------

/// The value of the last attribute with a name, among the first `k`.
pub open spec fn last_attr(attrs: Seq<(Seq<char>, Seq<char>)>, key: Seq<char>, k: int) -> Option<
    Seq<char>,
>
    decreases k,
{
    if k <= 0 || k > attrs.len() {
        None
    } else if attrs[k - 1].0 == key {
        Some(plain_text(attrs[k - 1].1))
    } else {
        last_attr(attrs, key, k - 1)
    }
}

/// The value of an attribute of a tag.
pub open spec fn attr(tag: Seq<char>, key: Seq<char>) -> Option<Seq<char>> {
    last_attr(tag_attrs(tag), key, tag_attrs(tag).len() as int)
}

/// The value of an attribute of a tag; empty where it has none.
pub open spec fn attr_or_empty(tag: Seq<char>, key: Seq<char>) -> Seq<char> {
    match attr(tag, key) {
        Some(v) => v,
        None => Seq::empty(),
    }
}

/// The value of the first attribute with a name, from the `i`-th on.
pub open spec fn first_attr(attrs: Seq<(Seq<char>, Seq<char>)>, key: Seq<char>, i: int) -> Option<
    Seq<char>,
>
    decreases attrs.len() - i,
{
    if i < 0 || i >= attrs.len() {
        None
    } else if attrs[i].0 == key {
        Some(plain_text(attrs[i].1))
    } else {
        first_attr(attrs, key, i + 1)
    }
}

/// The value of an attribute as it is meant.
pub fn attr_value(v: &str) -> (r: String)
    ensures
        r@ == plain_text(v@),
{
    let cs = chars_of(v);
    let out = resolve_entities(&cs);
    string_of(&out)
}

/// The value of the last attribute with a name.
pub fn find_attr(attrs: &Vec<(String, String)>, key: &str) -> (r: Option<String>)
    ensures
        r.deep_view() == last_attr(attrs.deep_view(), key@, attrs@.len() as int),
{
    let mut i: usize = attrs.len();
    while i > 0
        invariant
            i <= attrs@.len(),
            last_attr(attrs.deep_view(), key@, attrs@.len() as int) == last_attr(
                attrs.deep_view(),
                key@,
                i as int,
            ),
        decreases i,
    {
        assert(attrs.deep_view()[i - 1] == attrs@[i - 1].deep_view());
        if same_str(attrs[i - 1].0.as_str(), key) {
            return Some(attr_value(attrs[i - 1].1.as_str()));
        }
        i = i - 1;
    }
    None
}

/// The value of the first attribute with a name.
pub fn find_first_attr(attrs: &Vec<(String, String)>, key: &str) -> (r: Option<String>)
    ensures
        r.deep_view() == first_attr(attrs.deep_view(), key@, 0),
{
    let mut i: usize = 0;
    while i < attrs.len()
        invariant
            i <= attrs@.len(),
            first_attr(attrs.deep_view(), key@, 0) == first_attr(
                attrs.deep_view(),
                key@,
                i as int,
            ),
        decreases attrs@.len() - i,
    {
        assert(attrs.deep_view()[i as int] == attrs@[i as int].deep_view());
        if same_str(attrs[i].0.as_str(), key) {
            return Some(attr_value(attrs[i].1.as_str()));
        }
        i = i + 1;
    }
    None
}

/// A text that may be missing; empty where it is.
pub fn or_empty(v: Option<String>) -> (r: String)
    ensures
        r@ == match v.deep_view() {
            Some(s) => s,
            None => Seq::empty(),
        },
{
    match v {
        Some(s) => s,
        None => String::new(),
    }
}

/// Whether an event opens an element, or is one that stands alone, with the given name.
pub open spec fn opens(e: Xml, name: Seq<char>) -> bool {
    match e {
        Xml::Open(tag) => tag_name(tag) == name,
        Xml::Single(tag) => tag_name(tag) == name,
        _ => false,
    }
}

/// What is between the brackets of an event that opens an element.
pub open spec fn tag_of(e: Xml) -> Seq<char> {
    match e {
        Xml::Open(tag) => tag,
        Xml::Single(tag) => tag,
        _ => Seq::empty(),
    }
}

// ---------------------------------------------------------------------------
// Encryption
// ---------------------------------------------------------------------------

/// A declared algorithm that only obfuscates fonts.
pub open spec fn obfuscates_fonts(algorithm: Seq<char>) -> bool {
    algorithm == "http://www.idpf.org/2008/embedding"@ || algorithm
        == "http://ns.adobe.com/pdf/enc#RC"@
}

/// The name of an element without the prefix of its namespace.
pub open spec fn local_name(name: Seq<char>) -> Seq<char> {
    match char_from(name, ':', 0) {
        Some(i) => name.skip(i + 1),
        None => name,
    }
}

/// The name of an element without the prefix of its namespace.
pub fn strip_prefix(name: &[char]) -> (r: Vec<char>)
    ensures
        r@ == local_name(name@),
{
    let n = name.len();
    match find_char(name, ':', 0) {
        Some(i) => {
            proof {
                char_from_is_first(name@, ':', 0);
            }
            let r = part(name, i + 1, n);
            assert(r@ =~= name@.skip(i + 1));
            r
        },
        None => {
            let r = part(name, 0, n);
            assert(r@ =~= name@);
            r
        },
    }
}

/// An event opens an element of a name, whatever the prefix of its namespace.
pub open spec fn opens_local(e: Xml, name: Seq<char>) -> bool {
    match e {
        Xml::Open(tag) => local_name(tag_name(tag)) == name,
        Xml::Single(tag) => local_name(tag_name(tag)) == name,
        _ => false,
    }
}

/// An event declares encryption that keeps the book from being read.
pub open spec fn declares_drm(e: Xml) -> bool {
    opens_local(e, "EncryptionMethod"@) && {
        let a = attr_or_empty(tag_of(e), "Algorithm"@);
        a.len() > 0 && !obfuscates_fonts(a)
    }
}

/// What the declarations from the `i`-th event on amount to.
pub open spec fn drm_from(events: Seq<Xml>, i: int) -> Result<(), Failure>
    decreases events.len() - i,
{
    if i < 0 || i >= events.len() {
        Ok(())
    } else if declares_drm(events[i]) {
        Err(Failure::DrmDetected)
    } else {
        match events[i] {
            Xml::Failed(m) => Err(Failure::Xml("encryption.xml: "@ + m)),
            _ => drm_from(events, i + 1),
        }
    }
}

/// Whether a book may be opened: it declares no encryption but of fonts. A book without
/// declarations declares none.
pub open spec fn drm_checked(z: Zip) -> Result<(), Failure> {
    match entry_text(z, "META-INF/encryption.xml"@) {
        Ok(xml) => drm_from(xml_events(xml), 0),
        Err(_) => Ok(()),
    }
}

/// A book that declares an encryption other than of fonts is refused, before anything that
/// could not be read.
pub proof fn drm_is_refused(events: Seq<Xml>, i: int, k: int)
    requires
        0 <= i <= k < events.len(),
        declares_drm(events[k]),
        forall|j: int| i <= j < k ==> !((#[trigger] events[j]) is Failed),
    ensures
        drm_from(events, i) == Err::<(), Failure>(Failure::DrmDetected),
    decreases k - i,
{
    if i < k && !declares_drm(events[i]) {
        assert(!(events[i] is Failed));
        drm_is_refused(events, i + 1, k);
    }
}

/// What the declarations of encryption amount to.
pub fn judge_drm(events: &Vec<XmlEvent>) -> (r: AppResult<()>)
    ensures
        match r {
            Ok(_) => drm_from(events.deep_view(), 0) is Ok,
            Err(e) => drm_from(events.deep_view(), 0) == Err::<(), Failure>(e@),
        },
{
    let ghost ev = events.deep_view();
    let mut i: usize = 0;
    while i < events.len()
        invariant
            i <= events@.len(),
            ev == events.deep_view(),
            drm_from(ev, 0) == drm_from(ev, i as int),
        decreases events@.len() - i,
    {
        assert(ev[i as int] == events@[i as int].deep_view());
        match &events[i] {
            XmlEvent::Open(tag) | XmlEvent::Single(tag) => {
                let name = strip_prefix(&name_of_tag(&chars_of(tag.as_str())));
                if is_word(&name, "EncryptionMethod") {
                    let attrs = attrs_of(tag.as_str());
                    let a = chars_of(or_empty(find_attr(&attrs, "Algorithm")).as_str());
                    if a.len() > 0 && !is_word(&a, "http://www.idpf.org/2008/embedding")
                        && !is_word(&a, "http://ns.adobe.com/pdf/enc#RC") {
                        return Err(AppError::DrmDetected);
                    }
                }
            },
            XmlEvent::Failed(m) => {
                return Err(AppError::Xml(joined("encryption.xml: ", m.as_str())));
            },
            _ => {},
        }
        i = i + 1;
    }
    Ok(())
}

/// Refuses a book that declares an encryption other than of fonts.
pub fn check_drm(archive: &Archive) -> (r: AppResult<()>)
    ensures
        match r {
            Ok(_) => drm_checked(archive.deep_view()) is Ok,
            Err(e) => drm_checked(archive.deep_view()) == Err::<(), Failure>(e@),
        },
{
    match archive.read_entry_string("META-INF/encryption.xml") {
        Ok(xml) => {
            let events = read_events(xml.as_str());
            judge_drm(&events)
        },
        Err(_) => Ok(()),
    }
}

// ---------------------------------------------------------------------------
// The place of the package file
// ---------------------------------------------------------------------------

/// The path that the first root file with one names, from the `i`-th event on.
pub open spec fn rootfile_from(events: Seq<Xml>, i: int) -> Result<Seq<char>, Failure>
    decreases events.len() - i,
{
    if i < 0 || i >= events.len() {
        Err(Failure::Xml("container.xml 中缺少 rootfile"@))
    } else {
        match events[i] {
            Xml::Failed(m) => Err(Failure::Xml("container.xml: "@ + m)),
            _ => if opens(events[i], "rootfile"@) {
                match first_attr(tag_attrs(tag_of(events[i])), "full-path"@, 0) {
                    Some(p) => Ok(normalized(p)),
                    None => rootfile_from(events, i + 1),
                }
            } else {
                rootfile_from(events, i + 1)
            },
        }
    }
}

/// The path of the package file of a book.
pub open spec fn rootfile(z: Zip) -> Result<Seq<char>, Failure> {
    match entry_text(z, "META-INF/container.xml"@) {
        Ok(xml) => rootfile_from(xml_events(xml), 0),
        Err(e) => Err(Failure::Zip("缺少 META-INF/container.xml: "@ + displayed(e))),
    }
}

/// The path that the first root file with one names.
pub fn find_rootfile(events: &Vec<XmlEvent>) -> (r: AppResult<String>)
    ensures
        match r {
            Ok(p) => rootfile_from(events.deep_view(), 0) == Ok::<Seq<char>, Failure>(p@),
            Err(e) => rootfile_from(events.deep_view(), 0) == Err::<Seq<char>, Failure>(e@),
        },
{
    let ghost ev = events.deep_view();
    let mut i: usize = 0;
    while i < events.len()
        invariant
            i <= events@.len(),
            ev == events.deep_view(),
            rootfile_from(ev, 0) == rootfile_from(ev, i as int),
        decreases events@.len() - i,
    {
        assert(ev[i as int] == events@[i as int].deep_view());
        match &events[i] {
            XmlEvent::Open(tag) | XmlEvent::Single(tag) => {
                let name = name_of_tag(&chars_of(tag.as_str()));
                if is_word(&name, "rootfile") {
                    let attrs = attrs_of(tag.as_str());
                    if let Some(p) = find_first_attr(&attrs, "full-path") {
                        let out = normalize(&chars_of(p.as_str()));
                        return Ok(string_of(&out));
                    }
                }
            },
            XmlEvent::Failed(m) => {
                return Err(AppError::Xml(joined("container.xml: ", m.as_str())));
            },
            _ => {},
        }
        i = i + 1;
    }
    Err(AppError::Xml("container.xml 中缺少 rootfile".to_owned()))
}

/// The path of the package file of a book.
pub fn read_container_rootfile(archive: &Archive) -> (r: AppResult<String>)
    ensures
        match r {
            Ok(p) => rootfile(archive.deep_view()) == Ok::<Seq<char>, Failure>(p@),
            Err(e) => rootfile(archive.deep_view()) == Err::<Seq<char>, Failure>(e@),
        },
{
    match archive.read_entry_string("META-INF/container.xml") {
        Ok(xml) => {
            let events = read_events(xml.as_str());
            find_rootfile(&events)
        },
        Err(e) => Err(
            AppError::Zip(joined("缺少 META-INF/container.xml: ", e.message().as_str())),
        ),
    }
}

} // verus!
