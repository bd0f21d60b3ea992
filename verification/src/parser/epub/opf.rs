//! The package file: the list of what a book holds, the order in which it is read, and what is
//! known of it.
use vstd::prelude::*;
use crate::error::{joined, AppError, AppResult, Failure};
use crate::parser::epub::hrefs::{plain_text, resolve, resolve_entities, resolved};
use crate::parser::epub::package::{
    attr, attr_or_empty, attr_value, find_attr, or_empty,
};
use crate::parser::is_word;
use crate::text::{chars_of, contains_word, has_word, same_str, string_of, trim, trimmed};
use crate::views::{deep_empty, deep_push};
use crate::xml::{
    attrs_of, name_of_tag, read_events, tag_attrs, tag_name, xml_events, Xml, XmlEvent,
};

verus! {

/// One file that the package lists. Its place is given from the folder of the package file.
#[derive(Debug)]
pub struct ManifestItem {
    pub id: String,
    pub href: String,
    pub media_type: String,
    pub properties: Option<String>,
}

/// `ManifestItem` over character sequences.
#[verifier::ext_equal]
pub struct Item {
    pub id: Seq<char>,
    pub href: Seq<char>,
    pub media_type: Seq<char>,
    pub properties: Option<Seq<char>>,
}

impl DeepView for ManifestItem {
    type V = Item;

    open spec fn deep_view(&self) -> Item {
        Item {
            id: self.id@,
            href: self.href@,
            media_type: self.media_type@,
            properties: self.properties.deep_view(),
        }
    }
}

/// What a package file says: the files, the identifiers of those that are read in their order,
/// and what is known of the book.
#[derive(Debug)]
pub struct Package {
    pub manifest: Vec<ManifestItem>,
    pub spine: Vec<String>,
    pub title: Option<String>,
    pub author: Option<String>,
    pub publisher: Option<String>,
    pub language: Option<String>,
    pub cover_id: Option<String>,
}

/// `Package` over character sequences.
#[verifier::ext_equal]
pub struct Pkg {
    pub manifest: Seq<Item>,
    pub spine: Seq<Seq<char>>,
    pub title: Option<Seq<char>>,
    pub author: Option<Seq<char>>,
    pub publisher: Option<Seq<char>>,
    pub language: Option<Seq<char>>,
    pub cover_id: Option<Seq<char>>,
}

impl DeepView for Package {
    type V = Pkg;

    open spec fn deep_view(&self) -> Pkg {
        Pkg {
            manifest: self.manifest.deep_view(),
            spine: self.spine.deep_view(),
            title: self.title.deep_view(),
            author: self.author.deep_view(),
            publisher: self.publisher.deep_view(),
            language: self.language.deep_view(),
            cover_id: self.cover_id.deep_view(),
        }
    }
}

/// The part of the package file that is being read.
#[derive(Debug, Clone, Copy, PartialEq, Eq, Structural)]
pub enum Section {
    Outside,
    Manifest,
    Spine,
}

/// How far a package file is read: what it said, in which part the reader is, and what the next
/// words are about.
#[verifier::ext_equal]
pub struct OpfState {
    pub pkg: Pkg,
    pub section: Section,
    pub field: Seq<char>,
}

/// The file that a tag lists; none where it lacks an identifier or a place.
pub open spec fn listed_item(tag: Seq<char>) -> Option<Item> {
    let id = attr_or_empty(tag, "id"@);
    let href = attr_or_empty(tag, "href"@);
    if id.len() > 0 && href.len() > 0 {
        Some(
            Item {
                id,
                href: resolved(Seq::empty(), href),
                media_type: attr_or_empty(tag, "media-type"@),
                properties: attr(tag, "properties"@),
            },
        )
    } else {
        None
    }
}

/// The values of every attribute with a name, among the first `k`.
pub open spec fn all_attrs(attrs: Seq<(Seq<char>, Seq<char>)>, key: Seq<char>, k: int) -> Seq<
    Seq<char>,
>
    decreases k,
{
    if k <= 0 || k > attrs.len() {
        Seq::empty()
    } else if attrs[k - 1].0 == key {
        all_attrs(attrs, key, k - 1).push(plain_text(attrs[k - 1].1))
    } else {
        all_attrs(attrs, key, k - 1)
    }
}

/// What reading a tag that opens an element changes.
pub open spec fn tag_step(s: OpfState, tag: Seq<char>) -> OpfState {
    let name = tag_name(tag);
    if name == "manifest"@ {
        OpfState { section: Section::Manifest, ..s }
    } else if name == "spine"@ {
        OpfState { section: Section::Spine, ..s }
    } else if name == "item"@ && s.section == Section::Manifest {
        match listed_item(tag) {
            Some(item) => OpfState {
                pkg: Pkg { manifest: s.pkg.manifest.push(item), ..s.pkg },
                ..s
            },
            None => s,
        }
    } else if name == "itemref"@ && s.section == Section::Spine {
        let refs = all_attrs(tag_attrs(tag), "idref"@, tag_attrs(tag).len() as int);
        OpfState { pkg: Pkg { spine: s.pkg.spine + refs, ..s.pkg }, ..s }
    } else if name == "meta"@ {
        let field = attr_or_empty(tag, "name"@);
        if field == "cover"@ {
            OpfState {
                pkg: Pkg { cover_id: Some(attr_or_empty(tag, "content"@)), ..s.pkg },
                field,
                ..s
            }
        } else {
            OpfState { field, ..s }
        }
    } else if name == "dc:title"@ || name == "dc:creator"@ || name == "dc:publisher"@ || name
        == "dc:language"@ {
        OpfState { field: name, ..s }
    } else {
        s
    }
}

/// What reading words changes: they are taken for what the element they stand in is about.
pub open spec fn words_step(s: OpfState, words: Seq<char>) -> OpfState {
    let text = trimmed(plain_text(words));
    if text.len() == 0 {
        s
    } else if s.field == "dc:title"@ {
        OpfState { pkg: Pkg { title: Some(text), ..s.pkg }, ..s }
    } else if s.field == "dc:creator"@ {
        OpfState { pkg: Pkg { author: Some(text), ..s.pkg }, ..s }
    } else if s.field == "dc:publisher"@ {
        OpfState { pkg: Pkg { publisher: Some(text), ..s.pkg }, ..s }
    } else if s.field == "dc:language"@ {
        OpfState { pkg: Pkg { language: Some(text), ..s.pkg }, ..s }
    } else {
        s
    }
}

/// What reading an event changes.
pub open spec fn opf_step(s: OpfState, e: Xml) -> OpfState {
    match e {
        Xml::Open(tag) => tag_step(s, tag),
        Xml::Single(tag) => tag_step(s, tag),
        Xml::Words(words) => words_step(s, words),
        Xml::Close(_) => OpfState { field: Seq::empty(), ..s },
        _ => s,
    }
}

/// What the events from the `i`-th on add to what is read.
pub open spec fn opf_from(events: Seq<Xml>, i: int, s: OpfState) -> Result<Pkg, Failure>
    decreases events.len() - i,
{
    if i < 0 || i >= events.len() {
        if s.pkg.manifest.len() == 0 {
            Err(Failure::Xml("OPF 缺少 manifest"@))
        } else {
            Ok(s.pkg)
        }
    } else {
        match events[i] {
            Xml::Failed(m) => Err(Failure::Xml("OPF: "@ + m)),
            _ => opf_from(events, i + 1, opf_step(s, events[i])),
        }
    }
}

/// Nothing read yet.
pub open spec fn opf_start() -> OpfState {
    OpfState {
        pkg: Pkg {
            manifest: Seq::empty(),
            spine: Seq::empty(),
            title: None,
            author: None,
            publisher: None,
            language: None,
            cover_id: None,
        },
        section: Section::Outside,
        field: Seq::empty(),
    }
}

/// What a package file says.
pub open spec fn packaged(xml: Seq<char>) -> Result<Pkg, Failure> {
    opf_from(xml_events(xml), 0, opf_start())
}

struct Reading {
    pkg: Package,
    section: Section,
    field: String,
}

impl Reading {
    spec fn state(&self) -> OpfState {
        OpfState { pkg: self.pkg.deep_view(), section: self.section, field: self.field@ }
    }

    fn push_item(&mut self, attrs: &Vec<(String, String)>, tag: Ghost<Seq<char>>)
        requires
            attrs.deep_view() == tag_attrs(tag@),
        ensures
            final(self).state() == match listed_item(tag@) {
                Some(item) => OpfState {
                    pkg: Pkg {
                        manifest: old(self).state().pkg.manifest.push(item),
                        ..old(self).state().pkg
                    },
                    ..old(self).state()
                },
                None => old(self).state(),
            },
    {
        let id = or_empty(find_attr(attrs, "id"));
        let href = or_empty(find_attr(attrs, "href"));
        let h = chars_of(href.as_str());
        let n = chars_of(id.as_str()).len();
        let here: Vec<char> = Vec::new();
        assert(here@ =~= Seq::empty());
        if n > 0 && h.len() > 0 {
            let item = ManifestItem {
                id,
                href: string_of(&resolve(&here, &h)),
                media_type: or_empty(find_attr(attrs, "media-type")),
                properties: find_attr(attrs, "properties"),
            };
            let ghost before = self.pkg.manifest;
            self.pkg.manifest.push(item);
            proof {
                deep_push(before, item, self.pkg.manifest);
                assert(item.deep_view() =~= listed_item(tag@).unwrap());
            }
        }
    }

    fn push_refs(&mut self, attrs: &Vec<(String, String)>)
        ensures
            final(self).state() == (OpfState {
                pkg: Pkg {
                    spine: old(self).state().pkg.spine + all_attrs(
                        attrs.deep_view(),
                        "idref"@,
                        attrs@.len() as int,
                    ),
                    ..old(self).state().pkg
                },
                ..old(self).state()
            }),
    {
        let ghost start = self.state();
        let mut i: usize = 0;
        assert(start.pkg.spine + Seq::<Seq<char>>::empty() =~= start.pkg.spine);
        while i < attrs.len()
            invariant
                i <= attrs@.len(),
                self.state() == (OpfState {
                    pkg: Pkg {
                        spine: start.pkg.spine + all_attrs(attrs.deep_view(), "idref"@, i as int),
                        ..start.pkg
                    },
                    ..start
                }),
            decreases attrs@.len() - i,
        {
            assert(attrs.deep_view()[i as int] == attrs@[i as int].deep_view());
            if same_str(attrs[i].0.as_str(), "idref") {
                let v = attr_value(attrs[i].1.as_str());
                let ghost before = self.pkg.spine;
                let ghost done = all_attrs(attrs.deep_view(), "idref"@, i as int);
                self.pkg.spine.push(v);
                proof {
                    deep_push(before, v, self.pkg.spine);
                    assert((start.pkg.spine + done).push(v@) =~= start.pkg.spine + done.push(v@));
                }
            }
            i = i + 1;
        }
    }

    fn read_tag(&mut self, tag: &String)
        ensures
            final(self).state() == tag_step(old(self).state(), tag@),
    {
        let name = name_of_tag(&chars_of(tag.as_str()));
        if is_word(&name, "manifest") {
            self.section = Section::Manifest;
        } else if is_word(&name, "spine") {
            self.section = Section::Spine;
        } else if is_word(&name, "item") && self.section == Section::Manifest {
            let attrs = attrs_of(tag.as_str());
            self.push_item(&attrs, Ghost(tag@));
        } else if is_word(&name, "itemref") && self.section == Section::Spine {
            let attrs = attrs_of(tag.as_str());
            self.push_refs(&attrs);
        } else if is_word(&name, "meta") {
            let attrs = attrs_of(tag.as_str());
            let field = or_empty(find_attr(&attrs, "name"));
            if same_str(field.as_str(), "cover") {
                self.pkg.cover_id = Some(or_empty(find_attr(&attrs, "content")));
            }
            self.field = field;
        } else if is_word(&name, "dc:title") || is_word(&name, "dc:creator") || is_word(
            &name,
            "dc:publisher",
        ) || is_word(&name, "dc:language") {
            self.field = string_of(&name);
        }
    }

    fn read_words(&mut self, words: &String)
        ensures
            final(self).state() == words_step(old(self).state(), words@),
    {
        let plain = resolve_entities(&chars_of(words.as_str()));
        let text = trim(&plain);
        if text.len() > 0 {
            let t = string_of(text);
            if same_str(self.field.as_str(), "dc:title") {
                self.pkg.title = Some(t);
            } else if same_str(self.field.as_str(), "dc:creator") {
                self.pkg.author = Some(t);
            } else if same_str(self.field.as_str(), "dc:publisher") {
                self.pkg.publisher = Some(t);
            } else if same_str(self.field.as_str(), "dc:language") {
                self.pkg.language = Some(t);
            }
        }
    }
}

/// What the events of a package file say.
pub fn read_package(events: &Vec<XmlEvent>) -> (r: AppResult<Package>)
    ensures
        match r {
            Ok(p) => opf_from(events.deep_view(), 0, opf_start()) == Ok::<Pkg, Failure>(
                p.deep_view(),
            ),
            Err(e) => opf_from(events.deep_view(), 0, opf_start()) == Err::<Pkg, Failure>(e@),
        },
{
    let ghost ev = events.deep_view();
    let mut s = Reading {
        pkg: Package {
            manifest: Vec::new(),
            spine: Vec::new(),
            title: None,
            author: None,
            publisher: None,
            language: None,
            cover_id: None,
        },
        section: Section::Outside,
        field: String::new(),
    };
    proof {
        deep_empty(s.pkg.manifest);
        deep_empty(s.pkg.spine);
        assert(s.field@ =~= Seq::<char>::empty());
    }
    assert(s.state() =~= opf_start());
    let mut i: usize = 0;
    while i < events.len()
        invariant
            i <= events@.len(),
            ev == events.deep_view(),
            opf_from(ev, 0, opf_start()) == opf_from(ev, i as int, s.state()),
        decreases events@.len() - i,
    {
        assert(ev[i as int] == events@[i as int].deep_view());
        match &events[i] {
            XmlEvent::Open(tag) | XmlEvent::Single(tag) => {
                s.read_tag(tag);
            },
            XmlEvent::Words(words) => {
                s.read_words(words);
            },
            XmlEvent::Close(_) => {
                let ghost before = s.state();
                s.field = String::new();
                assert(s.field@ =~= Seq::<char>::empty());
            },
            XmlEvent::Failed(m) => {
                return Err(AppError::Xml(joined("OPF: ", m.as_str())));
            },
            _ => {},
        }
        i = i + 1;
    }
    if s.pkg.manifest.len() == 0 {
        return Err(AppError::Xml("OPF 缺少 manifest".to_owned()));
    }
    Ok(s.pkg)
}

/// What a package file says.
pub fn parse_opf(xml: &str) -> (r: AppResult<Package>)
    ensures
        match r {
            Ok(p) => packaged(xml@) == Ok::<Pkg, Failure>(p.deep_view()),
            Err(e) => packaged(xml@) == Err::<Pkg, Failure>(e@),
        },
{
    let events = read_events(xml);
    read_package(&events)
}

// ---------------------------------------------------------------------------
// Finding what is listed
// ---------------------------------------------------------------------------

/// The last of the first `k` files with an identifier.
pub open spec fn item_by_id(m: Seq<Item>, id: Seq<char>, k: int) -> Option<int>
    decreases k,
{
    if k <= 0 || k > m.len() {
        None
    } else if m[k - 1].id == id {
        Some(k - 1)
    } else {
        item_by_id(m, id, k - 1)
    }
}

/// The last file with an identifier.
pub fn find_item(m: &Vec<ManifestItem>, id: &str) -> (r: Option<usize>)
    ensures
        match r {
            Some(i) => i < m@.len() && item_by_id(m.deep_view(), id@, m@.len() as int) == Some(
                i as int,
            ),
            None => item_by_id(m.deep_view(), id@, m@.len() as int) is None,
        },
{
    let mut i: usize = m.len();
    while i > 0
        invariant
            i <= m@.len(),
            item_by_id(m.deep_view(), id@, m@.len() as int) == item_by_id(
                m.deep_view(),
                id@,
                i as int,
            ),
        decreases i,
    {
        assert(m.deep_view()[i - 1] == m@[i - 1].deep_view());
        if same_str(m[i - 1].id.as_str(), id) {
            return Some(i - 1);
        }
        i = i - 1;
    }
    None
}

/// A file has a property.
pub open spec fn has_property(item: Item, word: Seq<char>) -> bool {
    match item.properties {
        Some(p) => has_word(p, word),
        None => false,
    }
}

/// The first file with a property, from the `i`-th on.
pub open spec fn item_with_property(m: Seq<Item>, word: Seq<char>, i: int) -> Option<int>
    decreases m.len() - i,
{
    if i < 0 || i >= m.len() {
        None
    } else if has_property(m[i], word) {
        Some(i)
    } else {
        item_with_property(m, word, i + 1)
    }
}

/// The first file with a property.
pub fn find_property(m: &Vec<ManifestItem>, word: &str) -> (r: Option<usize>)
    ensures
        match r {
            Some(i) => i < m@.len() && item_with_property(m.deep_view(), word@, 0) == Some(
                i as int,
            ),
            None => item_with_property(m.deep_view(), word@, 0) is None,
        },
{
    let w = chars_of(word);
    let mut i: usize = 0;
    while i < m.len()
        invariant
            i <= m@.len(),
            w@ == word@,
            item_with_property(m.deep_view(), word@, 0) == item_with_property(
                m.deep_view(),
                word@,
                i as int,
            ),
        decreases m@.len() - i,
    {
        assert(m.deep_view()[i as int] == m@[i as int].deep_view());
        if let Some(p) = &m[i].properties {
            let cs = chars_of(p.as_str());
            if contains_word(&cs, &w) {
                return Some(i);
            }
        }
        i = i + 1;
    }
    None
}

/// The place of the navigation document: that of the first file with the property `nav`.
pub open spec fn nav_doc(m: Seq<Item>) -> Option<Seq<char>> {
    match item_with_property(m, "nav"@, 0) {
        Some(i) => Some(m[i].href),
        None => None,
    }
}

/// The place of the navigation document.
pub fn find_nav_doc(m: &Vec<ManifestItem>) -> (r: Option<String>)
    ensures
        r.deep_view() == nav_doc(m.deep_view()),
{
    match find_property(m, "nav") {
        Some(i) => {
            assert(m.deep_view()[i as int] == m@[i as int].deep_view());
            Some(m[i].href.clone())
        },
        None => None,
    }
}

/// The first file with a media type, from the `i`-th on.
pub open spec fn item_with_type(m: Seq<Item>, media_type: Seq<char>, i: int) -> Option<int>
    decreases m.len() - i,
{
    if i < 0 || i >= m.len() {
        None
    } else if m[i].media_type == media_type {
        Some(i)
    } else {
        item_with_type(m, media_type, i + 1)
    }
}

/// The place of the older table of contents: that of the first file of its media type.
pub open spec fn ncx_doc(m: Seq<Item>) -> Option<Seq<char>> {
    match item_with_type(m, "application/x-dtbncx+xml"@, 0) {
        Some(i) => Some(m[i].href),
        None => None,
    }
}

/// The place of the older table of contents.
pub fn find_ncx_doc(m: &Vec<ManifestItem>) -> (r: Option<String>)
    ensures
        r.deep_view() == ncx_doc(m.deep_view()),
{
    let mut i: usize = 0;
    while i < m.len()
        invariant
            i <= m@.len(),
            item_with_type(m.deep_view(), "application/x-dtbncx+xml"@, 0) == item_with_type(
                m.deep_view(),
                "application/x-dtbncx+xml"@,
                i as int,
            ),
        decreases m@.len() - i,
    {
        assert(m.deep_view()[i as int] == m@[i as int].deep_view());
        if same_str(m[i].media_type.as_str(), "application/x-dtbncx+xml") {
            return Some(m[i].href.clone());
        }
        i = i + 1;
    }
    None
}

} // verus!
