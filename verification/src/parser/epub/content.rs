//! The chapters and resources of an open EPUB.
use vstd::prelude::*;
use crate::archive::{entry_bytes, located, zip_size};
use crate::cleaning::{book_html, hardened, harden_css, sanitize_book_html};
use crate::decoding::{from_utf8_lossy, lowercase, to_lowercase, utf8_lossy};
use crate::error::{AppError, AppResult, Failure};
use crate::model::{Chapter, ChapterContent, ChapterKind};
use crate::parser::epub::book::{Epub, EpubBook};
use crate::parser::epub::fonts::{augment_css, augmented_css};
use crate::parser::epub::hrefs::{
    fallback_title, href_title, normalize_path, normalized, parent, parent_of, plain_text, resolve,
    resolve_entities, resolved,
};
use crate::parser::{guess_mime, mime_of, origin, resource_origin};
use crate::regexes::{
    find_group, first_group, group, group_text, in_order, ints, regex_spans, row_ints, row_of,
    row_within, spans, splice, spliced, Groups, CSS_DANGER, CSS_IMPORT, CSS_URL, HREF_ATTR, IMAGE_SRC,
    LINK_TAG, REL_ATTR, STYLE_BLOCK,
};
use crate::text::{
    byte_count, byte_len, chars_of, contains_word, has_word, join, join_all, lower_ascii, part, push_all,
    push_str, replace, replaced, starts, starts_with, string_of,
    texts, texts_push, to_lower_ascii, trim, trimmed,
};
use crate::transfer::{base64_text, encode_base64, percent_encode, percent_encoded};

verus! {

/// The largest image, in bytes, that is carried within a chapter.
pub const MAX_INLINE_IMAGE_SIZE: u64 = 102400;

/// The largest style sheet, in bytes, that is taken over.
pub const MAX_BOOK_CSS_SIZE: u128 = 524288;

/// How deep style sheets may import one another.
pub const MAX_CSS_IMPORT_DEPTH: u32 = 8;

// ---------------------------------------------------------------------------
// References to resources
// ---------------------------------------------------------------------------

/// A reference that is complete in itself or leads out of the book.
pub open spec fn leads_out(src: Seq<char>) -> bool {
    starts(src, "data:"@) || starts(src, "http://"@) || starts(src, "https://"@) || starts(
        src,
        "reader-res:"@,
    )
}

/// The size that the archive states for what stands at a path; 0 where nothing can be read.
pub open spec fn stated_size(b: Epub, path: Seq<char>) -> u64 {
    match located(b.zip, path) {
        Some(name) => match zip_size(b.zip.data, name) {
            Ok(n) => n,
            Err(_) => 0,
        },
        None => 0,
    }
}

/// Bytes carried within an address.
pub open spec fn data_address(mime: Seq<char>, bytes: Seq<u8>) -> Seq<char> {
    "data:"@ + mime + ";base64,"@ + base64_text(bytes)
}

/// The address that a reference to a resource is exchanged for: small resources are carried in
/// it, large ones are asked for later. None where the reference is to stay as it is.
pub open spec fn resource_ref(b: Epub, dir: Seq<char>, reference: Seq<char>) -> Option<Seq<char>> {
    let src = trimmed(reference);
    let path = resolved(dir, src);
    let size = stated_size(b, path);
    if src.len() == 0 || leads_out(src) || path.len() == 0 || size == 0 {
        None
    } else if size <= MAX_INLINE_IMAGE_SIZE {
        match entry_bytes(b.zip, path) {
            Ok(bytes) => Some(data_address(mime_of(path), bytes)),
            Err(_) => None,
        }
    } else {
        Some(resource_origin(b.windows) + b.book_id + "/"@ + percent_encoded(path))
    }
}

/// Where the reference of an image stands: in double quotes, or in single ones.
pub open spec fn image_src(m: Groups) -> Option<(int, int)> {
    if 1 < m.len() && m[1] is Some {
        m[1]
    } else if 2 < m.len() {
        m[2]
    } else {
        None
    }
}

/// An image with its reference exchanged; what else it holds stays as it is.
pub open spec fn image_inlined(b: Epub, dir: Seq<char>, html: Seq<char>, m: Groups) -> Seq<char> {
    let (start, end) = m[0].unwrap();
    match image_src(m) {
        Some((i, j)) => match resource_ref(b, dir, html.subrange(i, j)) {
            Some(uri) => html.subrange(start, i) + uri + html.subrange(j, end),
            None => html.subrange(start, end),
        },
        None => html.subrange(start, end),
    }
}

/// The images with their references exchanged.
pub open spec fn image_texts(b: Epub, dir: Seq<char>, html: Seq<char>, found: Seq<Groups>) -> Seq<
    Seq<char>,
> {
    Seq::new(found.len(), |i: int| image_inlined(b, dir, html, found[i]))
}

/// HTML with the references of its images exchanged.
pub open spec fn images_inlined(b: Epub, dir: Seq<char>, html: Seq<char>) -> Seq<char> {
    let found = regex_spans(IMAGE_SRC@, html);
    spliced(html, found, image_texts(b, dir, html, found))
}

// ---------------------------------------------------------------------------
// Style sheets
// ---------------------------------------------------------------------------

/// What a reference within a style sheet is exchanged for. One that leads to the network is
/// taken away.
pub open spec fn url_rewritten(b: Epub, dir: Seq<char>, css: Seq<char>, m: Groups) -> Seq<char> {
    let whole = group_text(css, m, 0).unwrap();
    let target = trimmed(
        match group_text(css, m, 1) {
            Some(t) => t,
            None => Seq::empty(),
        },
    );
    let low = lower_ascii(target);
    if target.len() == 0 {
        whole
    } else if starts(low, "http://"@) || starts(low, "https://"@) {
        "none"@
    } else if starts(low, "data:"@) || starts(low, "reader-res:"@) || starts(target, "#"@) {
        whole
    } else {
        match resource_ref(b, dir, target) {
            Some(uri) => "url(\""@ + uri + "\")"@,
            None => whole,
        }
    }
}

/// The references with what they are exchanged for.
pub open spec fn url_texts(b: Epub, dir: Seq<char>, css: Seq<char>, found: Seq<Groups>) -> Seq<
    Seq<char>,
> {
    Seq::new(found.len(), |i: int| url_rewritten(b, dir, css, found[i]))
}

/// A style sheet with its references exchanged.
pub open spec fn urls_rewritten(b: Epub, dir: Seq<char>, css: Seq<char>) -> Seq<char> {
    let found = regex_spans(CSS_URL@, css);
    spliced(css, found, url_texts(b, dir, css, found))
}

/// The path that an import leads to; none where it leads out of the book or nowhere.
pub open spec fn import_path(dir: Seq<char>, css: Seq<char>, m: Groups) -> Option<Seq<char>> {
    let target = trimmed(
        match group_text(css, m, 1) {
            Some(t) => t,
            None => Seq::empty(),
        },
    );
    let low = lower_ascii(target);
    let path = resolved(dir, target);
    if starts(low, "http://"@) || starts(low, "https://"@) || starts(low, "data:"@) || path.len()
        == 0 {
        None
    } else {
        Some(path)
    }
}

/// What is taken over of a style sheet at a folder, imported `depth` levels deep: nothing where
/// it is too large or too deep; else what could run code is taken out, what it imports is put in,
/// references are exchanged, fonts are put into its lists, and what could run code by then is taken
/// out again.
pub open spec fn processed_css(b: Epub, css: Seq<char>, dir: Seq<char>, depth: nat) -> Seq<char>
    decreases MAX_CSS_IMPORT_DEPTH + 1 - depth, 1int, 0int,
{
    if depth > MAX_CSS_IMPORT_DEPTH || byte_len(css) > MAX_BOOK_CSS_SIZE {
        Seq::empty()
    } else {
        let safe = hardened(css);
        let found = regex_spans(CSS_IMPORT@, safe);
        let with = import_texts(b, dir, safe, found, depth, found.len() as int);
        hardened(augmented_css(urls_rewritten(b, dir, spliced(safe, found, with))))
    }
}

/// What the first `k` imports of a style sheet are exchanged for.
pub open spec fn import_texts(
    b: Epub,
    dir: Seq<char>,
    css: Seq<char>,
    found: Seq<Groups>,
    depth: nat,
    k: int,
) -> Seq<Seq<char>>
    decreases MAX_CSS_IMPORT_DEPTH + 1 - depth, 0int, k,
{
    if k <= 0 || k > found.len() || depth > MAX_CSS_IMPORT_DEPTH {
        Seq::empty()
    } else {
        import_texts(b, dir, css, found, depth, k - 1).push(
            match import_path(dir, css, found[k - 1]) {
                Some(path) => match entry_bytes(b.zip, path) {
                    Ok(bytes) => processed_css(b, utf8_lossy(bytes), parent(path), depth + 1),
                    Err(_) => Seq::empty(),
                },
                None => Seq::empty(),
            },
        )
    }
}

/// Style sheets that import one another without end come to an end: beyond the deepest level
/// nothing is taken over.
pub proof fn imports_come_to_an_end(b: Epub, css: Seq<char>, dir: Seq<char>, depth: nat)
    requires
        depth > MAX_CSS_IMPORT_DEPTH,
    ensures
        processed_css(b, css, dir, depth) == Seq::<char>::empty(),
{
}

/// What a style block of a chapter holds, out of its wrapping.
pub open spec fn style_text(html: Seq<char>, m: Groups) -> Seq<char> {
    let inner = match group_text(html, m, 1) {
        Some(t) => t,
        None => Seq::empty(),
    };
    replaced(replaced(plain_text(inner), "<![CDATA["@, ""@), "]]>"@, ""@)
}

/// The list with one more part, where it is not blank.
pub open spec fn with_part(parts: Seq<Seq<char>>, t: Seq<char>) -> Seq<Seq<char>> {
    if trimmed(t).len() > 0 {
        parts.push(t)
    } else {
        parts
    }
}

/// What the first `k` style blocks of a chapter give.
pub open spec fn style_parts(
    b: Epub,
    html: Seq<char>,
    dir: Seq<char>,
    found: Seq<Groups>,
    k: int,
) -> Seq<Seq<char>>
    decreases k,
{
    if k <= 0 || k > found.len() {
        Seq::empty()
    } else {
        with_part(
            style_parts(b, html, dir, found, k - 1),
            processed_css(b, style_text(html, found[k - 1]), dir, 0),
        )
    }
}

/// The path of the style sheet that a link leads to; none where it leads to none.
pub open spec fn linked_sheet(tag: Seq<char>, dir: Seq<char>) -> Option<Seq<char>> {
    match first_group(REL_ATTR@, tag, 1) {
        Some(rel) => if has_word(lowercase(rel), "stylesheet"@) {
            match first_group(HREF_ATTR@, tag, 1) {
                Some(href) => if resolved(dir, trimmed(href)).len() == 0 {
                    None
                } else {
                    Some(resolved(dir, trimmed(href)))
                },
                None => None,
            }
        } else {
            None
        },
        None => None,
    }
}

/// What a link of a chapter adds.
pub open spec fn with_link(
    b: Epub,
    parts: Seq<Seq<char>>,
    tag: Seq<char>,
    dir: Seq<char>,
) -> Seq<Seq<char>> {
    match linked_sheet(tag, dir) {
        Some(path) => match entry_bytes(b.zip, path) {
            Ok(bytes) => with_part(parts, processed_css(b, utf8_lossy(bytes), parent(path), 0)),
            Err(_) => parts,
        },
        None => parts,
    }
}

/// What the first `k` links of a chapter add.
pub open spec fn link_parts(
    b: Epub,
    html: Seq<char>,
    dir: Seq<char>,
    found: Seq<Groups>,
    parts: Seq<Seq<char>>,
    k: int,
) -> Seq<Seq<char>>
    decreases k,
{
    if k <= 0 || k > found.len() {
        parts
    } else {
        with_link(
            b,
            link_parts(b, html, dir, found, parts, k - 1),
            group_text(html, found[k - 1], 0).unwrap(),
            dir,
        )
    }
}

/// The style of a chapter: its style blocks and then the sheets it links to.
pub open spec fn book_css(b: Epub, html: Seq<char>, dir: Seq<char>) -> Seq<char> {
    let styles = regex_spans(STYLE_BLOCK@, html);
    let links = regex_spans(LINK_TAG@, html);
    let own = style_parts(b, html, dir, styles, styles.len() as int);
    join(link_parts(b, html, dir, links, own, links.len() as int), "\n"@)
}

// ---------------------------------------------------------------------------
// Chapters
// ---------------------------------------------------------------------------

/// The HTML of a chapter as it is shown.
pub open spec fn chapter_html(b: Epub, raw: Seq<char>, dir: Seq<char>, styled: bool) -> Seq<char> {
    let body = images_inlined(b, dir, book_html(raw, styled));
    let css = book_css(b, raw, dir);
    if styled && trimmed(css).len() > 0 {
        body + "<style data-book-css>"@ + css + "</style>"@
    } else {
        body
    }
}

/// A chapter as it is shown, with the book's own style or without.
pub open spec fn epub_chapter(b: Epub, index: int, styled: bool) -> Result<Chapter, Failure> {
    if index >= b.spine.len() {
        Err(Failure::ChapterOutOfRange(index as u32))
    } else {
        match entry_bytes(b.zip, b.spine[index]) {
            Err(e) => Err(e),
            Ok(bytes) => Ok(
                Chapter {
                    book_id: b.book_id,
                    chapter_index: index as u32,
                    title: href_title(b.spine[index]),
                    kind: ChapterKind::Html,
                    html: Some(
                        chapter_html(b, utf8_lossy(bytes), parent(b.spine[index]), styled),
                    ),
                    text: None,
                    image_refs: None,
                },
            ),
        }
    }
}

/// The path that a request for a resource means; `cover` means the cover.
pub open spec fn requested_path(b: Epub, path: Seq<char>) -> Result<Seq<char>, Failure> {
    if path == "cover"@ {
        match b.cover {
            Some(c) => Ok(c),
            None => Err(Failure::ResourceNotFound("cover"@)),
        }
    } else {
        Ok(normalized(path))
    }
}

/// A resource: its media type and its bytes.
pub open spec fn epub_resource(b: Epub, path: Seq<char>) -> Result<(Seq<char>, Seq<u8>), Failure> {
    match requested_path(b, path) {
        Err(e) => Err(e),
        Ok(p) => match entry_bytes(b.zip, p) {
            Err(e) => Err(e),
            Ok(bytes) => Ok((mime_of(p), bytes)),
        },
    }
}

impl EpubBook {
    fn size_at(&self, path: &str) -> (r: u64)
        ensures
            r == stated_size(self.deep_view(), path@),
    {
        match self.archive.locate_entry_name(path) {
            Some(name) => match self.archive.size(name.as_str()) {
                Ok(n) => n,
                Err(_) => 0,
            },
            None => 0,
        }
    }

    /// The address that a reference to a resource is exchanged for.
    pub fn resource_ref_for(&self, dir: &[char], reference: &[char]) -> (r: Option<Vec<char>>)
        ensures
            match r {
                Some(t) => resource_ref(self.deep_view(), dir@, reference@) == Some(t@),
                None => resource_ref(self.deep_view(), dir@, reference@) is None,
            },
    {
        let src = trim(reference);
        if src.len() == 0 || starts_with(src, "data:") || starts_with(src, "http://")
            || starts_with(src, "https://") || starts_with(src, "reader-res:") {
            return None;
        }
        let norm = resolve(dir, src);
        if norm.len() == 0 {
            return None;
        }
        let path = string_of(&norm);
        let size = self.size_at(path.as_str());
        if size == 0 {
            return None;
        }
        if size <= MAX_INLINE_IMAGE_SIZE {
            match self.read_bytes(path.as_str()) {
                Ok(bytes) => {
                    let mut out = chars_of("data:");
                    push_str(&mut out, guess_mime(path.as_str()));
                    push_str(&mut out, ";base64,");
                    push_str(&mut out, encode_base64(bytes.as_slice()).as_str());
                    Some(out)
                },
                Err(_) => None,
            }
        } else {
            let mut out = chars_of(origin(self.windows));
            push_str(&mut out, self.book_id.as_str());
            push_str(&mut out, "/");
            push_str(&mut out, percent_encode(path.as_str()).as_str());
            Some(out)
        }
    }

    fn inline_image(
        &self,
        dir: &[char],
        html: &[char],
        row: &Vec<Option<(usize, usize)>>,
    ) -> (r: Vec<char>)
        requires
            row_within(row_ints(row@), html@.len() as int),
        ensures
            r@ == image_inlined(self.deep_view(), dir@, html@, row_ints(row@)),
    {
        let ghost m = row_ints(row@);
        let whole = whole_of(html, row);
        let src: Option<(usize, usize)> = if row.len() > 1 && row[1].is_some() {
            row[1]
        } else if row.len() > 2 {
            row[2]
        } else {
            None
        };
        match src {
            Some((i, j)) => {
                assert(image_src(m) == Some((i as int, j as int)));
                match row[0] {
                    Some((start, end)) => {
                        assert(m[0] == Some((start as int, end as int)));
                        match self.resource_ref_for(dir, &part(html, i, j)) {
                            Some(uri) => {
                                let mut out = part(html, start, i);
                                push_all(&mut out, &uri);
                                push_all(&mut out, &part(html, j, end));
                                out
                            },
                            None => whole,
                        }
                    },
                    None => whole,
                }
            },
            None => {
                assert(image_src(m) is None);
                whole
            },
        }
    }

    /// Exchanges the references of the images of a chapter.
    pub fn inline_images(&self, dir: &[char], html: &[char]) -> (r: Vec<char>)
        ensures
            r@ == images_inlined(self.deep_view(), dir@, html@),
    {
        let rows = spans(IMAGE_SRC, html);
        let ghost found = ints(rows@);
        let ghost b = self.deep_view();
        let mut with: Vec<Vec<char>> = Vec::new();
        let mut i: usize = 0;
        while i < rows.len()
            invariant
                i <= rows@.len(),
                found == ints(rows@),
                b == self.deep_view(),
                in_order(found, html@.len() as int),
                with@.len() == i,
                forall|j: int|
                    0 <= j < i ==> (#[trigger] with@[j])@ == image_inlined(
                        b,
                        dir@,
                        html@,
                        found[j],
                    ),
            decreases rows@.len() - i,
        {
            proof {
                row_of(rows@, i as int, html@.len() as int);
            }
            with.push(self.inline_image(dir, html, &rows[i]));
            i = i + 1;
        }
        assert(texts(with@) =~= image_texts(b, dir@, html@, found));
        splice(html, &rows, &with)
    }

    fn rewrite_url(&self, dir: &[char], css: &[char], row: &Vec<Option<(usize, usize)>>) -> (r: Vec<
        char,
    >)
        requires
            row_within(row_ints(row@), css@.len() as int),
        ensures
            r@ == url_rewritten(self.deep_view(), dir@, css@, row_ints(row@)),
    {
        let whole = whole_of(css, row);
        let inner = match group(css, row, 1) {
            Some(t) => t,
            None => {
                let none: Vec<char> = Vec::new();
                assert(none@ =~= Seq::empty());
                none
            },
        };
        let target = trim(&inner);
        if target.len() == 0 {
            return whole;
        }
        let low = to_lower_ascii(target);
        if starts_with(&low, "http://") || starts_with(&low, "https://") {
            return chars_of("none");
        }
        if starts_with(&low, "data:") || starts_with(&low, "reader-res:") || starts_with(
            target,
            "#",
        ) {
            return whole;
        }
        match self.resource_ref_for(dir, target) {
            Some(uri) => {
                let mut out = chars_of("url(\"");
                push_all(&mut out, &uri);
                push_str(&mut out, "\")");
                out
            },
            None => whole,
        }
    }

    /// Exchanges the references of a style sheet.
    pub fn rewrite_css_urls(&self, dir: &[char], css: &[char]) -> (r: Vec<char>)
        ensures
            r@ == urls_rewritten(self.deep_view(), dir@, css@),
    {
        let rows = spans(CSS_URL, css);
        let ghost found = ints(rows@);
        let ghost b = self.deep_view();
        let mut with: Vec<Vec<char>> = Vec::new();
        let mut i: usize = 0;
        while i < rows.len()
            invariant
                i <= rows@.len(),
                found == ints(rows@),
                b == self.deep_view(),
                in_order(found, css@.len() as int),
                with@.len() == i,
                forall|j: int|
                    0 <= j < i ==> (#[trigger] with@[j])@ == url_rewritten(b, dir@, css@, found[j]),
            decreases rows@.len() - i,
        {
            proof {
                row_of(rows@, i as int, css@.len() as int);
            }
            with.push(self.rewrite_url(dir, css, &rows[i]));
            i = i + 1;
        }
        assert(texts(with@) =~= url_texts(b, dir@, css@, found));
        splice(css, &rows, &with)
    }

    /// Puts what a style sheet imports in its place.
    pub fn inline_css_imports(&self, dir: &[char], css: &[char], depth: u32) -> (r: Vec<char>)
        requires
            depth <= MAX_CSS_IMPORT_DEPTH,
        ensures
            r@ == spliced(
                css@,
                regex_spans(CSS_IMPORT@, css@),
                import_texts(
                    self.deep_view(),
                    dir@,
                    css@,
                    regex_spans(CSS_IMPORT@, css@),
                    depth as nat,
                    regex_spans(CSS_IMPORT@, css@).len() as int,
                ),
            ),
        decreases MAX_CSS_IMPORT_DEPTH + 1 - depth, 0int,
    {
        let rows = spans(CSS_IMPORT, css);
        let ghost found = ints(rows@);
        let ghost b = self.deep_view();
        let mut with: Vec<Vec<char>> = Vec::new();
        assert(texts(with@) =~= Seq::empty());
        let mut i: usize = 0;
        while i < rows.len()
            invariant
                i <= rows@.len(),
                depth <= MAX_CSS_IMPORT_DEPTH,
                found == ints(rows@),
                b == self.deep_view(),
                in_order(found, css@.len() as int),
                with@.len() == i,
                texts(with@) == import_texts(b, dir@, css@, found, depth as nat, i as int),
            decreases rows@.len() - i,
        {
            proof {
                row_of(rows@, i as int, css@.len() as int);
            }
            let mut piece: Vec<char> = Vec::new();
            assert(piece@ =~= Seq::empty());
            if let Some(path) = path_of_import(dir, css, &rows[i]) {
                if let Ok(bytes) = self.read_bytes(string_of(&path).as_str()) {
                    let text = from_utf8_lossy(bytes.as_slice());
                    let sub = parent_of(&path);
                    piece = self.process_book_css(&chars_of(text.as_str()), &sub, depth + 1);
                }
            }
            let ghost before = with@;
            with.push(piece);
            proof {
                texts_push(before, piece);
            }
            i = i + 1;
        }
        splice(css, &rows, &with)
    }

    /// What is taken over of a style sheet.
    pub fn process_book_css(&self, css: &[char], dir: &[char], depth: u32) -> (r: Vec<char>)
        requires
            depth <= MAX_CSS_IMPORT_DEPTH + 1,
        ensures
            r@ == processed_css(self.deep_view(), css@, dir@, depth as nat),
            r@.len() > 0 ==> regex_spans(CSS_DANGER@, r@).len() == 0,
        decreases MAX_CSS_IMPORT_DEPTH + 1 - depth, 1int,
    {
        if depth > MAX_CSS_IMPORT_DEPTH || byte_count(css) > MAX_BOOK_CSS_SIZE {
            let none: Vec<char> = Vec::new();
            assert(none@ =~= Seq::empty());
            return none;
        }
        let safe = chars_of(harden_css(string_of(css).as_str()).as_str());
        let with_imports = self.inline_css_imports(dir, &safe, depth);
        let rewritten = self.rewrite_css_urls(dir, &with_imports);
        let full = augment_css(&rewritten);
        chars_of(harden_css(string_of(&full).as_str()).as_str())
    }

    fn push_styles(&self, html: &[char], dir: &[char], parts: &mut Vec<Vec<char>>)
        requires
            old(parts)@.len() == 0,
        ensures
            texts(final(parts)@) == style_parts(
                self.deep_view(),
                html@,
                dir@,
                regex_spans(STYLE_BLOCK@, html@),
                regex_spans(STYLE_BLOCK@, html@).len() as int,
            ),
    {
        let rows = spans(STYLE_BLOCK, html);
        let ghost found = ints(rows@);
        let ghost b = self.deep_view();
        let open = chars_of("<![CDATA[");
        let close = chars_of("]]>");
        let none = chars_of("");
        proof {
            reveal_strlit("<![CDATA[");
            reveal_strlit("]]>");
        }
        assert(texts(parts@) =~= Seq::empty());
        let mut i: usize = 0;
        while i < rows.len()
            invariant
                i <= rows@.len(),
                found == ints(rows@),
                b == self.deep_view(),
                in_order(found, html@.len() as int),
                open@ == "<![CDATA["@,
                close@ == "]]>"@,
                none@ == ""@,
                open@.len() > 0,
                close@.len() > 0,
                texts(parts@) == style_parts(b, html@, dir@, found, i as int),
            decreases rows@.len() - i,
        {
            proof {
                row_of(rows@, i as int, html@.len() as int);
            }
            let inner = match group(html, &rows[i], 1) {
                Some(t) => t,
                None => {
                    let e: Vec<char> = Vec::new();
                    assert(e@ =~= Seq::empty());
                    e
                },
            };
            let plain = resolve_entities(&inner);
            let css = replace(&replace(&plain, &open, &none), &close, &none);
            let out = self.process_book_css(&css, dir, 0);
            push_part(parts, out);
            i = i + 1;
        }
    }

    fn push_links(&self, html: &[char], dir: &[char], parts: &mut Vec<Vec<char>>)
        ensures
            texts(final(parts)@) == link_parts(
                self.deep_view(),
                html@,
                dir@,
                regex_spans(LINK_TAG@, html@),
                texts(old(parts)@),
                regex_spans(LINK_TAG@, html@).len() as int,
            ),
    {
        let rows = spans(LINK_TAG, html);
        let ghost found = ints(rows@);
        let ghost b = self.deep_view();
        let ghost start = texts(parts@);
        let mut i: usize = 0;
        while i < rows.len()
            invariant
                i <= rows@.len(),
                found == ints(rows@),
                b == self.deep_view(),
                in_order(found, html@.len() as int),
                texts(parts@) == link_parts(b, html@, dir@, found, start, i as int),
            decreases rows@.len() - i,
        {
            proof {
                row_of(rows@, i as int, html@.len() as int);
            }
            let tag = whole_of(html, &rows[i]);
            if let Some(path) = sheet_of_link(&tag, dir) {
                if let Ok(bytes) = self.read_bytes(string_of(&path).as_str()) {
                    let text = from_utf8_lossy(bytes.as_slice());
                    let sub = parent_of(&path);
                    let out = self.process_book_css(&chars_of(text.as_str()), &sub, 0);
                    push_part(parts, out);
                }
            }
            i = i + 1;
        }
    }

    /// The style of a chapter.
    pub fn collect_book_css(&self, html: &[char], dir: &[char]) -> (r: Vec<char>)
        ensures
            r@ == book_css(self.deep_view(), html@, dir@),
    {
        let mut parts: Vec<Vec<char>> = Vec::new();
        self.push_styles(html, dir, &mut parts);
        self.push_links(html, dir, &mut parts);
        join_all(&parts, &chars_of("\n"))
    }

    fn chapter(&self, index: usize, styled: bool) -> (r: AppResult<ChapterContent>)
        ensures
            match r {
                Ok(c) => epub_chapter(self.deep_view(), index as int, styled) == Ok::<
                    Chapter,
                    Failure,
                >(c.deep_view()),
                Err(e) => epub_chapter(self.deep_view(), index as int, styled) == Err::<
                    Chapter,
                    Failure,
                >(e@),
            },
    {
        if index >= self.spine.len() {
            return Err(AppError::ChapterOutOfRange(index as u32));
        }
        assert(self.deep_view().spine[index as int] == self.spine@[index as int]@);
        let path = self.spine[index].as_str();
        let bytes = match self.read_bytes(path) {
            Ok(b) => b,
            Err(e) => {
                return Err(e);
            },
        };
        let raw = from_utf8_lossy(bytes.as_slice());
        let dir = parent_of(&chars_of(path));
        let clean = chars_of(sanitize_book_html(raw.as_str(), styled).as_str());
        let mut body = self.inline_images(&dir, &clean);
        if styled {
            let css = self.collect_book_css(&chars_of(raw.as_str()), &dir);
            if trim(&css).len() > 0 {
                push_str(&mut body, "<style data-book-css>");
                push_all(&mut body, &css);
                push_str(&mut body, "</style>");
            }
        }
        let r = ChapterContent {
            book_id: self.book_id.clone(),
            chapter_index: index as u32,
            title: fallback_title(path),
            kind: ChapterKind::Html,
            html: Some(string_of(&body)),
            text: None,
            image_refs: None,
        };
        assert(r.deep_view() =~= epub_chapter(
            self.deep_view(),
            index as int,
            styled,
        )->Ok_0);
        Ok(r)
    }

    /// Loads a chapter: its HTML cleaned, and then the references of its images exchanged.
    pub fn load_chapter(&self, index: usize) -> (r: AppResult<ChapterContent>)
        ensures
            match r {
                Ok(c) => epub_chapter(self.deep_view(), index as int, false) == Ok::<
                    Chapter,
                    Failure,
                >(c.deep_view()),
                Err(e) => epub_chapter(self.deep_view(), index as int, false) == Err::<
                    Chapter,
                    Failure,
                >(e@),
            },
    {
        self.chapter(index, false)
    }

    /// Loads a chapter with the book's own style, which stands behind its text.
    pub fn load_chapter_styled(&self, index: usize) -> (r: AppResult<ChapterContent>)
        ensures
            match r {
                Ok(c) => epub_chapter(self.deep_view(), index as int, true) == Ok::<
                    Chapter,
                    Failure,
                >(c.deep_view()),
                Err(e) => epub_chapter(self.deep_view(), index as int, true) == Err::<
                    Chapter,
                    Failure,
                >(e@),
            },
    {
        self.chapter(index, true)
    }

    /// Loads a resource: its media type and its bytes.
    pub fn load_resource_bytes(&self, path: &str) -> (r: AppResult<(String, Vec<u8>)>)
        ensures
            match r {
                Ok((mime, bytes)) => epub_resource(self.deep_view(), path@) == Ok::<
                    (Seq<char>, Seq<u8>),
                    Failure,
                >((mime@, bytes@)),
                Err(e) => epub_resource(self.deep_view(), path@) == Err::<
                    (Seq<char>, Seq<u8>),
                    Failure,
                >(e@),
            },
    {
        let norm = if crate::text::same_str(path, "cover") {
            match &self.cover_resource {
                Some(c) => c.clone(),
                None => {
                    return Err(AppError::ResourceNotFound("cover".to_owned()));
                },
            }
        } else {
            normalize_path(path)
        };
        match self.read_bytes(norm.as_str()) {
            Ok(bytes) => Ok((guess_mime(norm.as_str()).to_owned(), bytes)),
            Err(e) => Err(e),
        }
    }
}

fn whole_of(text: &[char], row: &Vec<Option<(usize, usize)>>) -> (r: Vec<char>)
    requires
        row_within(row_ints(row@), text@.len() as int),
    ensures
        group_text(text@, row_ints(row@), 0) == Some(r@),
{
    match group(text, row, 0) {
        Some(t) => t,
        None => Vec::new(),
    }
}

fn path_of_import(dir: &[char], css: &[char], row: &Vec<Option<(usize, usize)>>) -> (r: Option<
    Vec<char>,
>)
    requires
        row_within(row_ints(row@), css@.len() as int),
    ensures
        match r {
            Some(p) => import_path(dir@, css@, row_ints(row@)) == Some(p@),
            None => import_path(dir@, css@, row_ints(row@)) is None,
        },
{
    let inner = match group(css, row, 1) {
        Some(t) => t,
        None => {
            let none: Vec<char> = Vec::new();
            assert(none@ =~= Seq::empty());
            none
        },
    };
    let target = trim(&inner);
    let low = to_lower_ascii(target);
    if starts_with(&low, "http://") || starts_with(&low, "https://") || starts_with(&low, "data:") {
        return None;
    }
    let path = resolve(dir, target);
    if path.len() == 0 {
        return None;
    }
    Some(path)
}

fn sheet_of_link(tag: &[char], dir: &[char]) -> (r: Option<Vec<char>>)
    ensures
        match r {
            Some(p) => linked_sheet(tag@, dir@) == Some(p@),
            None => linked_sheet(tag@, dir@) is None,
        },
{
    let rel = match find_group(REL_ATTR, tag, 1) {
        Some(t) => t,
        None => {
            return None;
        },
    };
    let low = chars_of(to_lowercase(string_of(&rel).as_str()).as_str());
    if !contains_word(&low, &chars_of("stylesheet")) {
        return None;
    }
    match find_group(HREF_ATTR, tag, 1) {
        Some(href) => {
            let path = resolve(dir, trim(&href));
            if path.len() == 0 {
                None
            } else {
                Some(path)
            }
        },
        None => None,
    }
}

fn push_part(parts: &mut Vec<Vec<char>>, t: Vec<char>)
    ensures
        texts(final(parts)@) == with_part(texts(old(parts)@), t@),
{
    if trim(&t).len() > 0 {
        let ghost before = parts@;
        parts.push(t);
        proof {
            texts_push(before, t);
        }
    }
}

} // verus!
