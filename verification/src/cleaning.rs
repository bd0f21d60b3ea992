//! Cleaning the HTML of a book: only a fixed list of elements and attributes passes.
use vstd::prelude::*;
use crate::regexes::{cut_out, ints, regex_spans, spans, without, without_is_shorter, CSS_DANGER};
use crate::text::{chars_of, string_of};

verus! {

/// The elements that pass.
pub const BOOK_TAGS: &'static str =
    "p div span br hr h1 h2 h3 h4 h5 h6 em strong b i u s sup sub small big blockquote q cite pre code ul ol li dl dt dd table thead tbody tfoot tr th td caption img figure figcaption a ruby rt rp aside";

/// The attributes that pass on every element.
pub const BOOK_ATTRS: &'static str = "id lang dir title epub:type role data-fn-text";

/// The attributes that pass on every element where the book's own styles are kept.
pub const STYLED_ATTRS: &'static str = "id lang dir title epub:type role data-fn-text class style";

/// The attributes that pass on every element of a Mobipocket book.
pub const MOBI_ATTRS: &'static str = "id lang dir title epub:type role data-fn-text aid";

/// The attributes that pass on an image.
pub const IMG_ATTRS: &'static str = "src alt width height";

/// The attributes that pass on a link.
pub const LINK_ATTRS: &'static str = "href title";

/// The schemes that pass in an address.
pub const BOOK_SCHEMES: &'static str = "data mailto";

/// The schemes that pass in an address of a Mobipocket book.
pub const MOBI_SCHEMES: &'static str = "data mailto http reader-res";

/// The library's list of elements; it does not name `script` or `style`.
pub open spec fn is_tag_list(tags: Seq<char>) -> bool {
    tags == BOOK_TAGS@
}

/// What cleaning leaves of HTML, given the lists of words that pass, each parted by spaces:
/// elements, attributes on every element, attributes on images and on links, and schemes.
pub uninterp spec fn cleaned_html(
    html: Seq<char>,
    tags: Seq<char>,
    attrs: Seq<char>,
    img_attrs: Seq<char>,
    link_attrs: Seq<char>,
    schemes: Seq<char>,
) -> Seq<char>;

/// `ammonia::Builder::clean`: HTML reduced to what the lists let pass, relative addresses kept
/// and no `rel` added. What is left is given the name `cleaned_html`.
#[verifier::external_body]
fn clean(
    html: &str,
    tags: &str,
    attrs: &str,
    img_attrs: &str,
    link_attrs: &str,
    schemes: &str,
) -> (r: String)
    requires
        is_tag_list(tags@),
    ensures
        r@ == cleaned_html(html@, tags@, attrs@, img_attrs@, link_attrs@, schemes@),
{
    ammonia::Builder::default()
        .tags(tags.split(' ').collect())
        .generic_attributes(attrs.split(' ').collect())
        .tag_attributes(std::collections::HashMap::from([
            ("img", img_attrs.split(' ').collect()),
            ("a", link_attrs.split(' ').collect()),
        ]))
        .url_schemes(schemes.split(' ').collect())
        .url_relative(ammonia::UrlRelative::PassThrough)
        .link_rel(None)
        .clean(html)
        .to_string()
}

/// CSS without the constructs that could run code: they are taken out, and again out of what is
/// left, until that makes it no shorter.
pub open spec fn hardened(css: Seq<char>) -> Seq<char>
    decreases css.len(),
{
    let left = without(css, regex_spans(CSS_DANGER@, css));
    if left.len() < css.len() {
        hardened(left)
    } else {
        left
    }
}

/// Takes the constructs that could run code out of CSS. None is left, not even one that came
/// about as another was taken out of its middle.
pub fn harden_css(css: &str) -> (r: String)
    ensures
        r@ == hardened(css@),
        regex_spans(CSS_DANGER@, r@).len() == 0,
{
    let mut left = chars_of(css);
    loop
        invariant
            hardened(left@) == hardened(css@),
        decreases left@.len(),
    {
        let rows = spans(CSS_DANGER, &left);
        proof {
            without_is_shorter(left@, ints(rows@));
        }
        if rows.len() == 0 {
            return string_of(&left);
        }
        left = cut_out(&left, &rows);
    }
}

/// What is left of a book's HTML.
pub open spec fn book_html(html: Seq<char>, preserve_styles: bool) -> Seq<char> {
    if preserve_styles {
        hardened(
            cleaned_html(html, BOOK_TAGS@, STYLED_ATTRS@, IMG_ATTRS@, LINK_ATTRS@, BOOK_SCHEMES@),
        )
    } else {
        cleaned_html(html, BOOK_TAGS@, BOOK_ATTRS@, IMG_ATTRS@, LINK_ATTRS@, BOOK_SCHEMES@)
    }
}

/// Cleans the HTML of a book; classes and inline styles pass only where they are to be kept,
/// and then without the constructs that could run code.
pub fn sanitize_book_html(html: &str, preserve_styles: bool) -> (r: String)
    ensures
        r@ == book_html(html@, preserve_styles),
        preserve_styles ==> regex_spans(CSS_DANGER@, r@).len() == 0,
{
    if preserve_styles {
        let s = clean(html, BOOK_TAGS, STYLED_ATTRS, IMG_ATTRS, LINK_ATTRS, BOOK_SCHEMES);
        harden_css(s.as_str())
    } else {
        clean(html, BOOK_TAGS, BOOK_ATTRS, IMG_ATTRS, LINK_ATTRS, BOOK_SCHEMES)
    }
}

/// What is left of a Mobipocket book's HTML.
pub open spec fn mobi_html(html: Seq<char>) -> Seq<char> {
    cleaned_html(html, BOOK_TAGS@, MOBI_ATTRS@, IMG_ATTRS@, LINK_ATTRS@, MOBI_SCHEMES@)
}

/// Cleans the HTML of a Mobipocket book.
pub fn sanitize_mobi_html(html: &str) -> (r: String)
    ensures
        r@ == mobi_html(html@),
{
    clean(html, BOOK_TAGS, MOBI_ATTRS, IMG_ATTRS, LINK_ATTRS, MOBI_SCHEMES)
}

} // verus!
