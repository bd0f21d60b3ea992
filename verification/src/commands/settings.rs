//! The settings of the reader, and what is said of its caches.
use vstd::prelude::*;
use crate::commands::shelf::unless_blank;
use crate::model::{PageTurnEffect, ReadingMode, ShelfSortMode, Theme};
use crate::text::{chars_of, trim};

verus! {

/// How a book is set. The height of lines is held by the bits of its number.
#[derive(Debug, Clone)]
pub struct ReaderSettings {
    pub font_size_px: u16,
    pub line_height_bits: u32,
    pub page_margin_px: u16,
    pub theme: Theme,
    pub reading_mode: ReadingMode,
    pub two_page_spread: bool,
    pub page_turn_effect: PageTurnEffect,
    pub scroll_effect: PageTurnEffect,
    pub column_width_px: u16,
    pub scroll_column_width_px: u16,
    pub font_family: Option<String>,
    pub default_category: Option<String>,
    pub shelf_card_size: u8,
    pub shelf_sort_mode: ShelfSortMode,
    pub minimize_to_tray: bool,
}

/// `ReaderSettings` over sequences.
#[verifier::ext_equal]
pub struct Settings {
    pub font_size_px: int,
    pub line_height_bits: u32,
    pub page_margin_px: int,
    pub theme: Theme,
    pub reading_mode: ReadingMode,
    pub two_page_spread: bool,
    pub page_turn_effect: PageTurnEffect,
    pub scroll_effect: PageTurnEffect,
    pub column_width_px: int,
    pub scroll_column_width_px: int,
    pub font_family: Option<Seq<char>>,
    pub default_category: Option<Seq<char>>,
    pub shelf_card_size: int,
    pub shelf_sort_mode: ShelfSortMode,
    pub minimize_to_tray: bool,
}

impl DeepView for ReaderSettings {
    type V = Settings;

    open spec fn deep_view(&self) -> Settings {
        Settings {
            font_size_px: self.font_size_px as int,
            line_height_bits: self.line_height_bits,
            page_margin_px: self.page_margin_px as int,
            theme: self.theme,
            reading_mode: self.reading_mode,
            two_page_spread: self.two_page_spread,
            page_turn_effect: self.page_turn_effect,
            scroll_effect: self.scroll_effect,
            column_width_px: self.column_width_px as int,
            scroll_column_width_px: self.scroll_column_width_px as int,
            font_family: self.font_family.deep_view(),
            default_category: self.default_category.deep_view(),
            shelf_card_size: self.shelf_card_size as int,
            shelf_sort_mode: self.shelf_sort_mode,
            minimize_to_tray: self.minimize_to_tray,
        }
    }
}

/// The bits of the height of lines that is set at first, 1.6.
pub const DEFAULT_LINE_HEIGHT_BITS: u32 = 0x3fcccccd;

/// The settings at first.
pub open spec fn first_settings() -> Settings {
    Settings {
        font_size_px: 18,
        line_height_bits: DEFAULT_LINE_HEIGHT_BITS,
        page_margin_px: 32,
        theme: Theme::Light,
        reading_mode: ReadingMode::Paginated,
        two_page_spread: false,
        page_turn_effect: PageTurnEffect::Standard,
        scroll_effect: PageTurnEffect::Standard,
        column_width_px: 730,
        scroll_column_width_px: 720,
        font_family: None,
        default_category: None,
        shelf_card_size: 30,
        shelf_sort_mode: ShelfSortMode::Recent,
        minimize_to_tray: false,
    }
}

impl Default for ReaderSettings {
    fn default() -> (r: Self)
        ensures
            r.deep_view() == first_settings(),
    {
        ReaderSettings {
            font_size_px: 18,
            line_height_bits: DEFAULT_LINE_HEIGHT_BITS,
            page_margin_px: 32,
            theme: Theme::Light,
            reading_mode: ReadingMode::Paginated,
            two_page_spread: false,
            page_turn_effect: PageTurnEffect::Standard,
            scroll_effect: PageTurnEffect::Standard,
            column_width_px: 730,
            scroll_column_width_px: 720,
            font_family: None,
            default_category: None,
            shelf_card_size: 30,
            shelf_sort_mode: ShelfSortMode::Recent,
            minimize_to_tray: false,
        }
    }
}

/// A number brought between two others.
pub open spec fn between(n: int, low: int, high: int) -> int {
    if n < low {
        low
    } else if n > high {
        high
    } else {
        n
    }
}

fn bring_between(n: u16, low: u16, high: u16) -> (r: u16)
    requires
        low <= high,
    ensures
        r == between(n as int, low as int, high as int),
{
    if n < low {
        low
    } else if n > high {
        high
    } else {
        n
    }
}

/// Settings within their bounds; a font without a name is none.
pub open spec fn bounded(s: Settings) -> Settings {
    Settings {
        font_size_px: between(s.font_size_px, 10, 40),
        page_margin_px: between(s.page_margin_px, 0, 120),
        scroll_column_width_px: between(s.scroll_column_width_px, 480, 2000),
        shelf_card_size: between(s.shelf_card_size, 0, 100),
        font_family: unless_blank(s.font_family),
        ..s
    }
}

/// Brings settings within their bounds. The height of lines is left as it is.
pub fn update_reader_settings(settings: ReaderSettings) -> (r: ReaderSettings)
    ensures
        r.deep_view() == bounded(settings.deep_view()),
{
    let mut s = settings;
    s.font_size_px = bring_between(s.font_size_px, 10, 40);
    s.page_margin_px = bring_between(s.page_margin_px, 0, 120);
    s.scroll_column_width_px = bring_between(s.scroll_column_width_px, 480, 2000);
    if s.shelf_card_size > 100 {
        s.shelf_card_size = 100;
    }
    let blank = match &s.font_family {
        Some(f) => trim(&chars_of(f)).len() == 0,
        None => false,
    };
    if blank {
        s.font_family = None;
    }
    assert(s.deep_view() =~= bounded(settings.deep_view()));
    s
}

/// Settings within their bounds stay as they are, and so do the first ones.
pub proof fn bounds_are_kept(s: Settings)
    ensures
        bounded(bounded(s)) == bounded(s),
        bounded(first_settings()) == first_settings(),
{
    assert(bounded(bounded(s)) =~= bounded(s));
    assert(bounded(first_settings()) =~= first_settings());
}

/// What is said of the caches: where they are and how many bytes they hold.
#[derive(Debug, Clone)]
pub struct CacheInfo {
    pub webview_dir: String,
    pub webview_size_bytes: u64,
    pub covers_size_bytes: u64,
    pub custom: bool,
    pub data_dir: String,
}

/// What is said of the caches. The directory that was chosen counts before the one of the program.
pub fn cache_info(
    chosen_dir: &Option<String>,
    default_dir: &str,
    data_dir: &str,
    webview_size_bytes: u64,
    covers_size_bytes: u64,
) -> (r: CacheInfo)
    ensures
        r.webview_dir@ == (match *chosen_dir {
            Some(d) => d@,
            None => default_dir@,
        }),
        r.webview_size_bytes == webview_size_bytes,
        r.covers_size_bytes == covers_size_bytes,
        r.custom == (chosen_dir is Some),
        r.data_dir@ == data_dir@,
{
    let webview_dir = match chosen_dir {
        Some(d) => d.clone(),
        None => default_dir.to_owned(),
    };
    CacheInfo {
        webview_dir,
        webview_size_bytes,
        covers_size_bytes,
        custom: chosen_dir.is_some(),
        data_dir: data_dir.to_owned(),
    }
}

/// Settings that lie within their bounds are taken as they are; one that lies beyond is brought to the
/// nearest bound. What has no bounds is never changed.
pub proof fn settings_are_taken_as_they_are(s: Settings)
    ensures
        ({
            let r = bounded(s);
            &&& 10 <= r.font_size_px <= 40 && (10 <= s.font_size_px <= 40 ==> r.font_size_px
                == s.font_size_px)
            &&& s.font_size_px < 10 ==> r.font_size_px == 10
            &&& s.font_size_px > 40 ==> r.font_size_px == 40
            &&& 0 <= r.page_margin_px <= 120 && (0 <= s.page_margin_px <= 120 ==> r.page_margin_px
                == s.page_margin_px)
            &&& s.page_margin_px > 120 ==> r.page_margin_px == 120
            &&& 480 <= r.scroll_column_width_px <= 2000 && (480 <= s.scroll_column_width_px <= 2000
                ==> r.scroll_column_width_px == s.scroll_column_width_px)
            &&& s.scroll_column_width_px < 480 ==> r.scroll_column_width_px == 480
            &&& s.scroll_column_width_px > 2000 ==> r.scroll_column_width_px == 2000
            &&& 0 <= r.shelf_card_size <= 100 && (0 <= s.shelf_card_size <= 100 ==> r.shelf_card_size
                == s.shelf_card_size)
            &&& s.shelf_card_size > 100 ==> r.shelf_card_size == 100
            &&& (s.font_family matches Some(f) && crate::text::trimmed(f).len() > 0)
                ==> r.font_family == s.font_family
            &&& (s.font_family matches Some(f) && crate::text::trimmed(f).len() == 0)
                ==> r.font_family is None
            &&& r == Settings {
                font_size_px: r.font_size_px,
                page_margin_px: r.page_margin_px,
                scroll_column_width_px: r.scroll_column_width_px,
                shelf_card_size: r.shelf_card_size,
                font_family: r.font_family,
                ..s
            }
        }),
{
}

} // verus!
