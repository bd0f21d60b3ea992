//! How the text of a Mobipocket book falls into chapters.
use vstd::prelude::*;
use crate::error::{AppResult, Failure};
use crate::numbers::{parse_decimal, parsed};
use crate::parser::mobi::head::{OFF_KF8_FRAG, OFF_KF8_SKEL};
use crate::parser::mobi::index::{
    get_index_data, index_of, tag_value, value_of_tag, Entry, IndexEntry,
};
use crate::parser::mobi::pdb::{be32, u32_at, Pdb};
use crate::parser::mobi::toc::{Kf8Frag, Kf8Section, Part, Section};
use crate::regexes::{in_order, ints, row_of, Groups};
use crate::text::chars_of;
use crate::views::{deep_empty, deep_push};

verus! {

// ---------------------------------------------------------------------------
// KF8: skeletons and fragments
// ---------------------------------------------------------------------------

/// The fragment that an entry describes; none where its name is no number or a value is missing.
pub open spec fn frag_of(entry: Entry) -> Option<Kf8Frag> {
    match (
        parsed(entry.name, 10, u64::MAX as int),
        tag_value(entry.tags, 4, 0),
        tag_value(entry.tags, 6, 0),
        tag_value(entry.tags, 6, 1),
    ) {
        (Some(at), Some(index), Some(offset), Some(length)) => Some(
            Kf8Frag {
                insert_offset: at as u64,
                offset: offset as u64,
                length: length as u64,
                index,
            },
        ),
        _ => None,
    }
}

/// A fragment put into a row that ascends by place, behind those with the same place.
pub open spec fn with_frag(s: Seq<Kf8Frag>, x: Kf8Frag) -> Seq<Kf8Frag>
    decreases s.len(),
{
    if s.len() == 0 || s.last().insert_offset <= x.insert_offset {
        s.push(x)
    } else {
        with_frag(s.drop_last(), x).push(s.last())
    }
}

/// The fragments of the first `n` entries, by the place at which they are put in; those with the
/// same place in the order of the entries.
pub open spec fn frags_of(table: Seq<Entry>, n: int) -> Seq<Kf8Frag>
    decreases n,
{
    if n <= 0 {
        Seq::empty()
    } else {
        match frag_of(table[n - 1]) {
            Some(f) => with_frag(frags_of(table, n - 1), f),
            None => frags_of(table, n - 1),
        }
    }
}

/// The fragments lie in ascending order of their places.
pub open spec fn frags_ascend(s: Seq<Kf8Frag>) -> bool {
    forall|i: int, j: int| 0 <= i <= j < s.len() ==> s[i].insert_offset <= s[j].insert_offset
}

proof fn with_frag_ascends(s: Seq<Kf8Frag>, x: Kf8Frag)
    requires
        frags_ascend(s),
    ensures
        frags_ascend(with_frag(s, x)),
        with_frag(s, x).len() == s.len() + 1,
        forall|b: u64|
            #![trigger frags_below(with_frag(s, x), b)]
            frags_below(s, b) && x.insert_offset <= b ==> frags_below(with_frag(s, x), b),
    decreases s.len(),
{
    if s.len() == 0 || s.last().insert_offset <= x.insert_offset {
        assert forall|i: int, j: int| 0 <= i <= j < s.push(x).len() implies s.push(
            x,
        )[i].insert_offset <= s.push(x)[j].insert_offset by {
            if i < s.len() {
                assert(s[i].insert_offset <= s[s.len() - 1].insert_offset);
            }
        }
    } else {
        let d = s.drop_last();
        with_frag_ascends(d, x);
        let w = with_frag(d, x);
        assert(frags_below(d, s.last().insert_offset));
        assert(frags_below(w, s.last().insert_offset));
        assert forall|b: u64| frags_below(s, b) && x.insert_offset <= b implies #[trigger] frags_below(
            w.push(s.last()),
            b,
        ) by {
            assert(frags_below(d, b));
            assert(frags_below(w, b));
            assert(s[s.len() - 1].insert_offset <= b);
        }
    }
}

spec fn frags_below(s: Seq<Kf8Frag>, b: u64) -> bool {
    forall|i: int| 0 <= i < s.len() ==> (#[trigger] s[i]).insert_offset <= b
}

/// The fragments of an index are in ascending order of the places at which they are put in.
pub proof fn frags_are_sorted(table: Seq<Entry>, n: int)
    ensures
        frags_ascend(frags_of(table, n)),
    decreases n,
{
    if n > 0 {
        frags_are_sorted(table, n - 1);
        match frag_of(table[n - 1]) {
            Some(f) => {
                with_frag_ascends(frags_of(table, n - 1), f);
            },
            None => {},
        }
    }
}

fn read_frag(entry: &IndexEntry) -> (r: Option<Kf8Frag>)
    ensures
        r == frag_of(entry.deep_view()),
        r matches Some(f) ==> f.offset <= u32::MAX && f.length <= u32::MAX,
{
    let name = chars_of(entry.name.as_str());
    let at = parse_decimal(&name, u64::MAX);
    let index = value_of_tag(&entry.tags, 4, 0);
    let offset = value_of_tag(&entry.tags, 6, 0);
    let length = value_of_tag(&entry.tags, 6, 1);
    match (at, index, offset, length) {
        (Some(at), Some(index), Some(offset), Some(length)) => Some(
            Kf8Frag {
                insert_offset: at,
                offset: offset as u64,
                length: length as u64,
                index,
            },
        ),
        _ => None,
    }
}

/// Every fragment's place and length fit thirty-two bits.
pub open spec fn frags_small(s: Seq<Kf8Frag>) -> bool {
    forall|k: int|
        0 <= k < s.len() ==> (#[trigger] s[k]).offset <= u32::MAX && s[k].length <= u32::MAX
}

fn insert_frag(v: &mut Vec<Kf8Frag>, x: Kf8Frag)
    requires
        frags_small(old(v)@),
        x.offset <= u32::MAX && x.length <= u32::MAX,
    ensures
        final(v)@ == with_frag(old(v)@, x),
        frags_small(final(v)@),
{
    let ghost s = v@;
    let mut i: usize = v.len();
    assert(s.take(i as int) =~= s);
    assert(s.skip(i as int) =~= Seq::empty());
    while i > 0 && v[i - 1].insert_offset > x.insert_offset
        invariant
            v@ == s,
            i <= s.len(),
            with_frag(s, x) == with_frag(s.take(i as int), x) + s.skip(i as int),
        decreases i,
    {
        assert(s.take(i as int).drop_last() =~= s.take(i - 1));
        assert(with_frag(s.take(i - 1), x).push(s[i - 1]) + s.skip(i as int) =~= with_frag(
            s.take(i - 1),
            x,
        ) + s.skip(i - 1));
        i = i - 1;
    }
    v.insert(i, x);
    assert(v@ =~= s.take(i as int).push(x) + s.skip(i as int));
    assert forall|k: int| 0 <= k < v@.len() implies (#[trigger] v@[k]).offset <= u32::MAX
        && v@[k].length <= u32::MAX by {
        if k < i {
            assert(v@[k] == s[k]);
        } else if k > i {
            assert(v@[k] == s[k - 1]);
        }
    }
}

fn read_frags(table: &Vec<IndexEntry>) -> (r: Vec<Kf8Frag>)
    ensures
        r@ == frags_of(table.deep_view(), table@.len() as int),
        frags_small(r@),
{
    let mut out: Vec<Kf8Frag> = Vec::new();
    assert(out@ =~= Seq::empty());
    let mut i: usize = 0;
    while i < table.len()
        invariant
            i <= table@.len(),
            out@ == frags_of(table.deep_view(), i as int),
            frags_small(out@),
        decreases table@.len() - i,
    {
        assert(table.deep_view()[i as int] == table@[i as int].deep_view());
        if let Some(f) = read_frag(&table[i]) {
            insert_frag(&mut out, f);
        }
        i = i + 1;
    }
    out
}

/// The value of a tag, or zero.
pub open spec fn tag_or_zero(entry: Entry, tag: u32, k: int) -> int {
    match tag_value(entry.tags, tag, k) {
        Some(v) => v as int,
        None => 0,
    }
}

/// The sections that the skeletons from the `i`-th on give, and where the fragments of each lie
/// in the text. A skeleton takes the next of the fragments, as many as it says; one without any
/// is no section.
pub open spec fn kf8_sections(
    skels: Seq<Entry>,
    frags: Seq<Kf8Frag>,
    i: int,
    from: int,
    parts: Seq<Part>,
    info: Seq<(u32, u64, u64)>,
) -> (Seq<Part>, Seq<(u32, u64, u64)>)
    decreases skels.len() - i,
{
    if i < 0 || i >= skels.len() {
        (parts, info)
    } else {
        let upto = if from + tag_or_zero(skels[i], 1, 0) < frags.len() {
            from + tag_or_zero(skels[i], 1, 0)
        } else {
            frags.len() as int
        };
        let mine = frags.subrange(from, upto);
        if mine.len() == 0 {
            kf8_sections(skels, frags, i + 1, upto, parts, info)
        } else {
            let skel_offset = tag_or_zero(skels[i], 6, 0);
            let skel_length = tag_or_zero(skels[i], 6, 1);
            kf8_sections(
                skels,
                frags,
                i + 1,
                upto,
                parts.push(Part::Kf8 { skel_offset, skel_length, frags: mine }),
                info + frag_places(mine, skel_offset + skel_length),
            )
        }
    }
}

/// Where the fragments of a section lie in the text: behind the skeleton, which ends at `base`.
pub open spec fn frag_places(frags: Seq<Kf8Frag>, base: int) -> Seq<(u32, u64, u64)> {
    frags.map_values(|f: Kf8Frag| (f.index, (base + f.offset) as u64, f.length))
}

/// Every section that skeletons give is a KF8 section.
pub proof fn kf8_sections_kind(
    skels: Seq<Entry>,
    frags: Seq<Kf8Frag>,
    i: int,
    from: int,
    parts: Seq<Part>,
    info: Seq<(u32, u64, u64)>,
)
    requires
        forall|k: int| 0 <= k < parts.len() ==> (#[trigger] parts[k]) is Kf8,
    ensures
        forall|k: int|
            0 <= k < kf8_sections(skels, frags, i, from, parts, info).0.len() ==> (
            #[trigger] kf8_sections(skels, frags, i, from, parts, info).0[k]) is Kf8,
    decreases skels.len() - i,
{
    if 0 <= i < skels.len() {
        let upto = if from + tag_or_zero(skels[i], 1, 0) < frags.len() {
            from + tag_or_zero(skels[i], 1, 0)
        } else {
            frags.len() as int
        };
        let mine = frags.subrange(from, upto);
        let skel_offset = tag_or_zero(skels[i], 6, 0);
        let skel_length = tag_or_zero(skels[i], 6, 1);
        if mine.len() == 0 {
            kf8_sections_kind(skels, frags, i + 1, upto, parts, info);
        } else {
            kf8_sections_kind(
                skels,
                frags,
                i + 1,
                upto,
                parts.push(Part::Kf8 { skel_offset, skel_length, frags: mine }),
                info + frag_places(mine, skel_offset + skel_length),
            );
        }
    }
}

fn tag_number(entry: &IndexEntry, tag: u32, k: usize) -> (r: u64)
    ensures
        r == tag_or_zero(entry.deep_view(), tag, k as int),
        r <= u32::MAX,
{
    match value_of_tag(&entry.tags, tag, k) {
        Some(v) => v as u64,
        None => 0,
    }
}

/// The sections and the places of their fragments.
pub struct Layout {
    pub sections: Vec<Section>,
    pub frag_info: Vec<(u32, u64, u64)>,
}

/// Every skeleton's place and length, and those of its fragments, fit thirty-two bits.
pub open spec fn parts_small(parts: Seq<Part>) -> bool {
    forall|k: int| 0 <= k < parts.len() ==> part_small(#[trigger] parts[k])
}

/// The skeleton's place and length, and those of its fragments, fit thirty-two bits.
pub open spec fn part_small(part: Part) -> bool {
    match part {
        Part::Range { start, end } => true,
        Part::Kf8 { skel_offset, skel_length, frags } => 0 <= skel_offset <= u32::MAX && 0
            <= skel_length <= u32::MAX && frags_small(frags),
    }
}

fn read_kf8_sections(skels: &Vec<IndexEntry>, frags: &Vec<Kf8Frag>) -> (r: Layout)
    requires
        frags_small(frags@),
    ensures
        (r.sections.deep_view(), r.frag_info@) == kf8_sections(
            skels.deep_view(),
            frags@,
            0,
            0,
            Seq::empty(),
            Seq::empty(),
        ),
        parts_small(r.sections.deep_view()),
{
    let ghost sv = skels.deep_view();
    let mut sections: Vec<Section> = Vec::new();
    let mut info: Vec<(u32, u64, u64)> = Vec::new();
    proof {
        deep_empty(sections);
        assert(info@ =~= Seq::empty());
    }
    let mut from: usize = 0;
    let mut i: usize = 0;
    while i < skels.len()
        invariant
            i <= skels@.len(),
            sv == skels.deep_view(),
            from <= frags@.len(),
            frags_small(frags@),
            parts_small(sections.deep_view()),
            kf8_sections(sv, frags@, 0, 0, Seq::empty(), Seq::empty()) == kf8_sections(
                sv,
                frags@,
                i as int,
                from as int,
                sections.deep_view(),
                info@,
            ),
        decreases skels@.len() - i,
    {
        assert(sv[i as int] == skels@[i as int].deep_view());
        let many = tag_number(&skels[i], 1, 0);
        let room = (frags.len() - from) as u64;
        let upto: usize = if many < room {
            from + many as usize
        } else {
            frags.len()
        };
        if from < upto {
            let skel_offset = tag_number(&skels[i], 6, 0);
            let skel_length = tag_number(&skels[i], 6, 1);
            let mine: Vec<Kf8Frag> = vstd::slice::slice_to_vec(
                vstd::slice::slice_subrange(frags.as_slice(), from, upto),
            );
            let ghost places = frag_places(mine@, skel_offset + skel_length);
            let ghost had = info@;
            let mut k: usize = 0;
            while k < mine.len()
                invariant
                    k <= mine@.len(),
                    skel_offset <= u32::MAX,
                    skel_length <= u32::MAX,
                    places == frag_places(mine@, skel_offset + skel_length),
                    frags_small(frags@),
                    from <= upto <= frags@.len(),
                    mine@ == frags@.subrange(from as int, upto as int),
                    info@ == had + places.take(k as int),
                decreases mine@.len() - k,
            {
                assert(mine@[k as int] == frags@[from + k]);
                let f = mine[k];
                info.push((f.index, skel_offset + skel_length + f.offset, f.length));
                proof {
                    crate::views::take_push(places, k as int);
                    assert(info@ =~= had + places.take(k + 1));
                }
                k = k + 1;
            }
            assert(places.take(k as int) =~= places);
            assert(frags_small(mine@)) by {
                assert forall|m: int| 0 <= m < mine@.len() implies (#[trigger] mine@[m]).offset
                    <= u32::MAX && mine@[m].length <= u32::MAX by {
                    assert(mine@[m] == frags@[from + m]);
                }
            }
            let section = Section::Kf8(Kf8Section { skel_offset, skel_length, frags: mine });
            let ghost before = sections;
            sections.push(section);
            proof {
                deep_push(before, section, sections);
                assert forall|m: int| 0 <= m < sections@.len() implies part_small(
                    #[trigger] sections.deep_view()[m],
                ) by {
                    if m < before@.len() {
                        assert(sections.deep_view()[m] == before.deep_view()[m]);
                    }
                }
            }
        }
        from = upto;
        i = i + 1;
    }
    Layout { sections, frag_info: info }
}

// ---------------------------------------------------------------------------
// Older texts: page breaks
// ---------------------------------------------------------------------------

/// The ranges between the start of the text, the page breaks and its end.
pub open spec fn ranges(breaks: Seq<Groups>, len: int) -> Seq<Part> {
    Seq::new(
        breaks.len() + 1,
        |i: int|
            Part::Range {
                start: if i == 0 {
                    0
                } else {
                    breaks[i - 1][0].unwrap().0
                },
                end: if i < breaks.len() {
                    breaks[i][0].unwrap().0
                } else {
                    len
                },
            },
    )
}

/// The ranges that page breaks give.
pub fn split_at_breaks(breaks: &Vec<Vec<Option<(usize, usize)>>>, len: usize) -> (r: Vec<Section>)
    requires
        in_order(ints(breaks@), len as int),
    ensures
        r.deep_view() == ranges(ints(breaks@), len as int),
{
    let ghost want = ranges(ints(breaks@), len as int);
    let mut out: Vec<Section> = Vec::new();
    proof {
        deep_empty(out);
        assert(want.take(0) =~= Seq::empty());
    }
    let mut start: u64 = 0;
    let mut i: usize = 0;
    while i < breaks.len()
        invariant
            i <= breaks@.len(),
            in_order(ints(breaks@), len as int),
            want == ranges(ints(breaks@), len as int),
            out.deep_view() == want.take(i as int),
            start == (if i == 0 {
                0
            } else {
                ints(breaks@)[i - 1][0].unwrap().0
            }),
        decreases breaks@.len() - i,
    {
        proof {
            row_of(breaks@, i as int, len as int);
            assert(ints(breaks@)[i as int][0] is Some);
        }
        let row = &breaks[i];
        if let Some((a, _)) = row[0] {
            let section = Section::Range { start, end: a as u64 };
            let ghost before = out;
            out.push(section);
            proof {
                deep_push(before, section, out);
                crate::views::take_push(want, i as int);
                assert(section.deep_view() =~= want[i as int]);
            }
            start = a as u64;
        }
        i = i + 1;
    }
    let section = Section::Range { start, end: len as u64 };
    let ghost before = out;
    out.push(section);
    proof {
        deep_push(before, section, out);
        crate::views::take_push(want, i as int);
        assert(section.deep_view() =~= want[i as int]);
        assert(want.take(i + 1) =~= want);
    }
    out
}

/// Bytes as the characters of the same numbers.
pub open spec fn latin(b: Seq<u8>) -> Seq<char> {
    b.map_values(|x: u8| x as char)
}

/// The offsets that the links of a text lead to, from the `i`-th link on; what is no number of
/// thirty-two bits does not count.
pub open spec fn link_offsets(raw: Seq<u8>, links: Seq<Groups>, i: int) -> Seq<u32>
    decreases links.len() - i,
{
    if i < 0 || i >= links.len() {
        Seq::empty()
    } else {
        let rest = link_offsets(raw, links, i + 1);
        if links[i].len() > 1 && links[i][1] is Some {
            let t = latin(raw.subrange(links[i][1].unwrap().0, links[i][1].unwrap().1));
            match parsed(t, 10, u32::MAX as int) {
                Some(v) => seq![v as u32] + rest,
                None => rest,
            }
        } else {
            rest
        }
    }
}

fn latin_chars(b: &[u8]) -> (r: Vec<char>)
    ensures
        r@ == latin(b@),
{
    let mut out: Vec<char> = Vec::new();
    let mut i: usize = 0;
    while i < b.len()
        invariant
            i <= b@.len(),
            out@ == latin(b@.take(i as int)),
        decreases b@.len() - i,
    {
        out.push(b[i] as char);
        i = i + 1;
        assert(out@ =~= latin(b@.take(i as int)));
    }
    assert(b@.take(b@.len() as int) =~= b@);
    out
}

/// The offsets that the links of a text lead to.
pub fn read_link_offsets(raw: &[u8], links: &Vec<Vec<Option<(usize, usize)>>>) -> (r: Vec<u32>)
    requires
        in_order(ints(links@), raw@.len() as int),
    ensures
        r@ == link_offsets(raw@, ints(links@), 0),
{
    let ghost lv = ints(links@);
    let mut out: Vec<u32> = Vec::new();
    let mut i: usize = 0;
    while i < links.len()
        invariant
            i <= links@.len(),
            lv == ints(links@),
            in_order(lv, raw@.len() as int),
            link_offsets(raw@, lv, 0) == out@ + link_offsets(raw@, lv, i as int),
        decreases links@.len() - i,
    {
        proof {
            row_of(links@, i as int, raw@.len() as int);
        }
        let row = &links[i];
        let ghost rest = link_offsets(raw@, lv, i + 1);
        let ghost before = out@;
        if row.len() > 1 {
            assert(lv[i as int][1] is Some == row@[1] is Some);
            if let Some((a, b)) = row[1] {
                let t = latin_chars(vstd::slice::slice_subrange(raw, a, b));
                if let Some(v) = parse_decimal(&t, u32::MAX as u64) {
                    out.push(v as u32);
                    assert(before + (seq![v as u32] + rest) =~= out@ + rest);
                }
            }
        }
        i = i + 1;
    }
    assert(out@ + Seq::<u32>::empty() =~= out@);
    out
}

// ---------------------------------------------------------------------------
// Both
// ---------------------------------------------------------------------------

/// The sections of a KF8 text and the places of their fragments.
pub open spec fn kf8_layout(data: Seq<u8>, offsets: Seq<u32>, start: int, rec: Seq<u8>) -> Result<
    (Seq<Part>, Seq<(u32, u64, u64)>),
    Failure,
> {
    match index_of(data, offsets, start + be32(rec, OFF_KF8_SKEL as int)) {
        Err(e) => Err(e),
        Ok((skels, _)) => match index_of(data, offsets, start + be32(rec, OFF_KF8_FRAG as int)) {
            Err(e) => Err(e),
            Ok((table, _)) => Ok(
                kf8_sections(
                    skels,
                    frags_of(table, table.len() as int),
                    0,
                    0,
                    Seq::empty(),
                    Seq::empty(),
                ),
            ),
        },
    }
}

/// Reads the sections of a KF8 text, whose header is the record `start`.
pub fn read_kf8_layout(pdb: &Pdb, start: u64, rec: &[u8]) -> (r: AppResult<Layout>)
    requires
        start <= u32::MAX,
    ensures
        match r {
            Ok(l) => kf8_layout(pdb.data@, pdb.offsets@, start as int, rec@) == Ok::<
                (Seq<Part>, Seq<(u32, u64, u64)>),
                Failure,
            >((l.sections.deep_view(), l.frag_info@)) && parts_small(
                l.sections.deep_view(),
            ) && (forall|k: int|
                0 <= k < l.sections@.len() ==> (#[trigger] l.sections.deep_view()[k]) is Kf8),
            Err(e) => kf8_layout(pdb.data@, pdb.offsets@, start as int, rec@) == Err::<
                (Seq<Part>, Seq<(u32, u64, u64)>),
                Failure,
            >(e@),
        },
{
    let skel_index = u32_at(rec, OFF_KF8_SKEL) as u64;
    let frag_index = u32_at(rec, OFF_KF8_FRAG) as u64;
    let skel_data = match get_index_data(pdb, start, skel_index) {
        Ok(d) => d,
        Err(e) => {
            return Err(e);
        },
    };
    let frag_data = match get_index_data(pdb, start, frag_index) {
        Ok(d) => d,
        Err(e) => {
            return Err(e);
        },
    };
    let frags = read_frags(&frag_data.table);
    proof {
        kf8_sections_kind(
            skel_data.table.deep_view(),
            frags@,
            0,
            0,
            Seq::empty(),
            Seq::empty(),
        );
    }
    Ok(read_kf8_sections(&skel_data.table, &frags))
}

/// The parts lie within the text: ranges do, and skeletons start there.
pub open spec fn parts_within(parts: Seq<Part>, len: int) -> bool {
    forall|k: int| 0 <= k < parts.len() ==> part_within(#[trigger] parts[k], len)
}

/// The part lies within the text.
pub open spec fn part_within(part: Part, len: int) -> bool {
    match part {
        Part::Range { start, end } => 0 <= start <= end <= len,
        Part::Kf8 { skel_offset, skel_length, frags } => 0 <= skel_offset <= len,
    }
}

/// The ranges between page breaks lie within the text.
pub proof fn ranges_within(breaks: Seq<Groups>, len: int)
    requires
        in_order(breaks, len),
        0 <= len,
    ensures
        parts_within(ranges(breaks, len), len),
{
    let parts = ranges(breaks, len);
    assert forall|k: int| 0 <= k < parts.len() implies part_within(#[trigger] parts[k], len) by {
        if k > 0 {
            assert(breaks[k - 1][0] is Some);
        }
        if k < breaks.len() {
            assert(breaks[k][0] is Some);
        }
        if 0 < k < breaks.len() {
            assert(breaks[k - 1][0].unwrap().1 <= breaks[k][0].unwrap().0);
        }
    }
}

/// Whether every skeleton starts within the text.
pub fn skeletons_within(sections: &Vec<Section>, len: usize) -> (r: bool)
    ensures
        r == skels_within(sections.deep_view(), len as int),
{
    let mut i: usize = 0;
    while i < sections.len()
        invariant
            i <= sections@.len(),
            forall|k: int|
                0 <= k < i ==> skel_within(#[trigger] sections.deep_view()[k], len as int),
        decreases sections@.len() - i,
    {
        assert(sections.deep_view()[i as int] == sections@[i as int].deep_view());
        if let Section::Kf8(s) = &sections[i] {
            if s.skel_offset > len as u64 {
                assert(!skel_within(sections.deep_view()[i as int], len as int));
                return false;
            }
        }
        i = i + 1;
    }
    true
}

/// The skeleton starts within the text.
pub open spec fn skel_within(part: Part, len: int) -> bool {
    match part {
        Part::Range { start, end } => true,
        Part::Kf8 { skel_offset, skel_length, frags } => skel_offset <= len,
    }
}

/// Every skeleton starts within the text.
pub open spec fn skels_within(parts: Seq<Part>, len: int) -> bool {
    forall|k: int| 0 <= k < parts.len() ==> skel_within(#[trigger] parts[k], len)
}

} // verus!
