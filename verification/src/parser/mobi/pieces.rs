//! How the text of a Mobipocket book comes together from its pieces, and where its places lie.
use vstd::prelude::*;
use vstd::arithmetic::div_mod::{
    lemma_div_denominator, lemma_fundamental_div_mod_converse, lemma_hoist_over_denominator,
};
use crate::decoding::mobi_text;
use crate::error::Failure;
use crate::numbers::decimal;
use crate::parser::mobi::chapter::{ascii, chapter_bytes, frag_bytes, frags_in, marked_from, put_in};
use crate::parser::mobi::compress::{
    bits_at, cdic_entry, code_length, five_bytes, huff_from, palm, top_bits,
};
use crate::parser::mobi::head::{
    exth_from, exth_get, exth_length, exth_records, exth_value, text_from, text_of, without_entries, without_trailing, Exth, HeadView,
    Tables,
};
use crate::parser::pictures::{big16, big32};
use crate::text::trimmed;
use crate::parser::mobi::index::Ncx;
use crate::parser::mobi::layout::ranges;
use crate::parser::mobi::pdb::{
    be16, be32, bit_count, byte_at, clipped, record_bytes, septets, tail_value, two_to, var_size, var_value, var_value_at_end,
};
use crate::parser::mobi::toc::{
    chapter_of_frag, chapter_of_offset, has_frag, ncx_nodes, range_behind, Kf8Frag, Part,
};
use crate::regexes::{in_order, Groups};

verus! {

// ---------------------------------------------------------------------------
// Numbers of varying length
// ---------------------------------------------------------------------------

/// One to four digits of seven bits each.
pub open spec fn are_digits(ds: Seq<u8>) -> bool {
    1 <= ds.len() <= 4 && forall|i: int| 0 <= i < ds.len() ==> #[trigger] ds[i] < 128
}

/// The number that digits of seven bits make, the highest first.
pub open spec fn number_of(ds: Seq<u8>) -> int {
    if ds.len() == 1 {
        ds[0] as int
    } else if ds.len() == 2 {
        ds[0] * 128 + ds[1]
    } else if ds.len() == 3 {
        ds[0] * 16384 + ds[1] * 128 + ds[2]
    } else {
        ds[0] * 2097152 + ds[1] * 16384 + ds[2] * 128 + ds[3]
    }
}

/// The digits with the high bit of one of them set.
pub open spec fn with_high(ds: Seq<u8>, k: int) -> Seq<u8> {
    ds.update(k, (ds[k] + 128) as u8)
}

/// A number is read as it was written: digit by digit, up to the one that has its high bit set, and no
/// further.
pub proof fn a_number_is_read_as_written(before: Seq<u8>, ds: Seq<u8>, behind: Seq<u8>)
    requires
        are_digits(ds),
    ensures
        ({
            let d = before + with_high(ds, ds.len() - 1) + behind;
            &&& var_value(d, before.len() as int) == number_of(ds)
            &&& var_size(d, before.len() as int, 0) == ds.len()
        }),
{
    let n = ds.len() as int;
    let w = with_high(ds, n - 1);
    let d = before + w + behind;
    let i = before.len() as int;
    reveal_with_fuel(var_size, 5);
    reveal_with_fuel(septets, 5);
    assert(ds[n - 1] < 128);
    assert forall|k: int| 0 <= k < n implies #[trigger] d[i + k] == w[k] by {}
    assert(d[i + 0] == w[0]);
    assert(ds[0] < 128);
    if n > 1 {
        assert(d[i + 1] == w[1]);
        assert(ds[1] < 128);
    }
    if n > 2 {
        assert(d[i + 2] == w[2]);
        assert(ds[2] < 128);
    }
    if n > 3 {
        assert(d[i + 3] == w[3]);
        assert(ds[3] < 128);
    }
}

/// A number at the end is read as it was written: its first digit has its high bit set, and what stands
/// before it has no say.
pub proof fn a_number_at_the_end_is_read_as_written(before: Seq<u8>, ds: Seq<u8>)
    requires
        are_digits(ds),
    ensures
        var_value_at_end(before + with_high(ds, 0)) == number_of(ds),
{
    let n = ds.len() as int;
    let w = with_high(ds, 0);
    let d = before + w;
    let i = before.len() as int;
    assert(ds[0] < 128);
    assert forall|k: int| 0 <= k < n implies #[trigger] d[i + k] == w[k] by {}
    reveal_with_fuel(tail_value, 6);
    assert(d[i + 0] == w[0]);
    assert((ds[0] + 128) % 128 == ds[0]);
    if n > 1 {
        assert(d[i + 1] == w[1]);
        assert(ds[1] < 128);
    }
    if n > 2 {
        assert(d[i + 2] == w[2]);
        assert(ds[2] < 128);
    }
    if n > 3 {
        assert(d[i + 3] == w[3]);
        assert(ds[3] < 128);
    }
    let from = if d.len() < 4 {
        0
    } else {
        d.len() - 4
    };
    tail_starts_anew(d, i, from, 0, n);
}

proof fn tail_starts_anew(d: Seq<u8>, i: int, from: int, acc: int, n: int)
    requires
        0 <= from <= i,
        i + n == d.len(),
        1 <= n <= 4,
        d[i] >= 128,
    ensures
        tail_value(d, from, acc) == tail_value(d, i, 0),
    decreases i - from,
{
    if from < i {
        let base = if d[from] >= 128 {
            0
        } else {
            acc
        };
        tail_starts_anew(d, i, from + 1, base * 128 + d[from] % 128, n);
    } else {
        assert(tail_value(d, i, acc) == tail_value(d, i + 1, 0 * 128 + d[i] % 128));
    }
}

// ---------------------------------------------------------------------------
// What trails a record
// ---------------------------------------------------------------------------

/// An entry behind a text goes: where it ends with its own length, all of it is taken off, whatever it
/// holds.
pub proof fn an_entry_is_taken_off(text: Seq<u8>, inner: Seq<u8>, ds: Seq<u8>, n: int)
    requires
        are_digits(ds),
        number_of(ds) == inner.len() + ds.len(),
        0 <= n,
    ensures
        without_entries(text + (inner + with_high(ds, 0)), n + 1) == without_entries(text, n),
{
    let d = text + (inner + with_high(ds, 0));
    assert(d =~= (text + inner) + with_high(ds, 0));
    a_number_at_the_end_is_read_as_written(text + inner, ds);
    assert(d.take(d.len() - number_of(ds)) =~= text);
}

/// Each bit of the flags but the lowest stands for one entry.
pub proof fn a_bit_is_an_entry(x: int)
    requires
        0 <= x,
    ensures
        bit_count(2 * x + 1) == bit_count(x) + 1,
        bit_count(2 * x) == bit_count(x),
        bit_count(0) == 0,
{
    if x > 0 {
        assert((2 * x + 1) % 2 == 1 && (2 * x + 1) / 2 == x);
        assert((2 * x) % 2 == 0 && (2 * x) / 2 == x);
    } else {
        assert(bit_count(1) == bit_count(0) + 1);
    }
}

/// Without flags a record is its text; with the lowest alone, the bytes that belong to the next record go:
/// as many as the two low bits of the last say, and that one.
pub proof fn what_runs_over_is_taken_off(text: Seq<u8>, over: Seq<u8>)
    requires
        1 <= over.len() <= 4,
        over.last() % 4 == over.len() - 1,
    ensures
        without_trailing(text, 0) == text,
        without_trailing(text + over, 1) == text,
{
    assert(bit_count(0) == 0);
    let d = text + over;
    assert(0u32 as int / 2 == 0 && 1u32 as int / 2 == 0);
    assert(d.last() == over.last());
    assert(d.take(d.len() - over.len()) =~= text);
}

// ---------------------------------------------------------------------------
// Records and ranges
// ---------------------------------------------------------------------------

/// Records lie one behind the other: where their offsets rise, a record holds what stands between its own
/// offset and the next, the last up to the end of the file.
pub proof fn records_lie_behind_one_another(
    data: Seq<u8>,
    offsets: Seq<u32>,
    i: int,
    before: Seq<u8>,
    rec: Seq<u8>,
    behind: Seq<u8>,
)
    requires
        0 <= i < offsets.len(),
        data == before + rec + behind,
        rec.len() > 0,
        offsets[i] == before.len(),
        i + 1 < offsets.len() ==> offsets[i + 1] == before.len() + rec.len(),
        i + 1 == offsets.len() ==> behind.len() == 0,
    ensures
        record_bytes(data, offsets, i) == Ok::<Seq<u8>, Failure>(rec),
{
    assert(data.subrange(before.len() as int, (before.len() + rec.len()) as int) =~= rec);
}

/// The chapters of an older text are all of it: the first starts with it, each starts where the one before
/// ends, at a page break, and the last ends with it.
pub proof fn the_ranges_are_the_whole_text(breaks: Seq<Groups>, len: int, i: int)
    requires
        in_order(breaks, len),
        0 <= len,
        0 <= i <= breaks.len(),
    ensures
        ({
            let parts = ranges(breaks, len);
            &&& parts.len() == breaks.len() + 1
            &&& parts[i] matches Part::Range { start, end } && {
                &&& i == 0 ==> start == 0
                &&& i == breaks.len() ==> end == len
                &&& i < breaks.len() ==> (parts[i + 1] matches Part::Range { start: next, end: e }
                    && next == end && end == breaks[i][0].unwrap().0)
            }
        }),
{
}

proof fn range_of(parts: Seq<Part>, fp: int, k: int, i: int)
    requires
        0 <= i <= k < parts.len(),
        parts[k] matches Part::Range { start, end } && fp < end,
        forall|j: int|
            0 <= j < k ==> ((#[trigger] parts[j]) matches Part::Range { start, end } && end <= fp),
    ensures
        range_behind(parts, fp, i) == Some(k),
    decreases k - i,
{
    if i < k {
        assert(parts[i] matches Part::Range { start, end } && end <= fp);
        range_of(parts, fp, k, i + 1);
    }
}

/// A place in the text falls into the chapter that holds it.
pub proof fn a_place_falls_into_its_chapter(breaks: Seq<Groups>, len: int, k: int, fp: int)
    requires
        in_order(breaks, len),
        0 <= len,
        0 <= k <= breaks.len() < u32::MAX,
        ranges(breaks, len)[k] matches Part::Range { start, end } && start <= fp < end,
    ensures
        chapter_of_offset(ranges(breaks, len), fp) == k,
{
    let parts = ranges(breaks, len);
    assert forall|j: int| 0 <= j < k implies ((#[trigger] parts[j]) matches Part::Range { start, end }
        && end <= fp) by {
        assert(breaks[j][0] is Some && breaks[k - 1][0] is Some);
        if j < k - 1 {
            assert(breaks[j][0].unwrap().1 <= breaks[k - 1][0].unwrap().0);
        }
    }
    range_of(parts, fp, k, 0);
}

/// A fragment lies in the chapter that holds it.
pub proof fn a_fragment_lies_in_its_chapter(parts: Seq<Part>, fid: u32, k: int, i: int)
    requires
        0 <= k < i <= parts.len(),
        has_frag(parts[k], fid),
        forall|j: int| k < j < parts.len() ==> !has_frag(#[trigger] parts[j], fid),
    ensures
        chapter_of_frag(parts, fid, i) == Some(k),
    decreases i,
{
    if i - 1 > k {
        assert(!has_frag(parts[i - 1], fid));
        a_fragment_lies_in_its_chapter(parts, fid, k, i - 1);
    }
}

// ---------------------------------------------------------------------------
// Skeletons and fragments
// ---------------------------------------------------------------------------

/// A skeleton from a place of it on, with the fragments from the `i`-th on between its parts.
pub open spec fn between_parts(
    skel: Seq<u8>,
    places: Seq<int>,
    frags: Seq<Seq<u8>>,
    i: int,
    from: int,
) -> Seq<u8>
    decreases frags.len() - i,
{
    if i < 0 || i >= frags.len() {
        skel.skip(from)
    } else {
        skel.subrange(from, places[i]) + frags[i] + between_parts(
            skel,
            places,
            frags,
            i + 1,
            places[i],
        )
    }
}

#[verifier::rlimit(40)]
proof fn fragments_go_between(
    raw: Seq<u8>,
    skel_offset: int,
    base: int,
    frags: Seq<Kf8Frag>,
    skel: Seq<u8>,
    places: Seq<int>,
    texts: Seq<Seq<u8>>,
    i: int,
    from: int,
    done: Seq<u8>,
    inserted: int,
)
    requires
        places.len() == frags.len(),
        texts.len() == frags.len(),
        0 <= skel_offset,
        0 <= i <= frags.len(),
        0 <= from <= skel.len(),
        done.len() == from + inserted,
        0 <= inserted,
        forall|k: int|
            0 <= k < frags.len() ==> (#[trigger] frags[k]).insert_offset == skel_offset + places[k]
                && texts[k] == frag_bytes(raw, base, frags[k]) && 0 <= places[k] <= skel.len(),
        forall|j: int, k: int|
            #![trigger places[j], places[k]]
            0 <= j < k < places.len() ==> places[j] <= places[k],
        i < frags.len() ==> from <= places[i],
    ensures
        frags_in(raw, skel_offset, base, frags, i, done + skel.skip(from), inserted) == done
            + between_parts(skel, places, texts, i, from),
    decreases frags.len() - i,
{
    let buf = done + skel.skip(from);
    if i < frags.len() {
        assert(frags[i].insert_offset == skel_offset + places[i]);
        let p = places[i];
        let more = texts[i];
        let at = p + inserted;
        let next = done + skel.subrange(from, p) + more;
        assert(put_in(buf, at, more) =~= next + skel.skip(p)) by {
            assert(buf.take(at) =~= done + skel.subrange(from, p));
            assert(buf.skip(at) =~= skel.skip(p));
        }
        if i + 1 < frags.len() {
            assert(places[i] <= places[i + 1]);
        }
        fragments_go_between(
            raw,
            skel_offset,
            base,
            frags,
            skel,
            places,
            texts,
            i + 1,
            p,
            next,
            inserted + more.len(),
        );
        assert(next + between_parts(skel, places, texts, i + 1, p) =~= done + (skel.subrange(
            from,
            p,
        ) + more + between_parts(skel, places, texts, i + 1, p)));
    }
}

/// A chapter of newer text is its skeleton with each fragment at its place: the places count from the start
/// of the text and are those of the bare skeleton, whatever was put in before.
pub proof fn fragments_stand_at_their_places(
    raw: Seq<u8>,
    filepos: Seq<u32>,
    skel_offset: int,
    skel_length: int,
    frags: Seq<Kf8Frag>,
    places: Seq<int>,
    texts: Seq<Seq<u8>>,
)
    requires
        0 <= skel_offset,
        0 <= skel_length,
        skel_offset + skel_length <= raw.len(),
        places.len() == frags.len(),
        texts.len() == frags.len(),
        forall|k: int|
            0 <= k < frags.len() ==> (#[trigger] frags[k]).insert_offset == skel_offset + places[k]
                && 0 <= places[k] <= skel_length && skel_offset + skel_length + frags[k].offset
                + frags[k].length <= raw.len() && texts[k] == raw.subrange(
                skel_offset + skel_length + frags[k].offset,
                skel_offset + skel_length + frags[k].offset + frags[k].length,
            ),
        forall|j: int, k: int|
            #![trigger places[j], places[k]]
            0 <= j < k < places.len() ==> places[j] <= places[k],
    ensures
        chapter_bytes(raw, filepos, Part::Kf8 { skel_offset, skel_length, frags }) == between_parts(
            raw.subrange(skel_offset, skel_offset + skel_length),
            places,
            texts,
            0,
            0,
        ),
{
    let base = skel_offset + skel_length;
    let skel = raw.subrange(skel_offset, base);
    assert(clipped(raw, skel_offset, base) =~= skel);
    assert forall|k: int| 0 <= k < frags.len() implies (#[trigger] frags[k]).insert_offset
        == skel_offset + places[k] && texts[k] == frag_bytes(raw, base, frags[k]) && 0 <= places[k]
        <= skel.len() by {}
    let none = Seq::<u8>::empty();
    assert(none + skel.skip(0) =~= skel);
    if frags.len() > 0 {
        assert(frags[0].insert_offset == skel_offset + places[0]);
    }
    fragments_go_between(raw, skel_offset, base, frags, skel, places, texts, 0, 0, none, 0);
    assert(none + between_parts(skel, places, texts, 0, 0) =~= between_parts(
        skel,
        places,
        texts,
        0,
        0,
    ));
}

#[verifier::rlimit(40)]
proof fn marks_go_between(
    raw: Seq<u8>,
    s: int,
    e: int,
    list: Seq<u32>,
    i: int,
    from: int,
    places: Seq<int>,
    marks: Seq<Seq<u8>>,
)
    requires
        0 <= s <= from <= e <= raw.len(),
        0 <= i <= list.len(),
        places.len() == list.len(),
        marks.len() == list.len(),
        forall|k: int|
            0 <= k < list.len() ==> s <= #[trigger] list[k] < e && places[k] == list[k] - s && marks[k]
                == written_mark(list[k]),
        forall|j: int, k: int|
            #![trigger list[j], list[k]]
            0 <= j < k < list.len() ==> list[j] <= list[k],
        i < list.len() ==> from <= list[i],
    ensures
        marked_from(raw, s, e, list, i, from) == between_parts(
            raw.subrange(s, e),
            places,
            marks,
            i,
            from - s,
        ),
    decreases list.len() - i,
{
    let text = raw.subrange(s, e);
    if i < list.len() {
        assert(s <= list[i] < e);
        if i + 1 < list.len() {
            assert(list[i] <= list[i + 1]);
            assert(s <= list[i + 1] < e);
        }
        marks_go_between(raw, s, e, list, i + 1, list[i] as int, places, marks);
        assert(raw.subrange(from, list[i] as int) =~= text.subrange(from - s, list[i] - s));
    } else {
        assert(raw.subrange(from, e) =~= text.skip(from - s));
    }
}

/// The mark that is put before a place that something leads to.
pub open spec fn written_mark(place: u32) -> Seq<u8> {
    ascii("<a id=\"filepos"@ + decimal(place as int) + "\"></a>"@)
}

/// A chapter of older text is its range; where places in it are listed, a mark stands before each, and
/// nothing else is put in or left out.
pub proof fn marks_stand_before_their_places(
    raw: Seq<u8>,
    start: int,
    end: int,
    list: Seq<u32>,
    places: Seq<int>,
    marks: Seq<Seq<u8>>,
)
    requires
        0 <= start <= end <= raw.len(),
        places.len() == list.len(),
        marks.len() == list.len(),
        forall|k: int|
            0 <= k < list.len() ==> start <= #[trigger] list[k] < end && places[k] == list[k] - start
                && marks[k] == written_mark(list[k]),
        forall|j: int, k: int|
            #![trigger list[j], list[k]]
            0 <= j < k < list.len() ==> list[j] <= list[k],
    ensures
        chapter_bytes(raw, list, Part::Range { start, end }) == between_parts(
            raw.subrange(start, end),
            places,
            marks,
            0,
            0,
        ),
{
    if list.len() > 0 {
        assert(start <= list[0]);
    }
    marks_go_between(raw, start, end, list, 0, start, places, marks);
}

// ---------------------------------------------------------------------------
// The text
// ---------------------------------------------------------------------------

/// Texts one after another.
pub open spec fn one_after_another(texts: Seq<Seq<u8>>, i: int) -> Seq<u8>
    decreases texts.len() - i,
{
    if i < 0 || i >= texts.len() {
        Seq::empty()
    } else {
        texts[i] + one_after_another(texts, i + 1)
    }
}

proof fn records_are_joined(
    data: Seq<u8>,
    offsets: Seq<u32>,
    head: HeadView,
    start: int,
    tables: Option<Tables>,
    recs: Seq<Seq<u8>>,
    texts: Seq<Seq<u8>>,
    i: int,
    out: Seq<u8>,
)
    requires
        recs.len() == head.num_text_records,
        texts.len() == recs.len(),
        0 <= i <= recs.len(),
        head.trailing_flags == 0,
        forall|k: int|
            0 <= k < recs.len() ==> record_bytes(data, offsets, start + k + 1) == Ok::<Seq<u8>, Failure>(
                #[trigger] recs[k],
            ),
        forall|k: int|
            0 <= k < recs.len() ==> if head.compression == 1 {
                #[trigger] texts[k] == recs[k]
            } else {
                head.compression == 2 && palm(recs[k]) == Some(texts[k])
            },
    ensures
        text_from(data, offsets, head, start, tables, i, out) == Ok::<Seq<u8>, Failure>(
            out + one_after_another(texts, i),
        ),
    decreases recs.len() - i,
{
    if i < recs.len() {
        assert(record_bytes(data, offsets, start + i + 1) == Ok::<Seq<u8>, Failure>(recs[i]));
        assert(texts[i] == texts[i]);
        assert(without_trailing(recs[i], 0) == recs[i]) by {
            assert(bit_count(0) == 0);
            assert(0u32 as int / 2 == 0);
        }
        records_are_joined(data, offsets, head, start, tables, recs, texts, i + 1, out + texts[i]);
        assert(out + texts[i] + one_after_another(texts, i + 1) =~= out + one_after_another(texts, i));
    } else {
        assert(out + Seq::<u8>::empty() =~= out);
    }
}

/// The text of a book is what its records hold, one after another: the records that follow the header, as
/// many as it says, each as it is or with what was packed undone.
pub proof fn the_text_is_what_the_records_hold(
    data: Seq<u8>,
    offsets: Seq<u32>,
    head: HeadView,
    start: int,
    recs: Seq<Seq<u8>>,
    texts: Seq<Seq<u8>>,
)
    requires
        recs.len() == head.num_text_records,
        texts.len() == recs.len(),
        head.trailing_flags == 0,
        head.compression == 1 || head.compression == 2,
        forall|k: int|
            0 <= k < recs.len() ==> record_bytes(data, offsets, start + k + 1) == Ok::<Seq<u8>, Failure>(
                #[trigger] recs[k],
            ),
        forall|k: int|
            0 <= k < recs.len() ==> if head.compression == 1 {
                #[trigger] texts[k] == recs[k]
            } else {
                palm(recs[k]) == Some(texts[k])
            },
    ensures
        text_of(data, offsets, head, start) == Ok::<Seq<u8>, Failure>(one_after_another(texts, 0)),
{
    records_are_joined(data, offsets, head, start, None, recs, texts, 0, Seq::empty());
    assert(Seq::<u8>::empty() + one_after_another(texts, 0) =~= one_after_another(texts, 0));
}

// ---------------------------------------------------------------------------
// What is known of a book
// ---------------------------------------------------------------------------

/// Records of what is known of a book: each with its type and its length, which counts both.
pub open spec fn known_bytes(known: Seq<(u32, Seq<u8>)>) -> Seq<u8>
    decreases known.len(),
{
    if known.len() == 0 {
        Seq::empty()
    } else {
        big32(known[0].0) + big32((known[0].1.len() + 8) as u32) + known[0].1 + known_bytes(known.skip(1))
    }
}

/// What a record of a type says: a number where the type is one of those that count something, else a text,
/// for the names of people and things without the white space around it.
pub open spec fn said(rtype: u32, data: Seq<u8>, encoding: int) -> Exth {
    if rtype == 121 || rtype == 201 || rtype == 202 {
        Exth::Uint(be32(data, 0) as u32)
    } else if rtype == 100 || rtype == 101 || rtype == 109 || rtype == 503 || rtype == 524 {
        Exth::Str(trimmed(mobi_text(data, encoding)))
    } else {
        Exth::Str(mobi_text(data, encoding))
    }
}

proof fn one_is_read(front: Seq<u8>, rtype: u32, data: Seq<u8>, rest: Seq<u8>)
    requires
        data.len() + 8 <= u32::MAX,
    ensures
        ({
            let d = (front + (big32(rtype) + big32((data.len() + 8) as u32) + data)) + rest;
            let at = front.len() as int;
            &&& be32(d, at) == rtype
            &&& be32(d, at + 4) == data.len() + 8
            &&& clipped(d, at + 8, at + 8 + data.len()) == data
        }),
{
    let n = (data.len() + 8) as u32;
    let one = big32(rtype) + big32(n) + data;
    let d = (front + one) + rest;
    let at = front.len() as int;
    assert(d[at] == big32(rtype)[0] && d[at + 1] == big32(rtype)[1] && d[at + 2] == big32(rtype)[2] && d[at
        + 3] == big32(rtype)[3]);
    assert(d[at + 4] == big32(n)[0] && d[at + 5] == big32(n)[1] && d[at + 6] == big32(n)[2] && d[at + 7]
        == big32(n)[3]);
    assert(clipped(d, at + 8, at + 8 + data.len()) =~= data);
}

/// What records say, one after another.
pub open spec fn all_said(known: Seq<(u32, Seq<u8>)>, encoding: int) -> Seq<(u32, Exth)>
    decreases known.len(),
{
    if known.len() == 0 {
        Seq::empty()
    } else {
        seq![(known[0].0, said(known[0].0, known[0].1, encoding))] + all_said(known.skip(1), encoding)
    }
}

/// Records fit their own lengths.
pub open spec fn known_fits(known: Seq<(u32, Seq<u8>)>) -> bool {
    forall|k: int| 0 <= k < known.len() ==> (#[trigger] known[k]).1.len() + 8 <= u32::MAX
}

#[verifier::spinoff_prover]
proof fn known_is_read(
    front: Seq<u8>,
    known: Seq<(u32, Seq<u8>)>,
    rest: Seq<u8>,
    encoding: int,
    acc: Seq<(u32, Exth)>,
)
    requires
        known_fits(known),
    ensures
        exth_from(
            front + (known_bytes(known) + rest),
            front.len() as int,
            known.len() as int,
            encoding,
            acc,
        ) == acc + all_said(known, encoding),
    decreases known.len(),
{
    let d = front + (known_bytes(known) + rest);
    if known.len() == 0 {
        assert(acc + all_said(known, encoding) =~= acc);
    } else {
        let rtype = known[0].0;
        let data = known[0].1;
        let one = big32(rtype) + big32((data.len() + 8) as u32) + data;
        let more = known.skip(1);
        let tail = known_bytes(more) + rest;
        assert(data.len() + 8 <= u32::MAX);
        assert(d =~= (front + one) + tail);
        one_is_read(front, rtype, data, tail);
        let at = front.len() as int;
        let word = (rtype, said(rtype, data, encoding));
        let now = acc.push(word);
        assert(known_fits(more)) by {
            assert forall|k: int| 0 <= k < more.len() implies (#[trigger] more[k]).1.len() + 8 <= u32::MAX by {
                assert(more[k] == known[k + 1]);
            }
        }
        assert((front + one).len() == at + 8 + data.len());
        assert(exth_length(d, at) == data.len() + 8);
        assert(exth_value(rtype, data, encoding) == said(rtype, data, encoding));
        assert(exth_from(d, at, known.len() as int, encoding, acc) == exth_from(
            d,
            at + 8 + data.len(),
            known.len() - 1,
            encoding,
            now,
        ));
        known_is_read(front + one, more, rest, encoding, now);
        let others = all_said(more, encoding);
        assert(now + others =~= acc + (seq![word] + others));
    }
}

proof fn each_is_said(known: Seq<(u32, Seq<u8>)>, encoding: int, k: int)
    requires
        0 <= k < known.len(),
    ensures
        all_said(known, encoding).len() == known.len(),
        all_said(known, encoding)[k] == (known[k].0, said(known[k].0, known[k].1, encoding)),
    decreases known.len(),
{
    let more = known.skip(1);
    if more.len() > 0 {
        each_is_said(
            more,
            encoding,
            if k > 0 {
                k - 1
            } else {
                0
            },
        );
    }
    if k > 0 {
        assert(more[k - 1] == known[k]);
    }
    if more.len() == 0 {
        assert(all_said(more, encoding).len() == 0);
    }
}

/// What is known of a book is read as it was written: all of it, in order, each under its type.
pub proof fn what_is_known_is_read(
    front: Seq<u8>,
    len: Seq<u8>,
    known: Seq<(u32, Seq<u8>)>,
    rest: Seq<u8>,
    encoding: int,
    k: int,
)
    requires
        len.len() == 4,
        0 <= k < known.len() <= u32::MAX,
        known_fits(known),
    ensures
        ({
            let read = exth_records(
                front + seq![0x45u8, 0x58, 0x54, 0x48] + len + big32(known.len() as u32) + (known_bytes(
                    known,
                ) + rest),
                front.len() as int,
                encoding,
            );
            read.len() == known.len() && read[k] == (known[k].0, said(known[k].0, known[k].1, encoding))
        }),
{
    let n = known.len() as u32;
    let before = front + seq![0x45u8, 0x58, 0x54, 0x48] + len + big32(n);
    let d = before + (known_bytes(known) + rest);
    let at = front.len() as int;
    assert(d[at] == 0x45 && d[at + 1] == 0x58 && d[at + 2] == 0x54 && d[at + 3] == 0x48);
    assert(d[at + 8] == big32(n)[0] && d[at + 9] == big32(n)[1] && d[at + 10] == big32(n)[2] && d[at + 11]
        == big32(n)[3]);
    assert(be32(d, at + 8) == n);
    known_is_read(before, known, rest, encoding, Seq::empty());
    assert(Seq::<(u32, Exth)>::empty() + all_said(known, encoding) =~= all_said(known, encoding));
    each_is_said(known, encoding, k);
}

/// Where something is known twice, the first counts.
pub proof fn the_first_that_is_known_counts(exth: Seq<(u32, Exth)>, key: u32, i: int, from: int)
    requires
        0 <= from <= i <= exth.len(),
        forall|k: int| from <= k < i ==> (#[trigger] exth[k]).0 != key,
        i < exth.len() ==> exth[i].0 == key,
    ensures
        exth_get(exth, key, from) == if i < exth.len() {
            Some(exth[i].1)
        } else {
            None
        },
    decreases i - from,
{
    if from < i {
        assert(exth[from].0 != key);
        the_first_that_is_known_counts(exth, key, i, from + 1);
    }
}

// ---------------------------------------------------------------------------
// Bits
// ---------------------------------------------------------------------------

/// A bit of a row of bytes, the highest of each first; none is set beyond the end.
pub open spec fn bit_at(d: Seq<u8>, k: int) -> int {
    if k < 0 || k / 8 >= d.len() {
        0
    } else if k % 8 == 0 {
        d[k / 8] as int / 128 % 2
    } else if k % 8 == 1 {
        d[k / 8] as int / 64 % 2
    } else if k % 8 == 2 {
        d[k / 8] as int / 32 % 2
    } else if k % 8 == 3 {
        d[k / 8] as int / 16 % 2
    } else if k % 8 == 4 {
        d[k / 8] as int / 8 % 2
    } else if k % 8 == 5 {
        d[k / 8] as int / 4 % 2
    } else if k % 8 == 6 {
        d[k / 8] as int / 2 % 2
    } else {
        d[k / 8] as int % 2
    }
}

proof fn halved(y: int)
    requires
        0 <= y,
    ensures
        y % 0x1_0000_0000 == ((y / 2) % 0x1_0000_0000 * 2) % 0x1_0000_0000 + y % 2,
{
    let m: int = 0x1_0000_0000;
    let h = y / 2;
    let p = y % 2;
    let l = h % m;
    let k = h / m;
    assert(y == 2 * h + p);
    assert(h == k * m + l);
    assert(0 <= l < m);
    if 2 * l < m {
        lemma_fundamental_div_mod_converse(l * 2, m, 0, l * 2);
        lemma_fundamental_div_mod_converse(y, m, 2 * k, 2 * l + p);
    } else {
        lemma_fundamental_div_mod_converse(l * 2, m, 1, l * 2 - m);
        lemma_fundamental_div_mod_converse(y, m, 2 * k + 1, 2 * l - m + p);
    }
}

proof fn one_bit(high: int, low: int, c: int, e: int)
    requires
        0 <= high,
        0 <= low < 256,
        0 < c,
        0 < e,
        c * (2 * e) == 256,
    ensures
        (high * 256 + low) / (2 * c) == (high * 256 + low) / c / 2,
        (high * 256 + low) / c % 2 == low / c % 2,
{
    let f = high * 256 + low;
    lemma_div_denominator(f, c, 2);
    let k = high * e;
    assert(high * 256 == (2 * k) * c) by (nonlinear_arith)
        requires
            c * (2 * e) == 256,
            k == high * e,
    ;
    lemma_hoist_over_denominator(low, 2 * k, c as nat);
    assert(f / c == low / c + 2 * k);
}

proof fn a_byte_is_parted(r: int)
    requires
        0 <= r <= 6,
    ensures
        two_to(8 - r) == 2 * two_to(7 - r),
        two_to(7 - r) * (2 * two_to(r)) == 256,
        two_to(7 - r) > 0,
        two_to(r) > 0,
        r == 0 ==> two_to(7 - r) == 128,
        r == 1 ==> two_to(7 - r) == 64,
        r == 2 ==> two_to(7 - r) == 32,
        r == 3 ==> two_to(7 - r) == 16,
        r == 4 ==> two_to(7 - r) == 8,
        r == 5 ==> two_to(7 - r) == 4,
        r == 6 ==> two_to(7 - r) == 2,
{
    powers();
    let c = two_to(7 - r);
    let e = two_to(r);
    if r == 0 {
        assert(c == 128 && e == 1);
    } else if r == 1 {
        assert(c == 64 && e == 2);
    } else if r == 2 {
        assert(c == 32 && e == 4);
    } else if r == 3 {
        assert(c == 16 && e == 8);
    } else if r == 4 {
        assert(c == 8 && e == 16);
    } else if r == 5 {
        assert(c == 4 && e == 32);
    } else {
        assert(c == 2 && e == 64);
    }
    assert(c * (2 * e) == 256) by (nonlinear_arith)
        requires
            c == 128 && e == 1 || c == 64 && e == 2 || c == 32 && e == 4 || c == 16 && e == 8 || c == 8 && e
                == 16 || c == 4 && e == 32 || c == 2 && e == 64,
    ;
}

/// Thirty-two bits that start with a byte are its four bytes; one bit further on, the first bit is gone and
/// the next has come behind.
#[verifier::rlimit(40)]
pub proof fn bits_go_by_one(d: Seq<u8>, from: int)
    requires
        0 <= from,
    ensures
        from % 8 == 0 && from / 8 + 4 <= d.len() ==> bits_at(d, from) == be32(d, from / 8),
        bits_at(d, from + 1) == (bits_at(d, from) * 2) % 0x1_0000_0000 + bit_at(d, from + 32),
{
    let q = from / 8;
    let r = from % 8;
    assert((from + 32) / 8 == q + 4 && (from + 32) % 8 == r);
    let b0 = byte_at(d, q);
    let b1 = byte_at(d, q + 1);
    let b2 = byte_at(d, q + 2);
    let b3 = byte_at(d, q + 3);
    let b4 = byte_at(d, q + 4);
    let b5 = byte_at(d, q + 5);
    let high = ((b0 * 256 + b1) * 256 + b2) * 256 + b3;
    let f = five_bytes(d, q);
    assert(f == high * 256 + b4);
    powers();
    if r == 0 && q + 4 <= d.len() {
        assert(be32(d, q) == high);
        assert(f / 256 == high);
    }
    if r < 7 {
        assert((from + 1) / 8 == q && (from + 1) % 8 == r + 1);
        let c = two_to(7 - r);
        a_byte_is_parted(r);
        one_bit(high, b4, c, two_to(r));
        halved(f / c);
        assert(bits_at(d, from) == f / (2 * c) % 0x1_0000_0000);
        assert(bits_at(d, from + 1) == f / c % 0x1_0000_0000);
        assert(bit_at(d, from + 32) == b4 / c % 2);
    } else {
        assert((from + 1) / 8 == q + 1 && (from + 1) % 8 == 0);
        let g = five_bytes(d, q + 1);
        let low = ((b1 * 256 + b2) * 256 + b3) * 256 + b4;
        assert(g == low * 256 + b5);
        assert(g / 256 == low);
        assert(bits_at(d, from + 1) == g / 256 % 0x1_0000_0000);
        assert(bits_at(d, from) == f / 2 % 0x1_0000_0000);
        assert(bit_at(d, from + 32) == b4 % 2);
        assert(0 <= low < 0x1_0000_0000);
        assert(f == b0 * 0x1_0000_0000 + low);
        halved(f);
        assert(f % 0x1_0000_0000 == low);
        assert(f % 2 == b4 % 2);
    }
}

proof fn powers()
    ensures
        two_to(0) == 1,
        two_to(1) == 2,
        two_to(2) == 4,
        two_to(3) == 8,
        two_to(4) == 16,
        two_to(5) == 32,
        two_to(6) == 64,
        two_to(7) == 128,
        two_to(8) == 256,
{
    reveal_with_fuel(two_to, 9);
}

// ---------------------------------------------------------------------------
// The table of contents
// ---------------------------------------------------------------------------

/// The items below another, or at the top, each become a node, in their order, with those below it: the
/// result gives the items that the nodes were made of.
pub proof fn items_become_nodes(
    items: Seq<Ncx>,
    places: Seq<(u32, Option<Seq<char>>)>,
    above: Option<u32>,
    k: int,
    depth: nat,
) -> (of: Seq<int>)
    requires
        0 <= k <= items.len(),
    ensures
        ({
            let nodes = ncx_nodes(items, places, above, k, depth);
            &&& of.len() == nodes.len()
            &&& forall|j: int|
                0 <= j < of.len() ==> {
                    let i = #[trigger] of[j];
                    &&& k <= i < items.len()
                    &&& items[i].parent == above
                    &&& items[i].label.len() > 0 ==> nodes[j].label == items[i].label
                    &&& nodes[j].chapter_index == places[i].0
                    &&& nodes[j].anchor == places[i].1
                    &&& depth > 0 ==> nodes[j].children == ncx_nodes(
                        items,
                        places,
                        Some(items[i].index as u32),
                        0,
                        (depth - 1) as nat,
                    )
                }
            &&& forall|j: int, l: int|
                #![trigger of[j], of[l]]
                0 <= j < l < of.len() ==> of[j] < of[l]
            &&& forall|i: int|
                k <= i < items.len() && (#[trigger] items[i]).parent == above ==> of.contains(i)
        }),
    decreases items.len() - k,
{
    if k >= items.len() {
        Seq::empty()
    } else {
        let more = items_become_nodes(items, places, above, k + 1, depth);
        if items[k].parent != above {
            more
        } else {
            let of = seq![k] + more;
            let nodes = ncx_nodes(items, places, above, k, depth);
            let rest = ncx_nodes(items, places, above, k + 1, depth);
            assert forall|j: int| 0 <= j < of.len() implies {
                let i = #[trigger] of[j];
                &&& k <= i < items.len()
                &&& items[i].parent == above
                &&& items[i].label.len() > 0 ==> nodes[j].label == items[i].label
                &&& nodes[j].chapter_index == places[i].0
                &&& nodes[j].anchor == places[i].1
                &&& depth > 0 ==> nodes[j].children == ncx_nodes(
                    items,
                    places,
                    Some(items[i].index as u32),
                    0,
                    (depth - 1) as nat,
                )
            } by {
                if j > 0 {
                    assert(of[j] == more[j - 1]);
                    assert(nodes[j] == rest[j - 1]);
                }
            }
            assert forall|j: int, l: int|
                #![trigger of[j], of[l]]
                0 <= j < l < of.len() implies of[j] < of[l] by {
                assert(of[l] == more[l - 1]);
                if j > 0 {
                    assert(of[j] == more[j - 1]);
                }
            }
            assert forall|i: int| k <= i < items.len() && (#[trigger] items[i]).parent
                == above implies of.contains(i) by {
                if i > k {
                    assert(more.contains(i));
                    let j = choose|j: int| 0 <= j < more.len() && more[j] == i;
                    assert(of[j + 1] == i);
                } else {
                    assert(of[0] == i);
                }
            }
            of
        }
    }
}


// ---------------------------------------------------------------------------
// Words of a dictionary
// ---------------------------------------------------------------------------

/// Phrases of bytes, one for each, from the `i`-th byte on.
pub open spec fn phrases(phrase: spec_fn(u8) -> Seq<u8>, a: Seq<u8>, i: int) -> Seq<u8>
    decreases a.len() - i,
{
    if i < 0 || i >= a.len() {
        Seq::empty()
    } else {
        phrase(a[i]) + phrases(phrase, a, i + 1)
    }
}

/// Each byte is a code of its own: the table settles it at eight bits, and the entry that it leads to is plain.
pub open spec fn each_byte_is_a_code(
    table1: Seq<(bool, u32, u32)>,
    dict: Seq<(Seq<u8>, bool)>,
    number: spec_fn(u8) -> int,
    phrase: spec_fn(u8) -> Seq<u8>,
) -> bool {
    forall|b: u8|
        #![trigger number(b)]
        table1[b as int].0 && table1[b as int].1 == 8 && table1[b as int].2 == number(b) + b && 0 <= number(
            b,
        ) < dict.len() && dict[number(b)].1 && dict[number(b)].0 == phrase(b)
}

#[verifier::rlimit(40)]
proof fn bits_of_a_byte(a: Seq<u8>, k: int)
    requires
        0 <= k < a.len(),
    ensures
        bits_at(a, 8 * k) / 0x100_0000 == a[k],
        top_bits(bits_at(a, 8 * k), 8) == a[k],
{
    powers();
    assert((8 * k) / 8 == k && (8 * k) % 8 == 0);
    let b0 = byte_at(a, k);
    let b1 = byte_at(a, k + 1);
    let b2 = byte_at(a, k + 2);
    let b3 = byte_at(a, k + 3);
    let b4 = byte_at(a, k + 4);
    let high = ((b0 * 256 + b1) * 256 + b2) * 256 + b3;
    assert(five_bytes(a, k) == high * 256 + b4);
    assert(five_bytes(a, k) / 256 == high);
    assert(0 <= high < 0x1_0000_0000);
    assert(high / 0x100_0000 == b0);
    reveal_with_fuel(two_to, 17);
    assert(two_to(16) == 65536);
    assert(two_to(24) == 0x100_0000) by {
        assert(two_to(24) == 256 * two_to(16));
    }
}

#[verifier::rlimit(40)]
proof fn words_go_on(
    table1: Seq<(bool, u32, u32)>,
    table2: Seq<(u32, u32)>,
    dict: Seq<(Seq<u8>, bool)>,
    number: spec_fn(u8) -> int,
    phrase: spec_fn(u8) -> Seq<u8>,
    a: Seq<u8>,
    k: int,
    out: Seq<u8>,
    depth: nat,
)
    requires
        0 <= k <= a.len(),
        each_byte_is_a_code(table1, dict, number, phrase),
        dict.len() <= u32::MAX,
    ensures
        huff_from(table1, table2, dict, a, 8 * k, out, depth) == Some(out + phrases(phrase, a, k)),
    decreases a.len() - k,
{
    if k < a.len() {
        bits_of_a_byte(a, k);
        let b = a[k];
        let n = number(b);
        assert((table1[b as int].2 - b as int) % 0x1_0000_0000 == n);
        words_go_on(table1, table2, dict, number, phrase, a, k + 1, out + phrase(b), depth);
        assert(8 * k + 8 == 8 * (k + 1));
        assert(out + phrase(b) + phrases(phrase, a, k + 1) =~= out + phrases(phrase, a, k));
    } else {
        assert(out + Seq::<u8>::empty() =~= out);
    }
}

/// Where each byte is a code of its own, a text is the phrases that its bytes stand for, one after another,
/// none of them left out.
pub proof fn bytes_stand_for_phrases(
    table1: Seq<(bool, u32, u32)>,
    table2: Seq<(u32, u32)>,
    dict: Seq<(Seq<u8>, bool)>,
    number: spec_fn(u8) -> int,
    phrase: spec_fn(u8) -> Seq<u8>,
    a: Seq<u8>,
    depth: nat,
)
    requires
        each_byte_is_a_code(table1, dict, number, phrase),
        dict.len() <= u32::MAX,
    ensures
        huff_from(table1, table2, dict, a, 0, Seq::empty(), depth) == Some(phrases(phrase, a, 0)),
{
    words_go_on(table1, table2, dict, number, phrase, a, 0, Seq::empty(), depth);
    assert(Seq::<u8>::empty() + phrases(phrase, a, 0) =~= phrases(phrase, a, 0));
}

/// A code that is not settled by its first eight bits is as long as it must be: it ends with the first length
/// at which its bits are no less than the least code of that length.
pub proof fn a_code_ends_where_it_must(table2: Seq<(u32, u32)>, bits: int, from: int, len: int)
    requires
        0 <= from <= len <= 32,
        forall|l: int| from <= l < len ==> #[trigger] top_bits(bits, l) < table2[l].0,
        len < 32 ==> top_bits(bits, len) >= table2[len].0,
    ensures
        code_length(table2, bits, from) == len,
    decreases len - from,
{
    if from < len {
        assert(top_bits(bits, from) < table2[from].0);
        a_code_ends_where_it_must(table2, bits, from + 1, len);
    }
}

/// An entry of a dictionary is read as it stands: its length is in the two bytes before it, with the highest
/// bit for whether it is plain.
pub proof fn an_entry_is_read_as_it_stands(
    front: Seq<u8>,
    word: Seq<u8>,
    plain: bool,
    rest: Seq<u8>,
    j: int,
)
    requires
        0 <= j,
        j * 2 + 2 <= front.len() <= u16::MAX,
        word.len() < 0x8000,
        front[j * 2] == front.len() / 256,
        front[j * 2 + 1] == front.len() % 256,
    ensures
        cdic_entry(
            front + big16(
                (word.len() + if plain {
                    0x8000int
                } else {
                    0int
                }) as u16,
            ) + word + rest,
            j,
        ) == (word, plain),
{
    let x = (word.len() + if plain {
        0x8000int
    } else {
        0int
    }) as u16;
    let d = front + big16(x) + word + rest;
    let at = front.len() as int;
    assert(be16(d, j * 2) == at);
    assert(d[at] == big16(x)[0] && d[at + 1] == big16(x)[1]);
    assert(be16(d, at) == x);
    assert(d.subrange(at + 2, at + 2 + word.len()) =~= word);
}

} // verus!
