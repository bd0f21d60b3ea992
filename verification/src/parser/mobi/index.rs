//! The indexes of a Mobipocket book: tables of entries with tagged values, and a dictionary of
//! labels.
use vstd::prelude::*;
use crate::decoding::{decode_bytes, from_utf8_lossy, mobi_text, utf8_lossy};
use crate::error::{AppError, AppResult, Failure};
use crate::parser::mobi::pdb::{
    be16, be32, bit_count, byte_at, clip, clipped, count_bits_set, count_unset_end, exactly,
    get_var_len, has_tag, low_zeros, power_of_two, record_bytes, tagged, take_exactly, two_to,
    two_to_grows, u16_at, u32_at, u8_at, var_size, var_value, Pdb,
};
use crate::text::string_of;
use crate::views::{deep_empty, deep_push};

verus! {

/// The fields of an INDX record's header that are used: its length, where the table of entries
/// is, the number of records or entries, the encoding and the number of label records.
pub struct IndxHeader {
    pub length: u64,
    pub idxt: u64,
    pub count: u64,
    pub encoding: u64,
    pub num_cncx: u64,
}

/// The record is an INDX record.
pub open spec fn is_indx(rec: Seq<u8>) -> bool {
    tagged(rec, 0, 0x49, 0x4e, 0x44, 0x58)
}

/// Reads the header of an INDX record.
pub fn parse_indx_header(record: &[u8]) -> (r: AppResult<IndxHeader>)
    ensures
        match r {
            Ok(h) => is_indx(record@) && h.length == be32(record@, 4) && h.idxt == be32(
                record@,
                20,
            ) && h.count == be32(record@, 24) && h.encoding == be32(record@, 28) && h.num_cncx
                == be32(record@, 52) && h.length <= u32::MAX && h.idxt <= u32::MAX && h.count
                <= u32::MAX && h.encoding <= u32::MAX && h.num_cncx <= u32::MAX,
            Err(e) => !is_indx(record@) && e@ == Failure::Other("无效的 INDX 记录"@),
        },
{
    if !has_tag(record, 0, 0x49, 0x4e, 0x44, 0x58) {
        return Err(AppError::other("无效的 INDX 记录"));
    }
    Ok(
        IndxHeader {
            length: u32_at(record, 4) as u64,
            idxt: u32_at(record, 20) as u64,
            count: u32_at(record, 24) as u64,
            encoding: u32_at(record, 28) as u64,
            num_cncx: u32_at(record, 52) as u64,
        },
    )
}

/// One row of the table of tags: the tag, how many numbers make one value, the bits of the
/// control byte that count the values, and whether the row ends a control byte.
#[derive(Clone, Copy)]
pub struct TagRow {
    pub tag: u32,
    pub num_values: u32,
    pub mask: u32,
    pub end_flag: u32,
}

/// The rows of a TAGX section.
pub open spec fn tag_rows(tagx: Seq<u8>) -> Seq<TagRow> {
    Seq::new(
        ((be32(tagx, 4) - 12) / 4) as nat,
        |i: int|
            TagRow {
                tag: tagx[12 + i * 4] as u32,
                num_values: tagx[12 + i * 4 + 1] as u32,
                mask: tagx[12 + i * 4 + 2] as u32,
                end_flag: tagx[12 + i * 4 + 3] as u32,
            },
    )
}

/// The rows of a TAGX section lie within it.
pub open spec fn tagx_whole(tagx: Seq<u8>) -> bool {
    be32(tagx, 4) >= 12 && 12 + ((be32(tagx, 4) - 12) / 4) * 4 <= tagx.len()
}

/// Reads the rows of a TAGX section.
fn read_tag_rows(tagx: &[u8]) -> (r: Option<Vec<TagRow>>)
    ensures
        match r {
            Some(v) => tagx_whole(tagx@) && v@ == tag_rows(tagx@) && rows_small(v@),
            None => !tagx_whole(tagx@),
        },
{
    let len = u32_at(tagx, 4) as u64;
    if len < 12 {
        return None;
    }
    let n: u64 = (len - 12) / 4;
    if 12 + n * 4 > tagx.len() as u64 {
        return None;
    }
    let mut out: Vec<TagRow> = Vec::new();
    let mut i: u64 = 0;
    while i < n
        invariant
            i <= n,
            n == (be32(tagx@, 4) - 12) / 4,
            be32(tagx@, 4) >= 12,
            12 + n * 4 <= tagx@.len(),
            tagx@.len() <= usize::MAX,
            out@.len() == i,
            rows_small(out@),
            forall|k: int| 0 <= k < i ==> out@[k] == tag_rows(tagx@)[k],
        decreases n - i,
    {
        let o: usize = (12 + i * 4) as usize;
        out.push(
            TagRow {
                tag: tagx[o] as u32,
                num_values: tagx[o + 1] as u32,
                mask: tagx[o + 2] as u32,
                end_flag: tagx[o + 3] as u32,
            },
        );
        i = i + 1;
    }
    assert(out@ =~= tag_rows(tagx@));
    Some(out)
}

/// Every field of every row is a byte.
pub open spec fn rows_small(rows: Seq<TagRow>) -> bool {
    forall|k: int|
        0 <= k < rows.len() ==> (#[trigger] rows[k]).tag < 256 && rows[k].num_values < 256
            && rows[k].mask < 256 && rows[k].end_flag < 256
}

/// How many numbers an entry has for a tag: either so many numbers, or as many as take so many
/// bytes.
#[derive(Clone, Copy)]
pub struct TagSlot {
    pub tag: u32,
    pub counted: bool,
    pub amount: u32,
}

/// What the control bytes of an entry say of each tag, from the `k`-th row on, and where the
/// values start. A row that ends a control byte moves on to the next one. Where all bits of a
/// mask of several are set, the number of bytes that the values take follows.
pub open spec fn slots_from(
    rows: Seq<TagRow>,
    rec: Seq<u8>,
    start: int,
    k: int,
    control: int,
    pos: int,
    acc: Seq<TagSlot>,
) -> (Seq<TagSlot>, int)
    decreases rows.len() - k,
{
    if k < 0 || k >= rows.len() {
        (acc, pos)
    } else {
        let row = rows[k];
        if row.end_flag % 2 == 1 {
            slots_from(rows, rec, start, k + 1, control + 1, pos, acc)
        } else {
            let value = (byte_at(rec, start + control) as u32) & row.mask;
            if value == row.mask {
                if bit_count(row.mask as int) > 1 {
                    let slot = TagSlot {
                        tag: row.tag,
                        counted: false,
                        amount: var_value(rec, pos) as u32,
                    };
                    slots_from(
                        rows,
                        rec,
                        start,
                        k + 1,
                        control,
                        pos + var_size(rec, pos, 0),
                        acc.push(slot),
                    )
                } else {
                    let slot = TagSlot { tag: row.tag, counted: true, amount: row.num_values };
                    slots_from(rows, rec, start, k + 1, control, pos, acc.push(slot))
                }
            } else {
                let count = value as int / two_to(low_zeros(row.mask as int));
                let slot = TagSlot {
                    tag: row.tag,
                    counted: true,
                    amount: (count * row.num_values) as u32,
                };
                slots_from(rows, rec, start, k + 1, control, pos, acc.push(slot))
            }
        }
    }
}

/// The count that the bits of a mask hold.
fn masked_count(value: u32, mask: u32) -> (r: u32)
    requires
        0 < mask < 256,
        value < 256,
    ensures
        r == value as int / two_to(low_zeros(mask as int)),
        r < 256,
{
    let z = count_unset_end(mask);
    proof {
        if z >= 8 {
            two_to_grows(8, z as int);
            reveal_with_fuel(two_to, 9);
        }
    }
    let p = power_of_two(z);
    let q: u64 = value as u64 / p;
    assert(q <= value) by (nonlinear_arith)
        requires
            q == value as u64 / p,
            p > 0,
    ;
    q as u32
}

/// A masked byte is no more than the byte.
proof fn mask_bound(b: u32, m: u32)
    by (bit_vector)
    requires
        b < 256,
    ensures
        b & m < 256,
        m == 0 ==> b & m == m,
{
}

/// Reads what the control bytes of an entry say of each tag.
fn read_slots(rows: &Vec<TagRow>, rec: &[u8], start: u64, first: u64) -> (r: (Vec<TagSlot>, u64))
    requires
        rows_small(rows@),
        start <= 0x1_0000_0000,
        first <= 0x4_0000_0000,
        rows@.len() <= 0x1_0000_0000,
    ensures
        (r.0@, r.1 as int) == slots_from(
            rows@,
            rec@,
            start as int,
            0,
            0,
            first as int,
            Seq::empty(),
        ),
        r.1 <= 0x4_0000_0000 || r.1 <= rec@.len(),
{
    let mut slots: Vec<TagSlot> = Vec::new();
    let mut control: u64 = 0;
    let mut pos: u64 = first;
    let mut k: usize = 0;
    while k < rows.len()
        invariant
            rows_small(rows@),
            start <= 0x1_0000_0000,
            rows@.len() <= 0x1_0000_0000,
            k <= rows@.len(),
            control <= k,
            pos <= 0x4_0000_0000 || pos <= rec@.len(),
            slots_from(rows@, rec@, start as int, 0, 0, first as int, Seq::empty()) == slots_from(
                rows@,
                rec@,
                start as int,
                k as int,
                control as int,
                pos as int,
                slots@,
            ),
        decreases rows@.len() - k,
    {
        let row = rows[k];
        if row.end_flag % 2 == 1 {
            control = control + 1;
        } else {
            let byte = u8_at(rec, start + control);
            let value = byte & row.mask;
            proof {
                mask_bound(byte, row.mask);
            }
            if value == row.mask {
                if count_bits_set(row.mask) > 1 {
                    let (v, l) = get_var_len(rec, pos);
                    slots.push(TagSlot { tag: row.tag, counted: false, amount: v });
                    pos = pos + l;
                } else {
                    slots.push(TagSlot { tag: row.tag, counted: true, amount: row.num_values });
                }
            } else {
                let count = masked_count(value, row.mask);
                assert(count * row.num_values <= 255 * 255) by (nonlinear_arith)
                    requires
                        count < 256,
                        row.num_values < 256,
                ;
                slots.push(
                    TagSlot { tag: row.tag, counted: true, amount: count * row.num_values },
                );
            }
        }
        k = k + 1;
    }
    (slots, pos)
}

/// `n` numbers from `pos` on, and where they end.
pub open spec fn counted_values(rec: Seq<u8>, pos: int, n: int, acc: Seq<u32>) -> (Seq<u32>, int)
    decreases n,
{
    if n <= 0 {
        (acc, pos)
    } else {
        counted_values(
            rec,
            pos + var_size(rec, pos, 0),
            n - 1,
            acc.push(var_value(rec, pos) as u32),
        )
    }
}

/// The numbers from `pos` on that take `total` bytes, of which `used` are read, and where they
/// end; none where the record ends before.
pub open spec fn sized_values(
    rec: Seq<u8>,
    pos: int,
    used: int,
    total: int,
    acc: Seq<u32>,
) -> Option<(Seq<u32>, int)>
    decreases
            (if used < total {
                total - used
            } else {
                0
            }),
{
    if used >= total {
        Some((acc, pos))
    } else {
        let l = var_size(rec, pos, 0);
        if l <= 0 {
            None
        } else {
            sized_values(rec, pos + l, used + l, total, acc.push(var_value(rec, pos) as u32))
        }
    }
}

/// The values of each tag, from the `k`-th slot on; none where the record ends within them.
pub open spec fn tags_from(
    slots: Seq<TagSlot>,
    rec: Seq<u8>,
    k: int,
    pos: int,
    acc: Seq<(u32, Seq<u32>)>,
) -> Option<Seq<(u32, Seq<u32>)>>
    decreases slots.len() - k,
{
    if k < 0 || k >= slots.len() {
        Some(acc)
    } else {
        let slot = slots[k];
        if slot.counted {
            let (vals, next) = counted_values(rec, pos, slot.amount as int, Seq::empty());
            tags_from(slots, rec, k + 1, next, acc.push((slot.tag, vals)))
        } else {
            match sized_values(rec, pos, 0, slot.amount as int, Seq::empty()) {
                Some((vals, next)) => tags_from(
                    slots,
                    rec,
                    k + 1,
                    next,
                    acc.push((slot.tag, vals)),
                ),
                None => None,
            }
        }
    }
}

fn read_counted(rec: &[u8], first: u64, n: u32) -> (r: (Vec<u32>, u64))
    requires
        first <= 0x4_0000_0000 || first <= rec@.len(),
    ensures
        (r.0@, r.1 as int) == counted_values(rec@, first as int, n as int, Seq::empty()),
        r.1 <= 0x4_0000_0000 || r.1 <= rec@.len(),
{
    let mut vals: Vec<u32> = Vec::new();
    let mut pos: u64 = first;
    let mut k: u32 = 0;
    while k < n
        invariant
            k <= n,
            pos <= 0x4_0000_0000 || pos <= rec@.len(),
            counted_values(rec@, first as int, n as int, Seq::empty()) == counted_values(
                rec@,
                pos as int,
                n - k,
                vals@,
            ),
        decreases n - k,
    {
        let (v, l) = get_var_len(rec, pos);
        vals.push(v);
        pos = pos + l;
        k = k + 1;
    }
    (vals, pos)
}

fn read_sized(rec: &[u8], first: u64, total: u32) -> (r: Option<(Vec<u32>, u64)>)
    requires
        first <= 0x4_0000_0000 || first <= rec@.len(),
    ensures
        match r {
            Some((v, p)) => sized_values(rec@, first as int, 0, total as int, Seq::empty()) == Some(
                (v@, p as int),
            ) && (p <= 0x4_0000_0000 || p <= rec@.len()),
            None => sized_values(rec@, first as int, 0, total as int, Seq::empty()) is None,
        },
{
    let mut vals: Vec<u32> = Vec::new();
    let mut pos: u64 = first;
    let mut used: u64 = 0;
    while used < total as u64
        invariant
            used <= total + 4,
            pos <= 0x4_0000_0000 || pos <= rec@.len(),
            sized_values(rec@, first as int, 0, total as int, Seq::empty()) == sized_values(
                rec@,
                pos as int,
                used as int,
                total as int,
                vals@,
            ),
        decreases total + 4 - used,
    {
        let (v, l) = get_var_len(rec, pos);
        if l == 0 {
            return None;
        }
        vals.push(v);
        pos = pos + l;
        used = used + l;
    }
    Some((vals, pos))
}

/// Reads the values of each tag.
fn read_tags(slots: &Vec<TagSlot>, rec: &[u8], first: u64) -> (r: Option<Vec<(u32, Vec<u32>)>>)
    requires
        first <= 0x4_0000_0000 || first <= rec@.len(),
    ensures
        match r {
            Some(v) => tags_from(slots@, rec@, 0, first as int, Seq::empty()) == Some(
                v.deep_view(),
            ),
            None => tags_from(slots@, rec@, 0, first as int, Seq::empty()) is None,
        },
{
    let mut out: Vec<(u32, Vec<u32>)> = Vec::new();
    proof {
        deep_empty(out);
    }
    let mut pos: u64 = first;
    let mut k: usize = 0;
    while k < slots.len()
        invariant
            k <= slots@.len(),
            pos <= 0x4_0000_0000 || pos <= rec@.len(),
            tags_from(slots@, rec@, 0, first as int, Seq::empty()) == tags_from(
                slots@,
                rec@,
                k as int,
                pos as int,
                out.deep_view(),
            ),
        decreases slots@.len() - k,
    {
        let slot = slots[k];
        let ghost before = out;
        let vals: Vec<u32>;
        if slot.counted {
            let (v, p) = read_counted(rec, pos, slot.amount);
            vals = v;
            pos = p;
        } else {
            match read_sized(rec, pos, slot.amount) {
                Some((v, p)) => {
                    vals = v;
                    pos = p;
                },
                None => {
                    return None;
                },
            }
        }
        assert(vals.deep_view() =~= vals@);
        let item = (slot.tag, vals);
        out.push(item);
        proof {
            deep_push(before, item, out);
            assert(item.deep_view() == (slot.tag, vals@));
        }
        k = k + 1;
    }
    Some(out)
}

/// An entry of an index: its name and the values of its tags, in the order in which the tags
/// come.
pub struct IndexEntry {
    pub name: String,
    pub tags: Vec<(u32, Vec<u32>)>,
}

/// `IndexEntry` over sequences.
#[verifier::ext_equal]
pub struct Entry {
    pub name: Seq<char>,
    pub tags: Seq<(u32, Seq<u32>)>,
}

impl DeepView for IndexEntry {
    type V = Entry;

    open spec fn deep_view(&self) -> Entry {
        Entry { name: self.name@, tags: self.tags.deep_view() }
    }
}

/// The entry at `offset` of a record, where the record holds all of its values.
pub open spec fn entry_at(rec: Seq<u8>, offset: int, rows: Seq<TagRow>, control_bytes: int) -> Option<
    Entry,
> {
    let length = rec[offset] as int;
    let start = offset + 1 + length;
    let (slots, pos) = slots_from(rows, rec, start, 0, 0, start + control_bytes, Seq::empty());
    match tags_from(slots, rec, 0, pos, Seq::empty()) {
        Some(tags) => Some(
            Entry { name: utf8_lossy(exactly(rec, offset + 1, offset + 1 + length)), tags },
        ),
        None => None,
    }
}

/// The entries of a record from the `j`-th on. Where an entry would lie outside the record it is
/// passed over; where it is cut short, the record is damaged.
pub open spec fn entries_from(
    rec: Seq<u8>,
    rows: Seq<TagRow>,
    control_bytes: int,
    j: int,
    acc: Seq<Entry>,
) -> Option<Seq<Entry>>
    decreases be32(rec, 24) - j,
{
    if j >= be32(rec, 24) {
        Some(acc)
    } else {
        let offset = be16(rec, be32(rec, 20) + 4 + 2 * j);
        if offset >= rec.len() {
            entries_from(rec, rows, control_bytes, j + 1, acc)
        } else {
            match entry_at(rec, offset, rows, control_bytes) {
                Some(e) => entries_from(rec, rows, control_bytes, j + 1, acc.push(e)),
                None => None,
            }
        }
    }
}

fn read_entry(rec: &[u8], offset: u64, rows: &Vec<TagRow>, control_bytes: u64) -> (r: Option<
    IndexEntry,
>)
    requires
        offset < rec@.len(),
        offset <= 0xffff,
        control_bytes <= u32::MAX,
        rows_small(rows@),
        rows@.len() <= 0x1_0000_0000,
    ensures
        match r {
            Some(e) => entry_at(rec@, offset as int, rows@, control_bytes as int) == Some(
                e.deep_view(),
            ),
            None => entry_at(rec@, offset as int, rows@, control_bytes as int) is None,
        },
{
    let length = rec[offset as usize] as u64;
    let name = from_utf8_lossy(take_exactly(rec, offset + 1, offset + 1 + length));
    let start = offset + 1 + length;
    let (slots, pos) = read_slots(rows, rec, start, start + control_bytes);
    match read_tags(&slots, rec, pos) {
        Some(tags) => Some(IndexEntry { name, tags }),
        None => None,
    }
}

/// Reads the entries of one record behind those that are already there.
fn read_entries(
    rec: &[u8],
    rows: &Vec<TagRow>,
    control_bytes: u64,
    table: Vec<IndexEntry>,
) -> (r: Option<Vec<IndexEntry>>)
    requires
        control_bytes <= u32::MAX,
        rows_small(rows@),
        rows@.len() <= 0x1_0000_0000,
    ensures
        match r {
            Some(v) => entries_from(
                rec@,
                rows@,
                control_bytes as int,
                0,
                table.deep_view(),
            ) == Some(v.deep_view()),
            None => entries_from(
                rec@,
                rows@,
                control_bytes as int,
                0,
                table.deep_view(),
            ) is None,
        },
{
    let mut out = table;
    let idxt = u32_at(rec, 20) as u64;
    let count = u32_at(rec, 24) as u64;
    let mut j: u64 = 0;
    while j < count
        invariant
            j <= count <= u32::MAX,
            idxt <= u32::MAX,
            idxt == be32(rec@, 20),
            count == be32(rec@, 24),
            control_bytes <= u32::MAX,
            rows_small(rows@),
            rows@.len() <= 0x1_0000_0000,
            entries_from(rec@, rows@, control_bytes as int, 0, table.deep_view()) == entries_from(
                rec@,
                rows@,
                control_bytes as int,
                j as int,
                out.deep_view(),
            ),
        decreases count - j,
    {
        let offset = u16_at(rec, idxt + 4 + 2 * j) as u64;
        if offset < rec.len() as u64 {
            match read_entry(rec, offset, rows, control_bytes) {
                Some(e) => {
                    let ghost before = out;
                    out.push(e);
                    proof {
                        deep_push(before, e, out);
                    }
                },
                None => {
                    return None;
                },
            }
        }
        j = j + 1;
    }
    Some(out)
}

/// The entries of the records from the `i`-th of an index on.
pub open spec fn table_from(
    data: Seq<u8>,
    offsets: Seq<u32>,
    first: int,
    count: int,
    i: int,
    rows: Seq<TagRow>,
    control_bytes: int,
    acc: Seq<Entry>,
) -> Result<Seq<Entry>, Failure>
    decreases count - i,
{
    if i >= count {
        Ok(acc)
    } else {
        match record_bytes(data, offsets, first + 1 + i) {
            Err(e) => Err(e),
            Ok(rec) => if !is_indx(rec) {
                Err(Failure::Other("无效的 INDX 记录"@))
            } else {
                match entries_from(rec, rows, control_bytes, 0, acc) {
                    None => Err(Failure::Other("INDX 条目损坏"@)),
                    Some(next) => table_from(
                        data,
                        offsets,
                        first,
                        count,
                        i + 1,
                        rows,
                        control_bytes,
                        next,
                    ),
                }
            },
        }
    }
}

/// The labels of one record from `pos` on, each under its place behind `base`.
pub open spec fn labels_from(
    rec: Seq<u8>,
    base: int,
    encoding: int,
    pos: int,
    acc: Seq<(u128, Seq<char>)>,
) -> Seq<(u128, Seq<char>)>
    decreases rec.len() - pos,
{
    if pos < 0 || pos >= rec.len() {
        acc
    } else {
        let start = pos + var_size(rec, pos, 0);
        let end = if start + var_value(rec, pos) < rec.len() {
            start + var_value(rec, pos)
        } else {
            rec.len() as int
        };
        if end <= pos {
            acc
        } else {
            labels_from(
                rec,
                base,
                encoding,
                end,
                acc.push(((base + pos) as u128, mobi_text(rec.subrange(start, end), encoding))),
            )
        }
    }
}

/// The labels of the records from the `i`-th on; those of each record lie 0x10000 apart.
pub open spec fn cncx_from(
    data: Seq<u8>,
    offsets: Seq<u32>,
    first: int,
    count: int,
    i: int,
    encoding: int,
    acc: Seq<(u128, Seq<char>)>,
) -> Result<Seq<(u128, Seq<char>)>, Failure>
    decreases count - i,
{
    if i >= count {
        Ok(acc)
    } else {
        match record_bytes(data, offsets, first + i) {
            Err(e) => Err(e),
            Ok(rec) => cncx_from(
                data,
                offsets,
                first,
                count,
                i + 1,
                encoding,
                labels_from(rec, i * 0x10000, encoding, 0, acc),
            ),
        }
    }
}

fn read_labels(rec: &[u8], base: u64, encoding: u64, labels: Vec<(u128, String)>) -> (r: Vec<
    (u128, String),
>)
    ensures
        r.deep_view() == labels_from(rec@, base as int, encoding as int, 0, labels.deep_view()),
{
    let n = rec.len() as u64;
    let mut out = labels;
    let mut pos: u64 = 0;
    while pos < n
        invariant
            n == rec@.len(),
            rec@.len() <= usize::MAX,
            pos <= n,
            labels_from(rec@, base as int, encoding as int, 0, labels.deep_view()) == labels_from(
                rec@,
                base as int,
                encoding as int,
                pos as int,
                out.deep_view(),
            ),
        decreases n - pos,
    {
        let (value, l) = get_var_len(rec, pos);
        let start = pos + l;
        let end: u64 = if (value as u64) < n - start {
            start + value as u64
        } else {
            n
        };
        let text = decode_bytes(
            vstd::slice::slice_subrange(rec, start as usize, end as usize),
            encoding,
        );
        let ghost before = out;
        let item = (base as u128 + pos as u128, string_of(&text));
        out.push(item);
        proof {
            deep_push(before, item, out);
            assert(item.deep_view() == ((base + pos) as u128, text@));
        }
        pos = end;
    }
    out
}

/// An index: its entries, and its labels in the order in which they were read.
pub struct IndexData {
    pub table: Vec<IndexEntry>,
    pub cncx: Vec<(u128, String)>,
}

/// The index at record `first`: labels and entries.
pub open spec fn index_of(data: Seq<u8>, offsets: Seq<u32>, first: int) -> Result<
    (Seq<Entry>, Seq<(u128, Seq<char>)>),
    Failure,
> {
    match record_bytes(data, offsets, first) {
        Err(e) => Err(e),
        Ok(rec) => if !is_indx(rec) {
            Err(Failure::Other("无效的 INDX 记录"@))
        } else {
            let tagx = clipped(rec, be32(rec, 4), rec.len() as int);
            let count = be32(rec, 24);
            if !tagged(tagx, 0, 0x54, 0x41, 0x47, 0x58) {
                Err(Failure::Other("无效的 TAGX 区段"@))
            } else if !tagx_whole(tagx) {
                Err(Failure::Other("TAGX 区段损坏"@))
            } else {
                match cncx_from(
                    data,
                    offsets,
                    first + count + 1,
                    be32(rec, 52),
                    0,
                    be32(rec, 28),
                    Seq::empty(),
                ) {
                    Err(e) => Err(e),
                    Ok(labels) => match table_from(
                        data,
                        offsets,
                        first,
                        count,
                        0,
                        tag_rows(tagx),
                        be32(tagx, 8),
                        Seq::empty(),
                    ) {
                        Err(e) => Err(e),
                        Ok(table) => Ok((table, labels)),
                    },
                }
            }
        },
    }
}

fn read_cncx(pdb: &Pdb, first: u64, count: u64, encoding: u64) -> (r: AppResult<
    Vec<(u128, String)>,
>)
    requires
        first <= 0x4_0000_0000,
        count <= u32::MAX,
    ensures
        match r {
            Ok(v) => cncx_from(
                pdb.data@,
                pdb.offsets@,
                first as int,
                count as int,
                0,
                encoding as int,
                Seq::empty(),
            ) == Ok::<Seq<(u128, Seq<char>)>, Failure>(v.deep_view()),
            Err(e) => cncx_from(
                pdb.data@,
                pdb.offsets@,
                first as int,
                count as int,
                0,
                encoding as int,
                Seq::empty(),
            ) == Err::<Seq<(u128, Seq<char>)>, Failure>(e@),
        },
{
    let mut labels: Vec<(u128, String)> = Vec::new();
    proof {
        deep_empty(labels);
    }
    let mut i: u64 = 0;
    while i < count
        invariant
            i <= count <= u32::MAX,
            first <= 0x4_0000_0000,
            cncx_from(
                pdb.data@,
                pdb.offsets@,
                first as int,
                count as int,
                0,
                encoding as int,
                Seq::empty(),
            ) == cncx_from(
                pdb.data@,
                pdb.offsets@,
                first as int,
                count as int,
                i as int,
                encoding as int,
                labels.deep_view(),
            ),
        decreases count - i,
    {
        match pdb.record(first + i) {
            Ok(rec) => {
                labels = read_labels(rec, i * 0x10000, encoding, labels);
            },
            Err(e) => {
                return Err(e);
            },
        }
        i = i + 1;
    }
    Ok(labels)
}

fn read_table(pdb: &Pdb, first: u64, count: u64, rows: &Vec<TagRow>, control_bytes: u64) -> (r:
    AppResult<Vec<IndexEntry>>)
    requires
        first <= 0x4_0000_0000,
        count <= u32::MAX,
        control_bytes <= u32::MAX,
        rows_small(rows@),
        rows@.len() <= 0x1_0000_0000,
    ensures
        match r {
            Ok(v) => table_from(
                pdb.data@,
                pdb.offsets@,
                first as int,
                count as int,
                0,
                rows@,
                control_bytes as int,
                Seq::empty(),
            ) == Ok::<Seq<Entry>, Failure>(v.deep_view()),
            Err(e) => table_from(
                pdb.data@,
                pdb.offsets@,
                first as int,
                count as int,
                0,
                rows@,
                control_bytes as int,
                Seq::empty(),
            ) == Err::<Seq<Entry>, Failure>(e@),
        },
{
    let mut table: Vec<IndexEntry> = Vec::new();
    proof {
        deep_empty(table);
    }
    let mut i: u64 = 0;
    while i < count
        invariant
            i <= count <= u32::MAX,
            first <= 0x4_0000_0000,
            control_bytes <= u32::MAX,
            rows_small(rows@),
            rows@.len() <= 0x1_0000_0000,
            table_from(
                pdb.data@,
                pdb.offsets@,
                first as int,
                count as int,
                0,
                rows@,
                control_bytes as int,
                Seq::empty(),
            ) == table_from(
                pdb.data@,
                pdb.offsets@,
                first as int,
                count as int,
                i as int,
                rows@,
                control_bytes as int,
                table.deep_view(),
            ),
        decreases count - i,
    {
        let rec = match pdb.record(first + 1 + i) {
            Ok(rec) => rec,
            Err(e) => {
                return Err(e);
            },
        };
        if let Err(e) = parse_indx_header(rec) {
            return Err(e);
        }
        match read_entries(rec, rows, control_bytes, table) {
            Some(next) => {
                table = next;
            },
            None => {
                return Err(AppError::other("INDX 条目损坏"));
            },
        }
        i = i + 1;
    }
    Ok(table)
}

/// Reads the index at record `base + indx_index`.
pub fn get_index_data(pdb: &Pdb, base: u64, indx_index: u64) -> (r: AppResult<IndexData>)
    requires
        base <= u32::MAX,
        indx_index <= u32::MAX,
    ensures
        match r {
            Ok(d) => index_of(pdb.data@, pdb.offsets@, base + indx_index) == Ok::<
                (Seq<Entry>, Seq<(u128, Seq<char>)>),
                Failure,
            >((d.table.deep_view(), d.cncx.deep_view())),
            Err(e) => index_of(pdb.data@, pdb.offsets@, base + indx_index) == Err::<
                (Seq<Entry>, Seq<(u128, Seq<char>)>),
                Failure,
            >(e@),
        },
{
    let first = base + indx_index;
    let rec = match pdb.record(first) {
        Ok(rec) => rec,
        Err(e) => {
            return Err(e);
        },
    };
    let header = match parse_indx_header(rec) {
        Ok(h) => h,
        Err(e) => {
            return Err(e);
        },
    };
    let tagx = clip(rec, header.length, rec.len() as u64);
    if !has_tag(tagx, 0, 0x54, 0x41, 0x47, 0x58) {
        return Err(AppError::other("无效的 TAGX 区段"));
    }
    let rows = match read_tag_rows(tagx) {
        Some(rows) => rows,
        None => {
            return Err(AppError::other("TAGX 区段损坏"));
        },
    };
    let control_bytes = u32_at(tagx, 8) as u64;
    let cncx = match read_cncx(pdb, first + header.count + 1, header.num_cncx, header.encoding) {
        Ok(c) => c,
        Err(e) => {
            return Err(e);
        },
    };
    let table = match read_table(pdb, first, header.count, &rows, control_bytes) {
        Ok(t) => t,
        Err(e) => {
            return Err(e);
        },
    };
    Ok(IndexData { table, cncx })
}

// ---------------------------------------------------------------------------
// Looking things up
// ---------------------------------------------------------------------------

/// The values of a tag; where it comes more than once, those it comes with last.
pub open spec fn tag_values(tags: Seq<(u32, Seq<u32>)>, tag: u32) -> Option<Seq<u32>>
    decreases tags.len(),
{
    if tags.len() == 0 {
        None
    } else if tags.last().0 == tag {
        Some(tags.last().1)
    } else {
        tag_values(tags.drop_last(), tag)
    }
}

/// The `k`-th value of a tag.
pub open spec fn tag_value(tags: Seq<(u32, Seq<u32>)>, tag: u32, k: int) -> Option<u32> {
    match tag_values(tags, tag) {
        Some(v) => if 0 <= k < v.len() {
            Some(v[k])
        } else {
            None
        },
        None => None,
    }
}

/// The label at a place; where it was read more than once, the last one.
pub open spec fn label_at(labels: Seq<(u128, Seq<char>)>, key: u128) -> Option<Seq<char>>
    decreases labels.len(),
{
    if labels.len() == 0 {
        None
    } else if labels.last().0 == key {
        Some(labels.last().1)
    } else {
        label_at(labels.drop_last(), key)
    }
}

/// The values of a tag.
pub fn values_of(tags: &Vec<(u32, Vec<u32>)>, tag: u32) -> (r: Option<&Vec<u32>>)
    ensures
        match r {
            Some(v) => tag_values(tags.deep_view(), tag) == Some(v@),
            None => tag_values(tags.deep_view(), tag) is None,
        },
{
    let ghost all = tags.deep_view();
    let mut i: usize = tags.len();
    assert(all.take(i as int) =~= all);
    while i > 0
        invariant
            i <= tags@.len(),
            all == tags.deep_view(),
            tag_values(all, tag) == tag_values(all.take(i as int), tag),
        decreases i,
    {
        assert(all.take(i as int).drop_last() =~= all.take(i - 1));
        assert(all.take(i as int).last() == tags@[i - 1].deep_view());
        assert(tags@[i - 1].1.deep_view() =~= tags@[i - 1].1@);
        if tags[i - 1].0 == tag {
            return Some(&tags[i - 1].1);
        }
        i = i - 1;
    }
    None
}

/// The `k`-th value of a tag.
pub fn value_of_tag(tags: &Vec<(u32, Vec<u32>)>, tag: u32, k: usize) -> (r: Option<u32>)
    ensures
        r == tag_value(tags.deep_view(), tag, k as int),
{
    match values_of(tags, tag) {
        Some(v) => if k < v.len() {
            Some(v[k])
        } else {
            None
        },
        None => None,
    }
}

/// The label at a place.
pub fn label_of(labels: &Vec<(u128, String)>, key: u128) -> (r: Option<&String>)
    ensures
        match r {
            Some(s) => label_at(labels.deep_view(), key) == Some(s@),
            None => label_at(labels.deep_view(), key) is None,
        },
{
    let ghost all = labels.deep_view();
    let mut i: usize = labels.len();
    assert(all.take(i as int) =~= all);
    while i > 0
        invariant
            i <= labels@.len(),
            all == labels.deep_view(),
            label_at(all, key) == label_at(all.take(i as int), key),
        decreases i,
    {
        assert(all.take(i as int).drop_last() =~= all.take(i - 1));
        assert(all.take(i as int).last() == labels@[i - 1].deep_view());
        if labels[i - 1].0 == key {
            return Some(&labels[i - 1].1);
        }
        i = i - 1;
    }
    None
}

/// One item of a table of contents as the index has it: where it leads as an offset into the
/// text or as a fragment and an offset into it, and the item above it.
pub struct NcxItem {
    pub index: u64,
    pub label: String,
    pub filepos: Option<u32>,
    pub pos: Option<(u32, u32)>,
    pub parent: Option<u32>,
}

/// `NcxItem` over character sequences.
#[verifier::ext_equal]
pub struct Ncx {
    pub index: u64,
    pub label: Seq<char>,
    pub filepos: Option<u32>,
    pub pos: Option<(u32, u32)>,
    pub parent: Option<u32>,
}

impl DeepView for NcxItem {
    type V = Ncx;

    open spec fn deep_view(&self) -> Ncx {
        Ncx {
            index: self.index,
            label: self.label@,
            filepos: self.filepos,
            pos: self.pos,
            parent: self.parent,
        }
    }
}

/// What an entry of the index says as an item.
pub open spec fn ncx_item(index: int, entry: Entry, labels: Seq<(u128, Seq<char>)>) -> Ncx {
    Ncx {
        index: index as u64,
        label: match tag_value(entry.tags, 3, 0) {
            Some(key) => match label_at(labels, key as u128) {
                Some(s) => s,
                None => Seq::empty(),
            },
            None => Seq::empty(),
        },
        filepos: tag_value(entry.tags, 1, 0),
        pos: match tag_values(entry.tags, 6) {
            Some(v) => Some(
                (
                    match tag_value(entry.tags, 6, 0) {
                        Some(x) => x,
                        None => 0u32,
                    },
                    match tag_value(entry.tags, 6, 1) {
                        Some(x) => x,
                        None => 0u32,
                    },
                ),
            ),
            None => None,
        },
        parent: tag_value(entry.tags, 21, 0),
    }
}

/// The items of an index.
pub open spec fn ncx_items(table: Seq<Entry>, labels: Seq<(u128, Seq<char>)>) -> Seq<Ncx> {
    Seq::new(table.len(), |i: int| ncx_item(i, table[i], labels))
}

/// Reads an index as a table of contents.
pub fn get_ncx(pdb: &Pdb, base: u64, indx_index: u64) -> (r: AppResult<Vec<NcxItem>>)
    requires
        base <= u32::MAX,
        indx_index <= u32::MAX,
    ensures
        match r {
            Ok(v) => index_of(pdb.data@, pdb.offsets@, base + indx_index) matches Ok((table, labels))
                && v.deep_view() == ncx_items(table, labels),
            Err(e) => index_of(pdb.data@, pdb.offsets@, base + indx_index) == Err::<
                (Seq<Entry>, Seq<(u128, Seq<char>)>),
                Failure,
            >(e@),
        },
{
    let data = match get_index_data(pdb, base, indx_index) {
        Ok(d) => d,
        Err(e) => {
            return Err(e);
        },
    };
    let ghost table = data.table.deep_view();
    let ghost labels = data.cncx.deep_view();
    let mut out: Vec<NcxItem> = Vec::new();
    proof {
        deep_empty(out);
        assert(ncx_items(table, labels).take(0) =~= Seq::empty());
    }
    let mut i: usize = 0;
    while i < data.table.len()
        invariant
            i <= data.table@.len(),
            table == data.table.deep_view(),
            labels == data.cncx.deep_view(),
            out.deep_view() == ncx_items(table, labels).take(i as int),
        decreases data.table@.len() - i,
    {
        let tags = &data.table[i].tags;
        assert(table[i as int].tags == tags.deep_view());
        let label: String = match value_of_tag(tags, 3, 0) {
            Some(key) => match label_of(&data.cncx, key as u128) {
                Some(s) => s.clone(),
                None => String::new(),
            },
            None => String::new(),
        };
        assert(label@.len() == 0 ==> label@ =~= Seq::empty());
        let pos: Option<(u32, u32)> = match values_of(tags, 6) {
            Some(_) => Some(
                (
                    match value_of_tag(tags, 6, 0) {
                        Some(x) => x,
                        None => 0,
                    },
                    match value_of_tag(tags, 6, 1) {
                        Some(x) => x,
                        None => 0,
                    },
                ),
            ),
            None => None,
        };
        let item = NcxItem {
            index: i as u64,
            label,
            filepos: value_of_tag(tags, 1, 0),
            pos,
            parent: value_of_tag(tags, 21, 0),
        };
        let ghost before = out;
        out.push(item);
        proof {
            deep_push(before, item, out);
            crate::views::take_push(ncx_items(table, labels), i as int);
            assert(item.deep_view() =~= ncx_item(i as int, table[i as int], labels));
        }
        i = i + 1;
    }
    assert(ncx_items(table, labels).take(table.len() as int) =~= ncx_items(table, labels));
    Ok(out)
}

} // verus!
