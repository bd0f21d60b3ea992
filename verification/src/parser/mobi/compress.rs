//! The two compressions of Mobipocket text.
use vstd::prelude::*;
use crate::error::{AppError, AppResult, Failure};
use crate::parser::mobi::pdb::{
    be16, be32, byte_at, clip, clipped, exactly, has_tag, power_of_two, tagged, take_exactly,
    two_to, two_to_positive, u16_at, u32_at, Pdb,
};

verus! {

// ---------------------------------------------------------------------------
// PalmDOC
// ---------------------------------------------------------------------------

/// `n` bytes copied, one after the other, from position `base` on to the end: the copy may run
/// into what it has itself written.
pub open spec fn copied(out: Seq<u8>, base: int, n: int) -> Seq<u8>
    decreases n,
{
    if n <= 0 {
        out
    } else {
        copied(out.push(out[base]), base + 1, n - 1)
    }
}

/// What PalmDOC compression makes of the bytes from `i` on, behind what is already out. A byte
/// is itself, or announces up to eight literal bytes, or starts a pair of distance and length,
/// or stands for a space and a letter. A distance beyond the start of the text copies nothing;
/// a distance of zero refers to nothing, and then there is no result.
pub open spec fn palm_from(a: Seq<u8>, i: int, out: Seq<u8>) -> Option<Seq<u8>>
    decreases a.len() - i,
{
    if i < 0 || i >= a.len() {
        Some(out)
    } else {
        let b = a[i];
        if b == 0 {
            palm_from(a, i + 1, out.push(0))
        } else if b <= 8 {
            let end = if i + 1 + b < a.len() {
                i + 1 + b
            } else {
                a.len() as int
            };
            palm_from(a, end, out + a.subrange(i + 1, end))
        } else if b <= 0x7f {
            palm_from(a, i + 1, out.push(b))
        } else if b <= 0xbf {
            if i + 1 >= a.len() {
                Some(out)
            } else {
                let pair = b * 256 + a[i + 1];
                let distance = (pair % 0x4000) / 8;
                let length = pair % 8 + 3;
                if distance > out.len() {
                    palm_from(a, i + 2, out)
                } else if distance == 0 {
                    None
                } else {
                    palm_from(a, i + 2, copied(out, out.len() - distance, length))
                }
            }
        } else {
            palm_from(a, i + 1, out.push(32).push((b - 128) as u8))
        }
    }
}

/// What PalmDOC compression stands for.
pub open spec fn palm(a: Seq<u8>) -> Option<Seq<u8>> {
    palm_from(a, 0, Seq::empty())
}

/// Appends a slice of bytes.
pub fn push_bytes(out: &mut Vec<u8>, more: &[u8])
    ensures
        final(out)@ == old(out)@ + more@,
{
    let ghost before = out@;
    out.extend_from_slice(more);
    assert(out@ =~= before + more@);
}

/// Undoes PalmDOC compression; none where a pair has a distance of zero.
pub fn decompress_palmdoc(array: &[u8]) -> (r: Option<Vec<u8>>)
    ensures
        match r {
            Some(v) => palm(array@) == Some(v@),
            None => palm(array@) is None,
        },
{
    let n = array.len();
    let mut output: Vec<u8> = Vec::new();
    let mut i: usize = 0;
    while i < n
        invariant
            n == array@.len(),
            i <= n,
            palm(array@) == palm_from(array@, i as int, output@),
        decreases n - i,
    {
        let byte = array[i];
        if byte == 0 {
            output.push(0);
            i = i + 1;
        } else if byte <= 8 {
            let start = i + 1;
            let end: usize = if (byte as usize) < n - start {
                start + byte as usize
            } else {
                n
            };
            push_bytes(&mut output, vstd::slice::slice_subrange(array, start, end));
            i = end;
        } else if byte <= 0x7f {
            output.push(byte);
            i = i + 1;
        } else if byte <= 0xbf {
            if i + 1 >= n {
                return Some(output);
            }
            let pair: u32 = (byte as u32) * 256 + array[i + 1] as u32;
            let distance: usize = ((pair % 0x4000) / 8) as usize;
            let length: u32 = pair % 8 + 3;
            if distance <= output.len() {
                if distance == 0 {
                    return None;
                }
                let ghost whole = copied(output@, output@.len() - distance, length as int);
                let mut base: usize = output.len() - distance;
                let mut j: u32 = 0;
                while j < length
                    invariant
                        j <= length,
                        base < output@.len(),
                        whole == copied(output@, base as int, length - j),
                    decreases length - j,
                {
                    let b = output[base];
                    output.push(b);
                    let _size = output.len();
                    base = base + 1;
                    j = j + 1;
                }
            }
            i = i + 2;
        } else {
            output.push(32);
            output.push(byte - 128);
            i = i + 1;
        }
    }
    Some(output)
}

// ---------------------------------------------------------------------------
// HUFF/CDIC
// ---------------------------------------------------------------------------

/// Five bytes from `i` on as a number, zero standing for those beyond the end.
pub open spec fn five_bytes(d: Seq<u8>, i: int) -> int {
    (((byte_at(d, i) * 256 + byte_at(d, i + 1)) * 256 + byte_at(d, i + 2)) * 256 + byte_at(
        d,
        i + 3,
    )) * 256 + byte_at(d, i + 4)
}

/// The thirty-two bits that start at bit `from`.
pub open spec fn bits_at(d: Seq<u8>, from: int) -> int {
    (five_bytes(d, from / 8) / two_to(8 - from % 8)) % 0x1_0000_0000
}

/// Reads thirty-two bits from bit `from` on.
pub fn read32bits(data: &[u8], from: u128) -> (r: u32)
    ensures
        r == bits_at(data@, from as int),
{
    let at: u128 = from / 8;
    if at >= data.len() as u128 {
        proof {
            assert(five_bytes(data@, from as int / 8) == 0);
            two_to_positive(8 - from % 8);
            let p = two_to(8 - from % 8);
            assert(0int / p == 0) by (nonlinear_arith)
                requires
                    p >= 1,
            ;
        }
        return 0;
    }
    let i: usize = at as usize;
    let b0 = data[i] as u64;
    let b1 = if data.len() - i > 1 {
        data[i + 1] as u64
    } else {
        0
    };
    let b2 = if data.len() - i > 2 {
        data[i + 2] as u64
    } else {
        0
    };
    let b3 = if data.len() - i > 3 {
        data[i + 3] as u64
    } else {
        0
    };
    let b4 = if data.len() - i > 4 {
        data[i + 4] as u64
    } else {
        0
    };
    let bits: u64 = (((b0 * 256 + b1) * 256 + b2) * 256 + b3) * 256 + b4;
    assert(bits == five_bytes(data@, from as int / 8));
    let shift: u32 = 8 - (from % 8) as u32;
    let p = power_of_two(shift);
    ((bits / p) % 0x1_0000_0000) as u32
}

/// An entry of the dictionary: bytes, and whether they stand for themselves.
pub struct DictEntry {
    pub data: Vec<u8>,
    pub plain: bool,
}

impl DeepView for DictEntry {
    type V = (Seq<u8>, bool);

    open spec fn deep_view(&self) -> (Seq<u8>, bool) {
        (self.data@, self.plain)
    }
}

/// The tables of a HUFF/CDIC compression: for each first byte whether it settles the code, the
/// length of the code and its value; for each length the least code and its value; and the
/// dictionary.
pub struct HuffCdic {
    pub table1: Vec<(bool, u32, u32)>,
    pub table2: Vec<(u32, u32)>,
    pub dictionary: Vec<DictEntry>,
}

/// The first `len` bits of thirty-two; all of them for a length of zero.
pub open spec fn top_bits(bits: int, len: int) -> int {
    if len == 0 {
        bits
    } else {
        bits / two_to(32 - len)
    }
}

/// The length of the code that the bits start with, no shorter than `len`.
pub open spec fn code_length(table2: Seq<(u32, u32)>, bits: int, len: int) -> int
    decreases 32 - len,
{
    if 0 <= len < 32 && top_bits(bits, len) < table2[len].0 {
        code_length(table2, bits, len + 1)
    } else {
        len
    }
}

/// The length of the code that the bits start with, and the value its number is taken from.
pub open spec fn code_of(
    table1: Seq<(bool, u32, u32)>,
    table2: Seq<(u32, u32)>,
    bits: int,
) -> (int, int) {
    let (found, len, value) = table1[bits / 0x100_0000];
    if found {
        (len as int, value as int)
    } else {
        let l = code_length(table2, bits, len as int);
        (l, table2[l].1 as int)
    }
}

/// What the codes from bit `i` on stand for, behind what is already out. It ends with the data,
/// or at a code that the dictionary does not hold. An entry that is itself compressed is
/// expanded in turn, `depth` deep at most. A code of no length would never end: there is no
/// result.
pub open spec fn huff_from(
    table1: Seq<(bool, u32, u32)>,
    table2: Seq<(u32, u32)>,
    dict: Seq<(Seq<u8>, bool)>,
    a: Seq<u8>,
    i: int,
    out: Seq<u8>,
    depth: nat,
) -> Option<Seq<u8>>
    decreases depth, a.len() * 8 - i,
{
    if i < 0 || i >= a.len() * 8 {
        Some(out)
    } else {
        let bits = bits_at(a, i);
        let (len, value) = code_of(table1, table2, bits);
        let next = i + len;
        let code = (value - top_bits(bits, len)) % 0x1_0000_0000;
        if next > a.len() * 8 || code >= dict.len() {
            Some(out)
        } else if len <= 0 {
            None
        } else if dict[code].1 {
            huff_from(table1, table2, dict, a, next, out + dict[code].0, depth)
        } else if depth == 0 {
            None
        } else {
            match huff_from(
                table1,
                table2,
                dict,
                dict[code].0,
                0,
                Seq::empty(),
                (depth - 1) as nat,
            ) {
                Some(inner) => huff_from(table1, table2, dict, a, next, out + inner, depth),
                None => None,
            }
        }
    }
}

/// The tables are of the size that a HUFF record gives them.
pub open spec fn tables_ok(table1: Seq<(bool, u32, u32)>, table2: Seq<(u32, u32)>) -> bool {
    &&& table1.len() == 256
    &&& table2.len() == 33
    &&& forall|k: int| 0 <= k < 256 ==> (#[trigger] table1[k]).1 < 32
}

/// The first table of a HUFF record.
pub open spec fn huff_table1(rec: Seq<u8>) -> Seq<(bool, u32, u32)> {
    Seq::new(
        256,
        |k: int|
            {
                let x = be32(rec, be32(rec, 8) + k * 4);
                ((x / 128) % 2 == 1, (x % 32) as u32, (x / 256) as u32)
            },
    )
}

/// The second table of a HUFF record, with a place for length zero before it.
pub open spec fn huff_table2(rec: Seq<u8>) -> Seq<(u32, u32)> {
    Seq::new(
        33,
        |k: int|
            if k == 0 {
                (0u32, 0u32)
            } else {
                (
                    be32(rec, be32(rec, 12) + (k - 1) * 8) as u32,
                    be32(rec, be32(rec, 12) + (k - 1) * 8 + 4) as u32,
                )
            },
    )
}

/// The `j`-th entry of a CDIC record's buffer.
pub open spec fn cdic_entry(buffer: Seq<u8>, j: int) -> (Seq<u8>, bool) {
    let offset = be16(buffer, j * 2);
    let x = be16(buffer, offset);
    (exactly(buffer, offset + 2, offset + 2 + x % 0x8000), x >= 0x8000)
}

/// How many entries a CDIC record adds to a dictionary of `have`.
pub open spec fn cdic_count(rec: Seq<u8>, have: int) -> int {
    let room = be32(rec, 8) - have;
    if two_to(be32(rec, 12)) < room {
        two_to(be32(rec, 12))
    } else {
        room
    }
}

/// The dictionary that the CDIC records from the `i`-th on give, behind the entries it has. A
/// record whose code length is thirty-two or more, or that announces fewer entries than there
/// are, is damaged.
pub open spec fn cdic_from(
    data: Seq<u8>,
    offsets: Seq<u32>,
    first: int,
    count: int,
    i: int,
    dict: Seq<(Seq<u8>, bool)>,
) -> Result<Seq<(Seq<u8>, bool)>, Failure>
    decreases count - i,
{
    if i >= count {
        Ok(dict)
    } else {
        match crate::parser::mobi::pdb::record_bytes(data, offsets, first + i) {
            Err(e) => Err(e),
            Ok(rec) => if !tagged(rec, 0, 0x43, 0x44, 0x49, 0x43) {
                Err(Failure::Other("无效的 CDIC 记录"@))
            } else if be32(rec, 12) >= 32 || be32(rec, 8) < dict.len() {
                Err(Failure::Other("CDIC 记录损坏"@))
            } else {
                let buffer = clipped(rec, be32(rec, 4), rec.len() as int);
                cdic_from(
                    data,
                    offsets,
                    first,
                    count,
                    i + 1,
                    dict + Seq::new(
                        cdic_count(rec, dict.len() as int) as nat,
                        |j: int| cdic_entry(buffer, j),
                    ),
                )
            },
        }
    }
}

impl HuffCdic {
    /// The tables have their sizes.
    pub open spec fn wf(&self) -> bool {
        tables_ok(self.table1@, self.table2@)
    }

    /// What the bytes stand for under these tables.
    pub open spec fn expanded(&self, a: Seq<u8>, depth: nat) -> Option<Seq<u8>> {
        huff_from(
            self.table1@,
            self.table2@,
            self.dictionary.deep_view(),
            a,
            0,
            Seq::empty(),
            depth,
        )
    }

    /// Reads the tables: a HUFF record at `huffcdic`, CDIC records behind it.
    pub fn parse(pdb: &Pdb, huffcdic: u64, num_huffcdic: u64) -> (r: AppResult<Self>)
        requires
            huffcdic + num_huffcdic <= u64::MAX,
        ensures
            match r {
                Ok(h) => {
                    &&& h.wf()
                    &&& pdb.bytes(huffcdic as int) matches Ok(rec) && tagged(
                        rec,
                        0,
                        0x48,
                        0x55,
                        0x46,
                        0x46,
                    ) && h.table1@ == huff_table1(rec) && h.table2@ == huff_table2(rec)
                    &&& cdic_from(
                        pdb.data@,
                        pdb.offsets@,
                        huffcdic as int,
                        num_huffcdic as int,
                        1,
                        Seq::empty(),
                    ) == Ok::<Seq<(Seq<u8>, bool)>, Failure>(h.dictionary.deep_view())
                },
                Err(e) => match pdb.bytes(huffcdic as int) {
                    Err(f) => e@ == f,
                    Ok(rec) => if !tagged(rec, 0, 0x48, 0x55, 0x46, 0x46) {
                        e@ == Failure::Other("无效的 HUFF 记录"@)
                    } else {
                        cdic_from(
                            pdb.data@,
                            pdb.offsets@,
                            huffcdic as int,
                            num_huffcdic as int,
                            1,
                            Seq::empty(),
                        ) == Err::<Seq<(Seq<u8>, bool)>, Failure>(e@)
                    },
                },
            },
    {
        let rec = match pdb.record(huffcdic) {
            Ok(b) => b,
            Err(e) => {
                return Err(e);
            },
        };
        if !has_tag(rec, 0, 0x48, 0x55, 0x46, 0x46) {
            return Err(AppError::other("无效的 HUFF 记录"));
        }
        let offset1 = u32_at(rec, 8) as u64;
        let offset2 = u32_at(rec, 12) as u64;
        let mut table1: Vec<(bool, u32, u32)> = Vec::new();
        let mut k: u64 = 0;
        while k < 256
            invariant
                k <= 256,
                offset1 == be32(rec@, 8),
                offset1 <= u32::MAX,
                table1@.len() == k,
                forall|m: int| 0 <= m < k ==> table1@[m] == huff_table1(rec@)[m],
            decreases 256 - k,
        {
            let x = u32_at(rec, offset1 + k * 4);
            table1.push(((x / 128) % 2 == 1, x % 32, x / 256));
            k = k + 1;
        }
        assert(table1@ =~= huff_table1(rec@));
        let mut table2: Vec<(u32, u32)> = Vec::new();
        table2.push((0, 0));
        let mut k: u64 = 0;
        while k < 32
            invariant
                k <= 32,
                offset2 == be32(rec@, 12),
                offset2 <= u32::MAX,
                table2@.len() == k + 1,
                forall|m: int| 0 <= m < k + 1 ==> table2@[m] == huff_table2(rec@)[m],
            decreases 32 - k,
        {
            table2.push((u32_at(rec, offset2 + k * 8), u32_at(rec, offset2 + k * 8 + 4)));
            k = k + 1;
        }
        assert(table2@ =~= huff_table2(rec@));
        let mut dictionary: Vec<DictEntry> = Vec::new();
        assert(dictionary.deep_view() =~= Seq::empty());
        let mut i: u64 = 1;
        while i < num_huffcdic
            invariant
                1 <= i,
                huffcdic + num_huffcdic <= u64::MAX,
                cdic_from(
                    pdb.data@,
                    pdb.offsets@,
                    huffcdic as int,
                    num_huffcdic as int,
                    1,
                    Seq::empty(),
                ) == cdic_from(
                    pdb.data@,
                    pdb.offsets@,
                    huffcdic as int,
                    num_huffcdic as int,
                    i as int,
                    dictionary.deep_view(),
                ),
                pdb.bytes(huffcdic as int) == Ok::<Seq<u8>, Failure>(rec@),
                tagged(rec@, 0, 0x48, 0x55, 0x46, 0x46),
            decreases num_huffcdic - i,
        {
            let ghost before = dictionary.deep_view();
            let record = match pdb.record(huffcdic + i) {
                Ok(b) => b,
                Err(e) => {
                    return Err(e);
                },
            };
            if !has_tag(record, 0, 0x43, 0x44, 0x49, 0x43) {
                return Err(AppError::other("无效的 CDIC 记录"));
            }
            let header_len = u32_at(record, 4) as u64;
            let num_entries = u32_at(record, 8) as u64;
            let code_length = u32_at(record, 12);
            let have = dictionary.len() as u64;
            if code_length >= 32 || num_entries < have {
                return Err(AppError::other("CDIC 记录损坏"));
            }
            let most = power_of_two(code_length);
            let n: u64 = if most < num_entries - have {
                most
            } else {
                num_entries - have
            };
            let buffer = clip(record, header_len, record.len() as u64);
            let ghost want = Seq::new(n as nat, |j: int| cdic_entry(buffer@, j));
            let mut j: u64 = 0;
            while j < n
                invariant
                    j <= n <= u32::MAX,
                    want == Seq::new(n as nat, |j: int| cdic_entry(buffer@, j)),
                    dictionary.deep_view() == before + want.take(j as int),
                decreases n - j,
            {
                let offset = u16_at(buffer, j * 2) as u64;
                let x = u16_at(buffer, offset);
                let bytes = take_exactly(buffer, offset + 2, offset + 2 + (x % 0x8000) as u64);
                let ghost kept = dictionary;
                let entry = DictEntry { data: vstd::slice::slice_to_vec(bytes), plain: x >= 0x8000 };
                assert(entry.deep_view() == want[j as int]);
                dictionary.push(entry);
                proof {
                    crate::views::deep_push(kept, entry, dictionary);
                    crate::views::take_push(want, j as int);
                    assert((before + want.take(j as int)).push(want[j as int]) =~= before + want.take(
                        j + 1,
                    ));
                }
                j = j + 1;
            }
            assert(want.take(n as int) =~= want);
            i = i + 1;
        }
        Ok(HuffCdic { table1, table2, dictionary })
    }

    /// The length of the code that the bits start with, and the value its number is taken from.
    fn code(&self, bits: u32) -> (r: (u32, u32))
        requires
            self.wf(),
        ensures
            (r.0 as int, r.1 as int) == code_of(self.table1@, self.table2@, bits as int),
            r.0 <= 32,
    {
        let (found, len0, value0) = self.table1[(bits / 0x100_0000) as usize];
        if found {
            return (len0, value0);
        }
        let mut len: u32 = len0;
        let mut top: u32 = leading(bits, len);
        while len < 32 && top < self.table2[len as usize].0
            invariant
                len <= 32,
                self.wf(),
                top == top_bits(bits as int, len as int),
                code_length(self.table2@, bits as int, len0 as int) == code_length(
                    self.table2@,
                    bits as int,
                    len as int,
                ),
            decreases 32 - len,
        {
            len = len + 1;
            top = leading(bits, len);
        }
        (len, self.table2[len as usize].1)
    }

    /// Expands the bytes, entries of the dictionary within one another `depth` deep at most.
    fn decompress_within(&self, array: &[u8], depth: usize) -> (r: Option<Vec<u8>>)
        requires
            self.wf(),
        ensures
            match r {
                Some(v) => self.expanded(array@, depth as nat) == Some(v@),
                None => self.expanded(array@, depth as nat) is None,
            },
        decreases depth,
    {
        let ghost t1 = self.table1@;
        let ghost t2 = self.table2@;
        let ghost dict = self.dictionary.deep_view();
        let mut output: Vec<u8> = Vec::new();
        let bit_length: u128 = (array.len() as u128) * 8;
        let mut i: u128 = 0;
        while i < bit_length
            invariant
                self.wf(),
                t1 == self.table1@,
                t2 == self.table2@,
                dict == self.dictionary.deep_view(),
                bit_length == array@.len() * 8,
                bit_length <= 0x8_0000_0000_0000_0000,
                i <= bit_length,
                self.expanded(array@, depth as nat) == huff_from(
                    t1,
                    t2,
                    dict,
                    array@,
                    i as int,
                    output@,
                    depth as nat,
                ),
            decreases bit_length - i,
        {
            let bits = read32bits(array, i);
            let (len, value) = self.code(bits);
            let code = number_of_code(value, bits, len);
            i = i + len as u128;
            if i > bit_length {
                return Some(output);
            }
            if code as u64 >= self.dictionary.len() as u64 {
                return Some(output);
            }
            if len == 0 {
                return None;
            }
            let entry = &self.dictionary[code as usize];
            assert(dict[code as int] == entry.deep_view());
            if entry.plain {
                push_bytes(&mut output, &entry.data);
            } else {
                if depth == 0 {
                    return None;
                }
                match self.decompress_within(&entry.data, depth - 1) {
                    Some(inner) => {
                        push_bytes(&mut output, &inner);
                    },
                    None => {
                        return None;
                    },
                }
            }
        }
        Some(output)
    }

    /// Expands the bytes. An entry of the dictionary may be compressed in turn. A chain of such
    /// entries longer than the dictionary holds one of them twice and would never end; then, and
    /// at a code of no length, there is no result.
    pub fn decompress(&self, array: &[u8]) -> (r: Option<Vec<u8>>)
        requires
            self.wf(),
        ensures
            match r {
                Some(v) => self.expanded(array@, self.dictionary@.len()) == Some(v@),
                None => self.expanded(array@, self.dictionary@.len()) is None,
            },
    {
        self.decompress_within(array, self.dictionary.len())
    }
}

/// The place in the dictionary that a code leads to.
fn number_of_code(value: u32, bits: u32, len: u32) -> (r: u32)
    requires
        len <= 32,
    ensures
        r == (value - top_bits(bits as int, len as int)) % 0x1_0000_0000,
{
    value.wrapping_sub(leading(bits, len))
}

/// The first `len` bits of thirty-two.
fn leading(bits: u32, len: u32) -> (r: u32)
    requires
        len <= 32,
    ensures
        r == top_bits(bits as int, len as int),
{
    if len == 0 {
        bits
    } else {
        let p = power_of_two(32 - len);
        let q: u64 = bits as u64 / p;
        assert(q <= bits) by (nonlinear_arith)
            requires
                q == bits as u64 / p,
                p > 0,
        ;
        q as u32
    }
}

} // verus!
