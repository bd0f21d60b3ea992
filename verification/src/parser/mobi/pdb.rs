//! The container of a Mobipocket book: a Palm database, a table of records.
use vstd::prelude::*;
use crate::error::{around_number, with_number, AppError, AppResult, Failure};
use crate::numbers::decimal;

verus! {

/// The two bytes at `off` as a number, the high byte first; zero where they are not there.
pub open spec fn be16(d: Seq<u8>, off: int) -> int {
    if 0 <= off && off + 2 <= d.len() {
        d[off] * 256 + d[off + 1]
    } else {
        0
    }
}

/// The four bytes at `off` as a number, the high byte first; zero where they are not there.
pub open spec fn be32(d: Seq<u8>, off: int) -> int {
    if 0 <= off && off + 4 <= d.len() {
        ((d[off] * 256 + d[off + 1]) * 256 + d[off + 2]) * 256 + d[off + 3]
    } else {
        0
    }
}

/// The byte at `off`; zero where it is not there.
pub open spec fn byte_at(d: Seq<u8>, off: int) -> int {
    if 0 <= off < d.len() {
        d[off] as int
    } else {
        0
    }
}

/// Reads two bytes as a number.
pub fn u16_at(data: &[u8], off: u64) -> (r: u32)
    ensures
        r == be16(data@, off as int),
        r <= 0xffff,
{
    let n = data.len() as u64;
    if n < 2 || off > n - 2 {
        return 0;
    }
    let o = off as usize;
    (data[o] as u32) * 256 + data[o + 1] as u32
}

/// Reads four bytes as a number.
pub fn u32_at(data: &[u8], off: u64) -> (r: u32)
    ensures
        r == be32(data@, off as int),
{
    let n = data.len() as u64;
    if n < 4 || off > n - 4 {
        return 0;
    }
    let o = off as usize;
    (((data[o] as u32) * 256 + data[o + 1] as u32) * 256 + data[o + 2] as u32) * 256 + data[o
        + 3] as u32
}

/// Reads one byte as a number.
pub fn u8_at(data: &[u8], off: u64) -> (r: u32)
    ensures
        r == byte_at(data@, off as int),
        r <= 255,
{
    if off < data.len() as u64 {
        data[off as usize] as u32
    } else {
        0
    }
}

/// The four bytes at `off` are `a b c d`.
pub open spec fn tagged(s: Seq<u8>, off: int, a: u8, b: u8, c: u8, d: u8) -> bool {
    0 <= off && off + 4 <= s.len() && s[off] == a && s[off + 1] == b && s[off + 2] == c && s[off
        + 3] == d
}

/// Whether the four bytes at `off` are `a b c d`.
pub fn has_tag(s: &[u8], off: u64, a: u8, b: u8, c: u8, d: u8) -> (r: bool)
    ensures
        r == tagged(s@, off as int, a, b, c, d),
{
    let n = s.len() as u64;
    if n < 4 || off > n - 4 {
        return false;
    }
    let o = off as usize;
    s[o] == a && s[o + 1] == b && s[o + 2] == c && s[o + 3] == d
}

/// The bytes from `a` up to `b`, as far as they are there.
pub open spec fn clipped(s: Seq<u8>, a: int, b: int) -> Seq<u8> {
    let lo = if a < s.len() {
        a
    } else {
        s.len() as int
    };
    let hi = if b < s.len() {
        b
    } else {
        s.len() as int
    };
    if lo < hi {
        s.subrange(lo, hi)
    } else {
        Seq::empty()
    }
}

/// The bytes from `a` up to `b`, as far as they are there.
pub fn clip(s: &[u8], a: u64, b: u64) -> (r: &[u8])
    ensures
        r@ == clipped(s@, a as int, b as int),
{
    let n = s.len() as u64;
    let lo = if a < n {
        a
    } else {
        n
    };
    let hi = if b < n {
        b
    } else {
        n
    };
    if lo < hi {
        vstd::slice::slice_subrange(s, lo as usize, hi as usize)
    } else {
        let r = vstd::slice::slice_subrange(s, 0, 0);
        assert(r@ =~= Seq::empty());
        r
    }
}

/// The bytes from `a` up to `b` where all of them are there, else none.
pub open spec fn exactly(s: Seq<u8>, a: int, b: int) -> Seq<u8> {
    if 0 <= a <= b <= s.len() {
        s.subrange(a, b)
    } else {
        Seq::empty()
    }
}

/// The bytes from `a` up to `b` where all of them are there, else none.
pub fn take_exactly(s: &[u8], a: u64, b: u64) -> (r: &[u8])
    ensures
        r@ == exactly(s@, a as int, b as int),
{
    if a <= b && b <= s.len() as u64 {
        vstd::slice::slice_subrange(s, a as usize, b as usize)
    } else {
        let r = vstd::slice::slice_subrange(s, 0, 0);
        assert(r@ =~= Seq::empty());
        r
    }
}

/// A Palm database: the whole file, and where each of its records starts. A record ends where
/// the next one starts, the last with the file.
pub struct Pdb {
    pub data: Vec<u8>,
    pub offsets: Vec<u32>,
}

/// Where the records of a file start.
pub open spec fn record_offsets(data: Seq<u8>) -> Result<Seq<u32>, Failure> {
    if data.len() < 78 {
        Err(Failure::Other("MOBI 文件过小，不是有效的 PalmDB"@))
    } else if be16(data, 76) == 0 || 78 + be16(data, 76) * 8 > data.len() {
        Err(Failure::Other("PalmDB 记录表损坏"@))
    } else {
        Ok(Seq::new(be16(data, 76) as nat, |i: int| be32(data, 78 + i * 8) as u32))
    }
}

/// The bytes of one record.
pub open spec fn record_bytes(data: Seq<u8>, offsets: Seq<u32>, index: int) -> Result<
    Seq<u8>,
    Failure,
> {
    if index < 0 || index >= offsets.len() {
        Err(Failure::Other("MOBI 记录越界: "@ + decimal(index)))
    } else {
        let start = offsets[index] as int;
        let end = if index + 1 < offsets.len() {
            offsets[index + 1] as int
        } else {
            data.len() as int
        };
        if start >= end || end > data.len() {
            Err(Failure::Other("MOBI 记录 "@ + decimal(index) + " 偏移异常"@))
        } else {
            Ok(data.subrange(start, end))
        }
    }
}

impl Pdb {
    /// The bytes of one record.
    pub open spec fn bytes(&self, index: int) -> Result<Seq<u8>, Failure> {
        record_bytes(self.data@, self.offsets@, index)
    }

    /// Reads the table of records.
    pub fn parse(data: Vec<u8>) -> (r: AppResult<Self>)
        ensures
            match r {
                Ok(p) => p.data@ == data@ && record_offsets(data@) == Ok::<Seq<u32>, Failure>(
                    p.offsets@,
                ),
                Err(e) => record_offsets(data@) == Err::<Seq<u32>, Failure>(e@),
            },
    {
        if data.len() < 78 {
            return Err(AppError::other("MOBI 文件过小，不是有效的 PalmDB"));
        }
        let n: u64 = u16_at(&data, 76) as u64;
        if n == 0 || 78 + n * 8 > data.len() as u64 {
            return Err(AppError::other("PalmDB 记录表损坏"));
        }
        let mut offsets: Vec<u32> = Vec::new();
        let mut i: u64 = 0;
        while i < n
            invariant
                i <= n <= 0xffff,
                offsets@.len() == i,
                forall|k: int| 0 <= k < i ==> offsets@[k] == be32(data@, 78 + k * 8) as u32,
            decreases n - i,
        {
            offsets.push(u32_at(&data, 78 + i * 8));
            i = i + 1;
        }
        assert(offsets@ =~= Seq::new(n as nat, |i: int| be32(data@, 78 + i * 8) as u32));
        Ok(Pdb { data, offsets })
    }

    /// The bytes of one record; an error where there is no such record or its bounds are not
    /// within the file.
    pub fn record(&self, index: u64) -> (r: AppResult<&[u8]>)
        ensures
            match r {
                Ok(b) => self.bytes(index as int) == Ok::<Seq<u8>, Failure>(b@) && b@.len() > 0
                    && index < self.offsets@.len(),
                Err(e) => self.bytes(index as int) == Err::<Seq<u8>, Failure>(e@),
            },
    {
        let n = self.offsets.len() as u64;
        if index >= n {
            return Err(AppError::Other(with_number("MOBI 记录越界: ", index)));
        }
        let start: u64 = self.offsets[index as usize] as u64;
        let end: u64 = if index + 1 < n {
            self.offsets[(index + 1) as usize] as u64
        } else {
            self.data.len() as u64
        };
        if start >= end || end > self.data.len() as u64 {
            return Err(AppError::Other(around_number("MOBI 记录 ", index, " 偏移异常")));
        }
        Ok(vstd::slice::slice_subrange(self.data.as_slice(), start as usize, end as usize))
    }

    /// The first four bytes of a record, zero for those that are not there.
    pub fn record_magic(&self, index: u64) -> (r: [u8; 4])
        ensures
            forall|k: int|
                0 <= k < 4 ==> r@[k] == match self.bytes(index as int) {
                    Ok(b) => byte_at(b, k),
                    Err(_) => 0,
                },
    {
        match self.record(index) {
            Ok(b) => [
                u8_at(b, 0) as u8,
                u8_at(b, 1) as u8,
                u8_at(b, 2) as u8,
                u8_at(b, 3) as u8,
            ],
            Err(_) => [0, 0, 0, 0],
        }
    }
}

// ---------------------------------------------------------------------------
// Numbers of varying length
// ---------------------------------------------------------------------------

/// How many bytes a number that starts at `i` takes: seven bits each, up to the first byte with
/// its high bit set, four at most, and no further than the data.
pub open spec fn var_size(d: Seq<u8>, i: int, read: int) -> int
    decreases 4 - read,
{
    if read >= 4 || i + read >= d.len() || i < 0 {
        read
    } else if d[i + read] >= 128 {
        read + 1
    } else {
        var_size(d, i, read + 1)
    }
}

/// The number made of the low seven bits of `n` bytes.
pub open spec fn septets(d: Seq<u8>, i: int, n: int) -> int
    decreases n,
{
    if n <= 0 {
        0
    } else {
        septets(d, i, n - 1) * 128 + d[i + n - 1] % 128
    }
}

/// The number of varying length that starts at `i`.
pub open spec fn var_value(d: Seq<u8>, i: int) -> int {
    septets(d, i, var_size(d, i, 0))
}

/// Reads a number of varying length: its value and how many bytes it took.
pub fn get_var_len(data: &[u8], i: u64) -> (r: (u32, u64))
    ensures
        r.0 == var_value(data@, i as int),
        r.1 == var_size(data@, i as int, 0),
        r.1 <= 4,
        i < data@.len() ==> 1 <= r.1 && i + r.1 <= data@.len(),
        i >= data@.len() ==> r.1 == 0 && r.0 == 0,
        i + r.1 <= u64::MAX,
{
    let n = data.len() as u64;
    let mut value: u32 = 0;
    let mut read: u64 = 0;
    while read < 4 && i < n && read < n - i
        invariant_except_break
            var_size(data@, i as int, 0) == var_size(data@, i as int, read as int),
            i >= n ==> read == 0,
        invariant
            n == data@.len(),
            read <= 4,
            value == septets(data@, i as int, read as int),
            read == 0 ==> value < 1,
            read == 1 ==> value < 128,
            read == 2 ==> value < 128 * 128,
            read == 3 ==> value < 128 * 128 * 128,
            read > 0 ==> i + read <= n,
        ensures
            read == var_size(data@, i as int, 0),
            i < n ==> read >= 1,
        decreases 4 - read,
    {
        let byte = data[(i + read) as usize];
        assert(septets(data@, i as int, read + 1) == value * 128 + byte % 128);
        value = value * 128 + (byte % 128) as u32;
        read = read + 1;
        if byte >= 128 {
            break;
        }
    }
    (value, read)
}

/// The number at the end of the data from position `i` on: a byte with its high bit set starts
/// it anew.
pub open spec fn tail_value(d: Seq<u8>, i: int, acc: int) -> int
    decreases d.len() - i,
{
    if i < 0 || i >= d.len() {
        acc
    } else {
        let base = if d[i] >= 128 {
            0
        } else {
            acc
        };
        tail_value(d, i + 1, base * 128 + d[i] % 128)
    }
}

/// The number of varying length that ends the data, within its last four bytes.
pub open spec fn var_value_at_end(d: Seq<u8>) -> int {
    tail_value(
        d,
        if d.len() < 4 {
            0
        } else {
            d.len() - 4
        },
        0,
    )
}

/// Reads the number of varying length that ends the data.
pub fn get_var_len_from_end(data: &[u8]) -> (r: u64)
    ensures
        r == var_value_at_end(data@),
{
    let n = data.len();
    let mut i: usize = if n < 4 {
        0
    } else {
        n - 4
    };
    let ghost first = i as int;
    let mut value: u64 = 0;
    while i < n
        invariant
            n == data@.len(),
            first <= i <= n,
            n - first <= 4,
            var_value_at_end(data@) == tail_value(data@, i as int, value as int),
            i == first ==> value == 0,
            i == first + 1 ==> value < 128,
            i == first + 2 ==> value < 128 * 128,
            i == first + 3 ==> value < 128 * 128 * 128,
        decreases n - i,
    {
        let byte = data[i];
        if byte >= 128 {
            value = 0;
        }
        value = value * 128 + (byte % 128) as u64;
        i = i + 1;
    }
    value
}

/// How many bits of `x` are set.
pub open spec fn bit_count(x: int) -> int
    decreases x,
{
    if x <= 0 {
        0
    } else {
        x % 2 + bit_count(x / 2)
    }
}

/// Counts the bits that are set.
pub fn count_bits_set(x: u32) -> (r: u32)
    ensures
        r == bit_count(x as int),
{
    let mut rest: u32 = x;
    let mut count: u32 = 0;
    while rest > 0
        invariant
            count + bit_count(rest as int) == bit_count(x as int),
            count + rest <= x,
        decreases rest,
    {
        if rest % 2 == 1 {
            count = count + 1;
        }
        rest = rest / 2;
    }
    count
}

/// Two to the power of `n`.
pub open spec fn two_to(n: int) -> int
    decreases n,
{
    if n <= 0 {
        1
    } else {
        2 * two_to(n - 1)
    }
}

/// A power of two that fits.
pub fn power_of_two(n: u32) -> (r: u64)
    requires
        n <= 40,
    ensures
        r == two_to(n as int),
        r > 0,
{
    let mut r: u64 = 1;
    let mut k: u32 = 0;
    while k < n
        invariant
            k <= n <= 40,
            r == two_to(k as int),
            0 < r,
        decreases n - k,
    {
        proof {
            two_to_grows(k as int, 40);
            reveal_with_fuel(two_to, 42);
        }
        r = r * 2;
        k = k + 1;
    }
    r
}

pub proof fn two_to_grows(a: int, b: int)
    requires
        a <= b,
    ensures
        1 <= two_to(a) <= two_to(b),
    decreases b,
{
    two_to_positive(a);
    if a < b && b > 0 {
        two_to_grows(a, b - 1);
    }
}

pub proof fn two_to_positive(n: int)
    ensures
        two_to(n) >= 1,
    decreases n,
{
    if n > 0 {
        two_to_positive(n - 1);
    }
}

/// How many bits stand below the lowest bit that is set.
pub open spec fn low_zeros(x: int) -> int
    decreases x,
{
    if x <= 0 || x % 2 == 1 {
        0
    } else {
        1 + low_zeros(x / 2)
    }
}

/// Counts the bits below the lowest one that is set.
pub fn count_unset_end(x: u32) -> (r: u32)
    requires
        x > 0,
    ensures
        r == low_zeros(x as int),
        two_to(r as int) <= x,
{
    let mut rest: u32 = x;
    let mut count: u32 = 0;
    while rest % 2 == 0
        invariant
            rest > 0,
            count + low_zeros(rest as int) == low_zeros(x as int),
            count + rest <= x,
            rest * two_to(count as int) == x,
        decreases rest,
    {
        proof {
            let h = (rest / 2) as int;
            let p = two_to(count as int);
            assert(two_to(count + 1) == 2 * p);
            assert((2 * h) * p == h * (2 * p)) by (nonlinear_arith);
        }
        rest = rest / 2;
        count = count + 1;
    }
    proof {
        two_to_positive(count as int);
        let p = two_to(count as int);
        let q = rest as int;
        assert(p <= q * p) by (nonlinear_arith)
            requires
                q >= 1,
                p >= 1,
        ;
    }
    count
}

} // verus!
