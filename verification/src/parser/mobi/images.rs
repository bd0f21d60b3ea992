//! The images of a Mobipocket book that may be its cover.
use vstd::prelude::*;
use crate::error::{AppError, AppResult, Failure};
use crate::parser::covers::{cover_bytes, with_cover, Candidates, Cover, MAX_IMAGE_BYTES};
use crate::parser::mobi::chapter::{extract_cover, mobi_cover};
use crate::parser::mobi::head::OFF_FIRST_IMAGE;
use crate::parser::mobi::pdb::{be32, record_bytes, record_offsets, u32_at, Pdb};

verus! {

/// The largest file, in bytes, whose records are looked through for covers.
pub const MAX_SCANNED_SIZE: u64 = 536870912;

/// What offering the records from the `i`-th on adds. A record that cannot be read or is too
/// large adds nothing.
pub open spec fn records_offered(
    data: Seq<u8>,
    offsets: Seq<u32>,
    i: int,
    list: Seq<Cover>,
) -> Seq<Cover>
    decreases offsets.len() - i,
{
    if i < 0 || i >= offsets.len() {
        list
    } else {
        match record_bytes(data, offsets, i) {
            Ok(b) => if b.len() <= MAX_IMAGE_BYTES {
                records_offered(data, offsets, i + 1, with_cover(list, b, false))
            } else {
                records_offered(data, offsets, i + 1, list)
            },
            Err(_) => records_offered(data, offsets, i + 1, list),
        }
    }
}

/// The covers of a book: the default one is offered first, then every record from the first
/// image on.
pub open spec fn mobi_covers(data: Seq<u8>) -> Result<Seq<Seq<u8>>, Failure> {
    match mobi_cover(data) {
        Err(e) => Err(e),
        Ok(own) => {
            let start = match own {
                Some(b) => with_cover(Seq::empty(), b, true),
                None => Seq::empty(),
            };
            if data.len() > MAX_SCANNED_SIZE {
                Err(Failure::Other("MOBI 文件过大，无法扫描候选封面"@))
            } else {
                match record_offsets(data) {
                    Err(e) => Err(e),
                    Ok(offsets) => match record_bytes(data, offsets, 0) {
                        Err(e) => Err(e),
                        Ok(first) => Ok(
                            cover_bytes(
                                records_offered(
                                    data,
                                    offsets,
                                    be32(first, OFF_FIRST_IMAGE as int),
                                    start,
                                ),
                            ),
                        ),
                    },
                }
            }
        },
    }
}

/// The covers of a book, best first.
pub fn cover_candidates(data: Vec<u8>) -> (r: AppResult<Vec<Vec<u8>>>)
    ensures
        match r {
            Ok(v) => mobi_covers(data@) == Ok::<Seq<Seq<u8>>, Failure>(v.deep_view()),
            Err(e) => mobi_covers(data@) == Err::<Seq<Seq<u8>>, Failure>(e@),
        },
{
    let ghost d = data@;
    let mut list = Candidates::default();
    match extract_cover(data.as_slice()) {
        Err(e) => {
            return Err(e);
        },
        Ok(Some(b)) => {
            list.push(b, true);
        },
        Ok(None) => {},
    }
    if data.len() as u64 > MAX_SCANNED_SIZE {
        return Err(AppError::other("MOBI 文件过大，无法扫描候选封面"));
    }
    let pdb = match Pdb::parse(data) {
        Ok(p) => p,
        Err(e) => {
            return Err(e);
        },
    };
    let start: u64 = match pdb.record(0) {
        Ok(first) => u32_at(first, OFF_FIRST_IMAGE) as u64,
        Err(e) => {
            return Err(e);
        },
    };
    let ghost offsets = pdb.offsets@;
    let ghost want = records_offered(d, offsets, start as int, list.deep_view());
    let n = pdb.offsets.len() as u64;
    let mut i: u64 = start;
    while i < n
        invariant
            n == pdb.offsets@.len(),
            d == pdb.data@,
            offsets == pdb.offsets@,
            start <= i,
            list.wf(),
            want == records_offered(d, offsets, i as int, list.deep_view()),
        decreases n - i,
    {
        if let Ok(b) = pdb.record(i) {
            if b.len() as u64 <= MAX_IMAGE_BYTES {
                list.push(vstd::slice::slice_to_vec(b), false);
            }
        }
        i = i + 1;
    }
    Ok(list.finish())
}

} // verus!
