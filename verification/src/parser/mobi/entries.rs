//! What the entries of an index hold, and what the table of contents makes of them.
use vstd::prelude::*;
use crate::model::Toc;
use crate::numbers::{decimal};
use crate::parser::mobi::index::{
    counted_values, label_at, ncx_item, sized_values, tag_values, Entry,
};
use crate::parser::mobi::pieces::{a_number_is_read_as_written, are_digits, number_of, with_high};
use crate::parser::mobi::toc::{guide_nodes, offset_of, range_behind, Part};

verus! {

// ---------------------------------------------------------------------------
// Values
// ---------------------------------------------------------------------------

/// Numbers as they are written one after another: the last digit of each has its high bit set.
pub open spec fn number_bytes(nums: Seq<Seq<u8>>) -> Seq<u8>
    decreases nums.len(),
{
    if nums.len() == 0 {
        Seq::empty()
    } else {
        with_high(nums[0], nums[0].len() - 1) + number_bytes(nums.skip(1))
    }
}

/// The numbers that rows of digits stand for.
pub open spec fn numbers_of(nums: Seq<Seq<u8>>) -> Seq<u32> {
    Seq::new(nums.len(), |k: int| number_of(nums[k]) as u32)
}

/// Numbers are read one after another as they were written, whether it is said how many there are or how many
/// bytes they take, and no further.
pub proof fn numbers_are_read_one_after_another(
    front: Seq<u8>,
    nums: Seq<Seq<u8>>,
    rest: Seq<u8>,
    used: int,
    acc: Seq<u32>,
)
    requires
        forall|k: int| 0 <= k < nums.len() ==> are_digits(#[trigger] nums[k]),
    ensures
        ({
            let rec = front + (number_bytes(nums) + rest);
            let end = front.len() + number_bytes(nums).len();
            &&& counted_values(rec, front.len() as int, nums.len() as int, acc) == (
                acc + numbers_of(nums),
                end as int,
            )
            &&& sized_values(rec, front.len() as int, used, used + number_bytes(nums).len(), acc) == Some(
                (acc + numbers_of(nums), end as int),
            )
        }),
    decreases nums.len(),
{
    let rec = front + (number_bytes(nums) + rest);
    if nums.len() == 0 {
        assert(acc + numbers_of(nums) =~= acc);
    } else {
        let ds = nums[0];
        let more = nums.skip(1);
        assert(are_digits(ds));
        let one = with_high(ds, ds.len() - 1);
        let others = number_bytes(more) + rest;
        assert(rec =~= front + one + others);
        assert(rec =~= (front + one) + others);
        a_number_is_read_as_written(front, ds, others);
        assert forall|k: int| 0 <= k < more.len() implies are_digits(#[trigger] more[k]) by {
            assert(more[k] == nums[k + 1]);
        }
        let now = acc.push(number_of(ds) as u32);
        numbers_are_read_one_after_another(front + one, more, rest, used + one.len(), now);
        assert(now + numbers_of(more) =~= acc + numbers_of(nums)) by {
            assert forall|k: int| 0 <= k < more.len() implies numbers_of(more)[k] == numbers_of(nums)[k + 1] by {
                assert(more[k] == nums[k + 1]);
            }
        }
    }
}

proof fn the_tag_is_there(tags: Seq<(u32, Seq<u32>)>, tag: u32, k: int)
    requires
        0 <= k < tags.len(),
        tags[k].0 == tag,
        forall|j: int| k < j < tags.len() ==> (#[trigger] tags[j]).0 != tag,
    ensures
        tag_values(tags, tag) == Some(tags[k].1),
    decreases tags.len(),
{
    if k < tags.len() - 1 {
        assert(tags[tags.len() - 1].0 != tag);
        the_tag_is_there(tags.drop_last(), tag, k);
    }
}

proof fn the_tag_is_missing(tags: Seq<(u32, Seq<u32>)>, tag: u32)
    requires
        forall|j: int| 0 <= j < tags.len() ==> (#[trigger] tags[j]).0 != tag,
    ensures
        tag_values(tags, tag) is None,
    decreases tags.len(),
{
    if tags.len() > 0 {
        assert(tags[tags.len() - 1].0 != tag);
        the_tag_is_missing(tags.drop_last(), tag);
    }
}

/// An entry is an item of the table of contents: its first tag is its place in the text, its third the place
/// of its label, its sixth a fragment and a place in it, and its twenty-first the item that it stands below.
pub proof fn an_item_is_made_of_its_tags(
    index: int,
    entry: Entry,
    labels: Seq<(u128, Seq<char>)>,
    k: int,
    tag: u32,
)
    requires
        0 <= k < entry.tags.len(),
        entry.tags[k].0 == tag,
        entry.tags[k].1.len() >= 2,
        forall|j: int| k < j < entry.tags.len() ==> (#[trigger] entry.tags[j]).0 != tag,
    ensures
        ({
            let item = ncx_item(index, entry, labels);
            let v = entry.tags[k].1;
            &&& tag == 1 ==> item.filepos == Some(v[0])
            &&& tag == 3 ==> (label_at(labels, v[0] as u128) matches Some(s) ==> item.label == s)
            &&& tag == 6 ==> item.pos == Some((v[0], v[1]))
            &&& tag == 21 ==> item.parent == Some(v[0])
        }),
{
    the_tag_is_there(entry.tags, tag, k);
}

/// An entry without a tag says nothing of what the tag is for: such an item stands at the top, and leads
/// nowhere.
pub proof fn what_has_no_tag_is_not_said(index: int, entry: Entry, labels: Seq<(u128, Seq<char>)>, tag: u32)
    requires
        forall|j: int| 0 <= j < entry.tags.len() ==> (#[trigger] entry.tags[j]).0 != tag,
    ensures
        ({
            let item = ncx_item(index, entry, labels);
            &&& tag == 1 ==> item.filepos is None
            &&& tag == 3 ==> item.label.len() == 0
            &&& tag == 6 ==> item.pos is None
            &&& tag == 21 ==> item.parent is None
        }),
{
    the_tag_is_missing(entry.tags, tag);
}

// ---------------------------------------------------------------------------
// The page of contents
// ---------------------------------------------------------------------------

/// A link of a page of contents makes an item: it has words, and leads to a place that is marked.
pub open spec fn makes_an_item(link: (Option<Seq<char>>, Seq<char>), listed: Seq<u32>) -> bool {
    &&& link.1.len() > 0
    &&& offset_of(link.0) matches Some(fp) && listed.contains(fp as u32)
}

/// The links of a page of contents become items, in their order, each with its words and the mark it leads to;
/// those without either are passed over, and no others. The result gives the links that the items were made of.
pub proof fn links_become_items(
    links: Seq<(Option<Seq<char>>, Seq<char>)>,
    parts: Seq<Part>,
    listed: Seq<u32>,
    i: int,
    acc: Seq<Toc>,
) -> (of: Seq<int>)
    requires
        0 <= i <= links.len(),
    ensures
        ({
            let all = guide_nodes(links, parts, listed, i, acc);
            &&& all.len() == acc.len() + of.len()
            &&& all.take(acc.len() as int) == acc
            &&& forall|j: int|
                0 <= j < of.len() ==> {
                    let link = links[#[trigger] of[j]];
                    let e = all[acc.len() + j];
                    &&& i <= of[j] < links.len()
                    &&& makes_an_item(link, listed)
                    &&& e.label == link.1
                    &&& e.anchor == Some("filepos"@ + decimal(offset_of(link.0).unwrap()))
                    &&& range_behind(parts, offset_of(link.0).unwrap(), 0) matches Some(k) ==> e.chapter_index
                        == k as u32
                    &&& e.children.len() == 0
                }
            &&& forall|j: int, l: int|
                #![trigger of[j], of[l]]
                0 <= j < l < of.len() ==> of[j] < of[l]
            &&& forall|k: int|
                i <= k < links.len() && makes_an_item(#[trigger] links[k], listed) ==> of.contains(k)
        }),
    decreases links.len() - i,
{
    if i >= links.len() {
        assert(acc.take(acc.len() as int) =~= acc);
        Seq::empty()
    } else if !makes_an_item(links[i], listed) {
        links_become_items(links, parts, listed, i + 1, acc)
    } else {
        let fp = offset_of(links[i].0).unwrap();
        let e = Toc {
            id: "mbguide-"@ + decimal(acc.len() as int),
            label: links[i].1,
            chapter_index: match range_behind(parts, fp, 0) {
                Some(k) => k as u32,
                None => 0,
            },
            anchor: Some("filepos"@ + decimal(fp)),
            children: Seq::empty(),
        };
        let more = links_become_items(links, parts, listed, i + 1, acc.push(e));
        let all = guide_nodes(links, parts, listed, i, acc);
        let of = seq![i] + more;
        let next = acc.push(e);
        assert(all.take(acc.len() as int) =~= acc) by {
            assert forall|k: int| 0 <= k < acc.len() implies all[k] == acc[k] by {
                assert(all.take(next.len() as int)[k] == next[k]);
            }
        }
        assert(all[acc.len() as int] == e) by {
            assert(all.take(next.len() as int)[acc.len() as int] == e);
        }
        assert forall|j: int| 0 <= j < of.len() implies {
            let link = links[#[trigger] of[j]];
            let e = all[acc.len() + j];
            &&& i <= of[j] < links.len()
            &&& makes_an_item(link, listed)
            &&& e.label == link.1
            &&& e.anchor == Some("filepos"@ + decimal(offset_of(link.0).unwrap()))
            &&& range_behind(parts, offset_of(link.0).unwrap(), 0) matches Some(k) ==> e.chapter_index
                == k as u32
            &&& e.children.len() == 0
        } by {
            if j > 0 {
                assert(of[j] == more[j - 1]);
                assert(next.len() + (j - 1) == acc.len() + j);
            }
        }
        assert forall|j: int, l: int|
            #![trigger of[j], of[l]]
            0 <= j < l < of.len() implies of[j] < of[l] by {
            assert(of[l] == more[l - 1]);
            if j > 0 {
                assert(of[j] == more[j - 1]);
            }
        }
        assert forall|k: int|
            i <= k < links.len() && makes_an_item(#[trigger] links[k], listed) implies of.contains(k) by {
            if k > i {
                assert(more.contains(k));
                let j = choose|j: int| 0 <= j < more.len() && more[j] == k;
                assert(of[j + 1] == k);
            } else {
                assert(of[0] == k);
            }
        }
        of
    }
}

} // verus!
