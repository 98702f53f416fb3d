//! The item entity: a single stored secret with its group, lower-cased name,
//! value and content-address, together with its mathematical view.

use vstd::prelude::*;
use vstd::string::*;
use vstd::seq_lib::group_to_multiset_ensures;
use crate::codec::{spec_read_record, SpecRecord, RecordRead, read_record, parse_utf8};
use crate::result::Error;
use crate::strutil::{
    chars_le, chars_lt, str_eq, str_le, lemma_chars_le_total, lemma_chars_le_trans,
};

verus! {

/// The mathematical view of an item: its four fields as character sequences.
pub struct ItemView {
    pub group: Seq<char>,
    pub name: Seq<char>,
    pub value: Seq<char>,
    pub filename: Seq<char>,
}

/// A single stored entry of the store.
pub struct Item {
    /// The group the item belongs to, case as provided.
    pub group: String,
    /// The item's name, lower-cased at creation time.
    pub name: String,
    /// The stored secret; may be empty and is loaded lazily from the index.
    pub value: String,
    /// The digest-based content-address, the item's on-disk identity.
    pub filename: String,
}

impl View for Item {
    type V = ItemView;

    open spec fn view(&self) -> ItemView {
        ItemView {
            group: self.group@,
            name: self.name@,
            value: self.value@,
            filename: self.filename@,
        }
    }
}

impl Clone for Item {
    fn clone(&self) -> (r: Self)
        ensures
            r@ == self@,
    {
        Item {
            group: self.group.clone(),
            name: self.name.clone(),
            value: self.value.clone(),
            filename: self.filename.clone(),
        }
    }
}

/// The views of a sequence of items.
pub open spec fn item_views(items: Seq<Item>) -> Seq<ItemView> {
    items.map_values(|it: Item| it@)
}

/// Whether an item file's bytes decode to a full record.
pub open spec fn file_parses(bytes: Seq<u8>) -> bool {
    vstd::utf8::valid_utf8(bytes) && spec_read_record(vstd::utf8::decode_utf8(bytes), 0)
        is Value
}

// ---------------------------------------------------------------------------
// Grouping for display
// ---------------------------------------------------------------------------

/// Strictly increasing group labels: sorted and free of duplicates.
pub open spec fn strs_sorted(gs: Seq<String>) -> bool {
    forall|i: int, j: int| 0 <= i < j < gs.len() ==> chars_lt(#[trigger] gs[i]@, #[trigger] gs[j]@)
}

/// Items in non-decreasing name order.
pub open spec fn sorted_by_name(items: Seq<ItemView>) -> bool {
    forall|i: int, j: int|
        0 <= i < j < items.len() ==> chars_le(#[trigger] items[i].name, #[trigger] items[j].name)
}

/// Whether some label in the list reads `g`.
pub open spec fn contains_str(gs: Seq<String>, g: Seq<char>) -> bool {
    exists|i: int| 0 <= i < gs.len() && #[trigger] gs[i]@ == g
}

/// Whether some item in the list belongs to group `g`.
pub open spec fn some_item_has_group(items: Seq<Item>, g: Seq<char>) -> bool {
    exists|k: int| 0 <= k < items.len() && #[trigger] items[k]@.group == g
}

/// Whether some bucket in a partition is labelled `g`.
pub open spec fn some_bucket_labelled(r: Seq<(String, Vec<Item>)>, g: Seq<char>) -> bool {
    exists|i: int| 0 <= i < r.len() && #[trigger] r[i].0@ == g
}

proof fn lemma_contains_str_push(gs: Seq<String>, x: String, g: Seq<char>)
    requires
        contains_str(gs, g),
    ensures
        contains_str(gs.push(x), g),
{
    let i = choose|i: int| 0 <= i < gs.len() && #[trigger] gs[i]@ == g;
    assert(gs.push(x)[i]@ == g);
}

proof fn lemma_contains_str_insert(gs: Seq<String>, p: int, x: String, g: Seq<char>)
    requires
        0 <= p <= gs.len(),
        contains_str(gs, g),
    ensures
        contains_str(gs.insert(p, x), g),
{
    let i = choose|i: int| 0 <= i < gs.len() && #[trigger] gs[i]@ == g;
    if i < p {
        assert(gs.insert(p, x)[i]@ == g);
    } else {
        assert(gs.insert(p, x)[i + 1]@ == g);
    }
}

/// The distinct groups of the items, in first-seen order.
fn distinct_groups(items: &Vec<Item>) -> (r: Vec<String>)
    ensures
        forall|i: int, j: int| 0 <= i < j < r@.len() ==> r@[i]@ != r@[j]@,
        forall|i: int| 0 <= i < r@.len() ==> some_item_has_group(items@, #[trigger] r@[i]@),
        forall|k: int|
            0 <= k < items@.len() ==> contains_str(r@, #[trigger] items@[k]@.group),
{
    let mut r: Vec<String> = Vec::new();
    let mut t: usize = 0;
    while t < items.len()
        invariant
            t <= items@.len(),
            forall|i: int, j: int| 0 <= i < j < r@.len() ==> r@[i]@ != r@[j]@,
            forall|i: int| 0 <= i < r@.len() ==> some_item_has_group(items@, #[trigger] r@[i]@),
            forall|k: int| 0 <= k < t ==> contains_str(r@, #[trigger] items@[k]@.group),
        decreases items@.len() - t,
    {
        let g = &items[t].group;
        let mut present = false;
        let mut p: usize = 0;
        while p < r.len()
            invariant
                p <= r@.len(),
                present ==> contains_str(r@, g@),
                !present ==> forall|i: int| 0 <= i < p ==> #[trigger] r@[i]@ != g@,
            decreases r@.len() - p,
        {
            if str_eq(r[p].as_str(), g.as_str()) {
                present = true;
                proof {
                    assert(r@[p as int]@ == g@);
                }
            }
            p += 1;
        }
        let ghost prev = r@;
        if !present {
            r.push(g.clone());
        }
        proof {
            if !present {
                assert(r@[r@.len() - 1]@ == g@);
                assert(contains_str(r@, g@));
                assert forall|i: int, j: int| 0 <= i < j < r@.len() implies r@[i]@ != r@[j]@ by {
                    if j == r@.len() - 1 {
                        assert(r@[i]@ == prev[i]@);
                    }
                }
                assert forall|i: int| 0 <= i < r@.len() implies some_item_has_group(
                    items@,
                    #[trigger] r@[i]@,
                ) by {
                    if i == r@.len() - 1 {
                        assert(items@[t as int]@.group == g@);
                    } else {
                        assert(r@[i]@ == prev[i]@);
                    }
                }
                assert forall|k: int| 0 <= k < t implies contains_str(
                    r@,
                    #[trigger] items@[k]@.group,
                ) by {
                    lemma_contains_str_push(prev, r@[r@.len() - 1], items@[k]@.group);
                    assert(prev.push(r@[r@.len() - 1]) =~= r@);
                }
            }
            assert(contains_str(r@, items@[t as int]@.group));
        }
        t += 1;
    }
    r
}

/// Insertion sort for distinct group labels, strictly increasing.
#[verifier::rlimit(50)]
fn sort_groups(groups: Vec<String>) -> (r: Vec<String>)
    requires
        forall|i: int, j: int| 0 <= i < j < groups@.len() ==> groups@[i]@ != groups@[j]@,
    ensures
        r@.len() == groups@.len(),
        strs_sorted(r@),
        forall|i: int| 0 <= i < r@.len() ==> contains_str(groups@, #[trigger] r@[i]@),
        forall|k: int| 0 <= k < groups@.len() ==> contains_str(r@, #[trigger] groups@[k]@),
{
    let mut out: Vec<String> = Vec::new();
    let mut t: usize = 0;
    while t < groups.len()
        invariant
            t <= groups@.len(),
            out@.len() == t,
            forall|i: int, j: int| 0 <= i < j < groups@.len() ==> groups@[i]@ != groups@[j]@,
            strs_sorted(out@),
            forall|i: int| 0 <= i < out@.len() ==> contains_str(groups@.take(t as int), #[trigger] out@[i]@),
            forall|k: int| 0 <= k < t ==> contains_str(out@, #[trigger] groups@[k]@),
        decreases groups@.len() - t,
    {
        let g = groups[t].clone();
        proof {
            assert forall|i: int| 0 <= i < out@.len() implies #[trigger] out@[i]@ != g@ by {
                let k = choose|k: int|
                    0 <= k < groups@.take(t as int).len() && #[trigger] groups@.take(
                        t as int,
                    )[k]@ == out@[i]@;
                assert(groups@[k]@ != groups@[t as int]@);
            }
        }
        let mut p: usize = 0;
        while p < out.len() && str_le(out[p].as_str(), g.as_str())
            invariant
                p <= out@.len(),
                forall|q: int| 0 <= q < p ==> chars_le(#[trigger] out@[q]@, g@),
            decreases out@.len() - p,
        {
            p += 1;
        }
        let ghost prev = out@;
        proof {
            if p < out@.len() {
                lemma_chars_le_total(out@[p as int]@, g@);
                assert(chars_le(g@, out@[p as int]@));
            }
        }
        out.insert(p, g);
        proof {
            let cur = out@;
            assert(cur == prev.insert(p as int, cur[p as int]));
            assert(cur[p as int]@ == groups@[t as int]@);
            assert forall|i: int, j: int| 0 <= i < j < cur.len() implies chars_lt(
                #[trigger] cur[i]@,
                #[trigger] cur[j]@,
            ) by {
                if i < p && j == p {
                    assert(cur[i]@ == prev[i]@);
                } else if i == p && j > p {
                    assert(cur[j]@ == prev[j - 1]@);
                    if j - 1 > p {
                        assert(chars_lt(prev[p as int]@, prev[j - 1]@));
                        lemma_chars_le_trans(cur[i]@, prev[p as int]@, prev[j - 1]@);
                    }
                } else if i < p && j > p {
                    assert(cur[i]@ == prev[i]@ && cur[j]@ == prev[j - 1]@);
                    assert(j - 1 >= p > i);
                } else if j < p {
                    assert(cur[i]@ == prev[i]@ && cur[j]@ == prev[j]@);
                } else if i > p {
                    assert(cur[i]@ == prev[i - 1]@ && cur[j]@ == prev[j - 1]@);
                }
            }
            assert forall|i: int| 0 <= i < cur.len() implies contains_str(
                groups@.take(t + 1),
                #[trigger] cur[i]@,
            ) by {
                if i == p {
                    assert(groups@.take(t + 1)[t as int]@ == cur[i]@);
                } else {
                    let s = if i < p {
                        i
                    } else {
                        i - 1
                    };
                    assert(cur[i]@ == prev[s]@);
                    let k = choose|k: int|
                        0 <= k < groups@.take(t as int).len() && #[trigger] groups@.take(
                            t as int,
                        )[k]@ == prev[s]@;
                    assert(groups@.take(t + 1)[k]@ == cur[i]@);
                }
            }
            assert forall|k: int| 0 <= k < t + 1 implies contains_str(
                cur,
                #[trigger] groups@[k]@,
            ) by {
                if k < t {
                    lemma_contains_str_insert(prev, p as int, cur[p as int], groups@[k]@);
                } else {
                    assert(cur[p as int]@ == groups@[k]@);
                }
            }
        }
        t += 1;
    }
    proof {
        assert forall|i: int| 0 <= i < out@.len() implies contains_str(
            groups@,
            #[trigger] out@[i]@,
        ) by {
            let k = choose|k: int|
                0 <= k < groups@.take(t as int).len() && #[trigger] groups@.take(t as int)[k]@
                    == out@[i]@;
            assert(groups@[k]@ == out@[i]@);
        }
    }
    out
}

/// Insertion sort for a bucket's items, by name, preserving the multiset.
#[verifier::rlimit(50)]
fn sort_items_by_name(items: Vec<Item>) -> (r: Vec<Item>)
    ensures
        sorted_by_name(item_views(r@)),
        item_views(r@).to_multiset() == item_views(items@).to_multiset(),
{
    let mut out: Vec<Item> = Vec::new();
    let mut t: usize = 0;
    proof {
        broadcast use group_to_multiset_ensures;

        assert(item_views(out@) =~= Seq::<ItemView>::empty());
        assert(item_views(items@.take(0)) =~= Seq::<ItemView>::empty());
    }
    while t < items.len()
        invariant
            t <= items@.len(),
            forall|i: int, j: int|
                0 <= i < j < out@.len() ==> chars_le(
                    #[trigger] out@[i]@.name,
                    #[trigger] out@[j]@.name,
                ),
            item_views(out@).to_multiset() == item_views(items@.take(t as int)).to_multiset(),
        decreases items@.len() - t,
    {
        let x = items[t].clone();
        let mut p: usize = 0;
        while p < out.len() && str_le(out[p].name.as_str(), x.name.as_str())
            invariant
                p <= out@.len(),
                forall|q: int| 0 <= q < p ==> chars_le(#[trigger] out@[q]@.name, x@.name),
            decreases out@.len() - p,
        {
            p += 1;
        }
        let ghost prev = out@;
        proof {
            if p < out@.len() {
                lemma_chars_le_total(out@[p as int]@.name, x@.name);
                assert(chars_le(x@.name, out@[p as int]@.name));
            }
        }
        out.insert(p, x);
        proof {
            broadcast use group_to_multiset_ensures;

            let cur = out@;
            assert(cur == prev.insert(p as int, cur[p as int]));
            assert forall|i: int, j: int| 0 <= i < j < cur.len() implies chars_le(
                #[trigger] cur[i]@.name,
                #[trigger] cur[j]@.name,
            ) by {
                if i < p && j == p {
                    assert(cur[i]@ == prev[i]@);
                } else if i == p && j > p {
                    assert(cur[j]@ == prev[j - 1]@);
                    if j - 1 > p {
                        assert(chars_le(prev[p as int]@.name, prev[j - 1]@.name));
                        lemma_chars_le_trans(cur[i]@.name, prev[p as int]@.name, prev[j - 1]@.name);
                    }
                } else if i < p && j > p {
                    assert(cur[i]@ == prev[i]@ && cur[j]@ == prev[j - 1]@);
                    assert(j - 1 >= p > i);
                } else if j < p {
                    assert(cur[i]@ == prev[i]@ && cur[j]@ == prev[j]@);
                } else if i > p {
                    assert(cur[i]@ == prev[i - 1]@ && cur[j]@ == prev[j - 1]@);
                }
            }
            let x_view = cur[p as int]@;
            assert(cur.remove(p as int) =~= prev);
            assert(item_views(cur).remove(p as int) =~= item_views(prev));
            assert(item_views(cur)[p as int] == x_view);
            assert(item_views(cur).remove(p as int).to_multiset() =~= item_views(
                cur,
            ).to_multiset().remove(x_view));
            assert(item_views(cur).to_multiset().contains(x_view)) by {
                assert(item_views(cur)[p as int] == x_view);
            }
            assert(item_views(cur).to_multiset() =~= item_views(prev).to_multiset().insert(
                x_view,
            ));
            assert(items@.take(t + 1).drop_last() =~= items@.take(t as int));
            assert(items@.take(t + 1).last() == items@[t as int]);
            assert(item_views(items@.take(t + 1)) =~= item_views(items@.take(t as int)).push(
                items@[t as int]@,
            ));
            assert(item_views(items@.take(t + 1)).to_multiset() =~= item_views(
                items@.take(t as int),
            ).to_multiset().insert(items@[t as int]@));
        }
        t += 1;
    }
    proof {
        assert(items@.take(items@.len() as int) =~= items@);
        assert forall|i: int, j: int| 0 <= i < j < item_views(out@).len() implies chars_le(
            #[trigger] item_views(out@)[i].name,
            #[trigger] item_views(out@)[j].name,
        ) by {
            assert(item_views(out@)[i] == out@[i]@ && item_views(out@)[j] == out@[j]@);
        }
    }
    out
}

/// Partitions items into their groups for display: buckets are labelled by
/// the distinct groups in strictly increasing order, and each bucket holds
/// exactly its group's items, sorted by name.
#[verifier::rlimit(50)]
pub fn group_items(items: Vec<Item>) -> (r: Vec<(String, Vec<Item>)>)
    ensures
        forall|i: int, j: int|
            0 <= i < j < r@.len() ==> chars_lt(#[trigger] r@[i].0@, #[trigger] r@[j].0@),
        forall|i: int| 0 <= i < r@.len() ==> some_item_has_group(items@, #[trigger] r@[i].0@),
        forall|k: int|
            0 <= k < items@.len() ==> some_bucket_labelled(r@, #[trigger] items@[k]@.group),
        forall|i: int| 0 <= i < r@.len() ==> sorted_by_name(item_views(#[trigger] r@[i].1@)),
        forall|i: int|
            0 <= i < r@.len() ==> item_views(#[trigger] r@[i].1@).to_multiset() == item_views(
                items@,
            ).filter(crate::store::in_group(r@[i].0@)).to_multiset(),
{
    let gs0 = distinct_groups(&items);
    let ghost gsu = gs0@;
    let gs = sort_groups(gs0);
    proof {
        assert forall|i: int| 0 <= i < gs@.len() implies some_item_has_group(
            items@,
            #[trigger] gs@[i]@,
        ) by {
            let k1 = choose|k1: int| 0 <= k1 < gsu.len() && #[trigger] gsu[k1]@ == gs@[i]@;
            assert(some_item_has_group(items@, gsu[k1]@));
        }
        assert forall|k: int| 0 <= k < items@.len() implies contains_str(
            gs@,
            #[trigger] items@[k]@.group,
        ) by {
            let i1 = choose|i1: int| 0 <= i1 < gsu.len() && #[trigger] gsu[i1]@ == items@[k]@.group;
            assert(contains_str(gs@, gsu[i1]@));
        }
    }
    let mut r: Vec<(String, Vec<Item>)> = Vec::new();
    let mut t: usize = 0;
    while t < gs.len()
        invariant
            t <= gs@.len(),
            r@.len() == t,
            strs_sorted(gs@),
            forall|i: int| 0 <= i < gs@.len() ==> some_item_has_group(items@, #[trigger] gs@[i]@),
            forall|k: int|
                0 <= k < items@.len() ==> contains_str(gs@, #[trigger] items@[k]@.group),
            forall|i: int| 0 <= i < t ==> #[trigger] r@[i].0@ == gs@[i]@,
            forall|i: int| 0 <= i < t ==> sorted_by_name(item_views(#[trigger] r@[i].1@)),
            forall|i: int|
                0 <= i < t ==> item_views(#[trigger] r@[i].1@).to_multiset() == item_views(
                    items@,
                ).filter(crate::store::in_group(r@[i].0@)).to_multiset(),
        decreases gs@.len() - t,
    {
        let label = gs[t].clone();
        let bucket = crate::store::get_all_group(&items, label.as_str());
        let bucket = sort_items_by_name(bucket);
        r.push((label, bucket));
        t += 1;
    }
    proof {
        assert forall|i: int, j: int| 0 <= i < j < r@.len() implies chars_lt(
            #[trigger] r@[i].0@,
            #[trigger] r@[j].0@,
        ) by {
            assert(r@[i].0@ == gs@[i]@ && r@[j].0@ == gs@[j]@);
        }
        assert forall|i: int| 0 <= i < r@.len() implies some_item_has_group(
            items@,
            #[trigger] r@[i].0@,
        ) by {
            assert(r@[i].0@ == gs@[i]@);
        }
        assert forall|k: int| 0 <= k < items@.len() implies some_bucket_labelled(
            r@,
            #[trigger] items@[k]@.group,
        ) by {
            let i = choose|i: int| 0 <= i < gs@.len() && #[trigger] gs@[i]@ == items@[k]@.group;
            assert(r@[i].0@ == items@[k]@.group);
        }
    }
    r
}

impl Item {
    /// Replaces `value` with the value field decoded from the item file's
    /// bytes, leaving every other field alone.
    pub fn fill_value(&mut self, contents: &[u8], path: &str) -> (r: Result<(), Error>)
        ensures
            match r {
                Ok(()) => {
                    &&& file_parses(contents@)
                    &&& spec_read_record(vstd::utf8::decode_utf8(contents@), 0) matches
                        SpecRecord::Value(_g, _n, v, _next) && final(self)@ == (ItemView {
                        value: v,
                        ..old(self)@
                    })
                },
                Err(e) => {
                    &&& !file_parses(contents@)
                    &&& *final(self) == *old(self)
                    &&& e matches Error::CorruptEntry(p) && p@ == path@
                },
            },
    {
        let s = match parse_utf8(contents) {
            None => {
                return Err(Error::CorruptEntry(path.to_owned()));
            },
            Some(s) => s,
        };
        match read_record(s.as_str(), 0) {
            RecordRead::Value(_g, _n, v, _next) => {
                self.value = v;
                Ok(())
            },
            _ => Err(Error::CorruptEntry(path.to_owned())),
        }
    }
}

} // verus!
