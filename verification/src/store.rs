//! The content-addressed store and its index: reading item files, rebuilding
//! the single index file, loading it back, exact and fuzzy lookup, and item
//! creation with its delete-before-write uniqueness discipline.

use vstd::prelude::*;
use vstd::string::*;
use crate::codec::{
    spec_read_record, SpecRecord, RecordRead, read_record, parse_utf8, triple_encoding,
    triple_bytes, encode_field, encode_triple_bytes, has_no_nul, lemma_record_next_bounds,
};
use crate::entities::{Item, ItemView, item_views, file_parses};
use crate::result::Error;
use crate::strutil::str_eq;
use crate::levenshtein::{lev, min2};

verus! {

// ---------------------------------------------------------------------------
// Content addressing: digest and hex
// ---------------------------------------------------------------------------

/// The 20-byte digest that the content address is built from.
pub uninterp spec fn sha1_of(bytes: Seq<u8>) -> Seq<u8>;

/// What lower-casing a string yields.
pub uninterp spec fn lower_of(s: Seq<char>) -> Seq<char>;

/// Relies on `sha1::Sha1` through `digest::Digest`: the 160-bit digest is a
/// function of the input bytes alone.
#[verifier::external_body]
fn sha1_digest(bytes: &Vec<u8>) -> (r: Vec<u8>)
    ensures
        r@ == sha1_of(bytes@),
        r@.len() == 20,
{
    let mut h = <sha1::Sha1 as sha1::Digest>::new();
    sha1::Digest::update(&mut h, bytes.as_slice());
    sha1::Digest::finalize(h).to_vec()
}

/// Relies on `str::to_lowercase`: the result depends on the characters alone,
/// and an empty string stays empty.
#[verifier::external_body]
fn lowercase(s: &str) -> (r: String)
    ensures
        r@ == lower_of(s@),
        s@.len() == 0 ==> r@.len() == 0,
{
    s.to_lowercase()
}

/// The lower-case hexadecimal digit of a value below sixteen.
pub open spec fn hex_digit(n: int) -> char {
    if n == 0 {
        '0'
    } else if n == 1 {
        '1'
    } else if n == 2 {
        '2'
    } else if n == 3 {
        '3'
    } else if n == 4 {
        '4'
    } else if n == 5 {
        '5'
    } else if n == 6 {
        '6'
    } else if n == 7 {
        '7'
    } else if n == 8 {
        '8'
    } else if n == 9 {
        '9'
    } else if n == 10 {
        'a'
    } else if n == 11 {
        'b'
    } else if n == 12 {
        'c'
    } else if n == 13 {
        'd'
    } else if n == 14 {
        'e'
    } else {
        'f'
    }
}

/// The lower-case hex rendering of a byte sequence, two digits per byte.
pub open spec fn hex_of(bytes: Seq<u8>) -> Seq<char>
    decreases bytes.len(),
{
    if bytes.len() == 0 {
        Seq::empty()
    } else {
        hex_of(bytes.drop_last()) + seq![
            hex_digit(bytes.last() as int / 16),
            hex_digit(bytes.last() as int % 16),
        ]
    }
}

/// Hex digits are never the NUL terminator.
pub proof fn lemma_hex_no_nul(bytes: Seq<u8>)
    ensures
        has_no_nul(hex_of(bytes)),
    decreases bytes.len(),
{
    if bytes.len() > 0 {
        lemma_hex_no_nul(bytes.drop_last());
    }
}

fn append_hex_digit(out: &mut String, n: u8)
    requires
        n < 16,
    ensures
        final(out)@ == old(out)@ + seq![hex_digit(n as int)],
{
    proof {
        reveal_strlit("0");
        reveal_strlit("1");
        reveal_strlit("2");
        reveal_strlit("3");
        reveal_strlit("4");
        reveal_strlit("5");
        reveal_strlit("6");
        reveal_strlit("7");
        reveal_strlit("8");
        reveal_strlit("9");
        reveal_strlit("a");
        reveal_strlit("b");
        reveal_strlit("c");
        reveal_strlit("d");
        reveal_strlit("e");
        reveal_strlit("f");
    }
    if n == 0 {
        out.append("0");
    } else if n == 1 {
        out.append("1");
    } else if n == 2 {
        out.append("2");
    } else if n == 3 {
        out.append("3");
    } else if n == 4 {
        out.append("4");
    } else if n == 5 {
        out.append("5");
    } else if n == 6 {
        out.append("6");
    } else if n == 7 {
        out.append("7");
    } else if n == 8 {
        out.append("8");
    } else if n == 9 {
        out.append("9");
    } else if n == 10 {
        out.append("a");
    } else if n == 11 {
        out.append("b");
    } else if n == 12 {
        out.append("c");
    } else if n == 13 {
        out.append("d");
    } else if n == 14 {
        out.append("e");
    } else {
        out.append("f");
    }
    proof {
        assert(out@ =~= old(out)@ + seq![hex_digit(n as int)]);
    }
}

/// Renders bytes as lower-case hex, two digits per byte.
pub fn to_hex(bytes: &Vec<u8>) -> (r: String)
    ensures
        r@ == hex_of(bytes@),
{
    let mut out = String::new();
    let mut i: usize = 0;
    while i < bytes.len()
        invariant
            i <= bytes@.len(),
            out@ == hex_of(bytes@.take(i as int)),
        decreases bytes@.len() - i,
    {
        let b = bytes[i];
        append_hex_digit(&mut out, b / 16);
        append_hex_digit(&mut out, b % 16);
        proof {
            assert(bytes@.take(i + 1).drop_last() =~= bytes@.take(i as int));
            assert(bytes@.take(i + 1).last() == bytes@[i as int]);
            assert(out@ =~= hex_of(bytes@.take(i + 1)));
        }
        i += 1;
    }
    proof {
        assert(bytes@.take(bytes@.len() as int) =~= bytes@);
    }
    out
}

// ---------------------------------------------------------------------------
// Reading item files
// ---------------------------------------------------------------------------

/// Whether an item file's bytes decode to exactly this item view, once the
/// given basename is attached as the content address.
pub open spec fn parses_to(bytes: Seq<u8>, filename: Seq<char>, iv: ItemView) -> bool {
    &&& file_parses(bytes)
    &&& spec_read_record(vstd::utf8::decode_utf8(bytes), 0) matches SpecRecord::Value(
        g,
        n,
        v,
        _next,
    ) && iv == (ItemView { group: g, name: n, value: v, filename: filename })
}

/// Decodes one item file: three fields `group`, `name`, `value` in order,
/// with the file's basename attached as the content address.
pub fn read_item(contents: &[u8], filename: &str, path: &str) -> (r: Result<Item, Error>)
    ensures
        match r {
            Ok(it) => parses_to(contents@, filename@, it@),
            Err(e) => {
                &&& !file_parses(contents@)
                &&& e matches Error::CorruptEntry(p) && p@ == path@
            },
        },
{
    let s = match parse_utf8(contents) {
        None => {
            return Err(Error::CorruptEntry(path.to_owned()));
        },
        Some(s) => s,
    };
    match read_record(s.as_str(), 0) {
        RecordRead::Value(g, n, v, _next) => Ok(
            Item { group: g, name: n, value: v, filename: filename.to_owned() },
        ),
        _ => Err(Error::CorruptEntry(path.to_owned())),
    }
}

/// Decodes a batch of item files, failing on the first corrupt one.
pub fn read_items(files: &Vec<(String, Vec<u8>)>) -> (r: Result<Vec<Item>, Error>)
    ensures
        match r {
            Ok(items) => {
                &&& items@.len() == files@.len()
                &&& forall|i: int|
                    0 <= i < files@.len() ==> parses_to(
                        files@[i].1@,
                        files@[i].0@,
                        #[trigger] items@[i]@,
                    )
            },
            Err(e) => exists|i: int|
                {
                    &&& 0 <= i < files@.len()
                    &&& !file_parses(#[trigger] files@[i].1@)
                    &&& forall|k: int| 0 <= k < i ==> file_parses(#[trigger] files@[k].1@)
                    &&& e matches Error::CorruptEntry(p) && p@ == files@[i].0@
                },
        },
{
    let mut items: Vec<Item> = Vec::new();
    let mut i: usize = 0;
    while i < files.len()
        invariant
            i <= files@.len(),
            items@.len() == i,
            forall|k: int|
                0 <= k < i ==> parses_to(files@[k].1@, files@[k].0@, #[trigger] items@[k]@),
        decreases files@.len() - i,
    {
        let file = &files[i];
        match read_item(file.1.as_slice(), file.0.as_str(), file.0.as_str()) {
            Ok(it) => {
                items.push(it);
            },
            Err(e) => {
                proof {
                    let wi = i as int;
                    assert forall|k: int| 0 <= k < wi implies file_parses(
                        #[trigger] files@[k].1@,
                    ) by {
                        assert(parses_to(files@[k].1@, files@[k].0@, items@[k]@));
                    }
                    assert(0 <= wi < files@.len() && !file_parses(files@[wi].1@) && (forall|
                        k: int,
                    |
                        0 <= k < wi ==> file_parses(#[trigger] files@[k].1@)) && (e matches
                        Error::CorruptEntry(p) && p@ == files@[wi].0@));
                }
                return Err(e);
            },
        }
        i += 1;
    }
    Ok(items)
}

// ---------------------------------------------------------------------------
// The index file
// ---------------------------------------------------------------------------

/// The index file's text: one `group`, `name`, `filename` record per item,
/// in the order the items were scanned.
pub open spec fn index_encoding(items: Seq<Item>) -> Seq<char>
    decreases items.len(),
{
    if items.len() == 0 {
        Seq::empty()
    } else {
        index_encoding(items.drop_last()) + triple_encoding(
            items.last()@.group,
            items.last()@.name,
            items.last()@.filename,
        )
    }
}

/// Builds the bytes of the index file for the given items. Rebuilding is the
/// only way to refresh the index; it must follow every mutation.
pub fn index(items: &Vec<Item>) -> (r: Vec<u8>)
    ensures
        r@ == vstd::utf8::encode_utf8(index_encoding(items@)),
{
    let mut out = String::new();
    let mut i: usize = 0;
    while i < items.len()
        invariant
            i <= items@.len(),
            out@ == index_encoding(items@.take(i as int)),
        decreases items@.len() - i,
    {
        let it = &items[i];
        encode_field(&mut out, it.group.as_str());
        encode_field(&mut out, it.name.as_str());
        encode_field(&mut out, it.filename.as_str());
        proof {
            assert(items@.take(i + 1).drop_last() =~= items@.take(i as int));
            assert(items@.take(i + 1).last() == items@[i as int]);
            assert(out@ =~= index_encoding(items@.take(i + 1)));
        }
        i += 1;
    }
    proof {
        assert(items@.take(items@.len() as int) =~= items@);
    }
    out.as_str().as_bytes_vec()
}

/// Rebuilding the index is deterministic: the same scanned items give the
/// same bytes, so two rebuilds with no intervening mutation are identical.
pub proof fn lemma_index_rebuild_idempotent(first: Seq<Item>, second: Seq<Item>)
    requires
        first == second,
    ensures
        index_encoding(first) == index_encoding(second),
{
}

/// The items listed by an index text, parsed from `start` on: `None` on a
/// short record, the summaries (with empty values) otherwise.
pub open spec fn spec_parse_index(s: Seq<char>, start: int) -> Option<Seq<ItemView>>
    decreases s.len() - start when 0 <= start <= s.len()
{
    match spec_read_record(s, start) {
        SpecRecord::End => Some(Seq::empty()),
        SpecRecord::Corrupt => None,
        SpecRecord::Value(g, n, v, next) => if start < next <= s.len() {
            match spec_parse_index(s, next) {
                None => None,
                Some(rest) => Some(
                    seq![ItemView { group: g, name: n, value: Seq::empty(), filename: v }] + rest,
                ),
            }
        } else {
            None
        },
    }
}

/// Loads every item summary from the index file's bytes. A missing index
/// (`None`) is an empty store, not an error; every loaded value is empty.
pub fn get_all_items(contents: Option<&[u8]>, path: &str) -> (r: Result<Vec<Item>, Error>)
    ensures
        match r {
            Ok(items) => match contents {
                None => items@.len() == 0,
                Some(b) => vstd::utf8::valid_utf8(b@) && spec_parse_index(
                    vstd::utf8::decode_utf8(b@),
                    0,
                ) == Some(item_views(items@)),
            },
            Err(e) => {
                &&& contents matches Some(b) && (!vstd::utf8::valid_utf8(b@) || spec_parse_index(
                    vstd::utf8::decode_utf8(b@),
                    0,
                ) is None)
                &&& e matches Error::CorruptEntry(p) && p@ == path@
            },
        },
{
    let b = match contents {
        None => {
            return Ok(Vec::new());
        },
        Some(b) => b,
    };
    let s = match parse_utf8(b) {
        None => {
            return Err(Error::CorruptEntry(path.to_owned()));
        },
        Some(s) => s,
    };
    let ghost text = s@;
    let mut items: Vec<Item> = Vec::new();
    let mut pos: usize = 0;
    proof {
        if spec_parse_index(text, 0) is Some {
            let rest = spec_parse_index(text, 0)->Some_0;
            assert(item_views(items@) + rest =~= rest);
        }
    }
    loop
        invariant
            pos <= text.len(),
            s@ == text,
            contents == Some(b),
            vstd::utf8::valid_utf8(b@),
            text == vstd::utf8::decode_utf8(b@),
            spec_parse_index(text, pos as int) matches Some(rest) ==> spec_parse_index(text, 0)
                == Some(item_views(items@) + rest),
            spec_parse_index(text, pos as int) is None ==> spec_parse_index(text, 0) is None,
        decreases text.len() - pos,
    {
        match read_record(s.as_str(), pos) {
            RecordRead::End => {
                proof {
                    assert(spec_parse_index(text, pos as int) == Some(Seq::<ItemView>::empty()));
                    assert(item_views(items@) + Seq::<ItemView>::empty() =~= item_views(items@));
                }
                return Ok(items);
            },
            RecordRead::Corrupt => {
                proof {
                    assert(spec_parse_index(text, pos as int) is None);
                }
                return Err(Error::CorruptEntry(path.to_owned()));
            },
            RecordRead::Value(g, n, v, next) => {
                let ghost prev_items = items@;
                let it = Item { group: g, name: n, value: String::new(), filename: v };
                proof {
                    let iv = it@;
                    assert(spec_parse_index(text, pos as int) == (match spec_parse_index(
                        text,
                        next as int,
                    ) {
                        None => None::<Seq<ItemView>>,
                        Some(rest) => Some(seq![iv] + rest),
                    }));
                    assert(item_views(prev_items.push(it)) =~= item_views(prev_items) + seq![iv]);
                    if spec_parse_index(text, next as int) is Some {
                        let rest = spec_parse_index(text, next as int)->Some_0;
                        assert(item_views(prev_items) + (seq![iv] + rest) =~= (item_views(
                            prev_items,
                        ) + seq![iv]) + rest);
                    }
                }
                items.push(it);
                pos = next;
            },
        }
    }
}

// ---------------------------------------------------------------------------
// Exact lookup
// ---------------------------------------------------------------------------

/// Whether an item carries exactly this `(group, name)` key.
pub open spec fn key_match(iv: ItemView, g: Seq<char>, n: Seq<char>) -> bool {
    iv.group == g && iv.name == n
}

/// Whether position `i` holds the first item with this key.
pub open spec fn key_at(items: Seq<Item>, g: Seq<char>, n: Seq<char>, i: int) -> bool {
    &&& 0 <= i < items.len()
    &&& key_match(items[i]@, g, n)
    &&& forall|k: int| 0 <= k < i ==> !key_match(#[trigger] items[k]@, g, n)
}

/// Finds the first item whose group and name match exactly, both compared as
/// given; the caller is responsible for lower-casing the name.
pub fn get_item(items: &Vec<Item>, group: &str, name: &str) -> (r: Option<Item>)
    ensures
        match r {
            Some(it) => exists|i: int|
                #[trigger] key_at(items@, group@, name@, i) && it@ == items@[i]@,
            None => forall|i: int|
                0 <= i < items@.len() ==> !key_match(#[trigger] items@[i]@, group@, name@),
        },
{
    let mut i: usize = 0;
    while i < items.len()
        invariant
            i <= items@.len(),
            forall|k: int| 0 <= k < i ==> !key_match(#[trigger] items@[k]@, group@, name@),
        decreases items@.len() - i,
    {
        if str_eq(items[i].group.as_str(), group) && str_eq(items[i].name.as_str(), name) {
            let it = items[i].clone();
            proof {
                assert(key_at(items@, group@, name@, i as int));
            }
            return Some(it);
        }
        i += 1;
    }
    None
}

/// The spec closure that keeps items of one group.
pub open spec fn in_group(g: Seq<char>) -> spec_fn(ItemView) -> bool {
    |iv: ItemView| iv.group == g
}

/// An item of one group never belongs to another group's selection, so each
/// item lands in exactly one group bucket.
pub proof fn lemma_group_buckets_disjoint(views: Seq<ItemView>, g: Seq<char>, x: ItemView)
    requires
        x.group != g,
    ensures
        !views.filter(in_group(g)).contains(x),
{
    if views.filter(in_group(g)).contains(x) {
        let i = choose|i: int|
            0 <= i < views.filter(in_group(g)).len() && views.filter(in_group(g))[i] == x;
        views.lemma_filter_pred(in_group(g), i);
    }
}

/// All items of one group, in index order.
pub fn get_all_group(items: &Vec<Item>, group: &str) -> (r: Vec<Item>)
    ensures
        item_views(r@) == item_views(items@).filter(in_group(group@)),
{
    let ghost views = item_views(items@);
    let mut r: Vec<Item> = Vec::new();
    let mut i: usize = 0;
    proof {
        reveal(Seq::filter);
        assert(views.take(0) =~= Seq::<ItemView>::empty());
        assert(item_views(r@) =~= views.take(0).filter(in_group(group@)));
    }
    while i < items.len()
        invariant
            i <= items@.len(),
            views == item_views(items@),
            item_views(r@) == views.take(i as int).filter(in_group(group@)),
        decreases items@.len() - i,
    {
        let ghost prev = r@;
        let keep = str_eq(items[i].group.as_str(), group);
        if keep {
            r.push(items[i].clone());
        }
        proof {
            reveal(Seq::filter);
            assert(views.take(i + 1).drop_last() =~= views.take(i as int));
            assert(views.take(i + 1).last() == items@[i as int]@);
            if keep {
                assert(item_views(r@) =~= item_views(prev).push(items@[i as int]@));
            }
            assert(item_views(r@) =~= views.take(i + 1).filter(in_group(group@)));
        }
        i += 1;
    }
    proof {
        assert(views.take(items@.len() as int) =~= views);
    }
    r
}

// ---------------------------------------------------------------------------
// Fuzzy lookup
// ---------------------------------------------------------------------------

/// The smallest edit distance between the query and any stored name.
pub open spec fn best_dist(items: Seq<Item>, q: Seq<char>) -> int
    recommends
        items.len() > 0,
    decreases items.len(),
{
    if items.len() <= 1 {
        lev(items[0]@.name, q)
    } else {
        min2(best_dist(items.drop_last(), q), lev(items.last()@.name, q))
    }
}

/// The first position achieving the smallest edit distance.
pub open spec fn best_idx(items: Seq<Item>, q: Seq<char>) -> int
    recommends
        items.len() > 0,
    decreases items.len(),
{
    if items.len() <= 1 {
        0
    } else if best_dist(items.drop_last(), q) <= lev(items.last()@.name, q) {
        best_idx(items.drop_last(), q)
    } else {
        items.len() - 1
    }
}

/// The best index is in range, achieves the best distance, no entry beats
/// it, and every earlier entry is strictly worse (the tie-break is stable).
pub proof fn lemma_best_props(items: Seq<Item>, q: Seq<char>)
    requires
        items.len() > 0,
    ensures
        0 <= best_idx(items, q) < items.len(),
        lev(items[best_idx(items, q)]@.name, q) == best_dist(items, q),
        forall|k: int| 0 <= k < items.len() ==> lev(#[trigger] items[k]@.name, q) >= best_dist(
            items,
            q,
        ),
        forall|k: int| 0 <= k < best_idx(items, q) ==> lev(#[trigger] items[k]@.name, q)
            > best_dist(items, q),
    decreases items.len(),
{
    if items.len() > 1 {
        let dl = items.drop_last();
        lemma_best_props(dl, q);
        assert forall|k: int| 0 <= k < dl.len() implies #[trigger] items[k]@.name == dl[k]@.name by {
            assert(dl[k] == items[k]);
        }
    }
}

/// Nearest-name lookup: the entry whose name has the smallest edit distance
/// to the query wins, first among equals; distances above 2 are "not found".
pub fn find_item(items: &Vec<Item>, name: &str) -> (r: Option<Item>)
    ensures
        items@.len() == 0 ==> r is None,
        items@.len() > 0 ==> ({
            let bd = best_dist(items@, name@);
            if bd > 2 {
                r is None
            } else {
                r matches Some(it) && it@ == items@[best_idx(items@, name@)]@
            }
        }),
{
    if items.len() == 0 {
        return None;
    }
    let mut best = crate::levenshtein::distance(items[0].name.as_str(), name);
    let mut bi: usize = 0;
    let mut i: usize = 1;
    proof {
        assert(items@.take(1)[0] == items@[0]);
    }
    while i < items.len()
        invariant
            1 <= i <= items@.len(),
            bi < i,
            best as int == best_dist(items@.take(i as int), name@),
            bi as int == best_idx(items@.take(i as int), name@),
        decreases items@.len() - i,
    {
        let d = crate::levenshtein::distance(items[i].name.as_str(), name);
        proof {
            assert(items@.take(i + 1).drop_last() =~= items@.take(i as int));
            assert(items@.take(i + 1).last() == items@[i as int]);
        }
        if d < best {
            best = d;
            bi = i;
        }
        i += 1;
    }
    proof {
        assert(items@.take(items@.len() as int) =~= items@);
    }
    if best > 2 {
        None
    } else {
        Some(items[bi].clone())
    }
}

/// A query within the threshold of exactly one stored name resolves to that
/// entry, whatever else is stored.
pub proof fn lemma_fuzzy_unique_match(items: Seq<Item>, q: Seq<char>, i: int)
    requires
        0 <= i < items.len(),
        lev(items[i]@.name, q) <= 2,
        forall|k: int| 0 <= k < items.len() && k != i ==> lev(#[trigger] items[k]@.name, q) > 2,
    ensures
        best_dist(items, q) <= 2,
        best_idx(items, q) == i,
{
    lemma_best_props(items, q);
}

/// A query with no stored name within the threshold resolves to "not found".
pub proof fn lemma_fuzzy_no_match(items: Seq<Item>, q: Seq<char>)
    requires
        items.len() > 0,
        forall|k: int| 0 <= k < items.len() ==> lev(#[trigger] items[k]@.name, q) > 2,
    ensures
        best_dist(items, q) > 2,
{
    lemma_best_props(items, q);
}

// ---------------------------------------------------------------------------
// Creation
// ---------------------------------------------------------------------------

/// Everything a creation decides: the encoded file, its content address, the
/// resulting item, and the prior holder of the key, to be deleted first.
pub struct CreatePlan {
    /// The first live item with the same `(group, name)`, if any.
    pub replaced: Option<Item>,
    /// The item as it will exist after the write.
    pub item: Item,
    /// The bytes of the item file to write, under `item.filename`.
    pub contents: Vec<u8>,
}

/// Plans a creation: lower-cases the name, encodes `group`, lowered `name`
/// and `value`, addresses the file by the hex digest of those bytes, and
/// finds the prior holder of the key.
pub fn create_item(items: &Vec<Item>, group: &str, name: &str, value: &str) -> (r: CreatePlan)
    ensures
        r.item@.group == group@,
        r.item@.name == lower_of(name@),
        r.item@.value == value@,
        r.contents@ == triple_bytes(group@, lower_of(name@), value@),
        r.item@.filename == hex_of(sha1_of(r.contents@)),
        has_no_nul(r.item@.filename),
        match r.replaced {
            Some(it) => exists|i: int|
                #[trigger] key_at(items@, group@, lower_of(name@), i) && it@ == items@[i]@,
            None => forall|i: int|
                0 <= i < items@.len() ==> !key_match(#[trigger] items@[i]@, group@, lower_of(name@)),
        },
{
    let lname = lowercase(name);
    let replaced = get_item(items, group, lname.as_str());
    let contents = encode_triple_bytes(group, lname.as_str(), value);
    let digest = sha1_digest(&contents);
    let filename = to_hex(&digest);
    proof {
        lemma_hex_no_nul(digest@);
    }
    CreatePlan {
        replaced,
        item: Item { group: group.to_owned(), name: lname, value: value.to_owned(), filename },
        contents,
    }
}

/// The spec closure that keeps items of this key.
pub open spec fn same_key(g: Seq<char>, n: Seq<char>) -> spec_fn(ItemView) -> bool {
    |iv: ItemView| key_match(iv, g, n)
}

/// The spec closure that keeps items of any other key.
pub open spec fn other_key(g: Seq<char>, n: Seq<char>) -> spec_fn(ItemView) -> bool {
    |iv: ItemView| !key_match(iv, g, n)
}

/// The live set after a create: every holder of the new item's key is
/// dropped, then the new item is appended.
pub open spec fn store_after_create(views: Seq<ItemView>, it: ItemView) -> Seq<ItemView> {
    views.filter(other_key(it.group, it.name)).push(it)
}

/// Applies a creation to the live item set.
pub fn apply_create(items: &Vec<Item>, plan: &CreatePlan) -> (r: Vec<Item>)
    ensures
        item_views(r@) == store_after_create(item_views(items@), plan.item@),
{
    let ghost views = item_views(items@);
    let ghost pred = other_key(plan.item@.group, plan.item@.name);
    let mut r: Vec<Item> = Vec::new();
    let mut i: usize = 0;
    proof {
        reveal(Seq::filter);
        assert(views.take(0) =~= Seq::<ItemView>::empty());
        assert(item_views(r@) =~= views.take(0).filter(pred));
    }
    while i < items.len()
        invariant
            i <= items@.len(),
            views == item_views(items@),
            pred == other_key(plan.item@.group, plan.item@.name),
            item_views(r@) == views.take(i as int).filter(pred),
        decreases items@.len() - i,
    {
        let ghost prev = r@;
        let keep = !(str_eq(items[i].group.as_str(), plan.item.group.as_str()) && str_eq(
            items[i].name.as_str(),
            plan.item.name.as_str(),
        ));
        if keep {
            r.push(items[i].clone());
        }
        proof {
            reveal(Seq::filter);
            assert(views.take(i + 1).drop_last() =~= views.take(i as int));
            assert(views.take(i + 1).last() == items@[i as int]@);
            if keep {
                assert(item_views(r@) =~= item_views(prev).push(items@[i as int]@));
            }
            assert(item_views(r@) =~= views.take(i + 1).filter(pred));
        }
        i += 1;
    }
    let ghost prev = r@;
    r.push(plan.item.clone());
    proof {
        assert(views.take(items@.len() as int) =~= views);
        assert(item_views(r@) =~= item_views(prev).push(plan.item@));
        assert(item_views(r@) =~= store_after_create(views, plan.item@));
    }
    r
}

proof fn lemma_filter_of_excluded(views: Seq<ItemView>, g: Seq<char>, n: Seq<char>)
    ensures
        views.filter(other_key(g, n)).filter(same_key(g, n)) =~= Seq::<ItemView>::empty(),
    decreases views.len(),
{
    reveal(Seq::filter);
    if views.len() > 0 {
        let dl = views.drop_last();
        lemma_filter_of_excluded(dl, g, n);
        let kept = dl.filter(other_key(g, n));
        if other_key(g, n)(views.last()) {
            assert(views.filter(other_key(g, n)) == kept.push(views.last()));
            assert(kept.push(views.last()).drop_last() =~= kept);
            assert(!same_key(g, n)(views.last()));
        }
    }
}

/// After a create, exactly one live item holds the key: the new one.
pub proof fn lemma_create_uniqueness(views: Seq<ItemView>, it: ItemView)
    ensures
        store_after_create(views, it).filter(same_key(it.group, it.name)) =~= seq![it],
{
    reveal(Seq::filter);
    let kept = views.filter(other_key(it.group, it.name));
    lemma_filter_of_excluded(views, it.group, it.name);
    assert(kept.push(it).drop_last() =~= kept);
    assert(same_key(it.group, it.name)(it));
    assert(kept.push(it).filter(same_key(it.group, it.name)) =~= kept.filter(
        same_key(it.group, it.name),
    ).push(it));
}

/// Whether two items carry the same `(group, name)` key.
pub open spec fn keys_equal(a: ItemView, b: ItemView) -> bool {
    key_match(a, b.group, b.name)
}

/// The store's invariant: live items hold pairwise distinct keys.
pub open spec fn unique_keys(views: Seq<ItemView>) -> bool {
    forall|i: int, j: int|
        #![trigger views[i], views[j]]
        0 <= i < j < views.len() ==> !keys_equal(views[i], views[j])
}

proof fn lemma_filter_other_key_unique(views: Seq<ItemView>, g: Seq<char>, n: Seq<char>)
    requires
        unique_keys(views),
    ensures
        unique_keys(views.filter(other_key(g, n))),
        forall|x: ItemView| #[trigger]
            views.filter(other_key(g, n)).contains(x) ==> views.contains(x),
    decreases views.len(),
{
    reveal(Seq::filter);
    let out = views.filter(other_key(g, n));
    if views.len() > 0 {
        let dl = views.drop_last();
        assert(unique_keys(dl)) by {
            assert forall|i: int, j: int|
                #![trigger dl[i], dl[j]]
                0 <= i < j < dl.len() implies !keys_equal(dl[i], dl[j]) by {
                assert(dl[i] == views[i] && dl[j] == views[j]);
            }
        }
        lemma_filter_other_key_unique(dl, g, n);
        let kept = dl.filter(other_key(g, n));
        if other_key(g, n)(views.last()) {
            assert(out == kept.push(views.last()));
            assert forall|i: int, j: int|
                #![trigger out[i], out[j]]
                0 <= i < j < out.len() implies !keys_equal(out[i], out[j]) by {
                if j < out.len() - 1 {
                    assert(out[i] == kept[i] && out[j] == kept[j]);
                } else {
                    assert(out[i] == kept[i]);
                    assert(kept.contains(kept[i]));
                    assert(dl.contains(kept[i]));
                    let w = choose|w: int| 0 <= w < dl.len() && dl[w] == kept[i];
                    assert(views[w] == kept[i]);
                    assert(!keys_equal(views[w], views[views.len() - 1]));
                    assert(out[j] == views.last());
                }
            }
            assert forall|x: ItemView| #[trigger] out.contains(x) implies views.contains(x) by {
                let w = choose|w: int| 0 <= w < out.len() && out[w] == x;
                if w < out.len() - 1 {
                    assert(kept[w] == x);
                    assert(kept.contains(x));
                    assert(dl.contains(x));
                    let u = choose|u: int| 0 <= u < dl.len() && dl[u] == x;
                    assert(views[u] == x);
                } else {
                    assert(views[views.len() - 1] == x);
                }
            }
        } else {
            assert(out == kept);
            assert forall|x: ItemView| #[trigger] out.contains(x) implies views.contains(x) by {
                assert(kept.contains(x));
                assert(dl.contains(x));
                let u = choose|u: int| 0 <= u < dl.len() && dl[u] == x;
                assert(views[u] == x);
            }
        }
    }
}

/// A create preserves the store invariant: the prior holder of the key is
/// dropped before the new item joins, so keys stay pairwise distinct.
pub proof fn lemma_create_preserves_unique_keys(views: Seq<ItemView>, it: ItemView)
    requires
        unique_keys(views),
    ensures
        unique_keys(store_after_create(views, it)),
{
    lemma_filter_other_key_unique(views, it.group, it.name);
    let kept = views.filter(other_key(it.group, it.name));
    let out = store_after_create(views, it);
    assert(out == kept.push(it));
    assert forall|i: int, j: int|
        #![trigger out[i], out[j]]
        0 <= i < j < out.len() implies !keys_equal(out[i], out[j]) by {
        if j < out.len() - 1 {
            assert(out[i] == kept[i] && out[j] == kept[j]);
        } else {
            assert(out[i] == kept[i]);
            assert(out[j] == it);
            views.lemma_filter_pred(other_key(it.group, it.name), i);
            assert(other_key(it.group, it.name)(kept[i]));
        }
    }
}

/// After a create, the new item is live at the last position and no other
/// live item holds its key, so an exact lookup retrieves the new value and
/// the replaced item is gone from the live set.
pub proof fn lemma_create_retrievable(views: Seq<ItemView>, it: ItemView)
    ensures
        ({
            let after = store_after_create(views, it);
            &&& after.len() > 0
            &&& after[after.len() - 1] == it
            &&& forall|k: int|
                0 <= k < after.len() - 1 ==> !key_match(#[trigger] after[k], it.group, it.name)
        }),
{
    let kept = views.filter(other_key(it.group, it.name));
    assert forall|k: int| 0 <= k < kept.len() implies !key_match(
        #[trigger] kept[k],
        it.group,
        it.name,
    ) by {
        views.lemma_filter_pred(other_key(it.group, it.name), k);
        assert(other_key(it.group, it.name)(kept[k]));
    }
    assert forall|k: int|
        0 <= k < store_after_create(views, it).len() - 1 implies !key_match(
        #[trigger] store_after_create(views, it)[k],
        it.group,
        it.name,
    ) by {
        assert(store_after_create(views, it)[k] == kept[k]);
    }
}

// ---------------------------------------------------------------------------
// The index round trip
// ---------------------------------------------------------------------------

/// Fields that survive the index encoding: no NUL anywhere the index writes.
pub open spec fn wf_index_item(iv: ItemView) -> bool {
    has_no_nul(iv.group) && has_no_nul(iv.name) && has_no_nul(iv.filename)
}

/// The summaries of items as the index lists them: values left empty.
pub open spec fn summaries(items: Seq<Item>) -> Seq<ItemView> {
    items.map_values(
        |it: Item|
            ItemView {
                group: it@.group,
                name: it@.name,
                value: Seq::empty(),
                filename: it@.filename,
            },
    )
}

proof fn lemma_parse_index_shift(s: Seq<char>, pos: int)
    requires
        0 <= pos <= s.len(),
    ensures
        spec_parse_index(s, pos) == spec_parse_index(s.subrange(pos, s.len() as int), 0),
    decreases s.len() - pos,
{
    let t = s.subrange(pos, s.len() as int);
    crate::codec::lemma_read_record_shift(s, pos);
    match spec_read_record(t, 0) {
        SpecRecord::End => {},
        SpecRecord::Corrupt => {},
        SpecRecord::Value(g, n, v, next) => {
            lemma_record_next_bounds(t, 0);
            assert(0 < next <= t.len());
            assert(spec_read_record(s, pos) == SpecRecord::Value(g, n, v, pos + next));
            lemma_parse_index_shift(s, pos + next);
            assert(t.subrange(next, t.len() as int) =~= s.subrange(pos + next, s.len() as int));
            lemma_parse_index_shift(t, next);
        },
    }
}

/// Rebuilding then loading the index round-trips: parsing a freshly built
/// index yields exactly the items' summaries, one per item, in scan order.
/// This is what keeps a migrated or resynced store's index faithful.
#[verifier::rlimit(50)]
pub proof fn lemma_index_round_trip(items: Seq<Item>)
    requires
        forall|i: int| 0 <= i < items.len() ==> wf_index_item(#[trigger] items[i]@),
    ensures
        spec_parse_index(index_encoding(items), 0) == Some(summaries(items)),
        summaries(items).len() == items.len(),
    decreases items.len(),
{
    let e = index_encoding(items);
    if items.len() == 0 {
        assert(e =~= Seq::<char>::empty());
        assert(summaries(items) =~= Seq::<ItemView>::empty());
    } else {
        let first = items[0];
        let tri = triple_encoding(first@.group, first@.name, first@.filename);
        let tail = items.skip(1);
        lemma_index_encoding_first(items);
        assert(e == tri + index_encoding(tail));
        crate::codec::lemma_record_with_suffix(
            first@.group,
            first@.name,
            first@.filename,
            index_encoding(tail),
        );
        let next = tri.len() as int;
        assert(spec_read_record(e, 0) == SpecRecord::Value(
            first@.group,
            first@.name,
            first@.filename,
            next,
        ));
        assert(0 < next <= e.len());
        lemma_parse_index_shift(e, next);
        assert(e.subrange(next, e.len() as int) =~= index_encoding(tail));
        assert forall|i: int| 0 <= i < tail.len() implies wf_index_item(#[trigger] tail[i]@) by {
            assert(tail[i] == items[i + 1]);
        }
        lemma_index_round_trip(tail);
        let iv0 = ItemView {
            group: first@.group,
            name: first@.name,
            value: Seq::empty(),
            filename: first@.filename,
        };
        assert(spec_parse_index(e, 0) == Some(seq![iv0] + summaries(tail)));
        assert(seq![iv0] + summaries(tail) =~= summaries(items));
    }
}

proof fn lemma_index_encoding_first(items: Seq<Item>)
    requires
        items.len() > 0,
    ensures
        index_encoding(items) == triple_encoding(
            items[0]@.group,
            items[0]@.name,
            items[0]@.filename,
        ) + index_encoding(items.skip(1)),
    decreases items.len(),
{
    let tri = triple_encoding(items[0]@.group, items[0]@.name, items[0]@.filename);
    if items.len() == 1 {
        assert(items.drop_last().len() == 0);
        assert(items.skip(1).len() == 0);
        assert(index_encoding(items.drop_last()) == Seq::<char>::empty());
        assert(index_encoding(items.skip(1)) == Seq::<char>::empty());
        assert(items.last() == items[0]);
        assert(index_encoding(items) == index_encoding(items.drop_last()) + tri);
        assert(Seq::<char>::empty() + tri =~= tri + Seq::<char>::empty());
        assert(index_encoding(items) == tri + index_encoding(items.skip(1)));
    } else {
        let dl = items.drop_last();
        lemma_index_encoding_first(dl);
        assert(dl[0] == items[0]);
        assert(index_encoding(dl) == tri + index_encoding(dl.skip(1)));
        let last = items.last();
        let tl = triple_encoding(last@.group, last@.name, last@.filename);
        assert(index_encoding(items) == index_encoding(dl) + tl);
        let sk = items.skip(1);
        assert(sk.len() > 0);
        assert(sk.last() == last);
        assert(sk.drop_last() =~= dl.skip(1));
        assert(index_encoding(sk) == index_encoding(sk.drop_last()) + tl);
        assert(index_encoding(sk.drop_last()) == index_encoding(dl.skip(1)));
        assert((tri + index_encoding(dl.skip(1))) + tl =~= tri + (index_encoding(dl.skip(1))
            + tl));
        assert(index_encoding(items) == tri + index_encoding(sk));
    }
}

/// Whether a name is free for use as a group or item name: the command words
/// are reserved.
pub fn is_valid_name(name: &str) -> (r: bool)
    ensures
        r == !(name@ == "all"@ || name@ == "rm-group"@ || name@ == "rm-item"@ || name@ == "sync"@
            || name@ == "reindex"@ || name@ == "help"@ || name@ == "edit"@),
{
    !(str_eq(name, "all") || str_eq(name, "rm-group") || str_eq(name, "rm-item") || str_eq(
        name,
        "sync",
    ) || str_eq(name, "reindex") || str_eq(name, "help") || str_eq(name, "edit"))
}

} // verus!
