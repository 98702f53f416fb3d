//! The binary codec: fields are raw UTF-8 text terminated by a single NUL
//! character; records are three consecutive fields. The byte form of an
//! encoded record is the UTF-8 encoding of its character form, so the codec
//! is modelled over `Seq<char>` and bridged to bytes through `vstd::utf8`.

use vstd::prelude::*;
use vstd::string::*;

verus! {

/// A field value may not contain the NUL terminator itself.
pub open spec fn has_no_nul(s: Seq<char>) -> bool {
    forall|i: int| 0 <= i < s.len() ==> s[i] != '\0'
}

/// One encoded field: the text followed by the NUL terminator.
pub open spec fn field_encoding(s: Seq<char>) -> Seq<char> {
    s + seq!['\0']
}

/// One encoded record: three fields back to back.
pub open spec fn triple_encoding(g: Seq<char>, n: Seq<char>, v: Seq<char>) -> Seq<char> {
    field_encoding(g) + field_encoding(n) + field_encoding(v)
}

/// Index of the first NUL at or after `start`, or -1 if there is none.
pub open spec fn first_nul_from(s: Seq<char>, start: int) -> int
    recommends
        0 <= start <= s.len(),
    decreases s.len() - start when 0 <= start <= s.len()
{
    if start >= s.len() {
        -1
    } else if s[start] == '\0' {
        start
    } else {
        first_nul_from(s, start + 1)
    }
}

/// Outcome of reading one field starting at a given position.
pub enum SpecField {
    /// The field's text and the position just past its terminator.
    Value(Seq<char>, int),
    /// End of input with zero characters read: no more fields.
    End,
    /// End of input in the middle of a field: corrupt data.
    Corrupt,
}

pub open spec fn spec_read_field(s: Seq<char>, start: int) -> SpecField {
    if start >= s.len() {
        SpecField::End
    } else {
        let i = first_nul_from(s, start);
        if i >= 0 {
            SpecField::Value(s.subrange(start, i), i + 1)
        } else {
            SpecField::Corrupt
        }
    }
}

/// Outcome of reading one three-field record starting at a given position.
pub enum SpecRecord {
    /// The three fields and the position just past the record.
    Value(Seq<char>, Seq<char>, Seq<char>, int),
    /// Clean end of input at a record boundary.
    End,
    /// Input ended inside a record.
    Corrupt,
}

pub open spec fn spec_read_record(s: Seq<char>, start: int) -> SpecRecord {
    match spec_read_field(s, start) {
        SpecField::End => SpecRecord::End,
        SpecField::Corrupt => SpecRecord::Corrupt,
        SpecField::Value(g, p1) => match spec_read_field(s, p1) {
            SpecField::Value(n, p2) => match spec_read_field(s, p2) {
                SpecField::Value(v, p3) => SpecRecord::Value(g, n, v, p3),
                _ => SpecRecord::Corrupt,
            },
            _ => SpecRecord::Corrupt,
        },
    }
}

// ---------------------------------------------------------------------------
// Encoding (executable)
// ---------------------------------------------------------------------------

/// Appends one encoded field to `out`.
pub fn encode_field(out: &mut String, s: &str)
    ensures
        final(out)@ == old(out)@ + field_encoding(s@),
{
    out.append(s);
    out.append("\0");
    proof {
        reveal_strlit("\0");
        assert(out@ =~= old(out)@ + field_encoding(s@));
    }
}

/// Encodes one record as text: three NUL-terminated fields.
pub fn encode_triple(g: &str, n: &str, v: &str) -> (r: String)
    ensures
        r@ == triple_encoding(g@, n@, v@),
{
    let mut out = String::new();
    encode_field(&mut out, g);
    encode_field(&mut out, n);
    encode_field(&mut out, v);
    proof {
        assert(out@ =~= triple_encoding(g@, n@, v@));
    }
    out
}

/// The byte form of an encoded record: the UTF-8 encoding of its text form.
pub open spec fn triple_bytes(g: Seq<char>, n: Seq<char>, v: Seq<char>) -> Seq<u8> {
    vstd::utf8::encode_utf8(triple_encoding(g, n, v))
}

/// Encodes one record as bytes, ready to be written to an item file.
pub fn encode_triple_bytes(g: &str, n: &str, v: &str) -> (r: Vec<u8>)
    ensures
        r@ == triple_bytes(g@, n@, v@),
{
    let s = encode_triple(g, n, v);
    s.as_str().as_bytes_vec()
}

/// Relies on `str::from_utf8`: it succeeds exactly on valid UTF-8 input
/// and decodes it, as `vstd::utf8` models UTF-8.
#[verifier::external_body]
pub(crate) fn parse_utf8(bytes: &[u8]) -> (r: Option<String>)
    ensures
        match r {
            Some(s) => vstd::utf8::valid_utf8(bytes@) && s@ == vstd::utf8::decode_utf8(bytes@),
            None => !vstd::utf8::valid_utf8(bytes@),
        },
{
    match core::str::from_utf8(bytes) {
        Ok(s) => Some(s.to_owned()),
        Err(_) => None,
    }
}

// ---------------------------------------------------------------------------
// Decoding (executable)
// ---------------------------------------------------------------------------

proof fn lemma_first_nul_at(s: Seq<char>, start: int, i: int)
    requires
        0 <= start <= i < s.len(),
        s[i] == '\0',
        forall|k: int| start <= k < i ==> s[k] != '\0',
    ensures
        first_nul_from(s, start) == i,
    decreases i - start,
{
    if start < i {
        lemma_first_nul_at(s, start + 1, i);
    }
}

proof fn lemma_first_nul_none(s: Seq<char>, start: int)
    requires
        0 <= start <= s.len(),
        forall|k: int| start <= k < s.len() ==> s[k] != '\0',
    ensures
        first_nul_from(s, start) == -1,
    decreases s.len() - start,
{
    if start < s.len() {
        lemma_first_nul_none(s, start + 1);
    }
}

/// What `first_nul_from` returns is the first NUL position, or -1.
pub proof fn lemma_first_nul_props(s: Seq<char>, start: int)
    requires
        0 <= start <= s.len(),
    ensures
        first_nul_from(s, start) >= -1,
        first_nul_from(s, start) == -1 ==> forall|k: int|
            start <= k < s.len() ==> s[k] != '\0',
        first_nul_from(s, start) >= 0 ==> start <= first_nul_from(s, start) < s.len()
            && s[first_nul_from(s, start)] == '\0'
            && forall|k: int| start <= k < first_nul_from(s, start) ==> s[k] != '\0',
    decreases s.len() - start,
{
    if start < s.len() && s[start] != '\0' {
        lemma_first_nul_props(s, start + 1);
    }
}

/// Outcome of one executable field read.
pub enum FieldRead {
    Value(String, usize),
    End,
    Corrupt,
}

/// Reads one field of `s` starting at character position `start`.
pub fn read_field(s: &str, start: usize) -> (r: FieldRead)
    requires
        start <= s@.len(),
    ensures
        match r {
            FieldRead::Value(f, next) => spec_read_field(s@, start as int) == SpecField::Value(
                f@,
                next as int,
            ) && start < next <= s@.len(),
            FieldRead::End => spec_read_field(s@, start as int) == SpecField::End,
            FieldRead::Corrupt => spec_read_field(s@, start as int) == SpecField::Corrupt,
        },
{
    let len = s.unicode_len();
    if start == len {
        return FieldRead::End;
    }
    let mut i = start;
    while i < len
        invariant
            start <= i <= len,
            len == s@.len(),
            forall|k: int| start <= k < i ==> s@[k] != '\0',
        decreases len - i,
    {
        if s.get_char(i) == '\0' {
            let f = s.substring_char(start, i).to_owned();
            proof {
                lemma_first_nul_at(s@, start as int, i as int);
            }
            return FieldRead::Value(f, i + 1);
        }
        i += 1;
    }
    proof {
        lemma_first_nul_none(s@, start as int);
    }
    FieldRead::Corrupt
}

/// Outcome of one executable record read.
pub enum RecordRead {
    Value(String, String, String, usize),
    End,
    Corrupt,
}

/// Reads one three-field record of `s` starting at character position `start`.
pub fn read_record(s: &str, start: usize) -> (r: RecordRead)
    requires
        start <= s@.len(),
    ensures
        match r {
            RecordRead::Value(g, n, v, next) => spec_read_record(s@, start as int)
                == SpecRecord::Value(g@, n@, v@, next as int) && start < next <= s@.len(),
            RecordRead::End => spec_read_record(s@, start as int) == SpecRecord::End,
            RecordRead::Corrupt => spec_read_record(s@, start as int) == SpecRecord::Corrupt,
        },
{
    let (g, p1) = match read_field(s, start) {
        FieldRead::End => {
            return RecordRead::End;
        },
        FieldRead::Corrupt => {
            return RecordRead::Corrupt;
        },
        FieldRead::Value(g, p1) => (g, p1),
    };
    let (n, p2) = match read_field(s, p1) {
        FieldRead::Value(n, p2) => (n, p2),
        _ => {
            return RecordRead::Corrupt;
        },
    };
    let (v, p3) = match read_field(s, p2) {
        FieldRead::Value(v, p3) => (v, p3),
        _ => {
            return RecordRead::Corrupt;
        },
    };
    RecordRead::Value(g, n, v, p3)
}

// ---------------------------------------------------------------------------
// The round-trip law: decoding an encoded record yields the original fields
// ---------------------------------------------------------------------------

proof fn lemma_read_field_at(s: Seq<char>, start: int, f: Seq<char>)
    requires
        0 <= start,
        start + f.len() + 1 <= s.len(),
        has_no_nul(f),
        s.subrange(start, start + f.len()) == f,
        s[start + f.len()] == '\0',
    ensures
        spec_read_field(s, start) == SpecField::Value(f, start + f.len() + 1),
{
    assert forall|k: int| start <= k < start + f.len() implies s[k] != '\0' by {
        assert(f[k - start] == s.subrange(start, start + f.len())[k - start]);
    }
    lemma_first_nul_at(s, start, start + f.len());
    assert(s.subrange(start, start + f.len()) == f);
}

/// A successfully read field ends strictly past where it began, in bounds.
pub proof fn lemma_field_next_bounds(s: Seq<char>, start: int)
    requires
        0 <= start <= s.len(),
    ensures
        spec_read_field(s, start) matches SpecField::Value(_f, next) ==> start < next <= s.len(),
{
    lemma_first_nul_props(s, start);
}

/// A successfully read record ends strictly past where it began, in bounds.
pub proof fn lemma_record_next_bounds(s: Seq<char>, start: int)
    requires
        0 <= start <= s.len(),
    ensures
        spec_read_record(s, start) matches SpecRecord::Value(_g, _n, _v, next) ==> start < next
            <= s.len(),
{
    lemma_field_next_bounds(s, start);
    if spec_read_field(s, start) is Value {
        let p1 = spec_read_field(s, start)->Value_1;
        lemma_field_next_bounds(s, p1);
        if spec_read_field(s, p1) is Value {
            let p2 = spec_read_field(s, p1)->Value_1;
            lemma_field_next_bounds(s, p2);
        }
    }
}

/// Reading a record off the front of an encoded record with anything after
/// it yields the original triple and stops right past its last terminator.
pub proof fn lemma_record_with_suffix(g: Seq<char>, n: Seq<char>, v: Seq<char>, rest: Seq<char>)
    requires
        has_no_nul(g),
        has_no_nul(n),
        has_no_nul(v),
    ensures
        spec_read_record(triple_encoding(g, n, v) + rest, 0) == SpecRecord::Value(
            g,
            n,
            v,
            triple_encoding(g, n, v).len() as int,
        ),
{
    let e = triple_encoding(g, n, v) + rest;
    let p1 = g.len() + 1;
    let p2 = g.len() + n.len() + 2;
    let p3 = g.len() + n.len() + v.len() + 3;
    assert(e.len() == p3 + rest.len());
    assert(e.subrange(0, g.len() as int) =~= g);
    assert(e[g.len() as int] == '\0');
    lemma_read_field_at(e, 0, g);
    assert(e.subrange(p1 as int, (p1 + n.len()) as int) =~= n);
    assert(e[(p1 + n.len()) as int] == '\0');
    lemma_read_field_at(e, p1 as int, n);
    assert(e.subrange(p2 as int, (p2 + v.len()) as int) =~= v);
    assert(e[(p2 + v.len()) as int] == '\0');
    lemma_read_field_at(e, p2 as int, v);
}

/// Round trip: reading a freshly encoded record yields the original triple
/// and consumes the whole encoding, provided no field contains a NUL.
pub proof fn lemma_triple_round_trip(g: Seq<char>, n: Seq<char>, v: Seq<char>)
    requires
        has_no_nul(g),
        has_no_nul(n),
        has_no_nul(v),
    ensures
        spec_read_record(triple_encoding(g, n, v), 0) == SpecRecord::Value(
            g,
            n,
            v,
            triple_encoding(g, n, v).len() as int,
        ),
{
    lemma_record_with_suffix(g, n, v, Seq::empty());
    assert(triple_encoding(g, n, v) + Seq::<char>::empty() =~= triple_encoding(g, n, v));
}

// ---------------------------------------------------------------------------
// Reading at a position equals reading the suffix from its start
// ---------------------------------------------------------------------------

proof fn lemma_first_nul_shift(s: Seq<char>, pos: int, k: int)
    requires
        0 <= pos,
        0 <= k,
        pos + k <= s.len(),
    ensures
        ({
            let t = s.subrange(pos, s.len() as int);
            &&& (first_nul_from(t, k) == -1 ==> first_nul_from(s, pos + k) == -1)
            &&& (first_nul_from(t, k) >= 0 ==> first_nul_from(s, pos + k) == pos + first_nul_from(
                t,
                k,
            ))
        }),
    decreases s.len() - pos - k,
{
    let t = s.subrange(pos, s.len() as int);
    if pos + k < s.len() {
        assert(t[k] == s[pos + k]);
        if s[pos + k] != '\0' {
            lemma_first_nul_shift(s, pos, k + 1);
        }
    }
}

proof fn lemma_read_field_shift(s: Seq<char>, pos: int, k: int)
    requires
        0 <= pos,
        0 <= k,
        pos + k <= s.len(),
    ensures
        ({
            let t = s.subrange(pos, s.len() as int);
            match spec_read_field(t, k) {
                SpecField::End => spec_read_field(s, pos + k) == SpecField::End,
                SpecField::Corrupt => spec_read_field(s, pos + k) == SpecField::Corrupt,
                SpecField::Value(f, next) => spec_read_field(s, pos + k) == SpecField::Value(
                    f,
                    pos + next,
                ),
            }
        }),
{
    let t = s.subrange(pos, s.len() as int);
    lemma_first_nul_shift(s, pos, k);
    lemma_first_nul_props(t, k);
    lemma_first_nul_props(s, pos + k);
    if k < t.len() {
        let i = first_nul_from(t, k);
        if i >= 0 {
            assert(first_nul_from(s, pos + k) == pos + i);
            assert(s.subrange(pos + k, pos + i) =~= t.subrange(k, i));
            assert(spec_read_field(s, pos + k) == SpecField::Value(t.subrange(k, i), pos + i + 1));
        } else {
            assert(first_nul_from(s, pos + k) == -1);
            assert(spec_read_field(s, pos + k) == SpecField::Corrupt);
        }
    } else {
        assert(pos + k >= s.len());
    }
}

/// Reading a record at `pos` equals reading it off the suffix at `pos`.
pub proof fn lemma_read_record_shift(s: Seq<char>, pos: int)
    requires
        0 <= pos <= s.len(),
    ensures
        ({
            let t = s.subrange(pos, s.len() as int);
            match spec_read_record(t, 0) {
                SpecRecord::End => spec_read_record(s, pos) == SpecRecord::End,
                SpecRecord::Corrupt => spec_read_record(s, pos) == SpecRecord::Corrupt,
                SpecRecord::Value(g, n, v, next) => spec_read_record(s, pos) == SpecRecord::Value(
                    g,
                    n,
                    v,
                    pos + next,
                ),
            }
        }),
{
    let t = s.subrange(pos, s.len() as int);
    lemma_read_field_shift(s, pos, 0);
    if spec_read_field(t, 0) is Value {
        let p1 = spec_read_field(t, 0)->Value_1;
        lemma_field_next_bounds(t, 0);
        lemma_read_field_shift(s, pos, p1);
        if spec_read_field(t, p1) is Value {
            let p2 = spec_read_field(t, p1)->Value_1;
            lemma_field_next_bounds(t, p1);
            lemma_read_field_shift(s, pos, p2);
        }
    }
}

} // verus!
