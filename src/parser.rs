use vstd::prelude::*;
use vstd::utf8::encode_utf8;

use crate::encoding::{bytes_to_integer, ne_bytes, ne_value, valid_width, value_to_bytes, width_modulus};
use crate::error::{ErrorKind, TestlangError};
use crate::grammar::{Attribute, Field, FieldType, Grammar, Record, RecordType};
use crate::tree::{ser_elems, ser_field, ser_fields, ser_record, PField, PRecord, ParsedField, ParsedRecord};

verus! {

/// How deeply records may nest below the root, unions counting as a level.
pub const MAX_DEPTH: usize = 64;

/// The first already-parsed field named `name`, from index `i` on.
pub open spec fn find_parsed(acc: Seq<(Seq<char>, PField)>, name: Seq<char>, i: int) -> Option<PField>
    decreases acc.len() - i,
{
    if i < 0 || i >= acc.len() {
        None
    } else if acc[i].0 == name {
        Some(acc[i].1)
    } else {
        find_parsed(acc, name, i + 1)
    }
}

/// A count or size given by an attribute: a non-negative number, or the value
/// of an earlier normal field of an encodable width.
pub open spec fn resolve_count(a: Attribute, acc: Seq<(Seq<char>, PField)>) -> Result<nat, ErrorKind> {
    match a {
        Attribute::Number(n) => if n < 0 {
            Err(ErrorKind::InvalidSize(Some(n as int)))
        } else {
            Ok(n as nat)
        },
        Attribute::Word(_) => Err(ErrorKind::InvalidSize(None)),
        Attribute::Reference(name) => match find_parsed(acc, name@, 0) {
            Some(PField::Normal { size, value, .. }) => if valid_width(size) {
                Ok(ne_value(value.subrange(0, size as int)))
            } else {
                Err(ErrorKind::InvalidSize(Some(size as int)))
            },
            _ => Err(ErrorKind::InvalidReference(name@)),
        },
    }
}

/// `w` followed by zero bytes up to length `size`; longer words stay as they are.
pub open spec fn pad_to(w: Seq<u8>, size: nat) -> Seq<u8> {
    if w.len() < size {
        w + Seq::new((size - w.len()) as nat, |i: int| 0u8)
    } else {
        w
    }
}

/// The bytes that a `value` attribute fixes for a field of `size` bytes.
pub open spec fn expected_value(a: Attribute, size: nat) -> Result<Seq<u8>, ErrorKind> {
    match a {
        Attribute::Number(n) => if valid_width(size) {
            Ok(ne_bytes((n as u128) as nat % width_modulus(size), size))
        } else {
            Err(ErrorKind::InvalidSize(Some(size as int)))
        },
        Attribute::Word(w) => Ok(pad_to(encode_utf8(w@), size)),
        Attribute::Reference(r) => Err(ErrorKind::InvalidReference(r@)),
    }
}

/// A normal field read at offset `i`.
pub open spec fn parse_normal(f: Field, blob: Seq<u8>, i: nat, acc: Seq<(Seq<char>, PField)>) -> Result<PField, ErrorKind> {
    let size = match f.attr("size"@) {
        None => Err(ErrorKind::InvalidSize(None)),
        Some(a) => resolve_count(a, acc),
    };
    match size {
        Err(e) => Err(e),
        Ok(size) => if i + size > blob.len() {
            Err(ErrorKind::ShortInput)
        } else {
            let value = blob.subrange(i as int, (i + size) as int);
            let parsed = PField::Normal { name: f.name@, size, value };
            match f.attr("value"@) {
                None => Ok(parsed),
                Some(a) => match expected_value(a, size) {
                    Err(e) => Err(e),
                    Ok(exp) => if exp == value {
                        Ok(parsed)
                    } else {
                        Err(ErrorKind::ValueMismatch)
                    },
                },
            }
        },
    }
}

/// The element count of an array field; without a `size` it is unbounded.
pub open spec fn array_count(f: Field, acc: Seq<(Seq<char>, PField)>) -> Result<nat, ErrorKind> {
    match f.attr("size"@) {
        None => Ok(usize::MAX as nat),
        Some(a) => resolve_count(a, acc),
    }
}

/// The record `r` parsed from the start of `blob`, nesting at most `depth` deep.
pub open spec fn parse_record_spec(g: Grammar, r: Record, blob: Seq<u8>, depth: nat) -> Result<PRecord, ErrorKind>
    decreases depth, 3int, 0int,
{
    if depth == 0 {
        Err(ErrorKind::TooDeep)
    } else if r.ty == RecordType::Union {
        union_from(g, r, 0, blob, (depth - 1) as nat)
    } else {
        fields_from(g, r, 0, blob, 0, Seq::empty(), depth)
    }
}

/// A union tried from alternative `k` on: the first that parses wins.
pub open spec fn union_from(g: Grammar, r: Record, k: int, blob: Seq<u8>, d: nat) -> Result<PRecord, ErrorKind>
    decreases d, 4int, r.fields@.len() - k,
{
    if k < 0 || k >= r.fields@.len() {
        Err(ErrorKind::UnionNoMatch)
    } else {
        match g.lookup(r.fields@[k].name@) {
            None => Err(ErrorKind::UnknownField(r.fields@[k].name@)),
            Some(sub) => match parse_record_spec(g, sub, blob, d) {
                Ok(p) => Ok(
                    PRecord {
                        name: r.name@,
                        size: p.size,
                        fields: seq![(p.name, PField::Record { name: p.name, size: p.size, record: p })],
                    },
                ),
                Err(_) => union_from(g, r, k + 1, blob, d),
            },
        }
    }
}

/// A sequential record parsed on from field `k` at offset `i`, with the fields
/// parsed so far in `acc`.
pub open spec fn fields_from(
    g: Grammar,
    r: Record,
    k: int,
    blob: Seq<u8>,
    i: nat,
    acc: Seq<(Seq<char>, PField)>,
    depth: nat,
) -> Result<PRecord, ErrorKind>
    decreases depth, 2int, r.fields@.len() - k,
{
    if k < 0 || k >= r.fields@.len() {
        Ok(PRecord { name: r.name@, size: i, fields: acc })
    } else {
        match parse_field_spec(g, r.fields@[k], blob, i, acc, depth) {
            Err(e) => Err(e),
            Ok(pf) => fields_from(g, r, k + 1, blob, i + pf.size(), acc.push((r.fields@[k].name@, pf)), depth),
        }
    }
}

/// The field `f` parsed at offset `i`, with the fields parsed before it in `acc`.
pub open spec fn parse_field_spec(
    g: Grammar,
    f: Field,
    blob: Seq<u8>,
    i: nat,
    acc: Seq<(Seq<char>, PField)>,
    depth: nat,
) -> Result<PField, ErrorKind>
    decreases depth, 1int, 0int,
{
    if depth == 0 {
        Err(ErrorKind::TooDeep)
    } else {
        match f.ty {
            FieldType::Normal => parse_normal(f, blob, i, acc),
            FieldType::Array => match array_count(f, acc) {
                Err(e) => Err(e),
                Ok(count) => match g.lookup(f.name@) {
                    None => Err(ErrorKind::UnknownField(f.name@)),
                    Some(sub) => {
                        let (records, end) = parse_elems(g, sub, blob, i, count, Seq::empty(), (depth - 1) as nat);
                        Ok(PField::Array { name: f.name@, size: (end - i) as nat, records })
                    },
                },
            },
            FieldType::Record => match g.lookup(f.name@) {
                None => Err(ErrorKind::UnknownField(f.name@)),
                Some(sub) => match parse_record_spec(g, sub, blob.subrange(i as int, blob.len() as int), (depth - 1) as nat) {
                    Err(e) => Err(e),
                    Ok(p) => Ok(PField::Record { name: f.name@, size: p.size, record: p }),
                },
            },
        }
    }
}

/// Array elements parsed greedily from offset `i`: until `count` elements are
/// in `recs`, the input ends, or an element fails. Gives the elements and the
/// offset after the last one.
pub open spec fn parse_elems(
    g: Grammar,
    sub: Record,
    blob: Seq<u8>,
    i: nat,
    count: nat,
    recs: Seq<PRecord>,
    d: nat,
) -> (Seq<PRecord>, nat)
    decreases d, 4int, count - recs.len(),
{
    if i < blob.len() && recs.len() < count {
        match parse_record_spec(g, sub, blob.subrange(i as int, blob.len() as int), d) {
            Ok(p) => parse_elems(g, sub, blob, i + p.size, count, recs.push(p), d),
            Err(_) => (recs, i),
        }
    } else {
        (recs, i)
    }
}

/// An input parsed from its start as the record `INPUT`.
pub open spec fn parse_spec(g: Grammar, blob: Seq<u8>) -> Result<PRecord, ErrorKind> {
    match g.lookup("INPUT"@) {
        None => Err(ErrorKind::UnknownRecord("INPUT"@)),
        Some(root) => parse_record_spec(g, root, blob, MAX_DEPTH as nat),
    }
}

/// `p` spans the first `p.size` bytes of `blob`, and its bytes are those bytes.
pub open spec fn tiled(p: PRecord, blob: Seq<u8>) -> bool {
    p.size <= blob.len() && ser_record(p) == blob.subrange(0, p.size as int)
}

/// `f` spans the bytes of `blob` from offset `i` on, and its bytes are those bytes.
pub open spec fn field_tiled(f: PField, blob: Seq<u8>, i: nat) -> bool {
    i + f.size() <= blob.len() && ser_field(f) == blob.subrange(i as int, (i + f.size()) as int)
}

/// The offset of field `j` when the fields `fs` are laid end to end.
pub open spec fn field_offset(fs: Seq<(Seq<char>, PField)>, j: int) -> nat
    decreases j,
{
    if j <= 0 {
        0
    } else {
        field_offset(fs, j - 1) + fs[j - 1].1.size()
    }
}

/// The fields `fs` lie end to end on `blob` from its start up to offset `i`.
pub open spec fn prefix_tiled(fs: Seq<(Seq<char>, PField)>, blob: Seq<u8>, i: nat) -> bool {
    &&& field_offset(fs, fs.len() as int) == i
    &&& forall|j: int| 0 <= j < fs.len() ==> field_tiled(#[trigger] fs[j].1, blob, field_offset(fs, j))
}

/// The offset of element `j` when the records `rs` are laid end to end.
pub open spec fn elem_offset(rs: Seq<PRecord>, j: int) -> nat
    decreases j,
{
    if j <= 0 {
        0
    } else {
        elem_offset(rs, j - 1) + rs[j - 1].size
    }
}

/// The records `rs` lie end to end on `blob` from offset `i0` up to offset `i`.
pub open spec fn elems_tiled(rs: Seq<PRecord>, blob: Seq<u8>, i0: nat, i: nat) -> bool {
    &&& i0 + elem_offset(rs, rs.len() as int) == i
    &&& forall|j: int|
        0 <= j < rs.len() ==> {
            let at = i0 + elem_offset(rs, j);
            &&& at + (#[trigger] rs[j]).size <= blob.len()
            &&& ser_record(rs[j]) == blob.subrange(at as int, (at + rs[j].size) as int)
        }
}

proof fn lemma_field_offset_push(fs: Seq<(Seq<char>, PField)>, x: (Seq<char>, PField), j: int)
    requires
        j <= fs.len(),
    ensures
        field_offset(fs.push(x), j) == field_offset(fs, j),
    decreases j,
{
    if j > 0 {
        lemma_field_offset_push(fs, x, j - 1);
    }
}

proof fn lemma_elem_offset_push(rs: Seq<PRecord>, x: PRecord, j: int)
    requires
        j <= rs.len(),
    ensures
        elem_offset(rs.push(x), j) == elem_offset(rs, j),
    decreases j,
{
    if j > 0 {
        lemma_elem_offset_push(rs, x, j - 1);
    }
}

proof fn lemma_ser_fields_tiled(p: PRecord, blob: Seq<u8>, k: int)
    requires
        0 <= k <= p.fields.len(),
        p.size <= blob.len(),
        prefix_tiled(p.fields, blob, p.size),
    ensures
        field_offset(p.fields, k) <= p.size,
        ser_fields(p, k) == blob.subrange(field_offset(p.fields, k) as int, p.size as int),
    decreases p.fields.len() - k,
{
    if k == p.fields.len() {
        assert(ser_fields(p, k) =~= blob.subrange(field_offset(p.fields, k) as int, p.size as int));
    } else {
        lemma_ser_fields_tiled(p, blob, k + 1);
        let a = field_offset(p.fields, k) as int;
        let b = field_offset(p.fields, k + 1) as int;
        assert(field_tiled(p.fields[k].1, blob, field_offset(p.fields, k)));
        assert(blob.subrange(a, b) + blob.subrange(b, p.size as int) =~= blob.subrange(a, p.size as int));
    }
}

proof fn lemma_ser_elems_tiled(rs: Seq<PRecord>, blob: Seq<u8>, i0: nat, i: nat, k: int)
    requires
        0 <= k <= rs.len(),
        i <= blob.len(),
        elems_tiled(rs, blob, i0, i),
    ensures
        i0 + elem_offset(rs, k) <= i,
        ser_elems(rs, k) == blob.subrange((i0 + elem_offset(rs, k)) as int, i as int),
    decreases rs.len() - k,
{
    if k == rs.len() {
        assert(ser_elems(rs, k) =~= blob.subrange((i0 + elem_offset(rs, k)) as int, i as int));
    } else {
        lemma_ser_elems_tiled(rs, blob, i0, i, k + 1);
        let a = (i0 + elem_offset(rs, k)) as int;
        let b = (i0 + elem_offset(rs, k + 1)) as int;
        assert(rs[k] == rs[k]);
        assert(blob.subrange(a, b) + blob.subrange(b, i as int) =~= blob.subrange(a, i as int));
    }
}

proof fn lemma_parse_record_tiled(g: Grammar, r: Record, blob: Seq<u8>, depth: nat)
    ensures
        parse_record_spec(g, r, blob, depth) matches Ok(p) ==> tiled(p, blob),
    decreases depth, 3int, 0int,
{
    if depth > 0 {
        if r.ty == RecordType::Union {
            lemma_union_tiled(g, r, 0, blob, (depth - 1) as nat);
        } else {
            lemma_fields_tiled(g, r, 0, blob, 0, Seq::empty(), depth);
        }
    }
}

proof fn lemma_union_tiled(g: Grammar, r: Record, k: int, blob: Seq<u8>, d: nat)
    ensures
        union_from(g, r, k, blob, d) matches Ok(p) ==> tiled(p, blob),
    decreases d, 4int, r.fields@.len() - k,
{
    if 0 <= k < r.fields@.len() {
        if let Some(sub) = g.lookup(r.fields@[k].name@) {
            lemma_parse_record_tiled(g, sub, blob, d);
            match parse_record_spec(g, sub, blob, d) {
                Ok(p) => {
                    let u = PRecord {
                        name: r.name@,
                        size: p.size,
                        fields: seq![(p.name, PField::Record { name: p.name, size: p.size, record: p })],
                    };
                    assert(ser_fields(u, 1) == Seq::<u8>::empty());
                    assert(ser_record(u) =~= ser_record(p));
                },
                Err(_) => {
                    lemma_union_tiled(g, r, k + 1, blob, d);
                },
            }
        }
    }
}

proof fn lemma_fields_tiled(
    g: Grammar,
    r: Record,
    k: int,
    blob: Seq<u8>,
    i: nat,
    acc: Seq<(Seq<char>, PField)>,
    depth: nat,
)
    requires
        i <= blob.len(),
        prefix_tiled(acc, blob, i),
    ensures
        fields_from(g, r, k, blob, i, acc, depth) matches Ok(p) ==> tiled(p, blob),
    decreases depth, 2int, r.fields@.len() - k,
{
    if k < 0 || k >= r.fields@.len() {
        let p = PRecord { name: r.name@, size: i, fields: acc };
        lemma_ser_fields_tiled(p, blob, 0);
    } else {
        lemma_parse_field_tiled(g, r.fields@[k], blob, i, acc, depth);
        if let Ok(pf) = parse_field_spec(g, r.fields@[k], blob, i, acc, depth) {
            let x = (r.fields@[k].name@, pf);
            let acc2 = acc.push(x);
            assert forall|j: int| 0 <= j < acc2.len() implies field_tiled(#[trigger] acc2[j].1, blob, field_offset(acc2, j)) by {
                lemma_field_offset_push(acc, x, j);
                if j < acc.len() {
                    assert(acc2[j] == acc[j]);
                }
            }
            lemma_field_offset_push(acc, x, acc.len() as int);
            lemma_fields_tiled(g, r, k + 1, blob, i + pf.size(), acc2, depth);
        }
    }
}

proof fn lemma_parse_field_tiled(
    g: Grammar,
    f: Field,
    blob: Seq<u8>,
    i: nat,
    acc: Seq<(Seq<char>, PField)>,
    depth: nat,
)
    requires
        i <= blob.len(),
    ensures
        parse_field_spec(g, f, blob, i, acc, depth) matches Ok(pf) ==> field_tiled(pf, blob, i),
    decreases depth, 1int, 0int,
{
    if depth > 0 {
        match f.ty {
            FieldType::Normal => {},
            FieldType::Array => {
                if let Ok(count) = array_count(f, acc) {
                    if let Some(sub) = g.lookup(f.name@) {
                        lemma_elems_tiled(g, sub, blob, i, i, count, Seq::empty(), (depth - 1) as nat);
                    }
                }
            },
            FieldType::Record => {
                if let Some(sub) = g.lookup(f.name@) {
                    let rest = blob.subrange(i as int, blob.len() as int);
                    lemma_parse_record_tiled(g, sub, rest, (depth - 1) as nat);
                    if let Ok(p) = parse_record_spec(g, sub, rest, (depth - 1) as nat) {
                        assert(rest.subrange(0, p.size as int) =~= blob.subrange(i as int, (i + p.size) as int));
                    }
                }
            },
        }
    }
}

proof fn lemma_elems_tiled(
    g: Grammar,
    sub: Record,
    blob: Seq<u8>,
    i0: nat,
    i: nat,
    count: nat,
    recs: Seq<PRecord>,
    d: nat,
)
    requires
        i0 <= i <= blob.len(),
        elems_tiled(recs, blob, i0, i),
    ensures
        ({
            let (rs, end) = parse_elems(g, sub, blob, i, count, recs, d);
            &&& i0 <= end <= blob.len()
            &&& ser_elems(rs, 0) == blob.subrange(i0 as int, end as int)
        }),
    decreases d, 4int, count - recs.len(),
{
    if i < blob.len() && recs.len() < count {
        let rest = blob.subrange(i as int, blob.len() as int);
        lemma_parse_record_tiled(g, sub, rest, d);
        match parse_record_spec(g, sub, rest, d) {
            Ok(p) => {
                assert(rest.subrange(0, p.size as int) =~= blob.subrange(i as int, (i + p.size) as int));
                let recs2 = recs.push(p);
                assert forall|j: int| 0 <= j < recs2.len() implies ({
                    let at = i0 + elem_offset(recs2, j);
                    &&& at + (#[trigger] recs2[j]).size <= blob.len()
                    &&& ser_record(recs2[j]) == blob.subrange(at as int, (at + recs2[j].size) as int)
                }) by {
                    lemma_elem_offset_push(recs, p, j);
                    if j < recs.len() {
                        assert(recs2[j] == recs[j]);
                    }
                }
                lemma_elem_offset_push(recs, p, recs.len() as int);
                lemma_elems_tiled(g, sub, blob, i0, i + p.size, count, recs2, d);
            },
            Err(_) => {
                lemma_ser_elems_tiled(recs, blob, i0, i, 0);
            },
        }
    } else {
        lemma_ser_elems_tiled(recs, blob, i0, i, 0);
    }
}

/// Parsing an input and serializing the result gives back the bytes that the
/// parse consumed; for an input that parses whole, the input itself.
pub proof fn lemma_serialize_parse(g: Grammar, blob: Seq<u8>)
    ensures
        parse_spec(g, blob) matches Ok(p) ==> ser_record(p) == blob.subrange(0, p.size as int),
        parse_spec(g, blob) matches Ok(p) ==> (p.size == blob.len() ==> ser_record(p) == blob),
{
    if let Some(root) = g.lookup("INPUT"@) {
        lemma_parse_record_tiled(g, root, blob, MAX_DEPTH as nat);
        if let Ok(p) = parse_spec(g, blob) {
            if p.size == blob.len() {
                assert(blob.subrange(0, p.size as int) =~= blob);
            }
        }
    }
}

/// The bytes held by the normal fields of a parsed record, at every depth, add
/// up to the record's size, and it spans no more than the input.
pub proof fn lemma_parsed_size(g: Grammar, blob: Seq<u8>)
    ensures
        parse_spec(g, blob) matches Ok(p) ==> ser_record(p).len() == p.size && p.size <= blob.len(),
{
    if let Some(root) = g.lookup("INPUT"@) {
        lemma_parse_record_tiled(g, root, blob, MAX_DEPTH as nat);
    }
}

/// A union without alternatives never parses.
pub proof fn lemma_empty_union(g: Grammar, r: Record, blob: Seq<u8>, depth: nat)
    requires
        r.ty == RecordType::Union,
        r.fields@.len() == 0,
        depth > 0,
    ensures
        parse_record_spec(g, r, blob, depth) == Err::<PRecord, ErrorKind>(ErrorKind::UnionNoMatch),
{
}

/// An array whose `size` is zero parses to no elements and consumes no bytes.
pub proof fn lemma_empty_array(g: Grammar, f: Field, blob: Seq<u8>, i: nat, acc: Seq<(Seq<char>, PField)>, depth: nat)
    requires
        f.ty == FieldType::Array,
        depth > 0,
        i <= blob.len(),
        g.lookup(f.name@) is Some,
        array_count(f, acc) == Ok::<nat, ErrorKind>(0),
    ensures
        parse_field_spec(g, f, blob, i, acc, depth) == Ok::<PField, ErrorKind>(
            PField::Array { name: f.name@, size: 0, records: Seq::empty() },
        ),
{
}

/// A normal field of declared size zero, without a fixed value, parses to no
/// bytes and consumes none.
pub proof fn lemma_empty_normal(g: Grammar, f: Field, blob: Seq<u8>, i: nat, acc: Seq<(Seq<char>, PField)>, depth: nat)
    requires
        f.ty == FieldType::Normal,
        depth > 0,
        i <= blob.len(),
        f.attr("size"@) == Some(Attribute::Number(0)),
        f.attr("value"@) is None,
    ensures
        parse_field_spec(g, f, blob, i, acc, depth) == Ok::<PField, ErrorKind>(
            PField::Normal { name: f.name@, size: 0, value: Seq::empty() },
        ),
{
    assert(blob.subrange(i as int, i as int) =~= Seq::<u8>::empty());
}

/// Parsed fields in their mathematical form.
pub open spec fn fields_view(s: Seq<(String, ParsedField)>) -> Seq<(Seq<char>, PField)> {
    s.map_values(|x: (String, ParsedField)| (x.0@, x.1@))
}

/// Parsed records in their mathematical form.
pub open spec fn records_view(s: Seq<ParsedRecord>) -> Seq<PRecord> {
    s.map_values(|x: ParsedRecord| x@)
}

/// Every normal field in `acc` holds as many bytes as its size says.
pub open spec fn normals_sized(acc: Seq<(Seq<char>, PField)>) -> bool {
    forall|j: int|
        0 <= j < acc.len() ==> ((#[trigger] acc[j]).1 matches PField::Normal { size, value, .. } ==> value.len() == size)
}

pub open spec fn record_result(r: Result<ParsedRecord, TestlangError>) -> Result<PRecord, ErrorKind> {
    match r {
        Ok(p) => Ok(p@),
        Err(e) => Err(e@),
    }
}

pub open spec fn field_result(r: Result<ParsedField, TestlangError>) -> Result<PField, ErrorKind> {
    match r {
        Ok(p) => Ok(p@),
        Err(e) => Err(e@),
    }
}

/// Whether two byte sequences are equal.
fn bytes_equal(a: &[u8], b: &[u8]) -> (r: bool)
    ensures
        r == (a@ == b@),
{
    if a.len() != b.len() {
        return false;
    }
    let mut i: usize = 0;
    while i < a.len()
        invariant
            a@.len() == b@.len(),
            i <= a@.len(),
            forall|j: int| 0 <= j < i ==> a@[j] == b@[j],
        decreases a@.len() - i,
    {
        if a[i] != b[i] {
            return false;
        }
        i += 1;
    }
    assert(a@ =~= b@);
    true
}

/// The index of the first parsed field named `name`.
fn find_parsed_index(acc: &Vec<(String, ParsedField)>, name: &String) -> (r: Option<usize>)
    ensures
        match r {
            Some(j) => j < acc@.len() && find_parsed(fields_view(acc@), name@, 0) == Some(
                fields_view(acc@)[j as int].1,
            ),
            None => find_parsed(fields_view(acc@), name@, 0) is None,
        },
{
    let mut i: usize = 0;
    while i < acc.len()
        invariant
            i <= acc@.len(),
            find_parsed(fields_view(acc@), name@, i as int) == find_parsed(fields_view(acc@), name@, 0),
        decreases acc@.len() - i,
    {
        if acc[i].0 == *name {
            return Some(i);
        }
        i += 1;
    }
    None
}

/// A count or size given by the attribute `a`, with the fields parsed so far in `acc`.
fn resolve_count_exec(a: &Attribute, acc: &Vec<(String, ParsedField)>) -> (r: Result<u128, TestlangError>)
    requires
        normals_sized(fields_view(acc@)),
    ensures
        match r {
            Ok(n) => resolve_count(*a, fields_view(acc@)) == Ok::<nat, ErrorKind>(n as nat),
            Err(e) => resolve_count(*a, fields_view(acc@)) == Err::<nat, ErrorKind>(e@),
        },
{
    match a {
        Attribute::Number(n) => {
            if *n < 0 {
                Err(TestlangError::InvalidSize(Some(*n)))
            } else {
                Ok(*n as u128)
            }
        },
        Attribute::Word(_) => Err(TestlangError::InvalidSize(None)),
        Attribute::Reference(name) => {
            match find_parsed_index(acc, name) {
                Some(j) => {
                    assert(fields_view(acc@)[j as int] == (acc@[j as int].0@, acc@[j as int].1@));
                    match &acc[j].1 {
                        ParsedField::Normal { size, value, .. } => {
                            assert(value@.len() == *size);
                            bytes_to_integer(value.as_slice(), *size)
                        },
                        _ => Err(TestlangError::InvalidReference(name.clone())),
                    }
                },
                None => Err(TestlangError::InvalidReference(name.clone())),
            }
        },
    }
}

/// The bytes that the `value` attribute `a` fixes for a field of `size` bytes.
pub(crate) fn expected_bytes(a: &Attribute, size: usize) -> (r: Result<Vec<u8>, TestlangError>)
    ensures
        match r {
            Ok(v) => expected_value(*a, size as nat) == Ok::<Seq<u8>, ErrorKind>(v@),
            Err(e) => expected_value(*a, size as nat) == Err::<Seq<u8>, ErrorKind>(e@),
        },
{
    match a {
        Attribute::Number(num) => value_to_bytes(#[verifier::truncate] (*num as u128), size),
        Attribute::Word(word) => {
            let mut result: Vec<u8> = Vec::new();
            crate::tree::append_bytes(&mut result, word.as_str().as_bytes());
            let ghost w = result@;
            assert(w == encode_utf8(word@));
            if result.len() < size {
                while result.len() < size
                    invariant
                        w.len() <= result@.len() <= size,
                        result@.subrange(0, w.len() as int) == w,
                        forall|j: int| w.len() <= j < result@.len() ==> result@[j] == 0u8,
                    decreases size - result@.len(),
                {
                    result.push(0u8);
                }
                assert(result@ =~= pad_to(w, size as nat));
            } else {
                assert(result@ =~= pad_to(w, size as nat));
            }
            Ok(result)
        },
        Attribute::Reference(r) => Err(TestlangError::InvalidReference(r.clone())),
    }
}

impl ParsedRecord {
    /// Parses `blob` from its start as the grammar's record `INPUT`.
    pub fn parse(blob: &[u8], grammar: &Grammar) -> (r: Result<Self, TestlangError>)
        ensures
            record_result(r) == parse_spec(*grammar, blob@),
    {
        let root_name = "INPUT".to_owned();
        match grammar.records(&root_name) {
            None => Err(TestlangError::UnknownRecord(root_name)),
            Some(root) => {
                assert(blob@.subrange(0, blob@.len() as int) =~= blob@);
                Self::parse_record(blob, 0, grammar, root, MAX_DEPTH)
            },
        }
    }

    /// Parses `record` from offset `start` of `blob`, nesting at most `depth` deep.
    pub fn parse_record(blob: &[u8], start: usize, grammar: &Grammar, record: &Record, depth: usize) -> (r: Result<
        Self,
        TestlangError,
    >)
        requires
            start <= blob@.len(),
        ensures
            record_result(r) == parse_record_spec(*grammar, *record, blob@.subrange(start as int, blob@.len() as int), depth as nat),
        decreases depth, 1int,
    {
        let ghost bs = blob@.subrange(start as int, blob@.len() as int);
        if depth == 0 {
            return Err(TestlangError::TooDeep);
        }
        if record.ty == RecordType::Union {
            let mut k: usize = 0;
            while k < record.fields.len()
                invariant
                    depth > 0,
                    start <= blob@.len(),
                    bs == blob@.subrange(start as int, blob@.len() as int),
                    record.ty == RecordType::Union,
                    k <= record.fields@.len(),
                    union_from(*grammar, *record, k as int, bs, (depth - 1) as nat) == parse_record_spec(*grammar, *record, bs, depth as nat),
                decreases record.fields@.len() - k,
            {
                let field = &record.fields[k];
                let sub = match grammar.records(&field.name) {
                    None => return Err(TestlangError::UnknownField(field.name.clone())),
                    Some(s) => s,
                };
                match Self::parse_record(blob, start, grammar, sub, depth - 1) {
                    Ok(sub_record) => {
                        let name = sub_record.name.clone();
                        let size = sub_record.size;
                        let inner = ParsedField::Record { name: name.clone(), size, record: sub_record };
                        let result = ParsedRecord { name: record.name.clone(), size, fields: vec![(name, inner)] };
                        assert(result@.fields =~= seq![(inner@->Record_record.name, inner@)]);
                        return Ok(result);
                    },
                    Err(_) => {},
                }
                k += 1;
            }
            return Err(TestlangError::UnionNoMatch);
        }
        let mut acc: Vec<(String, ParsedField)> = Vec::new();
        let mut pos: usize = start;
        let mut k: usize = 0;
        assert(fields_view(acc@) =~= Seq::<(Seq<char>, PField)>::empty());
        while k < record.fields.len()
            invariant
                depth > 0,
                start <= pos <= blob@.len(),
                bs == blob@.subrange(start as int, blob@.len() as int),
                record.ty != RecordType::Union,
                k <= record.fields@.len(),
                normals_sized(fields_view(acc@)),
                fields_from(*grammar, *record, k as int, bs, (pos - start) as nat, fields_view(acc@), depth as nat)
                    == parse_record_spec(*grammar, *record, bs, depth as nat),
            decreases record.fields@.len() - k,
        {
            let field = &record.fields[k];
            let ghost i = (pos - start) as nat;
            match Self::parse_field(blob, start, pos, grammar, field, &acc, depth) {
                Err(e) => return Err(e),
                Ok(pf) => {
                    proof {
                        lemma_parse_field_tiled(*grammar, *field, bs, i, fields_view(acc@), depth as nat);
                        assert(parse_field_spec(*grammar, *field, bs, i, fields_view(acc@), depth as nat) == Ok::<PField, ErrorKind>(pf@));
                        assert(field_tiled(pf@, bs, i));
                    }
                    let size = pf.size();
                    let blen = blob.len();
                    assert(pos + size <= blen);
                    let ghost before = acc@;
                    acc.push((field.name.clone(), pf));
                    assert(fields_view(acc@) =~= fields_view(before).push((field.name@, pf@)));
                    pos = pos + size;
                },
            }
            k += 1;
        }
        let result = ParsedRecord { name: record.name.clone(), size: pos - start, fields: acc };
        assert(result@.fields =~= fields_view(acc@));
        Ok(result)
    }

    fn parse_field(
        blob: &[u8],
        start: usize,
        pos: usize,
        grammar: &Grammar,
        field: &Field,
        acc: &Vec<(String, ParsedField)>,
        depth: usize,
    ) -> (r: Result<ParsedField, TestlangError>)
        requires
            start <= pos <= blob@.len(),
            depth > 0,
            normals_sized(fields_view(acc@)),
        ensures
            field_result(r) == parse_field_spec(
                *grammar,
                *field,
                blob@.subrange(start as int, blob@.len() as int),
                (pos - start) as nat,
                fields_view(acc@),
                depth as nat,
            ),
        decreases depth, 0int,
    {
        let ghost bs = blob@.subrange(start as int, blob@.len() as int);
        let ghost i = (pos - start) as nat;
        match field.ty {
            FieldType::Normal => {
                let size = match field.attribute("size") {
                    None => return Err(TestlangError::InvalidSize(None)),
                    Some(a) => match resolve_count_exec(a, acc) {
                        Ok(n) => n,
                        Err(e) => return Err(e),
                    },
                };
                let remaining = blob.len() - pos;
                if size > remaining as u128 {
                    return Err(TestlangError::ShortInput);
                }
                let size = size as usize;
                let mut value: Vec<u8> = Vec::new();
                crate::tree::append_bytes(&mut value, vstd::slice::slice_subrange(blob, pos, pos + size));
                assert(value@ =~= bs.subrange(i as int, (i + size) as int));
                match field.attribute("value") {
                    None => {},
                    Some(value_attr) => {
                        let expected = match expected_bytes(value_attr, size) {
                            Ok(v) => v,
                            Err(e) => return Err(e),
                        };
                        if !bytes_equal(value.as_slice(), expected.as_slice()) {
                            return Err(TestlangError::ValueMismatch);
                        }
                    },
                }
                Ok(ParsedField::Normal { name: field.name.clone(), size, value })
            },
            FieldType::Array => {
                let count: u128 = match field.attribute("size") {
                    None => usize::MAX as u128,
                    Some(a) => match resolve_count_exec(a, acc) {
                        Ok(n) => n,
                        Err(e) => return Err(e),
                    },
                };
                let sub = match grammar.records(&field.name) {
                    None => return Err(TestlangError::UnknownField(field.name.clone())),
                    Some(s) => s,
                };
                let ghost d = (depth - 1) as nat;
                let ghost total = parse_elems(*grammar, *sub, bs, i, count as nat, Seq::empty(), d);
                let mut records: Vec<ParsedRecord> = Vec::new();
                let mut j: u128 = 0;
                let mut p: usize = pos;
                let mut done = false;
                assert(records_view(records@) =~= Seq::<PRecord>::empty());
                while !done && p < blob.len() && j < count
                    invariant
                        depth > 0,
                        start <= pos <= p <= blob@.len(),
                        bs == blob@.subrange(start as int, blob@.len() as int),
                        d == (depth - 1) as nat,
                        j == records@.len(),
                        j <= count,
                        !done ==> parse_elems(*grammar, *sub, bs, (p - start) as nat, count as nat, records_view(records@), d) == total,
                        done ==> (records_view(records@), (p - start) as nat) == total,
                    decreases count - j, (!done) as int,
                {
                    let ghost rest = bs.subrange((p - start) as int, bs.len() as int);
                    assert(rest =~= blob@.subrange(p as int, blob@.len() as int));
                    let res = Self::parse_record(blob, p, grammar, sub, depth - 1);
                    assert(record_result(res) == parse_record_spec(*grammar, *sub, rest, d));
                    match res {
                        Ok(rec) => {
                            proof {
                                lemma_parse_record_tiled(*grammar, *sub, rest, d);
                                assert(parse_record_spec(*grammar, *sub, rest, d) == Ok::<PRecord, ErrorKind>(rec@));
                                assert(tiled(rec@, rest));
                            }
                            let ghost before = records@;
                            p = p + rec.size;
                            records.push(rec);
                            assert(records_view(records@) =~= records_view(before).push(records@[records@.len() - 1]@));
                            j = j + 1;
                        },
                        Err(_) => {
                            assert(parse_elems(*grammar, *sub, bs, (p - start) as nat, count as nat, records_view(records@), d)
                                == (records_view(records@), (p - start) as nat));
                            done = true;
                        },
                    }
                }
                let result = ParsedField::Array { name: field.name.clone(), size: p - pos, records };
                assert(result@->Array_records =~= records_view(records@));
                Ok(result)
            },
            FieldType::Record => {
                let sub = match grammar.records(&field.name) {
                    None => return Err(TestlangError::UnknownField(field.name.clone())),
                    Some(s) => s,
                };
                assert(bs.subrange(i as int, bs.len() as int) =~= blob@.subrange(pos as int, blob@.len() as int));
                match Self::parse_record(blob, pos, grammar, sub, depth - 1) {
                    Err(e) => Err(e),
                    Ok(rec) => {
                        let size = rec.size;
                        Ok(ParsedField::Record { name: field.name.clone(), size, record: rec })
                    },
                }
            },
        }
    }
}

} // verus!
