use vstd::prelude::*;

verus! {

/// A record as decoded from an input: its name, how many bytes it spans, and
/// its fields in order, each with the name it was parsed under.
#[derive(Debug)]
pub struct ParsedRecord {
    pub name: String,
    pub size: usize,
    pub fields: Vec<(String, ParsedField)>,
}

/// A decoded field: raw bytes, a nested record, or the elements of an array.
#[derive(Debug)]
pub enum ParsedField {
    Normal { name: String, size: usize, value: Vec<u8> },
    Record { name: String, size: usize, record: ParsedRecord },
    Array { name: String, size: usize, records: Vec<ParsedRecord> },
}

/// The mathematical form of a [`ParsedRecord`].
pub struct PRecord {
    pub name: Seq<char>,
    pub size: nat,
    pub fields: Seq<(Seq<char>, PField)>,
}

/// The mathematical form of a [`ParsedField`].
pub enum PField {
    Normal { name: Seq<char>, size: nat, value: Seq<u8> },
    Record { name: Seq<char>, size: nat, record: PRecord },
    Array { name: Seq<char>, size: nat, records: Seq<PRecord> },
}

impl PField {
    pub open spec fn size(self) -> nat {
        match self {
            PField::Normal { size, .. } => size,
            PField::Record { size, .. } => size,
            PField::Array { size, .. } => size,
        }
    }
}

impl ParsedRecord {
    pub open spec fn model(&self) -> PRecord
        decreases self,
    {
        PRecord {
            name: self.name@,
            size: self.size as nat,
            fields: Seq::new(
                self.fields@.len(),
                |k: int|
                    if 0 <= k < self.fields@.len() {
                        (self.fields@[k].0@, self.fields@[k].1.model())
                    } else {
                        (Seq::empty(), PField::Normal { name: Seq::empty(), size: 0, value: Seq::empty() })
                    },
            ),
        }
    }
}

impl ParsedField {
    pub open spec fn model(&self) -> PField
        decreases self,
    {
        match self {
            ParsedField::Normal { name, size, value } => PField::Normal {
                name: name@,
                size: *size as nat,
                value: value@,
            },
            ParsedField::Record { name, size, record } => PField::Record {
                name: name@,
                size: *size as nat,
                record: record.model(),
            },
            ParsedField::Array { name, size, records } => PField::Array {
                name: name@,
                size: *size as nat,
                records: Seq::new(
                    records@.len(),
                    |k: int|
                        if 0 <= k < records@.len() {
                            records@[k].model()
                        } else {
                            PRecord { name: Seq::empty(), size: 0, fields: Seq::empty() }
                        },
                ),
            },
        }
    }
}

impl View for ParsedRecord {
    type V = PRecord;

    open spec fn view(&self) -> PRecord {
        self.model()
    }
}

impl View for ParsedField {
    type V = PField;

    open spec fn view(&self) -> PField {
        self.model()
    }
}

/// The bytes of a record: the values of its normal fields, in order, at every depth.
pub open spec fn ser_record(p: PRecord) -> Seq<u8>
    decreases p, p.fields.len() + 1,
{
    ser_fields(p, 0)
}

/// The bytes of the fields of `p` from index `k` on.
pub open spec fn ser_fields(p: PRecord, k: int) -> Seq<u8>
    decreases p, p.fields.len() - k,
{
    if k < 0 || k >= p.fields.len() {
        Seq::empty()
    } else {
        ser_field(p.fields[k].1) + ser_fields(p, k + 1)
    }
}

/// The bytes of a field.
pub open spec fn ser_field(f: PField) -> Seq<u8>
    decreases f, 0nat,
{
    match f {
        PField::Normal { value, .. } => value,
        PField::Record { record, .. } => ser_record(record),
        PField::Array { records, .. } => ser_elems(records, 0),
    }
}

/// The bytes of the records `rs` from index `k` on.
pub open spec fn ser_elems(rs: Seq<PRecord>, k: int) -> Seq<u8>
    decreases rs, rs.len() - k,
{
    if k < 0 || k >= rs.len() {
        Seq::empty()
    } else {
        ser_record(rs[k]) + ser_elems(rs, k + 1)
    }
}

/// Appends `src` to `dst`.
pub fn append_bytes(dst: &mut Vec<u8>, src: &[u8])
    ensures
        final(dst)@ == old(dst)@ + src@,
{
    let mut i: usize = 0;
    while i < src.len()
        invariant
            i <= src@.len(),
            dst@ == old(dst)@ + src@.subrange(0, i as int),
        decreases src@.len() - i,
    {
        dst.push(src[i]);
        i += 1;
        assert(dst@ =~= old(dst)@ + src@.subrange(0, i as int));
    }
    assert(src@.subrange(0, i as int) =~= src@);
}

fn serialize_explore(result: &mut Vec<u8>, node: &ParsedRecord)
    ensures
        final(result)@ == old(result)@ + ser_record(node@),
    decreases node,
{
    let ghost start = result@;
    let ghost p = node@;
    let mut k: usize = 0;
    assert(start + ser_record(p) =~= result@ + ser_fields(p, 0));
    while k < node.fields.len()
        invariant
            p == node@,
            k <= node.fields@.len(),
            start + ser_record(p) =~= result@ + ser_fields(p, k as int),
        decreases node.fields@.len() - k,
    {
        let ghost before = result@;
        let field = &node.fields[k].1;
        assert(p.fields[k as int].1 == field@);
        match field {
            ParsedField::Normal { value, .. } => {
                append_bytes(result, value.as_slice());
            },
            ParsedField::Record { record, .. } => {
                serialize_explore(result, record);
            },
            ParsedField::Array { records, .. } => {
                let ghost rs = field@->Array_records;
                let mut j: usize = 0;
                while j < records.len()
                    invariant
                        rs == field@->Array_records,
                        field@ is Array,
                        k < node.fields@.len(),
                        *field == node.fields@[k as int].1,
                        *field == (ParsedField::Array { name: field->Array_name, size: field->Array_size, records: *records }),
                        j <= records@.len(),
                        rs.len() == records@.len(),
                        before + ser_elems(rs, 0) =~= result@ + ser_elems(rs, j as int),
                    decreases records@.len() - j,
                {
                    assert(rs[j as int] == records@[j as int]@);
                    serialize_explore(result, &records[j]);
                    j += 1;
                }
            },
        }
        assert(result@ =~= before + ser_field(p.fields[k as int].1));
        k += 1;
    }
}

impl ParsedRecord {
    /// The bytes of the record: the values of all its normal fields, nested
    /// ones included, in order.
    pub fn serialize(&self) -> (r: Vec<u8>)
        ensures
            r@ == ser_record(self@),
    {
        let mut result: Vec<u8> = Vec::new();
        serialize_explore(&mut result, self);
        assert(result@ =~= ser_record(self@));
        result
    }
}

/// `a + b`, capped at the largest `usize`.
pub open spec fn sat_add(a: int, b: int) -> int {
    if a + b > usize::MAX {
        usize::MAX as int
    } else {
        a + b
    }
}

/// The records at depth `d` of the tree under `p` (`p` alone at depth 0) in
/// depth-first order, each with its byte offset; `p` starts at offset `base`,
/// and offsets are capped at the largest `usize`.
pub open spec fn located_at(p: PRecord, d: nat, base: int) -> Seq<(int, PRecord)>
    decreases d, 0int, 0int,
{
    if d == 0 {
        seq![(base, p)]
    } else {
        located_fields(p.fields, 0, (d - 1) as nat, base)
    }
}

/// The records at depth `e` under the fields `fs` from index `k` on, field `k`
/// starting at offset `base`.
pub open spec fn located_fields(fs: Seq<(Seq<char>, PField)>, k: int, e: nat, base: int) -> Seq<
    (int, PRecord),
>
    decreases e, 2int, fs.len() - k,
{
    if k < 0 || k >= fs.len() {
        Seq::empty()
    } else {
        located_field(fs[k].1, e, base) + located_fields(
            fs,
            k + 1,
            e,
            sat_add(base, fs[k].1.size() as int),
        )
    }
}

/// The records at depth `e` under a field that starts at offset `base`.
pub open spec fn located_field(f: PField, e: nat, base: int) -> Seq<(int, PRecord)>
    decreases e, 1int, 0int,
{
    match f {
        PField::Normal { .. } => Seq::empty(),
        PField::Record { record, .. } => located_at(record, e, base),
        PField::Array { records, .. } => located_elems(records, 0, e, base),
    }
}

/// The records at depth `e` under the array elements `rs` from index `k` on.
pub open spec fn located_elems(rs: Seq<PRecord>, k: int, e: nat, base: int) -> Seq<(int, PRecord)>
    decreases e, 0int, rs.len() - k + 1,
{
    if k < 0 || k >= rs.len() {
        Seq::empty()
    } else {
        located_at(rs[k], e, base) + located_elems(rs, k + 1, e, sat_add(base, rs[k].size as int))
    }
}

/// The number of records at depth `d` of the tree under `p`.
pub open spec fn level_count(p: PRecord, d: nat) -> nat {
    located_at(p, d, 0).len()
}

pub open spec fn entry(v: Seq<usize>, i: int) -> int {
    if 0 <= i < v.len() {
        v[i] as int
    } else {
        0
    }
}

pub open spec fn cap(x: int) -> int {
    if x > usize::MAX {
        usize::MAX as int
    } else {
        x
    }
}

/// How many records of the tree under `p`, placed at depth `depth`, stand at depth `i`.
pub open spec fn count_at(p: PRecord, depth: int, i: int, base: int) -> int {
    if i < depth {
        0
    } else {
        located_at(p, (i - depth) as nat, base).len() as int
    }
}

fn bump(result: &mut Vec<usize>, depth: usize)
    requires
        depth <= old(result)@.len(),
        forall|i: int| 0 <= i < old(result)@.len() ==> old(result)@[i] >= 1,
    ensures
        forall|i: int| 0 <= i < final(result)@.len() ==> final(result)@[i] >= 1,
        final(result)@.len() == if depth < old(result)@.len() {
            old(result)@.len()
        } else {
            old(result)@.len() + 1
        },
        forall|i: int|
            #[trigger] entry(final(result)@, i) == if i == depth {
                cap(entry(old(result)@, i) + 1)
            } else {
                entry(old(result)@, i)
            },
{
    if depth >= result.len() {
        result.push(1);
    } else if result[depth] < usize::MAX {
        result.set(depth, result[depth] + 1);
    }
}

fn height_map_explore(result: &mut Vec<usize>, node: &ParsedRecord, depth: usize, Ghost(base): Ghost<int>)
    requires
        depth <= old(result)@.len(),
        forall|i: int| 0 <= i < old(result)@.len() ==> old(result)@[i] >= 1,
    ensures
        final(result)@.len() >= old(result)@.len(),
        forall|i: int| 0 <= i < final(result)@.len() ==> final(result)@[i] >= 1,
        forall|i: int|
            #[trigger] entry(final(result)@, i) == cap(
                entry(old(result)@, i) + count_at(node@, depth as int, i, base),
            ),
    decreases node,
{
    let ghost p = node@;
    let ghost start = result@;
    bump(result, depth);
    let ghost r1 = result@;
    assert forall|i: int| #[trigger] entry(r1, i) == cap(entry(start, i) + if i == depth { 1int } else { 0 }) by {}
    let mut k: usize = 0;
    let ghost mut b: int = base;
    while k < node.fields.len()
        invariant
            p == node@,
            k <= node.fields@.len(),
            depth < result@.len(),
            result@.len() >= start.len(),
            forall|i: int| 0 <= i < result@.len() ==> result@[i] >= 1,
            forall|i: int|
                i <= depth ==> #[trigger] entry(result@, i) == entry(r1, i),
            forall|i: int|
                depth < i ==> cap(
                    #[trigger] entry(result@, i) + located_fields(p.fields, k as int, (i - depth - 1) as nat, b).len(),
                ) == cap(entry(r1, i) + located_fields(p.fields, 0, (i - depth - 1) as nat, base).len()),
        decreases node.fields@.len() - k,
    {
        let field = &node.fields[k].1;
        assert(p.fields[k as int].1 == field@);
        let ghost before = result@;
        let ghost next_b = sat_add(b, field@.size() as int);
        match field {
            ParsedField::Normal { .. } => {
            },
            ParsedField::Record { record, .. } => {
                let n = result.len();
                assert(depth < n);
                height_map_explore(result, record, depth + 1, Ghost(b));
            },
            ParsedField::Array { records, .. } => {
                let ghost rs = field@->Array_records;
                let mut j: usize = 0;
                let ghost mut c: int = b;
                while j < records.len()
                    invariant
                        rs == field@->Array_records,
                        field@ is Array,
                        k < node.fields@.len(),
                        *field == node.fields@[k as int].1,
                        *field == (ParsedField::Array { name: field->Array_name, size: field->Array_size, records: *records }),
                        j <= records@.len(),
                        rs.len() == records@.len(),
                        depth < result@.len(),
                        result@.len() >= start.len(),
                        forall|i: int| 0 <= i < result@.len() ==> result@[i] >= 1,
                        forall|i: int|
                            i <= depth ==> #[trigger] entry(result@, i) == entry(before, i),
                        forall|i: int|
                            depth < i ==> cap(
                                #[trigger] entry(result@, i) + located_elems(rs, j as int, (i - depth - 1) as nat, c).len(),
                            ) == cap(entry(before, i) + located_elems(rs, 0, (i - depth - 1) as nat, b).len()),
                    decreases records@.len() - j,
                {
                    assert(rs[j as int] == records@[j as int]@);
                    let ghost mid = result@;
                    let n = result.len();
                    assert(depth < n);
                    height_map_explore(result, &records[j], depth + 1, Ghost(c));
                    proof {
                        assert forall|i: int| depth < i implies cap(
                            #[trigger] entry(result@, i) + located_elems(rs, j + 1, (i - depth - 1) as nat, sat_add(c, rs[j as int].size as int)).len(),
                        ) == cap(entry(before, i) + located_elems(rs, 0, (i - depth - 1) as nat, b).len()) by {
                            let e = (i - depth - 1) as nat;
                            assert(located_elems(rs, j as int, e, c) == located_at(rs[j as int], e, c) + located_elems(rs, j + 1, e, sat_add(c, rs[j as int].size as int)));
                            assert(entry(result@, i) == cap(entry(mid, i) + count_at(rs[j as int], depth + 1, i, c)));
                        }
                        assert forall|i: int| i <= depth implies #[trigger] entry(result@, i) == entry(before, i) by {
                            assert(entry(result@, i) == cap(entry(mid, i) + count_at(rs[j as int], depth + 1, i, c)));
                        }
                        c = sat_add(c, rs[j as int].size as int);
                    }
                    j += 1;
                }
            },
        }
        proof {
            assert forall|i: int| depth < i implies cap(
                #[trigger] entry(result@, i) + located_fields(p.fields, k + 1, (i - depth - 1) as nat, next_b).len(),
            ) == cap(entry(r1, i) + located_fields(p.fields, 0, (i - depth - 1) as nat, base).len()) by {
                let e = (i - depth - 1) as nat;
                assert(located_fields(p.fields, k as int, e, b) == located_field(p.fields[k as int].1, e, b) + located_fields(p.fields, k + 1, e, next_b));
                match field {
                    ParsedField::Normal { .. } => {},
                    ParsedField::Record { record, .. } => {
                        assert(entry(result@, i) == cap(entry(before, i) + count_at(record@, depth + 1, i, b)));
                    },
                    ParsedField::Array { .. } => {
                        assert(located_elems(field@->Array_records, field@->Array_records.len() as int, e, b).len() == 0);
                    },
                }
            }
            assert forall|i: int| i <= depth implies #[trigger] entry(result@, i) == entry(r1, i) by {
                match field {
                    ParsedField::Record { record, .. } => {
                        assert(entry(result@, i) == cap(entry(before, i) + count_at(record@, depth + 1, i, b)));
                    },
                    _ => {},
                }
            }
            b = next_b;
        }
        k += 1;
    }
    proof {
        assert forall|i: int| #[trigger] entry(result@, i) == cap(entry(start, i) + count_at(p, depth as int, i, base)) by {
            if i > depth {
                assert(located_fields(p.fields, k as int, (i - depth - 1) as nat, b).len() == 0);
                assert(located_at(p, (i - depth) as nat, base) == located_fields(p.fields, 0, (i - depth - 1) as nat, base));
            } else if i == depth {
                assert(located_at(p, 0, base).len() == 1);
            }
        }
    }
}

impl ParsedRecord {
    /// The number of records at each depth of the tree (this record alone at
    /// depth 0), counting nested records and array elements; counts are capped
    /// at the largest `usize`. The map ends at the first depth with no records.
    pub fn height_map(&self) -> (r: Vec<usize>)
        ensures
            forall|d: int|
                0 <= d < r@.len() ==> r@[d] as int == cap(level_count(self@, d as nat) as int)
                    && level_count(self@, d as nat) > 0,
            level_count(self@, r@.len()) == 0,
    {
        let mut result: Vec<usize> = Vec::new();
        height_map_explore(&mut result, self, 0, Ghost(0));
        proof {
            assert forall|d: int| 0 <= d < result@.len() implies result@[d] as int == cap(level_count(self@, d as nat) as int)
                && level_count(self@, d as nat) > 0 by {
                assert(entry(result@, d) == cap(entry(Seq::<usize>::empty(), d) + count_at(self@, 0, d, 0)));
                assert(entry(result@, d) == result@[d] as int);
                assert(count_at(self@, 0, d, 0) == level_count(self@, d as nat) as int);
                assert(result@[d] >= 1);
            }
            assert(entry(result@, result@.len() as int) == cap(entry(Seq::<usize>::empty(), result@.len() as int) + count_at(self@, 0, result@.len() as int, 0)));
        }
        result
    }
}

impl ParsedField {
    /// The number of bytes the field spans.
    pub fn size(&self) -> (r: usize)
        ensures
            r as nat == self@.size(),
    {
        match self {
            ParsedField::Normal { size, .. } => *size,
            ParsedField::Record { size, .. } => *size,
            ParsedField::Array { size, .. } => *size,
        }
    }
}

/// Located records as offsets and record values.
pub open spec fn located_view<'a>(s: Seq<(usize, &'a ParsedRecord)>) -> Seq<(int, PRecord)> {
    s.map_values(|x: (usize, &'a ParsedRecord)| (x.0 as int, x.1@))
}

proof fn lemma_located_view_push<'a>(s: Seq<(usize, &'a ParsedRecord)>, x: (usize, &'a ParsedRecord))
    ensures
        located_view(s.push(x)) == located_view(s) + seq![(x.0 as int, x.1@)],
{
    assert(located_view(s.push(x)) =~= located_view(s) + seq![(x.0 as int, x.1@)]);
}

fn collect_at<'a>(node: &'a ParsedRecord, depth: usize, base: usize, out: &mut Vec<(usize, &'a ParsedRecord)>)
    ensures
        located_view(final(out)@) == located_view(old(out)@) + located_at(node@, depth as nat, base as int),
    decreases node,
{
    let ghost p = node@;
    let ghost start = out@;
    if depth == 0 {
        out.push((base, node));
        proof {
            lemma_located_view_push(start, (base, node));
        }
        return;
    }
    let e: usize = depth - 1;
    let mut k: usize = 0;
    let mut b: usize = base;
    assert(located_view(out@) + located_fields(p.fields, 0, e as nat, b as int) =~= located_view(start) + located_at(p, depth as nat, base as int));
    while k < node.fields.len()
        invariant
            p == node@,
            e + 1 == depth,
            k <= node.fields@.len(),
            located_view(out@) + located_fields(p.fields, k as int, e as nat, b as int) == located_view(start) + located_at(p, depth as nat, base as int),
        decreases node.fields@.len() - k,
    {
        let field = &node.fields[k].1;
        assert(p.fields[k as int].1 == field@);
        let ghost before = out@;
        let size = field.size();
        let ghost rest = located_fields(p.fields, k + 1, e as nat, sat_add(b as int, size as int));
        assert(located_fields(p.fields, k as int, e as nat, b as int) == located_field(field@, e as nat, b as int) + rest);
        match field {
            ParsedField::Normal { .. } => {
                assert(located_view(out@) + rest =~= located_view(start) + located_at(p, depth as nat, base as int));
            },
            ParsedField::Record { record, .. } => {
                collect_at(record, e, b, out);
                assert(located_view(out@) + rest =~= located_view(start) + located_at(p, depth as nat, base as int));
            },
            ParsedField::Array { records, .. } => {
                let ghost rs = field@->Array_records;
                let mut j: usize = 0;
                let mut c: usize = b;
                assert(located_view(out@) + located_elems(rs, 0, e as nat, c as int) + rest =~= located_view(start) + located_at(p, depth as nat, base as int));
                while j < records.len()
                    invariant
                        rs == field@->Array_records,
                        field@ is Array,
                        k < node.fields@.len(),
                        *field == node.fields@[k as int].1,
                        *field == (ParsedField::Array { name: field->Array_name, size: field->Array_size, records: *records }),
                        j <= records@.len(),
                        rs.len() == records@.len(),
                        located_view(out@) + located_elems(rs, j as int, e as nat, c as int) + rest == located_view(start) + located_at(p, depth as nat, base as int),
                    decreases records@.len() - j,
                {
                    assert(rs[j as int] == records@[j as int]@);
                    let ghost mid = out@;
                    collect_at(&records[j], e, c, out);
                    let next_c = c.saturating_add(records[j].size);
                    assert(located_elems(rs, j as int, e as nat, c as int) == located_at(rs[j as int], e as nat, c as int) + located_elems(rs, j + 1, e as nat, next_c as int));
                    assert(located_view(out@) + located_elems(rs, j + 1, e as nat, next_c as int) + rest =~= located_view(start) + located_at(p, depth as nat, base as int));
                    c = next_c;
                    j += 1;
                }
                assert(located_elems(rs, j as int, e as nat, c as int).len() == 0);
                assert(located_view(out@) + rest =~= located_view(start) + located_at(p, depth as nat, base as int));
            },
        }
        b = b.saturating_add(size);
        k += 1;
    }
    assert(located_fields(p.fields, k as int, e as nat, b as int).len() == 0);
    assert(located_view(out@) =~= located_view(start) + located_at(p, depth as nat, base as int));
}

impl ParsedRecord {
    /// The `index`-th record, in depth-first order, among those at depth `depth`
    /// (this record alone at depth 0), with its byte offset in the record's
    /// serialization.
    pub fn locate(&self, depth: usize, index: usize) -> (r: Option<(usize, &ParsedRecord)>)
        ensures
            match r {
                Some((offset, rec)) => index < located_at(self@, depth as nat, 0).len()
                    && located_at(self@, depth as nat, 0)[index as int] == (offset as int, rec@),
                None => index >= located_at(self@, depth as nat, 0).len(),
            },
    {
        let mut found: Vec<(usize, &ParsedRecord)> = Vec::new();
        collect_at(self, depth, 0, &mut found);
        assert(located_view(found@) =~= located_at(self@, depth as nat, 0));
        if index < found.len() {
            let (offset, rec) = found[index];
            assert(located_view(found@)[index as int] == (offset as int, rec@));
            Some((offset, rec))
        } else {
            None
        }
    }

    /// The `index`-th record, in depth-first order, among those at depth `depth`
    /// (this record alone at depth 0).
    pub fn find_record(&self, depth: usize, index: usize) -> (r: Option<&ParsedRecord>)
        ensures
            match r {
                Some(rec) => index < located_at(self@, depth as nat, 0).len()
                    && located_at(self@, depth as nat, 0)[index as int].1 == rec@,
                None => index >= located_at(self@, depth as nat, 0).len(),
            },
    {
        match self.locate(depth, index) {
            Some((_, rec)) => Some(rec),
            None => None,
        }
    }
}

} // verus!
