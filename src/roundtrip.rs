use vstd::prelude::*;
use vstd::utf8::encode_utf8;

use crate::encoding::valid_width;
use crate::error::ErrorKind;
use crate::generator::{concat, empty_slots, gen_field, gen_fields, gen_normal, gen_record, generate_spec};
use crate::grammar::{Attribute, Field, FieldType, Grammar, Record, RecordType};
use crate::parser::{expected_value, fields_from, parse_field_spec, parse_record_spec, parse_spec, MAX_DEPTH};
use crate::tree::{PField, PRecord};

verus! {

/// `a` is a reference.
pub open spec fn is_reference(a: Option<Attribute>) -> bool {
    a matches Some(Attribute::Reference(_))
}

/// A field of a fixed-layout record: no reference among its `size`,
/// `array_size` and `value`; a normal field has a numeric size and a fixed
/// value, if any, of an encodable width or a word that fits; a record field
/// names a fixed-layout record (`e` levels deep at most); no arrays.
pub open spec fn fixed_field(g: Grammar, f: Field, e: nat) -> bool
    decreases e, 2int,
{
    &&& !is_reference(f.attr("size"@))
    &&& !is_reference(f.attr("array_size"@))
    &&& !is_reference(f.attr("value"@))
    &&& match f.ty {
        FieldType::Normal => match f.attr("size"@) {
            Some(Attribute::Number(s)) => 0 <= s < usize::MAX && match f.attr("value"@) {
                None => true,
                Some(Attribute::Number(_)) => valid_width(s as nat),
                Some(Attribute::Word(w)) => encode_utf8(w@).len() <= s,
                Some(Attribute::Reference(_)) => false,
            },
            _ => false,
        },
        FieldType::Record => match g.lookup(f.name@) {
            Some(sub) => fixed_layout(g, sub, e),
            None => false,
        },
        FieldType::Array => false,
    }
}

/// A sequential record whose fields are all fixed-layout fields, nesting at
/// most `d` deep.
pub open spec fn fixed_layout(g: Grammar, r: Record, d: nat) -> bool
    decreases d, 1int,
{
    &&& d > 0
    &&& r.ty == RecordType::Sequential
    &&& forall|j: int| 0 <= j < r.fields@.len() ==> fixed_field(g, #[trigger] r.fields@[j], (d - 1) as nat)
}

/// The bytes `b`, placed at offset `i` of any input, parse as the field `f`
/// and span exactly themselves.
pub open spec fn slot_parses(g: Grammar, f: Field, b: Seq<u8>, d: nat) -> bool {
    forall|x: Seq<u8>, i: nat, acc: Seq<(Seq<char>, PField)>|
        i + b.len() <= x.len() && x.subrange(i as int, (i + b.len()) as int) == b ==> (#[trigger] parse_field_spec(g, f, x, i, acc, d) matches Ok(
            pf,
        ) && pf.size() == b.len())
}

proof fn lemma_fixed_independent(g: Grammar, r: Record, d: nat, j: int)
    requires
        fixed_layout(g, r, d),
        0 <= j <= r.fields@.len(),
    ensures
        r.independent_upto(j) =~= Seq::new(j as nat, |k: int| k),
    decreases j,
{
    if j > 0 {
        lemma_fixed_independent(g, r, d, j - 1);
        assert(fixed_field(g, r.fields@[j - 1], (d - 1) as nat));
        assert forall|m: int| 0 <= m < r.fields@.len() && m != j - 1 implies !(#[trigger] r.fields@[m]).refers_to(
            r.fields@[j - 1].name@,
        ) by {
            assert(fixed_field(g, r.fields@[m], (d - 1) as nat));
        }
        assert(!r.is_dependent(j - 1));
    }
}

proof fn lemma_normal_slot(g: Grammar, r: Record, j: int, slots: Seq<Seq<u8>>, d: nat, ds: Seq<int>, pos: nat)
    requires
        0 <= j < r.fields@.len(),
        r.fields@[j].ty == FieldType::Normal,
        fixed_field(g, r.fields@[j], (d - 1) as nat),
        d > 0,
        gen_normal(r, j, slots, ds, pos).0 is Ok,
        j < slots.len(),
    ensures
        ({
            let s2 = gen_normal(r, j, slots, ds, pos).0->Ok_0;
            &&& s2 == slots.update(j, s2[j])
            &&& slot_parses(g, r.fields@[j], s2[j], d)
        }),
{
    let f = r.fields@[j];
    let s2 = gen_normal(r, j, slots, ds, pos).0->Ok_0;
    let b = s2[j];
    let s = f.attr("size"@)->Some_0->Number_0;
    assert(b.len() == s) by {
        match f.attr("value"@) {
            Some(Attribute::Number(v)) => {
                crate::encoding::lemma_ne_bytes_len((v as u128) as nat % crate::encoding::width_modulus(s as nat), s as nat);
            },
            _ => {},
        }
    }
    assert forall|x: Seq<u8>, i: nat, acc: Seq<(Seq<char>, PField)>|
        i + b.len() <= x.len() && x.subrange(i as int, (i + b.len()) as int) == b implies (#[trigger] parse_field_spec(
        g,
        f,
        x,
        i,
        acc,
        d,
    ) matches Ok(pf) && pf.size() == b.len()) by {
        if let Some(va) = f.attr("value"@) {
            assert(expected_value(va, s as nat) == Ok::<Seq<u8>, ErrorKind>(b));
        }
    }
}

proof fn lemma_record_round_trip(g: Grammar, r: Record, d: nat, ds: Seq<int>, pos: nat, y: Seq<u8>)
    requires
        fixed_layout(g, r, d),
        gen_record(g, r, d, ds, pos).0 is Ok,
        gen_record(g, r, d, ds, pos).0->Ok_0.len() <= y.len(),
        y.subrange(0, gen_record(g, r, d, ds, pos).0->Ok_0.len() as int) == gen_record(g, r, d, ds, pos).0->Ok_0,
    ensures
        parse_record_spec(g, r, y, d) matches Ok(p) && p.size == gen_record(g, r, d, ds, pos).0->Ok_0.len(),
    decreases d, 2int, 0int,
{
    let n = r.fields@.len();
    lemma_fixed_independent(g, r, d, n as int);
    lemma_fields_slots(g, r, 0, empty_slots(n), d, ds, pos);
    let slots = gen_fields(g, r, 0, empty_slots(n), d, ds, pos).0->Ok_0;
    lemma_fields_parse(g, r, 0, slots, y, Seq::empty(), d);
}

/// The first `m` slots concatenated are a prefix of the first `k`.
proof fn lemma_concat_prefix(s: Seq<Seq<u8>>, m: int, k: int)
    requires
        0 <= m <= k <= s.len(),
    ensures
        concat(s, m).len() <= concat(s, k).len(),
        concat(s, k).subrange(0, concat(s, m).len() as int) == concat(s, m),
    decreases k,
{
    if m < k {
        lemma_concat_prefix(s, m, k - 1);
        assert(concat(s, k).subrange(0, concat(s, m).len() as int) =~= concat(s, k - 1).subrange(0, concat(s, m).len() as int));
    } else {
        assert(concat(s, k).subrange(0, concat(s, k).len() as int) =~= concat(s, k));
    }
}

proof fn lemma_fields_slots(g: Grammar, r: Record, t: int, slots: Seq<Seq<u8>>, d: nat, ds: Seq<int>, pos: nat)
    requires
        fixed_layout(g, r, d),
        r.independent() =~= Seq::new(r.fields@.len(), |k: int| k),
        slots.len() == r.fields@.len(),
        0 <= t <= r.fields@.len(),
    ensures
        gen_fields(g, r, t, slots, d, ds, pos).0 matches Ok(s2) ==> {
            &&& s2.len() == slots.len()
            &&& forall|j: int| t <= j < s2.len() ==> slot_parses(g, r.fields@[j], #[trigger] s2[j], d)
        },
    decreases d, 1int, r.fields@.len() - t,
{
    if t < r.fields@.len() {
        let j = t;
        assert(r.independent()[t] == j);
        lemma_field_slot(g, r, j, slots, d, ds, pos);
        if let (Ok(s1), p1) = gen_field(g, r, j, slots, d, ds, pos) {
            lemma_fields_slots(g, r, t + 1, s1, d, ds, p1);
            if let Ok(s2) = gen_fields(g, r, t, slots, d, ds, pos).0 {
                lemma_later_slots_kept(g, r, t + 1, s1, d, ds, p1);
                assert(s2[j] == s1[j]);
            }
        }
    }
}

/// Generating from field `t` on leaves the slots before `t` as they were.
proof fn lemma_later_slots_kept(g: Grammar, r: Record, t: int, slots: Seq<Seq<u8>>, d: nat, ds: Seq<int>, pos: nat)
    requires
        fixed_layout(g, r, d),
        r.independent() =~= Seq::new(r.fields@.len(), |k: int| k),
        slots.len() == r.fields@.len(),
        0 <= t <= r.fields@.len(),
    ensures
        gen_fields(g, r, t, slots, d, ds, pos).0 matches Ok(s2) ==> s2.len() == slots.len() && forall|j: int| 0 <= j < t ==> #[trigger] s2[j] == slots[j],
    decreases r.fields@.len() - t,
{
    if t < r.fields@.len() {
        assert(r.independent()[t] == t);
        lemma_field_updates_own_slot(g, r, t, slots, d, ds, pos);
        if let (Ok(s1), p1) = gen_field(g, r, t, slots, d, ds, pos) {
            lemma_later_slots_kept(g, r, t + 1, s1, d, ds, p1);
        }
    }
}

proof fn lemma_field_updates_own_slot(g: Grammar, r: Record, j: int, slots: Seq<Seq<u8>>, d: nat, ds: Seq<int>, pos: nat)
    requires
        fixed_layout(g, r, d),
        0 <= j < r.fields@.len(),
        slots.len() == r.fields@.len(),
    ensures
        gen_field(g, r, j, slots, d, ds, pos).0 matches Ok(s1) ==> s1 == slots.update(j, s1[j]),
{
    let f = r.fields@[j];
    assert(fixed_field(g, f, (d - 1) as nat));
    if f.ty == FieldType::Normal {
        if gen_normal(r, j, slots, ds, pos).0 is Ok {
            lemma_normal_slot(g, r, j, slots, d, ds, pos);
        }
    } else if let Ok(s1) = gen_field(g, r, j, slots, d, ds, pos).0 {
        assert(s1 =~= slots.update(j, s1[j]));
    }
}

proof fn lemma_field_slot(g: Grammar, r: Record, j: int, slots: Seq<Seq<u8>>, d: nat, ds: Seq<int>, pos: nat)
    requires
        fixed_layout(g, r, d),
        0 <= j < r.fields@.len(),
        slots.len() == r.fields@.len(),
    ensures
        gen_field(g, r, j, slots, d, ds, pos).0 matches Ok(s1) ==> {
            &&& s1 == slots.update(j, s1[j])
            &&& slot_parses(g, r.fields@[j], s1[j], d)
        },
    decreases d, 0int, 0int,
{
    let f = r.fields@[j];
    assert(fixed_field(g, f, (d - 1) as nat));
    match f.ty {
        FieldType::Normal => {
            if gen_normal(r, j, slots, ds, pos).0 is Ok {
                lemma_normal_slot(g, r, j, slots, d, ds, pos);
            }
        },
        FieldType::Record => {
            let sub = g.lookup(f.name@)->Some_0;
            let e = (d - 1) as nat;
            if let (Ok(b), p) = gen_record(g, sub, e, ds, pos) {
                let s1 = slots.update(j, b);
                assert forall|x: Seq<u8>, i: nat, acc: Seq<(Seq<char>, PField)>|
                    i + b.len() <= x.len() && x.subrange(i as int, (i + b.len()) as int) == b implies (#[trigger] parse_field_spec(
                    g,
                    f,
                    x,
                    i,
                    acc,
                    d,
                ) matches Ok(pf) && pf.size() == b.len()) by {
                    let rest = x.subrange(i as int, x.len() as int);
                    assert(rest.subrange(0, b.len() as int) =~= x.subrange(i as int, (i + b.len()) as int));
                    lemma_record_round_trip(g, sub, e, ds, pos, rest);
                }
                assert(s1[j] == b);
            }
        },
        FieldType::Array => {},
    }
}

proof fn lemma_fields_parse(
    g: Grammar,
    r: Record,
    k: int,
    slots: Seq<Seq<u8>>,
    y: Seq<u8>,
    acc: Seq<(Seq<char>, PField)>,
    d: nat,
)
    requires
        0 <= k <= r.fields@.len(),
        slots.len() == r.fields@.len(),
        forall|j: int| 0 <= j < slots.len() ==> slot_parses(g, r.fields@[j], #[trigger] slots[j], d),
        concat(slots, slots.len() as int).len() <= y.len(),
        y.subrange(0, concat(slots, slots.len() as int).len() as int) == concat(slots, slots.len() as int),
    ensures
        fields_from(g, r, k, y, concat(slots, k).len(), acc, d) matches Ok(p) && p.size == concat(slots, slots.len() as int).len(),
    decreases r.fields@.len() - k,
{
    let n = slots.len() as int;
    if k < n {
        let i = concat(slots, k).len();
        let b = slots[k];
        let whole = concat(slots, n);
        assert(concat(slots, k + 1) == concat(slots, k) + b);
        lemma_concat_prefix(slots, k + 1, n);
        assert(y.subrange(i as int, (i + b.len()) as int) =~= whole.subrange(0, concat(slots, k + 1).len() as int).subrange(i as int, (i + b.len()) as int));
        assert(y.subrange(i as int, (i + b.len()) as int) =~= b);
        assert(slot_parses(g, r.fields@[k], b, d));
        let pf = parse_field_spec(g, r.fields@[k], y, i, acc, d)->Ok_0;
        lemma_fields_parse(g, r, k + 1, slots, y, acc.push((r.fields@[k].name@, pf)), d);
    }
}

/// Inputs generated from a grammar whose root `INPUT` has a fixed layout
/// parse, and the parse spans exactly the generated bytes.
pub proof fn lemma_generated_fixed_layout_parses(g: Grammar, ds: Seq<int>, pos: nat)
    requires
        g.lookup("INPUT"@) matches Some(root) && fixed_layout(g, root, MAX_DEPTH as nat),
    ensures
        generate_spec(g, ds, pos).0 matches Ok(b) ==> (parse_spec(g, b) matches Ok(p) && p.size == b.len()),
{
    let root = g.lookup("INPUT"@)->Some_0;
    if let Ok(b) = generate_spec(g, ds, pos).0 {
        assert(b.subrange(0, b.len() as int) =~= b);
        lemma_record_round_trip(g, root, MAX_DEPTH as nat, ds, pos, b);
    }
}

} // verus!
