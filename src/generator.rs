use vstd::prelude::*;

use crate::encoding::{ne_bytes, valid_width, value_to_bytes, width_modulus};
use crate::error::{ErrorKind, TestlangError};
use crate::grammar::{Attribute, Field, FieldType, Grammar, Record, RecordType};
use crate::parser::{expected_bytes, expected_value, MAX_DEPTH};
use crate::rng::Rng;

verus! {

/// The most elements that the generator puts in an array.
pub const MAX_ARRAY_SIZE: usize = 5;

/// `ds` begins with the draws `h`.
pub open spec fn extends(ds: Seq<int>, h: Seq<int>) -> bool {
    h.len() <= ds.len() && ds.subrange(0, h.len() as int) == h
}

/// The draw at `pos` as a number below `n` (0 where the draw is out of range).
pub open spec fn pick(ds: Seq<int>, pos: nat, n: nat) -> nat {
    if pos < ds.len() && 0 <= ds[pos as int] < n {
        ds[pos as int] as nat
    } else {
        0
    }
}

/// The draw at `pos` as a number in `[lo, hi]` (`lo` where the draw is out of range).
pub open spec fn pick_between(ds: Seq<int>, pos: nat, lo: nat, hi: nat) -> nat {
    if pos < ds.len() && lo <= ds[pos as int] <= hi {
        ds[pos as int] as nat
    } else {
        lo
    }
}

/// A size given as a number: it must be non-negative and below the largest `usize`.
pub open spec fn number_size(s: i128) -> Result<nat, ErrorKind> {
    if 0 <= s < usize::MAX {
        Ok(s as nat)
    } else {
        Err(ErrorKind::InvalidSize(Some(s as int)))
    }
}

/// `size` bytes: the first `sub` are the draws from `pos` on, the rest zero.
pub open spec fn random_bytes(ds: Seq<int>, pos: nat, size: nat, sub: nat) -> Seq<u8> {
    Seq::new(size, |k: int| if k < sub { pick(ds, (pos + k) as nat, 256) as u8 } else { 0u8 })
}

/// `n` empty output slots.
pub open spec fn empty_slots(n: nat) -> Seq<Seq<u8>> {
    Seq::new(n, |k: int| Seq::<u8>::empty())
}

/// The first `k` slots, concatenated.
pub open spec fn concat(s: Seq<Seq<u8>>, k: int) -> Seq<u8>
    decreases k,
{
    if k <= 0 || k > s.len() {
        Seq::empty()
    } else {
        concat(s, k - 1) + s[k - 1]
    }
}

/// The index of the first field named `name`, from index `i` on.
pub open spec fn first_named(fs: Seq<Field>, name: Seq<char>, i: int) -> Option<int>
    decreases fs.len() - i,
{
    if i < 0 || i >= fs.len() {
        None
    } else if fs[i].name@ == name {
        Some(i)
    } else {
        first_named(fs, name, i + 1)
    }
}

/// The field carries `type = "string"`.
pub open spec fn is_string(f: Field) -> bool {
    f.attr("type"@) matches Some(Attribute::Word(w)) && w@ == "string"@
}

/// What generating the record `r` gives when the random draws are `ds`, the
/// first being read at `pos`: the bytes or the error, and the position of the
/// next unread draw. Records nest at most `d` deep.
pub open spec fn gen_record(g: Grammar, r: Record, d: nat, ds: Seq<int>, pos: nat) -> (Result<Seq<u8>, ErrorKind>, nat)
    decreases d, 3int, 0int,
{
    if d == 0 {
        (Err(ErrorKind::TooDeep), pos)
    } else if r.ty == RecordType::Union {
        if r.fields@.len() == 0 {
            (Err(ErrorKind::UnionNoMatch), pos)
        } else {
            let k = pick(ds, pos, r.fields@.len());
            match g.lookup(r.fields@[k as int].name@) {
                None => (Err(ErrorKind::UnknownField(r.fields@[k as int].name@)), pos + 1),
                Some(sub) => gen_record(g, sub, (d - 1) as nat, ds, pos + 1),
            }
        }
    } else {
        match gen_fields(g, r, 0, empty_slots(r.fields@.len()), d, ds, pos) {
            (Ok(slots), p) => (Ok(concat(slots, slots.len() as int)), p),
            (Err(e), p) => (Err(e), p),
        }
    }
}

/// The independent fields of `r` generated from the `t`-th on into `slots`.
pub open spec fn gen_fields(
    g: Grammar,
    r: Record,
    t: int,
    slots: Seq<Seq<u8>>,
    d: nat,
    ds: Seq<int>,
    pos: nat,
) -> (Result<Seq<Seq<u8>>, ErrorKind>, nat)
    decreases d, 2int, r.independent().len() - t,
{
    if t < 0 || t >= r.independent().len() {
        (Ok(slots), pos)
    } else {
        match gen_field(g, r, r.independent()[t], slots, d, ds, pos) {
            (Ok(s2), p2) => gen_fields(g, r, t + 1, s2, d, ds, p2),
            (Err(e), p2) => (Err(e), p2),
        }
    }
}

/// A normal field `j` of `r` generated into `slots`.
pub open spec fn gen_normal(r: Record, j: int, slots: Seq<Seq<u8>>, ds: Seq<int>, pos: nat) -> (Result<Seq<Seq<u8>>, ErrorKind>, nat) {
    let f = r.fields@[j];
    match f.attr("size"@) {
        None => (Err(ErrorKind::InvalidSize(None)), pos),
        Some(sa) => match f.attr("value"@) {
            Some(va) => {
                let size = match sa {
                    Attribute::Number(s) => number_size(s),
                    _ => Ok(0nat),
                };
                match size {
                    Err(e) => (Err(e), pos),
                    Ok(size) => match expected_value(va, size) {
                        Ok(b) => (Ok(slots.update(j, b)), pos),
                        Err(e) => (Err(e), pos),
                    },
                }
            },
            None => {
                let (size, p1) = match sa {
                    Attribute::Number(s) => (number_size(s), pos),
                    _ => (Ok::<nat, ErrorKind>(pick(ds, pos, 256)), pos + 1),
                };
                match size {
                    Err(e) => (Err(e), p1),
                    Ok(size) => {
                        let top = if is_string(f) && size > 0 { (size - 1) as nat } else { size };
                        let sub = pick_between(ds, p1, 0, top);
                        (Ok(slots.update(j, random_bytes(ds, p1 + 1, size, sub))), p1 + 1 + sub)
                    },
                }
            },
        },
    }
}

/// The slots after an array field writes its element count `m` into the field
/// that its `array_size` names.
pub open spec fn write_array_size(r: Record, f: Field, slots: Seq<Seq<u8>>, m: nat) -> Result<Seq<Seq<u8>>, ErrorKind> {
    match f.attr("array_size"@) {
        Some(Attribute::Reference(tn)) => match first_named(r.fields@, tn@, 0) {
            None => Err(ErrorKind::InvalidReference(tn@)),
            Some(t) => match r.fields@[t].attr("size"@) {
                Some(Attribute::Number(s)) => if 0 <= s && valid_width(s as nat) {
                    Ok(slots.update(t, ne_bytes(m % width_modulus(s as nat), s as nat)))
                } else {
                    Err(ErrorKind::InvalidSize(Some(s as int)))
                },
                _ => Err(ErrorKind::InvalidSize(None)),
            },
        },
        _ => Ok(slots),
    }
}

/// Field `j` of `r` generated into `slots`.
pub open spec fn gen_field(
    g: Grammar,
    r: Record,
    j: int,
    slots: Seq<Seq<u8>>,
    d: nat,
    ds: Seq<int>,
    pos: nat,
) -> (Result<Seq<Seq<u8>>, ErrorKind>, nat)
    decreases d, 1int, 0int,
{
    let f = r.fields@[j];
    if d == 0 {
        (Err(ErrorKind::TooDeep), pos)
    } else {
        match f.ty {
            FieldType::Normal => gen_normal(r, j, slots, ds, pos),
            FieldType::Array => match g.lookup(f.name@) {
                None => (Err(ErrorKind::UnknownField(f.name@)), pos),
                Some(sub) => {
                    let m = pick_between(ds, pos, 0, MAX_ARRAY_SIZE as nat);
                    match write_array_size(r, f, slots, m) {
                        Err(e) => (Err(e), pos + 1),
                        Ok(s1) => match gen_elems(g, sub, m, Seq::empty(), (d - 1) as nat, ds, pos + 1) {
                            (Ok(bytes), p) => (Ok(s1.update(j, bytes)), p),
                            (Err(e), p) => (Err(e), p),
                        },
                    }
                },
            },
            FieldType::Record => match g.lookup(f.name@) {
                None => (Err(ErrorKind::UnknownField(f.name@)), pos),
                Some(sub) => match gen_record(g, sub, (d - 1) as nat, ds, pos) {
                    (Ok(b), p) => (Ok(slots.update(j, b)), p),
                    (Err(e), p) => (Err(e), p),
                },
            },
        }
    }
}

/// `m` more instances of `sub` generated after the bytes `acc`.
pub open spec fn gen_elems(g: Grammar, sub: Record, m: nat, acc: Seq<u8>, d: nat, ds: Seq<int>, pos: nat) -> (Result<Seq<u8>, ErrorKind>, nat)
    decreases d, 4int, m,
{
    if m == 0 {
        (Ok(acc), pos)
    } else {
        match gen_record(g, sub, d, ds, pos) {
            (Ok(b), p) => gen_elems(g, sub, (m - 1) as nat, acc + b, d, ds, p),
            (Err(e), p) => (Err(e), p),
        }
    }
}

/// What generating the grammar's record `INPUT` gives when the draws are `ds`,
/// the first being read at `pos`.
pub open spec fn generate_spec(g: Grammar, ds: Seq<int>, pos: nat) -> (Result<Seq<u8>, ErrorKind>, nat) {
    match g.lookup("INPUT"@) {
        None => (Err(ErrorKind::UnknownRecord("INPUT"@)), pos),
        Some(root) => gen_record(g, root, MAX_DEPTH as nat, ds, pos),
    }
}

pub open spec fn bytes_result(r: Result<Vec<u8>, TestlangError>) -> Result<Seq<u8>, ErrorKind> {
    match r {
        Ok(v) => Ok(v@),
        Err(e) => Err(e@),
    }
}

pub open spec fn slots_view(s: Seq<Vec<u8>>) -> Seq<Seq<u8>> {
    s.map_values(|v: Vec<u8>| v@)
}

pub open spec fn slots_result(r: Result<(), TestlangError>, slots: Seq<Vec<u8>>) -> Result<Seq<Seq<u8>>, ErrorKind> {
    match r {
        Ok(_) => Ok(slots_view(slots)),
        Err(e) => Err(e@),
    }
}

pub proof fn lemma_extends_refl(h: Seq<int>)
    ensures
        extends(h, h),
{
    assert(h.subrange(0, h.len() as int) =~= h);
}

pub proof fn lemma_extends_push(ds: Seq<int>, h: Seq<int>, v: int)
    requires
        extends(ds, h.push(v)),
    ensures
        extends(ds, h),
        ds[h.len() as int] == v,
{
    assert(ds.subrange(0, h.len() as int) =~= ds.subrange(0, (h.len() + 1) as int).subrange(0, h.len() as int));
    assert(h.push(v).subrange(0, h.len() as int) =~= h);
    assert(ds.subrange(0, (h.len() + 1) as int)[h.len() as int] == v);
}

pub proof fn lemma_extends_trans(ds: Seq<int>, h2: Seq<int>, h1: Seq<int>)
    requires
        extends(ds, h2),
        extends(h2, h1),
    ensures
        extends(ds, h1),
{
    assert(ds.subrange(0, h1.len() as int) =~= ds.subrange(0, h2.len() as int).subrange(0, h1.len() as int));
}

pub proof fn lemma_extends_push_trans(h: Seq<int>, h0: Seq<int>, v: int)
    requires
        extends(h, h0),
    ensures
        extends(h.push(v), h0),
{
    assert(h.push(v).subrange(0, h0.len() as int) =~= h.subrange(0, h0.len() as int));
}

fn number_size_exec(s: i128) -> (r: Result<usize, TestlangError>)
    ensures
        match r {
            Ok(n) => number_size(s) == Ok::<nat, ErrorKind>(n as nat),
            Err(e) => number_size(s) == Err::<nat, ErrorKind>(e@),
        },
{
    if 0 <= s && s < usize::MAX as i128 {
        Ok(s as usize)
    } else {
        Err(TestlangError::InvalidSize(Some(s)))
    }
}

fn is_string_exec(field: &Field) -> (r: bool)
    ensures
        r == is_string(*field),
{
    match field.attribute("type") {
        Some(Attribute::Word(w)) => *w == "string".to_owned(),
        _ => false,
    }
}

fn first_named_exec(fields: &Vec<Field>, name: &String) -> (r: Option<usize>)
    ensures
        match r {
            Some(t) => t < fields@.len() && first_named(fields@, name@, 0) == Some(t as int),
            None => first_named(fields@, name@, 0) is None,
        },
{
    let mut i: usize = 0;
    while i < fields.len()
        invariant
            i <= fields@.len(),
            first_named(fields@, name@, i as int) == first_named(fields@, name@, 0),
        decreases fields@.len() - i,
    {
        if fields[i].name == *name {
            return Some(i);
        }
        i += 1;
    }
    None
}

fn write_array_size_exec(record: &Record, field: &Field, slots: &mut Vec<Vec<u8>>, m: usize) -> (r: Result<(), TestlangError>)
    requires
        old(slots)@.len() == record.fields@.len(),
    ensures
        final(slots)@.len() == old(slots)@.len(),
        slots_result(r, final(slots)@) == write_array_size(*record, *field, slots_view(old(slots)@), m as nat),
{
    match field.attribute("array_size") {
        Some(Attribute::Reference(tn)) => {
            let t = match first_named_exec(&record.fields, tn) {
                None => return Err(TestlangError::InvalidReference(tn.clone())),
                Some(t) => t,
            };
            match record.fields[t].attribute("size") {
                Some(Attribute::Number(s)) => {
                    if 0 <= *s && *s <= 16 {
                        match value_to_bytes(m as u128, *s as usize) {
                            Ok(b) => {
                                let ghost before = slots@;
                                slots.set(t, b);
                                assert(slots_view(slots@) =~= slots_view(before).update(t as int, b@));
                                Ok(())
                            },
                            Err(e) => Err(e),
                        }
                    } else {
                        Err(TestlangError::InvalidSize(Some(*s)))
                    }
                },
                _ => Err(TestlangError::InvalidSize(None)),
            }
        },
        _ => Ok(()),
    }
}

fn generate_normal(rng: &mut Rng, record: &Record, j: usize, slots: &mut Vec<Vec<u8>>) -> (r: Result<(), TestlangError>)
    requires
        j < record.fields@.len(),
        old(slots)@.len() == record.fields@.len(),
        record.fields@[j as int].ty == FieldType::Normal,
    ensures
        final(slots)@.len() == old(slots)@.len(),
        extends(final(rng).draws(), old(rng).draws()),
        forall|ds: Seq<int>|
            #[trigger] extends(ds, final(rng).draws()) ==> gen_normal(*record, j as int, slots_view(old(slots)@), ds, old(rng).draws().len())
                == (slots_result(r, final(slots)@), final(rng).draws().len()),
{
    let ghost h0 = rng.draws();
    let ghost s0 = slots_view(slots@);
    proof {
        lemma_extends_refl(h0);
    }
    let field = &record.fields[j];
    let sa = match field.attribute("size") {
        None => return Err(TestlangError::InvalidSize(None)),
        Some(a) => a,
    };
    match field.attribute("value") {
        Some(va) => {
            let size: usize = match sa {
                Attribute::Number(s) => match number_size_exec(*s) {
                    Ok(n) => n,
                    Err(e) => return Err(e),
                },
                _ => 0,
            };
            let buffer = match expected_bytes(va, size) {
                Ok(b) => b,
                Err(e) => return Err(e),
            };
            slots.set(j, buffer);
            assert(slots_view(slots@) =~= s0.update(j as int, buffer@));
            Ok(())
        },
        None => {
            let string = is_string_exec(field);
            let size: usize = match sa {
                Attribute::Number(s) => match number_size_exec(*s) {
                    Ok(n) => n,
                    Err(e) => return Err(e),
                },
                _ => rng.below(256),
            };
            let ghost h1 = rng.draws();
            proof {
                if !(sa is Number) {
                    lemma_extends_push_trans(h0, h0, size as int);
                }
            }
            let top = if string && size > 0 { size - 1 } else { size };
            let sub = rng.between(0, top);
            let ghost h2 = rng.draws();
            proof {
                lemma_extends_refl(h2);
                lemma_extends_refl(h1);
                lemma_extends_push_trans(h1, h1, sub as int);
            }
            let mut buffer: Vec<u8> = vec![0u8; size];
            let mut k: usize = 0;
            while k < sub
                invariant
                    k <= sub <= top <= size,
                    buffer@.len() == size,
                    rng.draws().len() == h2.len() + k,
                    extends(rng.draws(), h2),
                    forall|q: int| h2.len() <= q < h2.len() + k ==> 0 <= #[trigger] rng.draws()[q] < 256
                        && buffer@[q - h2.len()] == rng.draws()[q] as u8,
                    forall|m: int| k <= m < size ==> buffer@[m] == 0u8,
                decreases sub - k,
            {
                let ghost hb = rng.draws();
                let v = rng.below(256);
                proof {
                    lemma_extends_push_trans(hb, h2, v as int);
                    assert forall|q: int| h2.len() <= q < h2.len() + k implies #[trigger] rng.draws()[q] == hb[q] by {}
                }
                buffer.set(k, v as u8);
                k += 1;
            }
            let ghost hf = rng.draws();
            slots.set(j, buffer);
            proof {
                lemma_extends_trans(hf, h2, h1);
                lemma_extends_trans(hf, h1, h0);
                assert forall|ds: Seq<int>| #[trigger] extends(ds, hf) implies gen_normal(*record, j as int, s0, ds, h0.len())
                    == (slots_result(Ok(()), slots@), hf.len()) by {
                    lemma_extends_trans(ds, hf, h2);
                    lemma_extends_push(ds, h1, sub as int);
                    if !(sa is Number) {
                        lemma_extends_trans(ds, h2, h1);
                        lemma_extends_push(h1, h0, size as int);
                        lemma_extends_push(ds, h0, size as int);
                        assert(pick(ds, h0.len(), 256) == size);
                    }
                    assert(pick_between(ds, h1.len(), 0, top as nat) == sub);
                    assert forall|m: int| 0 <= m < size implies #[trigger] random_bytes(ds, h2.len(), size as nat, sub as nat)[m] == buffer@[m] by {
                        if m < sub {
                            let q = h2.len() + m;
                            assert(ds.subrange(0, hf.len() as int)[q] == hf[q]);
                            assert(0 <= hf[q] < 256);
                            assert(pick(ds, q as nat, 256) == hf[q]);
                            assert(buffer@[q - h2.len()] == hf[q] as u8);
                        }
                    }
                    assert(random_bytes(ds, h2.len(), size as nat, sub as nat) =~= buffer@);
                    assert(slots_view(slots@) =~= s0.update(j as int, buffer@));
                }
            }
            Ok(())
        },
    }
}

fn generate_field(rng: &mut Rng, record: &Record, j: usize, slots: &mut Vec<Vec<u8>>, grammar: &Grammar, depth: usize) -> (r: Result<
    (),
    TestlangError,
>)
    requires
        j < record.fields@.len(),
        old(slots)@.len() == record.fields@.len(),
        depth > 0,
    ensures
        final(slots)@.len() == old(slots)@.len(),
        extends(final(rng).draws(), old(rng).draws()),
        forall|ds: Seq<int>|
            #[trigger] extends(ds, final(rng).draws()) ==> gen_field(*grammar, *record, j as int, slots_view(old(slots)@), depth as nat, ds, old(rng).draws().len())
                == (slots_result(r, final(slots)@), final(rng).draws().len()),
    decreases depth, 0int,
{
    let ghost h0 = rng.draws();
    let ghost s0 = slots_view(slots@);
    proof {
        lemma_extends_refl(h0);
    }
    let field = &record.fields[j];
    match field.ty {
        FieldType::Normal => generate_normal(rng, record, j, slots),
        FieldType::Array => {
            let sub = match grammar.records(&field.name) {
                None => return Err(TestlangError::UnknownField(field.name.clone())),
                Some(s) => s,
            };
            let array_size = rng.between(0, MAX_ARRAY_SIZE);
            let ghost h1 = rng.draws();
            proof {
                lemma_extends_push_trans(h0, h0, array_size as int);
                lemma_extends_refl(h1);
            }
            match write_array_size_exec(record, field, slots, array_size) {
                Ok(()) => {},
                Err(e) => {
                    proof {
                        assert forall|ds: Seq<int>| #[trigger] extends(ds, h1) implies gen_field(*grammar, *record, j as int, s0, depth as nat, ds, h0.len())
                            == (slots_result(Err(e), slots@), h1.len()) by {
                            lemma_extends_push(ds, h0, array_size as int);
                        }
                    }
                    return Err(e);
                },
            }
            let ghost s1 = slots_view(slots@);
            let ghost d = (depth - 1) as nat;
            let mut collected: Vec<u8> = Vec::new();
            let mut c: usize = 0;
            while c < array_size
                invariant
                    depth > 0,
                    h0 == old(rng).draws(),
                    s0 == slots_view(old(slots)@),
                    h1 == h0.push(array_size as int),
                    j < record.fields@.len(),
                    *field == record.fields@[j as int],
                    field.ty == FieldType::Array,
                    grammar.lookup(field.name@) == Some(*sub),
                    slots@.len() == old(slots)@.len(),
                    slots_view(slots@) == s1,
                    write_array_size(*record, *field, s0, array_size as nat) == Ok::<Seq<Seq<u8>>, ErrorKind>(s1),
                    c <= array_size <= MAX_ARRAY_SIZE,
                    d == (depth - 1) as nat,
                    extends(rng.draws(), h1),
                    forall|ds: Seq<int>|
                        #[trigger] extends(ds, rng.draws()) ==> gen_elems(*grammar, *sub, (array_size - c) as nat, collected@, d, ds, rng.draws().len())
                            == gen_elems(*grammar, *sub, array_size as nat, Seq::empty(), d, ds, h1.len()),
                decreases array_size - c,
            {
                let ghost hb = rng.draws();
                let ghost cb = collected@;
                let res = generate_at(rng, sub, grammar, depth - 1);
                let ghost ha = rng.draws();
                proof {
                    lemma_extends_trans(ha, hb, h1);
                }
                match res {
                    Ok(bytes) => {
                        crate::tree::append_bytes(&mut collected, bytes.as_slice());
                        proof {
                            assert forall|ds: Seq<int>| #[trigger] extends(ds, ha) implies gen_elems(*grammar, *sub, (array_size - (c + 1)) as nat, collected@, d, ds, ha.len())
                                == gen_elems(*grammar, *sub, array_size as nat, Seq::empty(), d, ds, h1.len()) by {
                                lemma_extends_trans(ds, ha, hb);
                            }
                        }
                    },
                    Err(e) => {
                        proof {
                            assert forall|ds: Seq<int>| #[trigger] extends(ds, ha) implies gen_field(*grammar, *record, j as int, s0, depth as nat, ds, h0.len())
                                == (slots_result(Err(e), slots@), ha.len()) by {
                                lemma_extends_trans(ds, ha, hb);
                                lemma_extends_trans(ds, ha, h1);
                                lemma_extends_push(ds, h0, array_size as int);
                            }
                            lemma_extends_refl(h0);
                            lemma_extends_push_trans(h0, h0, array_size as int);
                            lemma_extends_trans(ha, h1, h0);
                        }
                        return Err(e);
                    },
                }
                c += 1;
            }
            let ghost hf = rng.draws();
            slots.set(j, collected);
            proof {
                lemma_extends_trans(hf, h1, h0);
                assert forall|ds: Seq<int>| #[trigger] extends(ds, hf) implies gen_field(*grammar, *record, j as int, s0, depth as nat, ds, h0.len())
                    == (slots_result(Ok(()), slots@), hf.len()) by {
                    lemma_extends_trans(ds, hf, h1);
                    lemma_extends_push(ds, h0, array_size as int);
                    assert(slots_view(slots@) =~= s1.update(j as int, collected@));
                }
            }
            Ok(())
        },
        FieldType::Record => {
            let sub = match grammar.records(&field.name) {
                None => return Err(TestlangError::UnknownField(field.name.clone())),
                Some(s) => s,
            };
            let res = generate_at(rng, sub, grammar, depth - 1);
            match res {
                Ok(bytes) => {
                    let ghost b = bytes@;
                    slots.set(j, bytes);
                    assert(slots_view(slots@) =~= s0.update(j as int, b));
                    Ok(())
                },
                Err(e) => Err(e),
            }
        },
    }
}

fn generate_at(rng: &mut Rng, record: &Record, grammar: &Grammar, depth: usize) -> (r: Result<Vec<u8>, TestlangError>)
    ensures
        extends(final(rng).draws(), old(rng).draws()),
        forall|ds: Seq<int>|
            #[trigger] extends(ds, final(rng).draws()) ==> gen_record(*grammar, *record, depth as nat, ds, old(rng).draws().len())
                == (bytes_result(r), final(rng).draws().len()),
    decreases depth, 1int,
{
    let ghost h0 = rng.draws();
    proof {
        lemma_extends_refl(h0);
    }
    if depth == 0 {
        return Err(TestlangError::TooDeep);
    }
    if record.ty == RecordType::Union {
        let n = record.fields.len();
        if n == 0 {
            return Err(TestlangError::UnionNoMatch);
        }
        let k = rng.below(n);
        let ghost h1 = rng.draws();
        proof {
            lemma_extends_push_trans(h0, h0, k as int);
        }
        let field = &record.fields[k];
        match grammar.records(&field.name) {
            None => {
                let e = TestlangError::UnknownField(field.name.clone());
                proof {
                    assert forall|ds: Seq<int>| #[trigger] extends(ds, h1) implies gen_record(*grammar, *record, depth as nat, ds, h0.len())
                        == (bytes_result(Err(e)), h1.len()) by {
                        lemma_extends_push(ds, h0, k as int);
                    }
                }
                return Err(e);
            },
            Some(sub) => {
                let res = generate_at(rng, sub, grammar, depth - 1);
                proof {
                    let hf = rng.draws();
                    lemma_extends_trans(hf, h1, h0);
                    assert forall|ds: Seq<int>| #[trigger] extends(ds, hf) implies gen_record(*grammar, *record, depth as nat, ds, h0.len())
                        == (bytes_result(res), hf.len()) by {
                        lemma_extends_trans(ds, hf, h1);
                        lemma_extends_push(ds, h0, k as int);
                    }
                }
                return res;
            },
        }
    }
    let n = record.fields.len();
    let mut slots: Vec<Vec<u8>> = Vec::new();
    let mut i: usize = 0;
    while i < n
        invariant
            n == record.fields@.len(),
            i <= n,
            slots@.len() == i,
            forall|m: int| 0 <= m < i ==> (#[trigger] slots@[m])@ == Seq::<u8>::empty(),
        decreases n - i,
    {
        slots.push(Vec::new());
        i += 1;
    }
    assert(slots_view(slots@) =~= empty_slots(n as nat));
    let ind = record.independent_fields();
    proof {
        record.lemma_independent_ordered();
    }
    let mut t: usize = 0;
    while t < ind.len()
        invariant
            depth > 0,
            h0 == old(rng).draws(),
            record.ty != RecordType::Union,
            n == record.fields@.len(),
            slots@.len() == n,
            ind@.len() == record.independent().len(),
            forall|tt: int| 0 <= tt < ind@.len() ==> #[trigger] ind@[tt].0 as int == record.independent()[tt],
            forall|tt: int| 0 <= tt < record.independent().len() ==> 0 <= #[trigger] record.independent()[tt] < n,
            extends(rng.draws(), h0),
            forall|ds: Seq<int>|
                #[trigger] extends(ds, rng.draws()) ==> gen_fields(*grammar, *record, t as int, slots_view(slots@), depth as nat, ds, rng.draws().len())
                    == gen_fields(*grammar, *record, 0, empty_slots(n as nat), depth as nat, ds, h0.len()),
        decreases ind@.len() - t,
    {
        let j = ind[t].0;
        let ghost hb = rng.draws();
        let ghost sb = slots_view(slots@);
        assert(j as int == record.independent()[t as int]);
        let res = generate_field(rng, record, j, &mut slots, grammar, depth);
        let ghost ha = rng.draws();
        proof {
            lemma_extends_trans(ha, hb, h0);
        }
        match res {
            Ok(()) => {
                proof {
                    assert forall|ds: Seq<int>| #[trigger] extends(ds, ha) implies gen_fields(*grammar, *record, t + 1, slots_view(slots@), depth as nat, ds, ha.len())
                        == gen_fields(*grammar, *record, 0, empty_slots(n as nat), depth as nat, ds, h0.len()) by {
                        lemma_extends_trans(ds, ha, hb);
                    }
                }
            },
            Err(e) => {
                proof {
                    assert forall|ds: Seq<int>| #[trigger] extends(ds, ha) implies gen_record(*grammar, *record, depth as nat, ds, h0.len())
                        == (bytes_result(Err(e)), ha.len()) by {
                        lemma_extends_trans(ds, ha, hb);
                    }
                }
                return Err(e);
            },
        }
        t += 1;
    }
    let mut out: Vec<u8> = Vec::new();
    let mut k: usize = 0;
    while k < slots.len()
        invariant
            k <= slots@.len(),
            out@ == concat(slots_view(slots@), k as int),
        decreases slots@.len() - k,
    {
        crate::tree::append_bytes(&mut out, slots[k].as_slice());
        k += 1;
    }
    proof {
        let hf = rng.draws();
        assert forall|ds: Seq<int>| #[trigger] extends(ds, hf) implies gen_record(*grammar, *record, depth as nat, ds, h0.len())
            == (bytes_result(Ok(out)), hf.len()) by {
            assert(gen_fields(*grammar, *record, t as int, slots_view(slots@), depth as nat, ds, hf.len()) == (
                Ok::<Seq<Seq<u8>>, ErrorKind>(slots_view(slots@)),
                hf.len(),
            ));
        }
    }
    Ok(out)
}

/// Generates bytes for `record`, following the records it names in `grammar`.
/// The result is what `gen_record` gives for the numbers drawn, whatever is
/// drawn after them.
pub fn generate_record(rng: &mut Rng, record: &Record, grammar: &Grammar) -> (r: Result<Vec<u8>, TestlangError>)
    ensures
        extends(final(rng).draws(), old(rng).draws()),
        forall|ds: Seq<int>|
            #[trigger] extends(ds, final(rng).draws()) ==> gen_record(*grammar, *record, MAX_DEPTH as nat, ds, old(rng).draws().len())
                == (bytes_result(r), final(rng).draws().len()),
{
    generate_at(rng, record, grammar, MAX_DEPTH)
}

/// Generates inputs for a grammar, starting at its record `INPUT`.
pub struct TestlangGenerator(pub Grammar);

impl TestlangGenerator {
    pub fn new(grammar: Grammar) -> (r: Self)
        ensures
            r.0 == grammar,
    {
        TestlangGenerator(grammar)
    }

    /// Generates an input; fails with `UnknownRecord` when the grammar has no
    /// record `INPUT`.
    pub fn generate(&self, rng: &mut Rng) -> (r: Result<Vec<u8>, TestlangError>)
        ensures
            extends(final(rng).draws(), old(rng).draws()),
            forall|ds: Seq<int>|
                #[trigger] extends(ds, final(rng).draws()) ==> generate_spec(self.0, ds, old(rng).draws().len())
                    == (bytes_result(r), final(rng).draws().len()),
    {
        let root_name = "INPUT".to_owned();
        match self.0.records(&root_name) {
            None => {
                proof {
                    lemma_extends_refl(rng.draws());
                }
                Err(TestlangError::UnknownRecord(root_name))
            },
            Some(root) => generate_record(rng, root, &self.0),
        }
    }
}

/// `ds1` and `ds2` hold the same draws at the positions from `a` up to `b`.
pub open spec fn agree(ds1: Seq<int>, ds2: Seq<int>, a: nat, b: nat) -> bool {
    &&& b <= ds1.len()
    &&& b <= ds2.len()
    &&& forall|i: int| a <= i < b ==> #[trigger] ds1[i] == ds2[i]
}

proof fn lemma_normal_determined(r: Record, j: int, slots: Seq<Seq<u8>>, ds1: Seq<int>, ds2: Seq<int>, pos: nat)
    requires
        0 <= j < r.fields@.len(),
    ensures
        pos <= gen_normal(r, j, slots, ds1, pos).1,
        agree(ds1, ds2, pos, gen_normal(r, j, slots, ds1, pos).1) ==> gen_normal(r, j, slots, ds2, pos) == gen_normal(r, j, slots, ds1, pos),
{
    let f = r.fields@[j];
    let q = gen_normal(r, j, slots, ds1, pos).1;
    if agree(ds1, ds2, pos, q) {
        if let Some(sa) = f.attr("size"@) {
            if f.attr("value"@) is None {
                let p1: nat = match sa {
                    Attribute::Number(_) => pos,
                    _ => pos + 1,
                };
                if !(sa is Number) {
                    assert(ds1[pos as int] == ds2[pos as int]);
                }
                let size = match sa {
                    Attribute::Number(s) => number_size(s),
                    _ => Ok::<nat, ErrorKind>(pick(ds1, pos, 256)),
                };
                if let Ok(size) = size {
                    assert(ds1[p1 as int] == ds2[p1 as int]);
                    let top = if is_string(f) && size > 0 { (size - 1) as nat } else { size };
                    let sub = pick_between(ds1, p1, 0, top);
                    assert(random_bytes(ds1, p1 + 1, size, sub) =~= random_bytes(ds2, p1 + 1, size, sub));
                }
            }
        }
    }
}

proof fn lemma_record_determined(g: Grammar, r: Record, d: nat, ds1: Seq<int>, ds2: Seq<int>, pos: nat)
    ensures
        pos <= gen_record(g, r, d, ds1, pos).1,
        agree(ds1, ds2, pos, gen_record(g, r, d, ds1, pos).1) ==> gen_record(g, r, d, ds2, pos) == gen_record(g, r, d, ds1, pos),
    decreases d, 3int, 0int,
{
    let q = gen_record(g, r, d, ds1, pos).1;
    if d > 0 {
        if r.ty == RecordType::Union {
            if r.fields@.len() > 0 {
                let k = pick(ds1, pos, r.fields@.len());
                if let Some(sub) = g.lookup(r.fields@[k as int].name@) {
                    lemma_record_determined(g, sub, (d - 1) as nat, ds1, ds2, pos + 1);
                }
                if agree(ds1, ds2, pos, q) {
                    assert(ds1[pos as int] == ds2[pos as int]);
                }
            }
        } else {
            lemma_fields_determined(g, r, 0, empty_slots(r.fields@.len()), d, ds1, ds2, pos);
        }
    }
}

proof fn lemma_fields_determined(g: Grammar, r: Record, t: int, slots: Seq<Seq<u8>>, d: nat, ds1: Seq<int>, ds2: Seq<int>, pos: nat)
    ensures
        pos <= gen_fields(g, r, t, slots, d, ds1, pos).1,
        agree(ds1, ds2, pos, gen_fields(g, r, t, slots, d, ds1, pos).1) ==> gen_fields(g, r, t, slots, d, ds2, pos)
            == gen_fields(g, r, t, slots, d, ds1, pos),
    decreases d, 2int, r.independent().len() - t,
{
    if 0 <= t < r.independent().len() {
        r.lemma_independent_ordered();
        let j = r.independent()[t];
        lemma_field_determined(g, r, j, slots, d, ds1, ds2, pos);
        if let (Ok(s2), p2) = gen_field(g, r, j, slots, d, ds1, pos) {
            lemma_fields_determined(g, r, t + 1, s2, d, ds1, ds2, p2);
        }
    }
}

proof fn lemma_field_determined(g: Grammar, r: Record, j: int, slots: Seq<Seq<u8>>, d: nat, ds1: Seq<int>, ds2: Seq<int>, pos: nat)
    requires
        0 <= j < r.fields@.len(),
    ensures
        pos <= gen_field(g, r, j, slots, d, ds1, pos).1,
        agree(ds1, ds2, pos, gen_field(g, r, j, slots, d, ds1, pos).1) ==> gen_field(g, r, j, slots, d, ds2, pos)
            == gen_field(g, r, j, slots, d, ds1, pos),
    decreases d, 1int, 0int,
{
    let f = r.fields@[j];
    let q = gen_field(g, r, j, slots, d, ds1, pos).1;
    if d > 0 {
        match f.ty {
            FieldType::Normal => {
                lemma_normal_determined(r, j, slots, ds1, ds2, pos);
            },
            FieldType::Array => {
                if let Some(sub) = g.lookup(f.name@) {
                    let m = pick_between(ds1, pos, 0, MAX_ARRAY_SIZE as nat);
                    lemma_elems_determined(g, sub, m, Seq::empty(), (d - 1) as nat, ds1, ds2, pos + 1);
                    if agree(ds1, ds2, pos, q) {
                        assert(ds1[pos as int] == ds2[pos as int]);
                    }
                }
            },
            FieldType::Record => {
                if let Some(sub) = g.lookup(f.name@) {
                    lemma_record_determined(g, sub, (d - 1) as nat, ds1, ds2, pos);
                }
            },
        }
    }
}

proof fn lemma_elems_determined(g: Grammar, sub: Record, m: nat, acc: Seq<u8>, d: nat, ds1: Seq<int>, ds2: Seq<int>, pos: nat)
    ensures
        pos <= gen_elems(g, sub, m, acc, d, ds1, pos).1,
        agree(ds1, ds2, pos, gen_elems(g, sub, m, acc, d, ds1, pos).1) ==> gen_elems(g, sub, m, acc, d, ds2, pos)
            == gen_elems(g, sub, m, acc, d, ds1, pos),
    decreases d, 4int, m,
{
    if m > 0 {
        lemma_record_determined(g, sub, d, ds1, ds2, pos);
        if let (Ok(b), p) = gen_record(g, sub, d, ds1, pos) {
            lemma_elems_determined(g, sub, (m - 1) as nat, acc + b, d, ds1, ds2, p);
        }
    }
}

/// Generation is determined by the draws it reads: two draw sequences that
/// hold the same numbers over the positions that one run consumed give the
/// same bytes (or the same error) and stop at the same position. Random
/// sources seeded alike draw alike, so they generate alike.
pub proof fn lemma_generate_deterministic(g: Grammar, ds1: Seq<int>, ds2: Seq<int>, pos: nat)
    requires
        agree(ds1, ds2, pos, generate_spec(g, ds1, pos).1),
    ensures
        generate_spec(g, ds2, pos) == generate_spec(g, ds1, pos),
{
    if let Some(root) = g.lookup("INPUT"@) {
        lemma_record_determined(g, root, MAX_DEPTH as nat, ds1, ds2, pos);
    }
}

} // verus!
