use vstd::prelude::*;

use crate::error::{ErrorKind, TestlangError};
use crate::generator::{extends, gen_record, generate_record};
use crate::grammar::Grammar;
use crate::parser::{parse_spec, MAX_DEPTH};
use crate::rng::Rng;
use crate::tree::{cap, level_count, located_at, ser_record, ParsedRecord};

verus! {

/// Whether a mutation changed the input.
#[derive(Debug, Clone, Copy, PartialEq, Eq, Structural)]
pub enum MutationResult {
    Mutated,
    Skipped,
}

/// `b` with the bytes from `start` to `end` replaced by `x`; both ends are
/// clamped to `b`.
pub open spec fn splice(b: Seq<u8>, start: int, end: int, x: Seq<u8>) -> Seq<u8> {
    let s = if start < b.len() { start } else { b.len() as int };
    let e = if end < b.len() { end } else { b.len() as int };
    b.subrange(0, s) + x + b.subrange(if e < s { s } else { e }, b.len() as int)
}

/// What mutating `blob` gives when the random draws are `ds`, the first read
/// at `pos`: whether it mutated and the new bytes, or the error; and the
/// position of the next unread draw. The first draw picks a depth, the second
/// a record at that depth in depth-first order; that record's bytes are
/// replaced by a fresh generation of a record of the same name.
pub open spec fn mutate_spec(g: Grammar, blob: Seq<u8>, ds: Seq<int>, pos: nat) -> (Result<(bool, Seq<u8>), ErrorKind>, nat) {
    if blob.len() == 0 {
        (Ok((false, blob)), pos)
    } else {
        match parse_spec(g, blob) {
            Err(e) => (Err(e), pos),
            Ok(p) => {
                let (offset, node) = located_at(p, ds[pos as int] as nat, 0)[ds[(pos + 1) as int]];
                match g.lookup(node.name) {
                    None => (Err(ErrorKind::UnknownRecord(node.name)), pos + 2),
                    Some(rec) => match gen_record(g, rec, MAX_DEPTH as nat, ds, pos + 2) {
                        (Ok(b), q) => (Ok((true, splice(ser_record(p), offset, offset + node.size, b))), q),
                        (Err(e), q) => (Err(e), q),
                    },
                }
            },
        }
    }
}

pub open spec fn mutation_view(r: Result<MutationResult, TestlangError>, out: Seq<u8>) -> Result<(bool, Seq<u8>), ErrorKind> {
    match r {
        Ok(MutationResult::Mutated) => Ok((true, out)),
        Ok(MutationResult::Skipped) => Ok((false, out)),
        Err(e) => Err(e@),
    }
}

/// Mutates inputs of a grammar by regenerating one record of their parse tree.
pub struct TestLangMutator(pub Grammar);

fn splice_exec(b: &Vec<u8>, start: usize, end: usize, x: &Vec<u8>) -> (r: Vec<u8>)
    ensures
        r@ == splice(b@, start as int, end as int, x@),
{
    let s = if start < b.len() { start } else { b.len() };
    let e0 = if end < b.len() { end } else { b.len() };
    let e = if e0 < s { s } else { e0 };
    let mut out: Vec<u8> = Vec::new();
    crate::tree::append_bytes(&mut out, vstd::slice::slice_subrange(b.as_slice(), 0, s));
    crate::tree::append_bytes(&mut out, x.as_slice());
    crate::tree::append_bytes(&mut out, vstd::slice::slice_subrange(b.as_slice(), e, b.len()));
    out
}

impl TestLangMutator {
    pub fn new(grammar: Grammar) -> (r: Self)
        ensures
            r.0 == grammar,
    {
        TestLangMutator(grammar)
    }

    /// Mutates `input` in place: an empty input is skipped; otherwise it is
    /// parsed, a depth and then a record at that depth are drawn, and the
    /// record's bytes are replaced by freshly generated bytes for a record of
    /// the same name. The input may change length. On an error it is left as it was.
    pub fn mutate(&self, rng: &mut Rng, input: &mut Vec<u8>) -> (r: Result<MutationResult, TestlangError>)
        ensures
            extends(final(rng).draws(), old(rng).draws()),
            forall|ds: Seq<int>|
                #[trigger] extends(ds, final(rng).draws()) ==> mutate_spec(self.0, old(input)@, ds, old(rng).draws().len())
                    == (mutation_view(r, final(input)@), final(rng).draws().len()),
            r is Err ==> final(input)@ == old(input)@,
            old(input)@.len() == 0 ==> r == Ok::<MutationResult, TestlangError>(MutationResult::Skipped),
            old(input)@.len() > 0 && r is Ok ==> ({
                let pos = old(rng).draws().len() as int;
                let d = final(rng).draws()[pos];
                let p = parse_spec(self.0, old(input)@)->Ok_0;
                &&& 0 <= d
                &&& level_count(p, d as nat) > 0
                &&& 0 <= final(rng).draws()[pos + 1] < cap(level_count(p, d as nat) as int)
            }),
    {
        let ghost h0 = rng.draws();
        proof {
            crate::generator::lemma_extends_refl(h0);
        }
        if input.len() == 0 {
            return Ok(MutationResult::Skipped);
        }
        let parsed = match ParsedRecord::parse(input.as_slice(), &self.0) {
            Ok(p) => p,
            Err(e) => return Err(e),
        };
        let ghost p = parsed@;
        let hm = parsed.height_map();
        proof {
            assert(located_at(p, 0, 0).len() == 1);
        }
        assert(hm@.len() > 0);
        let depth = rng.below(hm.len());
        assert(hm@[depth as int] as int == cap(level_count(p, depth as nat) as int));
        let index = rng.below(hm[depth]);
        let ghost h2 = rng.draws();
        let (offset, node) = parsed.locate(depth, index).unwrap();
        let ghost hd = h0.push(depth as int);
        proof {
            crate::generator::lemma_extends_push_trans(h0, h0, depth as int);
            crate::generator::lemma_extends_push_trans(hd, h0, index as int);
        }
        let rec = match self.0.records(&node.name) {
            None => {
                let e = TestlangError::UnknownRecord(node.name.clone());
                proof {
                    assert forall|ds: Seq<int>| #[trigger] extends(ds, h2) implies mutate_spec(self.0, old(input)@, ds, h0.len())
                        == (mutation_view(Err(e), input@), h2.len()) by {
                        crate::generator::lemma_extends_push(ds, hd, index as int);
                        crate::generator::lemma_extends_push(ds, h0, depth as int);
                    }
                }
                return Err(e);
            },
            Some(rec) => rec,
        };
        let new_record = generate_record(rng, rec, &self.0);
        let ghost hf = rng.draws();
        proof {
            crate::generator::lemma_extends_trans(hf, h2, h0);
        }
        match new_record {
            Err(e) => {
                proof {
                    assert forall|ds: Seq<int>| #[trigger] extends(ds, hf) implies mutate_spec(self.0, old(input)@, ds, h0.len())
                        == (mutation_view(Err(e), input@), hf.len()) by {
                        crate::generator::lemma_extends_trans(ds, hf, h2);
                        crate::generator::lemma_extends_push(ds, hd, index as int);
                        crate::generator::lemma_extends_push(ds, h0, depth as int);
                    }
                }
                Err(e)
            },
            Ok(bytes) => {
                let ser = parsed.serialize();
                let end = offset.saturating_add(node.size);
                let slen = ser.len();
                assert(splice(ser@, offset as int, offset + node.size, bytes@) == splice(ser@, offset as int, end as int, bytes@));
                let out = splice_exec(&ser, offset, end, &bytes);
                *input = out;
                proof {
                    assert forall|ds: Seq<int>| #[trigger] extends(ds, hf) implies mutate_spec(self.0, old(input)@, ds, h0.len())
                        == (mutation_view(Ok(MutationResult::Mutated), input@), hf.len()) by {
                        crate::generator::lemma_extends_trans(ds, hf, h2);
                        crate::generator::lemma_extends_push(ds, hd, index as int);
                        crate::generator::lemma_extends_push(ds, h0, depth as int);
                    }
                    crate::generator::lemma_extends_push(hf, hd, index as int);
                    crate::generator::lemma_extends_push(hf, h0, depth as int);
                    assert(hf[h0.len() as int] == depth);
                    assert(hf[(h0.len() + 1) as int] == index);
                }
                Ok(MutationResult::Mutated)
            },
        }
    }
}

} // verus!
