use std::time::Duration;

use testlang_fuzz::cli::{dll_extension, timeout_from_millis_str, InvalidMillis};
use testlang_fuzz::encoding::{bytes_to_integer, value_to_bytes};
use testlang_fuzz::error::TestlangError;
use testlang_fuzz::generator::{generate_record, TestlangGenerator};
use testlang_fuzz::grammar::{Attribute, Field, FieldType, Grammar, Record, RecordType};
use testlang_fuzz::mutator::{MutationResult, TestLangMutator};
use testlang_fuzz::rng::Rng;
use testlang_fuzz::tree::{ParsedField, ParsedRecord};

fn field(name: &str, ty: FieldType, attrs: Vec<(&str, Attribute)>) -> Field {
    Field {
        name: name.to_string(),
        ty,
        attributes: attrs.into_iter().map(|(k, v)| (k.to_string(), v)).collect(),
    }
}

fn record(name: &str, ty: RecordType, fields: Vec<Field>) -> Record {
    Record { name: name.to_string(), ty, fields }
}

fn num(n: i128) -> Attribute {
    Attribute::Number(n)
}

fn word(w: &str) -> Attribute {
    Attribute::Word(w.to_string())
}

fn reference(r: &str) -> Attribute {
    Attribute::Reference(r.to_string())
}

/// A length byte followed by that many one-byte records.
fn length_prefixed() -> Grammar {
    Grammar(vec![
        record(
            "INPUT",
            RecordType::Sequential,
            vec![
                field("len", FieldType::Normal, vec![("size", num(1))]),
                field("Byte", FieldType::Array, vec![("size", reference("len")), ("array_size", reference("len"))]),
            ],
        ),
        record("Byte", RecordType::Sequential, vec![field("b", FieldType::Normal, vec![("size", num(1))])]),
    ])
}

fn tagged() -> Grammar {
    Grammar(vec![record(
        "INPUT",
        RecordType::Sequential,
        vec![
            field("tag", FieldType::Normal, vec![("size", num(1)), ("value", num(0x7F))]),
            field("body", FieldType::Normal, vec![("size", num(4))]),
        ],
    )])
}

fn union_ab() -> Grammar {
    Grammar(vec![
        record(
            "INPUT",
            RecordType::Union,
            vec![field("A", FieldType::Record, vec![]), field("B", FieldType::Record, vec![])],
        ),
        record("A", RecordType::Sequential, vec![field("x", FieldType::Normal, vec![("size", num(2)), ("value", word("AA"))])]),
        record("B", RecordType::Sequential, vec![field("y", FieldType::Normal, vec![("size", num(2)), ("value", word("BB"))])]),
    ])
}

fn counted_leaves() -> Grammar {
    Grammar(vec![
        record(
            "INPUT",
            RecordType::Sequential,
            vec![
                field("cnt", FieldType::Normal, vec![("size", num(2))]),
                field("Leaf", FieldType::Array, vec![("size", reference("cnt")), ("array_size", reference("cnt"))]),
            ],
        ),
        record("Leaf", RecordType::Sequential, vec![field("v", FieldType::Normal, vec![("size", num(1))])]),
    ])
}

fn two_halves() -> Grammar {
    Grammar(vec![record(
        "INPUT",
        RecordType::Sequential,
        vec![
            field("a", FieldType::Normal, vec![("size", num(2))]),
            field("b", FieldType::Normal, vec![("size", num(2))]),
        ],
    )])
}

fn single(f: Field) -> Grammar {
    Grammar(vec![record("INPUT", RecordType::Sequential, vec![f])])
}

#[test]
fn length_prefixed_generation_round_trips() {
    let grammar = length_prefixed();
    let mut rng = Rng::with_seed(0);
    let generator = TestlangGenerator::new(length_prefixed());
    for _ in 0..20 {
        let bytes = generator.generate(&mut rng).unwrap();
        let count = bytes[0] as usize;
        assert!(count <= 5);
        assert_eq!(bytes.len(), 1 + count);
        let parsed = ParsedRecord::parse(&bytes, &grammar).unwrap();
        assert_eq!(parsed.size, bytes.len());
        assert_eq!(parsed.serialize(), bytes);
    }
}

#[test]
fn fixed_tag_accepts_and_rejects() {
    let grammar = tagged();
    let parsed = ParsedRecord::parse(&[0x7F, 0, 1, 2, 3], &grammar).unwrap();
    assert_eq!(parsed.size, 5);
    assert_eq!(parsed.fields.len(), 2);
    assert_eq!(ParsedRecord::parse(&[0x7E, 0, 1, 2, 3], &grammar).unwrap_err(), TestlangError::ValueMismatch);
}

#[test]
fn union_picks_first_matching_alternative() {
    let grammar = union_ab();
    let a = ParsedRecord::parse(&[0x41, 0x41], &grammar).unwrap();
    assert_eq!(a.name, "INPUT");
    assert_eq!(a.fields.len(), 1);
    assert_eq!(a.fields[0].0, "A");
    let b = ParsedRecord::parse(&[0x42, 0x42], &grammar).unwrap();
    match &b.fields[0].1 {
        ParsedField::Record { name, size, record } => {
            assert_eq!(name, "B");
            assert_eq!(*size, 2);
            assert_eq!(record.name, "B");
        }
        other => panic!("unexpected field {:?}", other),
    }
    assert_eq!(ParsedRecord::parse(&[0x43, 0x43], &grammar).unwrap_err(), TestlangError::UnionNoMatch);
}

#[test]
fn array_size_writer_encodes_count() {
    let grammar = counted_leaves();
    let generator = TestlangGenerator::new(counted_leaves());
    let mut seen_three = false;
    for seed in 0..64 {
        let mut rng = Rng::with_seed(seed);
        let bytes = generator.generate(&mut rng).unwrap();
        let count = u16::from_ne_bytes([bytes[0], bytes[1]]) as usize;
        assert!(count <= 5);
        assert_eq!(bytes.len(), 2 + count);
        if count == 3 {
            seen_three = true;
            assert_eq!(&bytes[0..2], &3u16.to_ne_bytes());
        }
        let parsed = ParsedRecord::parse(&bytes, &grammar).unwrap();
        assert_eq!(parsed.serialize(), bytes);
    }
    assert!(seen_three);
}

#[test]
fn parse_then_serialize_is_identity() {
    let grammar = two_halves();
    let parsed = ParsedRecord::parse(&[1, 2, 3, 4], &grammar).unwrap();
    assert_eq!(parsed.serialize(), vec![1, 2, 3, 4]);
}

#[test]
fn repeated_mutation_keeps_inputs_parseable() {
    let grammar = length_prefixed();
    let mutator = TestLangMutator::new(length_prefixed());
    let mut rng = Rng::with_seed(0);
    let mut input = vec![3, 10, 20, 30];
    for _ in 0..5 {
        let result = mutator.mutate(&mut rng, &mut input).unwrap();
        assert_eq!(result, MutationResult::Mutated);
        let parsed = ParsedRecord::parse(&input, &grammar).unwrap();
        assert_eq!(parsed.serialize(), input);
    }
}

#[test]
fn empty_input_is_skipped() {
    let mutator = TestLangMutator::new(length_prefixed());
    let mut rng = Rng::with_seed(0);
    let mut input: Vec<u8> = vec![];
    assert_eq!(mutator.mutate(&mut rng, &mut input), Ok(MutationResult::Skipped));
    assert!(input.is_empty());
}

#[test]
fn mutation_propagates_parse_errors() {
    let mutator = TestLangMutator::new(tagged());
    let mut rng = Rng::with_seed(0);
    let mut input = vec![0x7E, 0, 1, 2, 3];
    assert_eq!(mutator.mutate(&mut rng, &mut input), Err(TestlangError::ValueMismatch));
    assert_eq!(input, vec![0x7E, 0, 1, 2, 3]);
}

#[test]
fn mutation_of_fixed_layout_keeps_length() {
    let grammar = tagged();
    let mutator = TestLangMutator::new(tagged());
    let mut rng = Rng::with_seed(7);
    let mut input = vec![0x7F, 9, 9, 9, 9];
    for _ in 0..10 {
        assert_eq!(mutator.mutate(&mut rng, &mut input), Ok(MutationResult::Mutated));
        assert_eq!(input.len(), 5);
        assert_eq!(input[0], 0x7F);
        assert!(ParsedRecord::parse(&input, &grammar).is_ok());
    }
}

#[test]
fn zero_sized_array_is_empty() {
    let grammar = Grammar(vec![
        record(
            "INPUT",
            RecordType::Sequential,
            vec![
                field("Item", FieldType::Array, vec![("size", num(0))]),
                field("tail", FieldType::Normal, vec![("size", num(1))]),
            ],
        ),
        record("Item", RecordType::Sequential, vec![field("v", FieldType::Normal, vec![("size", num(1))])]),
    ]);
    let parsed = ParsedRecord::parse(&[5], &grammar).unwrap();
    match &parsed.fields[0].1 {
        ParsedField::Array { size, records, .. } => {
            assert_eq!(*size, 0);
            assert!(records.is_empty());
        }
        other => panic!("unexpected field {:?}", other),
    }
    assert_eq!(parsed.size, 1);
}

#[test]
fn empty_union_never_matches() {
    let grammar = Grammar(vec![record("INPUT", RecordType::Union, vec![])]);
    assert_eq!(ParsedRecord::parse(&[1, 2, 3], &grammar).unwrap_err(), TestlangError::UnionNoMatch);
    assert_eq!(ParsedRecord::parse(&[], &grammar).unwrap_err(), TestlangError::UnionNoMatch);
    let mut rng = Rng::with_seed(0);
    assert_eq!(TestlangGenerator::new(grammar).generate(&mut rng), Err(TestlangError::UnionNoMatch));
}

#[test]
fn zero_sized_normal_is_empty() {
    let grammar = single(field("nothing", FieldType::Normal, vec![("size", num(0))]));
    let parsed = ParsedRecord::parse(&[], &grammar).unwrap();
    assert_eq!(parsed.size, 0);
    match &parsed.fields[0].1 {
        ParsedField::Normal { size, value, .. } => {
            assert_eq!(*size, 0);
            assert!(value.is_empty());
        }
        other => panic!("unexpected field {:?}", other),
    }
}

#[test]
fn independent_fields_keep_order() {
    let r = record(
        "R",
        RecordType::Sequential,
        vec![
            field("len", FieldType::Normal, vec![("size", num(1))]),
            field("data", FieldType::Normal, vec![("size", reference("len"))]),
            field("copy", FieldType::Normal, vec![("size", num(1)), ("value", reference("data"))]),
            field("Item", FieldType::Array, vec![("array_size", reference("count"))]),
            field("count", FieldType::Normal, vec![("size", num(2))]),
            field("tail", FieldType::Normal, vec![("size", num(1))]),
        ],
    );
    let ind = r.independent_fields();
    let indices: Vec<usize> = ind.iter().map(|(i, _)| *i).collect();
    assert_eq!(indices, vec![1, 3, 5]);
    assert_eq!(ind[0].1.name, "data");
    assert_eq!(ind[2].1.name, "tail");
}

#[test]
fn leaves_add_up_to_size() {
    let grammar = length_prefixed();
    let parsed = ParsedRecord::parse(&[2, 7, 8, 99], &grammar).unwrap();
    assert_eq!(parsed.size, 3);
    assert_eq!(parsed.serialize().len(), parsed.size);
    assert_eq!(parsed.serialize(), vec![2, 7, 8]);
}

#[test]
fn same_seed_same_output() {
    let generator = TestlangGenerator::new(counted_leaves());
    for seed in 0..10 {
        let mut r1 = Rng::with_seed(seed);
        let mut r2 = Rng::with_seed(seed);
        for _ in 0..5 {
            assert_eq!(generator.generate(&mut r1), generator.generate(&mut r2));
        }
    }
}

#[test]
fn generated_union_parses() {
    let grammar = union_ab();
    let generator = TestlangGenerator::new(union_ab());
    let mut rng = Rng::with_seed(3);
    for _ in 0..10 {
        let bytes = generator.generate(&mut rng).unwrap();
        assert!(bytes == b"AA".to_vec() || bytes == b"BB".to_vec());
        assert!(ParsedRecord::parse(&bytes, &grammar).is_ok());
    }
}

#[test]
fn string_fields_end_in_zero() {
    let grammar = single(field("s", FieldType::Normal, vec![("size", num(8)), ("type", word("string"))]));
    let generator = TestlangGenerator::new(grammar);
    for seed in 0..20 {
        let mut rng = Rng::with_seed(seed);
        let bytes = generator.generate(&mut rng).unwrap();
        assert_eq!(bytes.len(), 8);
        assert_eq!(bytes[7], 0);
    }
}

#[test]
fn unsized_normal_fields_stay_below_256_bytes() {
    let grammar = Grammar(vec![
        record("INPUT", RecordType::Sequential, vec![field("Body", FieldType::Record, vec![])]),
        record("Body", RecordType::Sequential, vec![field("raw", FieldType::Normal, vec![("size", word("any"))])]),
    ]);
    let generator = TestlangGenerator::new(grammar);
    let mut rng = Rng::with_seed(11);
    for _ in 0..20 {
        assert!(generator.generate(&mut rng).unwrap().len() < 256);
    }
}

#[test]
fn word_values_are_zero_padded() {
    let grammar = single(field("magic", FieldType::Normal, vec![("size", num(4)), ("value", word("MZ"))]));
    let mut rng = Rng::with_seed(0);
    let bytes = TestlangGenerator::new(single(field("magic", FieldType::Normal, vec![("size", num(4)), ("value", word("MZ"))])))
        .generate(&mut rng)
        .unwrap();
    assert_eq!(bytes, vec![b'M', b'Z', 0, 0]);
    assert!(ParsedRecord::parse(&[b'M', b'Z', 0, 0], &grammar).is_ok());
    assert_eq!(ParsedRecord::parse(&[b'M', b'Z', 0, 1], &grammar).unwrap_err(), TestlangError::ValueMismatch);
}

#[test]
fn missing_root_is_unknown_record() {
    let grammar = Grammar(vec![record("OTHER", RecordType::Sequential, vec![])]);
    assert_eq!(ParsedRecord::parse(&[1], &grammar).unwrap_err(), TestlangError::UnknownRecord("INPUT".to_string()));
    let mut rng = Rng::with_seed(0);
    assert_eq!(
        TestlangGenerator::new(Grammar(vec![])).generate(&mut rng),
        Err(TestlangError::UnknownRecord("INPUT".to_string()))
    );
}

#[test]
fn missing_nested_record_is_unknown_field() {
    let grammar = single(field("Nowhere", FieldType::Record, vec![]));
    assert_eq!(ParsedRecord::parse(&[1], &grammar).unwrap_err(), TestlangError::UnknownField("Nowhere".to_string()));
    let mut rng = Rng::with_seed(0);
    assert_eq!(
        TestlangGenerator::new(single(field("Nowhere", FieldType::Record, vec![]))).generate(&mut rng),
        Err(TestlangError::UnknownField("Nowhere".to_string()))
    );
}

#[test]
fn invalid_sizes_are_reported() {
    let negative = single(field("x", FieldType::Normal, vec![("size", num(-1))]));
    assert_eq!(ParsedRecord::parse(&[1], &negative).unwrap_err(), TestlangError::InvalidSize(Some(-1)));
    let worded = single(field("x", FieldType::Normal, vec![("size", word("two"))]));
    assert_eq!(ParsedRecord::parse(&[1], &worded).unwrap_err(), TestlangError::InvalidSize(None));
    let odd_width = single(field("x", FieldType::Normal, vec![("size", num(3)), ("value", num(1))]));
    assert_eq!(ParsedRecord::parse(&[1, 0, 0], &odd_width).unwrap_err(), TestlangError::InvalidSize(Some(3)));
    let mut rng = Rng::with_seed(0);
    assert_eq!(
        TestlangGenerator::new(single(field("x", FieldType::Normal, vec![("size", num(3)), ("value", num(1))]))).generate(&mut rng),
        Err(TestlangError::InvalidSize(Some(3)))
    );
}

#[test]
fn bad_references_are_reported() {
    let dangling = single(field("data", FieldType::Normal, vec![("size", reference("len"))]));
    assert_eq!(ParsedRecord::parse(&[1], &dangling).unwrap_err(), TestlangError::InvalidReference("len".to_string()));
    let value_ref = single(field("x", FieldType::Normal, vec![("size", num(1)), ("value", reference("y"))]));
    assert_eq!(ParsedRecord::parse(&[1], &value_ref).unwrap_err(), TestlangError::InvalidReference("y".to_string()));
    let wide = Grammar(vec![record(
        "INPUT",
        RecordType::Sequential,
        vec![
            field("len", FieldType::Normal, vec![("size", num(3))]),
            field("data", FieldType::Normal, vec![("size", reference("len"))]),
        ],
    )]);
    assert_eq!(ParsedRecord::parse(&[1, 0, 0, 5], &wide).unwrap_err(), TestlangError::InvalidSize(Some(3)));
}

#[test]
fn short_input_is_reported() {
    let grammar = two_halves();
    assert_eq!(ParsedRecord::parse(&[1, 2, 3], &grammar).unwrap_err(), TestlangError::ShortInput);
}

#[test]
fn referenced_size_reads_earlier_field() {
    let grammar = Grammar(vec![record(
        "INPUT",
        RecordType::Sequential,
        vec![
            field("len", FieldType::Normal, vec![("size", num(2))]),
            field("data", FieldType::Normal, vec![("size", reference("len"))]),
        ],
    )]);
    let mut input = 3u16.to_ne_bytes().to_vec();
    input.extend_from_slice(&[9, 8, 7, 6]);
    let parsed = ParsedRecord::parse(&input, &grammar).unwrap();
    assert_eq!(parsed.size, 5);
    match &parsed.fields[1].1 {
        ParsedField::Normal { value, .. } => assert_eq!(value, &vec![9, 8, 7]),
        other => panic!("unexpected field {:?}", other),
    }
}

#[test]
fn greedy_array_stops_at_failure() {
    let grammar = Grammar(vec![
        record("INPUT", RecordType::Sequential, vec![field("Digit", FieldType::Array, vec![])]),
        record("Digit", RecordType::Sequential, vec![field("d", FieldType::Normal, vec![("size", num(1)), ("value", num(7))])]),
    ]);
    let parsed = ParsedRecord::parse(&[7, 7, 7, 1, 7], &grammar).unwrap();
    assert_eq!(parsed.size, 3);
    match &parsed.fields[0].1 {
        ParsedField::Array { records, size, .. } => {
            assert_eq!(records.len(), 3);
            assert_eq!(*size, 3);
        }
        other => panic!("unexpected field {:?}", other),
    }
}

#[test]
fn self_nesting_is_too_deep() {
    let grammar = single(field("INPUT", FieldType::Record, vec![]));
    assert_eq!(ParsedRecord::parse(&[1], &grammar).unwrap_err(), TestlangError::TooDeep);
    let mut rng = Rng::with_seed(0);
    assert_eq!(
        TestlangGenerator::new(single(field("INPUT", FieldType::Record, vec![]))).generate(&mut rng),
        Err(TestlangError::TooDeep)
    );
}

#[test]
fn height_map_counts_levels() {
    let grammar = length_prefixed();
    let parsed = ParsedRecord::parse(&[2, 7, 8], &grammar).unwrap();
    assert_eq!(parsed.height_map(), vec![1, 2]);
    let second = parsed.find_record(1, 1).unwrap();
    assert_eq!(second.name, "Byte");
    assert_eq!(second.serialize(), vec![8]);
    assert_eq!(parsed.locate(1, 1).map(|(offset, _)| offset), Some(2));
    assert_eq!(parsed.locate(0, 0).map(|(offset, r)| (offset, r.size)), Some((0, 3)));
    assert!(parsed.find_record(1, 2).is_none());
    assert!(parsed.find_record(2, 0).is_none());
}

#[test]
fn lookup_by_name() {
    let grammar = length_prefixed();
    assert_eq!(grammar.records(&"Byte".to_string()).unwrap().fields.len(), 1);
    assert!(grammar.records(&"Missing".to_string()).is_none());
    let f = field("f", FieldType::Normal, vec![("size", num(1)), ("size", num(2))]);
    assert_eq!(f.attribute("size"), Some(&Attribute::Number(1)));
    assert_eq!(f.attribute("value"), None);
}

#[test]
fn numbers_encode_in_native_order() {
    assert_eq!(value_to_bytes(0x0102, 2).unwrap(), 0x0102u16.to_ne_bytes().to_vec());
    assert_eq!(value_to_bytes(0x01020304, 4).unwrap(), 0x01020304u32.to_ne_bytes().to_vec());
    assert_eq!(value_to_bytes(0x0102030405060708, 8).unwrap(), 0x0102030405060708u64.to_ne_bytes().to_vec());
    assert_eq!(value_to_bytes(0x1ff, 1).unwrap(), vec![0xff]);
    assert_eq!(value_to_bytes(1, 16).unwrap(), 1u128.to_ne_bytes().to_vec());
    assert_eq!(value_to_bytes(1, 3).unwrap_err(), TestlangError::InvalidSize(Some(3)));
    assert_eq!(value_to_bytes(1, 0).unwrap_err(), TestlangError::InvalidSize(Some(0)));
}

#[test]
fn numbers_decode_in_native_order() {
    assert_eq!(bytes_to_integer(&0xBEEFu16.to_ne_bytes(), 2).unwrap(), 0xBEEF);
    assert_eq!(bytes_to_integer(&0xDEADBEEFu32.to_ne_bytes(), 4).unwrap(), 0xDEADBEEF);
    assert_eq!(bytes_to_integer(&u64::MAX.to_ne_bytes(), 8).unwrap(), u64::MAX as u128);
    assert_eq!(bytes_to_integer(&(u128::MAX - 5).to_ne_bytes(), 16).unwrap(), u128::MAX - 5);
    assert_eq!(bytes_to_integer(&[0x2a, 0xff], 1).unwrap(), 0x2a);
    assert_eq!(bytes_to_integer(&[1, 2, 3], 3).unwrap_err(), TestlangError::InvalidSize(Some(3)));
    for v in [0u128, 1, 255, 256, 65535] {
        assert_eq!(bytes_to_integer(&value_to_bytes(v, 2).unwrap(), 2).unwrap(), v);
    }
}

#[test]
fn negative_numbers_wrap_to_width() {
    let grammar = single(field("x", FieldType::Normal, vec![("size", num(2)), ("value", num(-1))]));
    assert!(ParsedRecord::parse(&[0xff, 0xff], &grammar).is_ok());
    assert_eq!(ParsedRecord::parse(&[0xff, 0xfe], &grammar).unwrap_err(), TestlangError::ValueMismatch);
}

#[test]
fn random_source_stays_in_range() {
    let mut rng = Rng::with_seed(42);
    for n in 1..50 {
        assert!(rng.below(n) < n);
        let r = rng.between(3, 3 + n);
        assert!((3..=3 + n).contains(&r));
    }
    assert_eq!(rng.between(9, 9), 9);
}

#[test]
fn direct_record_generation() {
    let grammar = counted_leaves();
    let leaf = grammar.records(&"Leaf".to_string()).unwrap();
    let mut rng = Rng::with_seed(5);
    assert_eq!(generate_record(&mut rng, leaf, &grammar).unwrap().len(), 1);
}

#[test]
fn millisecond_timeouts() {
    assert_eq!(timeout_from_millis_str("1500"), Ok(Duration::from_millis(1500)));
    assert_eq!(timeout_from_millis_str("+7"), Ok(Duration::from_millis(7)));
    assert_eq!(timeout_from_millis_str("18446744073709551615"), Ok(Duration::from_millis(u64::MAX)));
    assert_eq!(timeout_from_millis_str("18446744073709551616"), Err(InvalidMillis));
    assert_eq!(timeout_from_millis_str(""), Err(InvalidMillis));
    assert_eq!(timeout_from_millis_str("+"), Err(InvalidMillis));
    assert_eq!(timeout_from_millis_str("-5"), Err(InvalidMillis));
    assert_eq!(timeout_from_millis_str("12a"), Err(InvalidMillis));
}

#[test]
fn shared_object_extension() {
    assert_eq!(dll_extension(), "so");
}

#[test]
fn error_messages() {
    assert_eq!(TestlangError::ShortInput.message(), "input too short");
    assert_eq!(TestlangError::UnionNoMatch.message(), "no union alternative matched");
}

#[test]
fn fixed_layout_generation_parses() {
    let grammar = Grammar(vec![
        record(
            "INPUT",
            RecordType::Sequential,
            vec![
                field("magic", FieldType::Normal, vec![("size", num(4)), ("value", word("TL"))]),
                field("Header", FieldType::Record, vec![]),
                field("name", FieldType::Normal, vec![("size", num(6)), ("type", word("string"))]),
            ],
        ),
        record(
            "Header",
            RecordType::Sequential,
            vec![
                field("version", FieldType::Normal, vec![("size", num(2)), ("value", num(3))]),
                field("flags", FieldType::Normal, vec![("size", num(1))]),
            ],
        ),
    ]);
    let mut rng = Rng::with_seed(0);
    for _ in 0..10 {
        let root = grammar.records(&"INPUT".to_string()).unwrap();
        let bytes = generate_record(&mut rng, root, &grammar).unwrap();
        assert_eq!(bytes.len(), 13);
        assert_eq!(&bytes[0..4], b"TL\0\0");
        assert_eq!(&bytes[4..6], &3u16.to_ne_bytes());
        let parsed = ParsedRecord::parse(&bytes, &grammar).unwrap();
        assert_eq!(parsed.size, bytes.len());
        assert_eq!(parsed.height_map(), vec![1, 1]);
    }
}

#[test]
fn ambiguous_union_breaks_round_trip() {
    let grammar = Grammar(vec![
        record(
            "INPUT",
            RecordType::Sequential,
            vec![
                field("U", FieldType::Record, vec![]),
                field("t", FieldType::Normal, vec![("size", num(1)), ("value", num(9))]),
            ],
        ),
        record("U", RecordType::Union, vec![field("A", FieldType::Record, vec![]), field("B", FieldType::Record, vec![])]),
        record("A", RecordType::Sequential, vec![field("a", FieldType::Normal, vec![("size", num(1))])]),
        record("B", RecordType::Sequential, vec![field("b", FieldType::Normal, vec![("size", num(2))])]),
    ]);
    assert_eq!(ParsedRecord::parse(&[5, 1, 9], &grammar).unwrap_err(), TestlangError::ValueMismatch);
    assert!(ParsedRecord::parse(&[5, 9], &grammar).is_ok());
}
