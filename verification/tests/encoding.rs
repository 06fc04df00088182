use riv_archive::codec::{join_record, parse_record, write_frame, Frame};
use riv_archive::encoder::{encode, encode_op, encode_ops, escape_of, script_or_escape};
use riv_archive::json::{apply_script, edit_of, same_text, zero_value, JsonClass, PatchOp};
use riv_archive::paths::{EncodeError, PathTable};
use serde_json::Value;

fn doc(text: &str) -> Value {
    serde_json::from_str(text).unwrap()
}

#[test]
fn checkpoint_and_incremental_records() {
    let entity = vec![
        (0, doc(r#"{"a":1}"#)),
        (10, doc(r#"{"a":2}"#)),
        (20, doc(r#"{"a":2,"b":3}"#)),
    ];
    let (patches, table, base) = encode(entity, 2).unwrap();
    assert_eq!(base, doc("{}"));
    assert_eq!(table.entries, vec!["/a".to_string(), "/b".to_string()]);
    assert_eq!(patches.len(), 3);
    assert_eq!(patches[0], (0, vec![vec![0, 0, 0, 0, 1, 1]]));
    assert_eq!(patches[1], (10, vec![vec![2, 0, 0, 0, 1, 2]]));
    assert_eq!(patches[2].0, 20);
    assert_eq!(patches[2].1, vec![vec![0, 0, 0, 0, 1, 2], vec![0, 0, 1, 0, 1, 3]]);
}

#[test]
fn type_change_is_one_full_value() {
    let entity = vec![(0, doc(r#"{"x":1}"#)), (5, doc("5"))];
    let (patches, table, base) = encode(entity, 1).unwrap();
    assert_eq!(base, doc("{}"));
    assert_eq!(table.entries, vec!["/x".to_string()]);
    assert_eq!(patches[1], (5, vec![vec![6, 0, 1, 5]]));
}

#[test]
fn escape_wins_at_a_checkpoint_and_between() {
    let entity = vec![
        (1, doc("[1]")),
        (2, doc(r#""s""#)),
        (3, doc("true")),
        (4, doc("[1,2]")),
    ];
    let (patches, _, base) = encode(entity, 2).unwrap();
    assert_eq!(base, doc("[]"));
    assert_eq!(patches[1].1, vec![vec![6, 0, 2, 0xa1, b's']]);
    assert_eq!(patches[2].1, vec![vec![6, 0, 1, 0xc3]]);
    assert_eq!(patches[2].1.len(), 1);
}

#[test]
fn base_is_the_empty_value_of_the_first_class() {
    let cases = [
        ("null", "null"),
        ("true", "false"),
        ("42", "0"),
        (r#""text""#, r#""""#),
        ("[1,2]", "[]"),
        (r#"{"k":null}"#, "{}"),
    ];
    for (first, expected) in cases {
        let (_, _, base) = encode(vec![(7, doc(first))], 3).unwrap();
        assert_eq!(base, doc(expected));
    }
}

#[test]
fn script_that_does_not_replay_gives_way_to_the_escape() {
    // The differ files the change from 7 to {"a":1} as one replace under
    // "/", which does not apply to 7: the record is the escape instead, and
    // the path is not interned.
    let entity = vec![(0, doc(r#"{"a":1}"#)), (1, doc("7")), (2, doc(r#"{"a":1}"#))];
    let (patches, table, _) = encode(entity, 10).unwrap();
    assert_eq!(patches[1].1, vec![vec![6, 0, 1, 7]]);
    assert_eq!(table.entries, vec!["/a".to_string()]);
    assert_eq!(patches[2].1, vec![vec![6, 0, 4, 0x81, 0xa1, b'a', 1]]);
    // A changed scalar is such a script as well, at a checkpoint too; an
    // unchanged one has the empty script.
    let (patches, table, base) = encode(vec![(0, doc("1")), (1, doc("2")), (2, doc("2"))], 3).unwrap();
    assert_eq!(base, doc("0"));
    assert_eq!(table.len(), 0);
    assert_eq!(patches[0].1, vec![vec![6, 0, 1, 1]]);
    assert_eq!(patches[1].1, vec![vec![6, 0, 1, 2]]);
    assert_eq!(patches[2].1, Vec::<Vec<u8>>::new());
}

#[test]
fn script_is_kept_where_it_replays() {
    let ops = script_or_escape(&doc(r#"{"a":1,"b":[1,2]}"#), &doc(r#"{"a":2,"b":[1]}"#));
    assert_eq!(ops.len(), 2);
    assert!(ops.iter().all(|op| !matches!(op, PatchOp::FullValue { .. })));
    let back = apply_script(doc(r#"{"a":1,"b":[1,2]}"#), &ops);
    assert_eq!(back, Some(doc(r#"{"a":2,"b":[1]}"#)));
    let ops = script_or_escape(&doc(r#""x""#), &doc(r#""y""#));
    assert!(matches!(&ops[..], [PatchOp::FullValue { value }] if *value == doc(r#""y""#)));
    assert_eq!(apply_script(doc("1"), &ops), None);
    assert_eq!(apply_script(doc("1"), &vec![]), Some(doc("1")));
    assert!(same_text(&doc("[1, 2]"), &doc("[1,2]")));
    assert!(!same_text(&doc("1"), &doc("1.0")));
    assert!(edit_of(&escape_of(&doc("3"))[0]).is_none());
    assert!(edit_of(&PatchOp::Remove { path: "/a".to_string() }).is_some());
}

#[test]
fn same_series_gives_same_table_and_records() {
    let series = || {
        vec![
            (0, doc(r#"{"b":{"c":1},"a":[1,2]}"#)),
            (1, doc(r#"{"b":{"c":2},"a":[1]}"#)),
            (2, doc(r#"{"d":true}"#)),
        ]
    };
    let (patches, table, base) = encode(series(), 2).unwrap();
    let (again_patches, again_table, again_base) = encode(series(), 2).unwrap();
    assert_eq!(table.entries, again_table.entries);
    assert_eq!(patches, again_patches);
    assert_eq!(base, again_base);
    let mut seen = table.entries.clone();
    seen.sort();
    seen.dedup();
    assert_eq!(seen.len(), table.entries.len());
}

#[test]
fn value_longer_than_the_length_field_is_refused() {
    let long = Value::String("x".repeat(70000));
    let out = encode(vec![(0, doc(r#""""#)), (1, long)], 1);
    assert_eq!(out.err(), Some(EncodeError::ValueTooLarge));
}

#[test]
fn value_of_exactly_the_largest_length_is_kept() {
    // A MessagePack str16 header is three bytes.
    let fits = Value::String("x".repeat(65532));
    let (patches, _, _) = encode(vec![(0, doc("0")), (1, fits)], 1).unwrap();
    assert_eq!(patches[1].1[0].len(), 3 + 65535);
    assert_eq!(&patches[1].1[0][..3], &[6, 0xff, 0xff]);
    let over = Value::String("x".repeat(65533));
    assert_eq!(encode(vec![(0, doc("0")), (1, over)], 1).err(), Some(EncodeError::ValueTooLarge));
}

#[test]
fn full_path_table_refuses_a_new_path() {
    let mut table = PathTable::new();
    for i in 0..65536u32 {
        table.entries.push(format!("/{}", i));
    }
    assert_eq!(table.intern(&"/17".to_string()), Ok(17));
    assert_eq!(table.intern(&"/65535".to_string()), Ok(65535));
    assert_eq!(table.intern(&"/new".to_string()), Err(EncodeError::PathTableFull));
    assert_eq!(table.len(), 65536);
    let op = PatchOp::Remove { path: "/other".to_string() };
    assert_eq!(encode_op(&mut table, &op), Err(EncodeError::PathTableFull));
}

#[test]
fn paths_are_interned_in_first_seen_order() {
    let mut table = PathTable::new();
    assert_eq!(table.intern(&"/b".to_string()), Ok(0));
    assert_eq!(table.intern(&"/a".to_string()), Ok(1));
    assert_eq!(table.intern(&"/b".to_string()), Ok(0));
    assert_eq!(table.len(), 2);
    assert_eq!(table.position(&"/a".to_string()), Some(1));
    assert_eq!(table.position(&"/c".to_string()), None);
    assert_eq!(table.get(1), Some(&"/a".to_string()));
    assert_eq!(table.get(2), None);
}

#[test]
fn each_operation_has_its_code_and_references() {
    let mut table = PathTable::new();
    let ops = vec![
        PatchOp::Add { path: "/p".to_string(), value: doc("true") },
        PatchOp::Remove { path: "/q".to_string() },
        PatchOp::Replace { path: "/p".to_string(), value: doc("null") },
        PatchOp::Move { path: "/r".to_string(), from: "/q".to_string() },
        PatchOp::Copy { path: "/q".to_string(), from: "/s".to_string() },
        PatchOp::Test { path: "/s".to_string(), value: doc("300") },
        PatchOp::FullValue { value: doc("[]") },
    ];
    let parts = encode_ops(&mut table, &ops).unwrap();
    assert_eq!(
        parts,
        vec![
            vec![0, 0, 0, 0, 1, 0xc3],
            vec![1, 0, 1, 0, 0],
            vec![2, 0, 0, 0, 1, 0xc0],
            vec![3, 0, 2, 0, 1, 0, 0],
            vec![4, 0, 1, 0, 3, 0, 0],
            vec![5, 0, 3, 0, 3, 0xcd, 0x01, 0x2c],
            vec![6, 0, 1, 0x90],
        ]
    );
    assert_eq!(table.entries, vec!["/p", "/q", "/r", "/s"]);
}

#[test]
fn references_are_big_endian() {
    let frame = Frame { op_code: 3, refs: vec![0x0102, 0xfffe], value: vec![] };
    assert_eq!(write_frame(&frame), Some(vec![3, 1, 2, 0xff, 0xfe, 0, 0]));
    let frame = Frame { op_code: 0, refs: vec![258], value: vec![9; 300] };
    let bytes = write_frame(&frame).unwrap();
    assert_eq!(&bytes[..5], &[0, 1, 2, 1, 44]);
    assert_eq!(bytes.len(), 305);
    let frame = Frame { op_code: 6, refs: vec![], value: vec![0; 65536] };
    assert_eq!(write_frame(&frame), None);
    let frame = Frame { op_code: 6, refs: vec![], value: vec![0; 65535] };
    assert_eq!(write_frame(&frame).unwrap().len(), 65538);
}

#[test]
fn written_frames_are_read_back() {
    let frames = vec![
        Frame { op_code: 0, refs: vec![7], value: vec![1, 2, 3] },
        Frame { op_code: 4, refs: vec![1, 65535], value: vec![] },
        Frame { op_code: 6, refs: vec![], value: vec![0xc0] },
        Frame { op_code: 1, refs: vec![0], value: vec![] },
    ];
    let parts: Vec<Vec<u8>> = frames.iter().map(|f| write_frame(f).unwrap()).collect();
    let record = join_record(&parts);
    let back = parse_record(&record).unwrap();
    assert_eq!(back.len(), 4);
    for (a, b) in frames.iter().zip(back.iter()) {
        assert_eq!(a.op_code, b.op_code);
        assert_eq!(a.refs, b.refs);
        assert_eq!(a.value, b.value);
    }
    assert_eq!(parse_record(&[]).unwrap().len(), 0);
}

#[test]
fn malformed_records_are_refused() {
    assert!(parse_record(&[7, 0, 0, 0, 0]).is_none());
    assert!(parse_record(&[0, 0, 0, 0]).is_none());
    assert!(parse_record(&[0, 0, 0, 0, 2, 1]).is_none());
    assert!(parse_record(&[1, 0, 0, 0, 1, 1]).is_none());
    assert!(parse_record(&[3, 0, 0, 0, 0]).is_none());
    assert!(parse_record(&[6, 0, 0, 6]).is_none());
    assert!(parse_record(&[6, 0, 0]).is_some());
}

#[test]
fn each_class_has_its_empty_value() {
    assert_eq!(zero_value(JsonClass::Null), Value::Null);
    assert_eq!(zero_value(JsonClass::Bool), Value::Bool(false));
    assert_eq!(zero_value(JsonClass::Number), doc("0"));
    assert_eq!(zero_value(JsonClass::Number).to_string(), "0");
    assert_eq!(zero_value(JsonClass::Str), Value::String(String::new()));
    assert_eq!(zero_value(JsonClass::Array), doc("[]"));
    assert_eq!(zero_value(JsonClass::Object), doc("{}"));
}
