use riv_archive::archive::{archive_entity, append_block, load_window, window_start, ArchiveError};
use riv_archive::codec::Frame;
use riv_archive::decoder::{apply_record, decode_frame, replay, DecodeError};
use riv_archive::encoder::encode;
use riv_archive::index::{archive_snapshots, read_snapshot, BuildError, EntityTable};
use riv_archive::json::PatchOp;
use riv_archive::paths::{EncodeError, PathTable};
use serde_json::Value;
use zstd::block::{Compressor, Decompressor};

fn doc(text: &str) -> Value {
    serde_json::from_str(text).unwrap()
}

fn series(texts: &[&str]) -> Vec<(u32, Value)> {
    texts.iter().enumerate().map(|(i, t)| (10 * i as u32, doc(t))).collect()
}

#[test]
fn snapshot_is_replayed_from_its_checkpoint() {
    let entity = series(&[r#"{"a":1}"#, r#"{"a":2}"#, r#"{"a":2,"b":3}"#]);
    let mut blob = Vec::new();
    let entry = archive_snapshots(&mut blob, &mut Compressor::new(), entity, 2).unwrap();
    let mut d = Decompressor::new();
    let window = load_window(&entry.patches, 2, &blob, &mut d, 1, 1 << 20).unwrap();
    assert_eq!(window, vec![vec![0, 0, 0, 0, 1, 1], vec![2, 0, 0, 0, 1, 2]]);
    assert_eq!(replay(&entry.path_map, &entry.base, &window), Ok(doc(r#"{"a":2}"#)));
    assert_eq!(read_snapshot(&entry, &blob, &mut d, 1, 1 << 20), Ok(doc(r#"{"a":2}"#)));
    assert_eq!(read_snapshot(&entry, &blob, &mut d, 2, 1 << 20), Ok(doc(r#"{"a":2,"b":3}"#)));
}

#[test]
fn full_value_discards_the_value_before() {
    let entity = series(&[r#"{"x":1}"#, "5"]);
    let mut blob = Vec::new();
    let entry = archive_snapshots(&mut blob, &mut Compressor::new(), entity, 100).unwrap();
    let mut d = Decompressor::new();
    assert_eq!(read_snapshot(&entry, &blob, &mut d, 1, 4096), Ok(doc("5")));
    let table = PathTable::new();
    assert_eq!(apply_record(&table, doc(r#"{"x":1}"#), &[6, 0, 1, 5]), Ok(doc("5")));
}

#[test]
fn every_snapshot_comes_back_for_every_interval() {
    let texts = [
        r#"{"name":"a","tags":["x","y"],"n":1}"#,
        r#"{"name":"b","tags":["x"],"n":1}"#,
        r#"{"name":"b","tags":["x"],"n":1}"#,
        r#"{"name":"b","tags":[],"deep":{"k":{"j":[null,1.5,"s"]}}}"#,
        r#"{"name":"b","tags":[],"deep":{"k":{"j":[null,2.5]}}}"#,
        r#"{"deep":{"k":{}},"big":18446744073709551615}"#,
        r#"{}"#,
        r#"{"n":-3,"tags":["a~b","c/d"]}"#,
        r#""gone""#,
        r#"{"":1}"#,
        r#"{"":2,"a":{"":[]}}"#,
        "17",
        r#"{"":2}"#,
    ];
    for every in [1u16, 2, 3, 5, 8, 1000] {
        let mut blob = vec![1, 2, 3];
        let entry =
            archive_snapshots(&mut blob, &mut Compressor::new(), series(&texts), every).unwrap();
        assert_eq!(entry.checkpoint_every, every);
        let mut d = Decompressor::new();
        for (i, t) in texts.iter().enumerate() {
            assert_eq!(read_snapshot(&entry, &blob, &mut d, i, 1 << 16), Ok(doc(t)));
        }
        assert_eq!(
            read_snapshot(&entry, &blob, &mut d, texts.len(), 1 << 16),
            Err(DecodeError::OutOfRange)
        );
    }
}

#[test]
fn record_after_an_escape_replays() {
    let texts = [r#"{"x":1}"#, "[1]", r#"{"y":2}"#, r#"{"y":3}"#];
    let mut d = Decompressor::new();
    for every in [1u16, 2, 3, 4, 9] {
        let mut blob = Vec::new();
        let entry =
            archive_snapshots(&mut blob, &mut Compressor::new(), series(&texts), every).unwrap();
        for (i, t) in texts.iter().enumerate() {
            assert_eq!(read_snapshot(&entry, &blob, &mut d, i, 4096), Ok(doc(t)));
        }
    }
}

#[test]
fn failing_script_is_refused_without_undoing() {
    // The move applies and the remove after it does not.
    let mut table = PathTable::new();
    for p in ["/a", "/a/b", "/zz"] {
        table.intern(&p.to_string()).unwrap();
    }
    let record = [3, 0, 0, 0, 1, 0, 0, 1, 0, 2, 0, 0];
    let start = doc(r#"{"a":{"b":1}}"#);
    assert_eq!(apply_record(&table, start.clone(), &record), Err(DecodeError::PatchFailed));
    assert_eq!(apply_record(&table, start, &record[..7]), Ok(doc(r#"{"a":1}"#)));
}

#[test]
fn window_holds_at_most_one_interval_of_records() {
    assert_eq!(window_start(0, 4), 0);
    assert_eq!(window_start(3, 4), 0);
    assert_eq!(window_start(4, 4), 4);
    assert_eq!(window_start(11, 4), 8);
    assert_eq!(window_start(11, 1), 11);
    assert_eq!(window_start(11, 65535), 0);
    let texts: Vec<String> = (0..10).map(|i| format!(r#"{{"v":{}}}"#, i)).collect();
    let refs: Vec<&str> = texts.iter().map(|s| s.as_str()).collect();
    let mut blob = Vec::new();
    let entry = archive_snapshots(&mut blob, &mut Compressor::new(), series(&refs), 4).unwrap();
    let mut d = Decompressor::new();
    for i in 0..10 {
        let w = load_window(&entry.patches, 4, &blob, &mut d, i, 4096).unwrap();
        assert_eq!(w.len(), i % 4 + 1);
    }
}

#[test]
fn offsets_tile_the_blob_in_order() {
    let mut blob = vec![9u8; 5];
    let mut c = Compressor::new();
    let first = archive_snapshots(&mut blob, &mut c, series(&["1", "2", "3"]), 2).unwrap();
    let mid = blob.len();
    let second = archive_snapshots(&mut blob, &mut c, series(&["[]", "[1]"]), 2).unwrap();
    assert_eq!(&blob[..5], &[9u8; 5]);
    assert_eq!(first.patches.len(), 3);
    assert_eq!(first.patches[0].1, 5);
    assert_eq!(first.patches[2].2 as usize, mid);
    assert_eq!(second.patches[0].1 as usize, mid);
    assert_eq!(second.patches[1].2 as usize, blob.len());
    let all: Vec<(u32, u32, u32)> =
        first.patches.iter().chain(second.patches.iter()).cloned().collect();
    for pair in all.windows(2) {
        assert!(pair[0].1 < pair[0].2);
        assert_eq!(pair[0].2, pair[1].1);
    }
    assert_eq!(first.patches.iter().map(|p| p.0).collect::<Vec<_>>(), vec![0, 10, 20]);
}

#[test]
fn region_holds_the_compressed_record() {
    let (patches, _, _) = encode(series(&[r#"{"a":1}"#]), 1).unwrap();
    let mut blob = Vec::new();
    let offsets = archive_entity(&mut blob, &mut Compressor::new(), &patches).unwrap();
    assert_eq!(offsets.len(), 1);
    let (t, s, e) = offsets[0];
    assert_eq!((t, s), (0, 0));
    let plain = zstd::block::decompress(&blob[s as usize..e as usize], 100).unwrap();
    assert_eq!(plain, vec![0, 0, 0, 0, 1, 1]);
    assert_eq!(archive_entity(&mut blob, &mut Compressor::new(), &Vec::new()), Ok(vec![]));
}

#[test]
fn dictionary_changes_the_bytes_and_not_the_content() {
    let text = format!(r#"{{"story":"{}"}}"#, "the quick brown fox jumps over the lazy dog ".repeat(8));
    let entity = || vec![(1u32, doc(&text))];
    let dict: Vec<u8> = "the quick brown fox jumps over the lazy dog ".repeat(8).into_bytes();
    let mut plain_blob = Vec::new();
    let mut dict_blob = Vec::new();
    let a = archive_snapshots(&mut plain_blob, &mut Compressor::new(), entity(), 1).unwrap();
    let b = archive_snapshots(&mut dict_blob, &mut Compressor::with_dict(dict.clone()), entity(), 1)
        .unwrap();
    assert_ne!(plain_blob, dict_blob);
    let x = read_snapshot(&a, &plain_blob, &mut Decompressor::new(), 0, 1 << 16).unwrap();
    let y = read_snapshot(&b, &dict_blob, &mut Decompressor::with_dict(dict.clone()), 0, 1 << 16)
        .unwrap();
    assert_eq!(x, y);
    assert_eq!(x, doc(&text));
    let wa = load_window(&a.patches, 1, &plain_blob, &mut Decompressor::new(), 0, 1 << 16);
    let wb = load_window(&b.patches, 1, &dict_blob, &mut Decompressor::with_dict(dict), 0, 1 << 16);
    assert_eq!(wa, wb);
}

#[test]
fn append_reports_the_region_written() {
    let mut blob = vec![0u8; 3];
    assert_eq!(append_block(&mut blob, &vec![7, 8]), Ok((3, 5)));
    assert_eq!(blob, vec![0, 0, 0, 7, 8]);
    assert_eq!(append_block(&mut blob, &vec![]), Err(ArchiveError::EmptyBlock));
    assert_eq!(blob.len(), 5);
}

#[test]
fn bad_regions_and_bad_blocks_are_told_apart() {
    let mut d = Decompressor::new();
    let blob = vec![0u8; 4];
    assert_eq!(load_window(&vec![(0, 0, 9)], 1, &blob, &mut d, 0, 64), Err(DecodeError::OutOfRange));
    assert_eq!(load_window(&vec![(0, 3, 2)], 1, &blob, &mut d, 0, 64), Err(DecodeError::OutOfRange));
    assert_eq!(load_window(&vec![(0, 0, 4)], 1, &blob, &mut d, 1, 64), Err(DecodeError::OutOfRange));
    assert_eq!(load_window(&vec![(0, 0, 4)], 1, &blob, &mut d, 0, 64), Err(DecodeError::Corrupt));
    assert_eq!(
        load_window(&vec![(0, 0, 4)], 1, &blob, &mut d, 0, usize::MAX / 2 + 1),
        Err(DecodeError::CapacityTooLarge)
    );
    assert_eq!(
        load_window(&vec![(0, 0, 9)], 1, &blob, &mut d, 0, usize::MAX),
        Err(DecodeError::OutOfRange)
    );
}

#[test]
fn each_decoding_error_has_its_input() {
    let mut table = PathTable::new();
    table.intern(&"/a".to_string()).unwrap();
    let base = doc(r#"{"a":1}"#);
    assert_eq!(apply_record(&table, base.clone(), &[9]), Err(DecodeError::Malformed));
    assert_eq!(apply_record(&table, base.clone(), &[1, 0, 1, 0, 0]), Err(DecodeError::UnknownPath));
    assert_eq!(apply_record(&table, base.clone(), &[0, 0, 0, 0, 1, 0xc1]), Err(DecodeError::BadValue));
    assert_eq!(apply_record(&table, base.clone(), &[0, 0, 0, 0, 0]), Err(DecodeError::BadValue));
    assert_eq!(
        apply_record(&table, doc("{}"), &[1, 0, 0, 0, 0]),
        Err(DecodeError::PatchFailed)
    );
    assert_eq!(
        apply_record(&table, base.clone(), &[6, 0, 1, 5, 1, 0, 0, 0, 0]),
        Err(DecodeError::Malformed)
    );
    assert_eq!(apply_record(&table, base.clone(), &[1, 0, 0, 0, 0]), Ok(doc("{}")));
    assert_eq!(apply_record(&table, base.clone(), &[]), Ok(base.clone()));
    assert_eq!(replay(&table, &base, &vec![]), Ok(base.clone()));
    assert_eq!(
        replay(&table, &base, &vec![vec![1, 0, 0, 0, 0], vec![1, 0, 0, 0, 0]]),
        Err(DecodeError::PatchFailed)
    );
}

#[test]
fn frames_turn_back_into_operations() {
    let mut table = PathTable::new();
    table.intern(&"/a".to_string()).unwrap();
    table.intern(&"/b".to_string()).unwrap();
    let op = decode_frame(&table, &Frame { op_code: 3, refs: vec![1, 0], value: vec![] }).unwrap();
    assert!(matches!(op, PatchOp::Move { ref path, ref from } if path == "/b" && from == "/a"));
    let op = decode_frame(&table, &Frame { op_code: 5, refs: vec![0], value: vec![0xc3] }).unwrap();
    assert!(matches!(op, PatchOp::Test { ref path, ref value } if path == "/a" && *value == doc("true")));
    let bad = decode_frame(&table, &Frame { op_code: 3, refs: vec![1], value: vec![] });
    assert!(matches!(bad, Err(DecodeError::Malformed)));
    let bad = decode_frame(&table, &Frame { op_code: 4, refs: vec![0, 2], value: vec![] });
    assert!(matches!(bad, Err(DecodeError::UnknownPath)));
}

#[test]
fn table_keeps_one_entry_for_each_id() {
    let mut blob = Vec::new();
    let mut c = Compressor::new();
    let mut table = EntityTable::new();
    let one = archive_snapshots(&mut blob, &mut c, series(&["1"]), 1).unwrap();
    let two = archive_snapshots(&mut blob, &mut c, series(&["[]", "[1]"]), 1).unwrap();
    let three = archive_snapshots(&mut blob, &mut c, series(&["{}", "{}", "{}"]), 1).unwrap();
    assert!(!table.insert("x".to_string(), one));
    assert!(!table.insert("y".to_string(), two));
    assert_eq!(table.len(), 2);
    assert_eq!(table.get(&"x".to_string()).unwrap().patches.len(), 1);
    assert!(table.insert("x".to_string(), three));
    assert_eq!(table.len(), 2);
    assert_eq!(table.get(&"x".to_string()).unwrap().patches.len(), 3);
    assert_eq!(table.get(&"y".to_string()).unwrap().patches.len(), 2);
    assert!(table.get(&"z".to_string()).is_none());
    assert_eq!(table.position(&"y".to_string()), Some(1));
}

#[test]
fn failed_encoding_leaves_the_blob_alone() {
    let mut blob = vec![4u8, 5, 6];
    let entity = vec![(0, doc("[]")), (1, Value::String("y".repeat(66000)))];
    let out = archive_snapshots(&mut blob, &mut Compressor::new(), entity, 4);
    assert!(matches!(out, Err(BuildError::Encode(EncodeError::ValueTooLarge))));
    assert_eq!(blob, vec![4u8, 5, 6]);
}

#[test]
fn scalar_series_comes_back() {
    let mut d = Decompressor::new();
    for texts in [
        vec!["1", "2", "2", "-7", "1.5"],
        vec![r#""a""#, r#""b""#, "null", r#""b""#],
        vec!["true", "false", "false", "[]"],
        vec!["null", "null"],
        vec!["[1,2,3]", "[1]", "[]", "[4,5,6,7]"],
    ] {
        for every in [1u16, 2, 3, 100] {
            let mut blob = Vec::new();
            let entry =
                archive_snapshots(&mut blob, &mut Compressor::new(), series(&texts), every)
                    .unwrap();
            for (i, t) in texts.iter().enumerate() {
                assert_eq!(read_snapshot(&entry, &blob, &mut d, i, 4096), Ok(doc(t)));
            }
        }
    }
    let mut blob = Vec::new();
    let entry =
        archive_snapshots(&mut blob, &mut Compressor::new(), series(&["0", "0"]), 1).unwrap();
    assert_eq!(entry.path_map.len(), 0);
    assert_eq!(load_window(&entry.patches, 1, &blob, &mut d, 1, 4096), Ok(vec![vec![]]));
}
