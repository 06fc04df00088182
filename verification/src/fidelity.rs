//! What the decoder gives back: replaying the window of a snapshot restores
//! the snapshot.

use vstd::prelude::*;
use vstd::arithmetic::div_mod::{
    lemma_fundamental_div_mod, lemma_fundamental_div_mod_converse, lemma_mod_bound,
    lemma_mod_multiples_basic,
};
use vstd::arithmetic::mul::lemma_mul_is_commutative;
use serde_json::Value;
use crate::archive::{checkpoint_of, lemma_entities_apart, plain_records, tiled};
use crate::codec::{
    frame_bytes, frame_ok, joined, lemma_parse_written, record_bytes, FrameModel,
};
use crate::decoder::{frame_op, frames_ops, ops_value, record_value, replay_value, DecodeError};
use crate::encoder::{
    base_text, encode_prefix, full_value, op_frame, ops_frames, patches_hold, payload_of,
    record_ops, rows, script_replays, script_source, wire, EntityPatch,
};
use crate::json::{class_of_text, diff_ops, lemma_patched_all_no_escape, op_shaped, OpModel};
use crate::paths::{distinct, intern_all, interned, lemma_interned_extends, MAX_PATHS};

verus! {

/// `big` begins with `small`.
pub open spec fn extends(small: Seq<Seq<char>>, big: Seq<Seq<char>>) -> bool {
    small.len() <= big.len() && forall|i: int| 0 <= i < small.len() ==> big[i] == small[i]
}

/// A path table's invariant, on its view.
pub open spec fn table_ok(table: Seq<Seq<char>>) -> bool {
    distinct(table) && table.len() <= MAX_PATHS
}

/// The records from the checkpoint of snapshot `i` up to its own, as bytes.
pub open spec fn window_of(records: Seq<Seq<FrameModel>>, every: int, i: int) -> Seq<Seq<u8>> {
    Seq::new(
        (i - checkpoint_of(i, every) + 1) as nat,
        |m: int| record_bytes(records[checkpoint_of(i, every) + m]),
    )
}

/// The bytes of a record with one more frame are the record's bytes and
/// then the frame's.
proof fn lemma_record_bytes_push(frames: Seq<FrameModel>, f: FrameModel)
    ensures
        record_bytes(frames.push(f)) == record_bytes(frames) + frame_bytes(f),
    decreases frames.len(),
{
    let grown = frames.push(f);
    if frames.len() == 0 {
        assert(grown.skip(1) =~= Seq::<FrameModel>::empty());
        assert(record_bytes(grown.skip(1)) =~= Seq::<u8>::empty());
        assert(record_bytes(frames) =~= Seq::<u8>::empty());
        assert(grown[0] == f);
        assert(record_bytes(grown) =~= record_bytes(frames) + frame_bytes(f));
    } else {
        lemma_record_bytes_push(frames.skip(1), f);
        assert(grown.skip(1) =~= frames.skip(1).push(f));
        assert(record_bytes(grown) =~= record_bytes(frames) + frame_bytes(f));
    }
}

/// Replaying the records from the checkpoint of snapshot `i` up to its own,
/// as the encoder wrote them, gives snapshot `i`.
pub open spec fn restores(docs: Seq<Seq<char>>, every: int, i: int) -> bool {
    encode_prefix(docs, every, docs.len() as int) matches Ok(r) && replay_value(
        r.0,
        base_text(docs),
        window_of(r.1, every, i),
        window_of(r.1, every, i).len() as int,
    ) == Ok::<Seq<char>, DecodeError>(docs[i])
}

/// The records of an encoding as they are handed to the archive: the bytes of
/// each.
pub open spec fn written_records(records: Seq<Seq<FrameModel>>) -> Seq<Seq<u8>> {
    Seq::new(records.len(), |i: int| record_bytes(records[i]))
}

/// What the archive compresses are the records of the encoding.
pub proof fn lemma_plain_records_written(
    patches: Seq<EntityPatch>,
    entity: Seq<(u32, Value)>,
    records: Seq<Seq<FrameModel>>,
)
    requires
        patches_hold(patches, entity, records),
    ensures
        plain_records(patches) == written_records(records),
{
    assert forall|i: int| 0 <= i < patches.len() implies plain_records(patches)[i]
        == written_records(records)[i] by {
        let parts = (#[trigger] patches[i]).1@;
        assert(rows(parts) == wire(records[i]));
        assert(rows(parts).len() == parts.len());
        assert(wire(records[i]).len() == records[i].len());
        lemma_joined_is_record(parts, records[i], parts.len() as int);
        assert(records[i].take(parts.len() as int) =~= records[i]);
    }
    assert(plain_records(patches) =~= written_records(records));
}

/// The regions of any number of entities archived one after the other never
/// overlap: entity `a` lies in the blob from `bounds[a]` to `bounds[a + 1]`,
/// and every region of an earlier entity ends before any region of a later
/// one begins.
pub proof fn lemma_all_entities_apart(tables: Seq<Seq<(u32, u32, u32)>>, bounds: Seq<int>)
    requires
        bounds.len() == tables.len() + 1,
        forall|a: int|
            0 <= a < tables.len() ==> tiled(#[trigger] tables[a], bounds[a], bounds[a + 1]),
    ensures
        forall|a: int, b: int, i: int, j: int|
            0 <= a < b < tables.len() && 0 <= i < tables[a].len() && 0 <= j < tables[b].len()
                ==> (#[trigger] tables[a][i]).2 <= (#[trigger] tables[b][j]).1,
{
    assert forall|a: int, b: int, i: int, j: int|
        0 <= a < b < tables.len() && 0 <= i < tables[a].len() && 0 <= j < tables[b].len() implies (
    #[trigger] tables[a][i]).2 <= (#[trigger] tables[b][j]).1 by {
        lemma_bounds_ascend(tables, bounds, a + 1, b);
        lemma_entities_apart(tables[a], tables[b], bounds[a], bounds[a + 1], bounds[b], bounds[b + 1]);
    }
}

/// The bounds between entities archived in turn ascend.
proof fn lemma_bounds_ascend(tables: Seq<Seq<(u32, u32, u32)>>, bounds: Seq<int>, a: int, b: int)
    requires
        bounds.len() == tables.len() + 1,
        forall|e: int|
            0 <= e < tables.len() ==> tiled(#[trigger] tables[e], bounds[e], bounds[e + 1]),
        0 <= a <= b <= tables.len(),
    ensures
        bounds[a] <= bounds[b],
    decreases b - a,
{
    if a < b {
        lemma_bounds_ascend(tables, bounds, a + 1, b);
        assert(tiled(tables[a], bounds[a], bounds[a + 1]));
    }
}

/// The byte strings of a record's operations, joined, are the record's bytes:
/// what the archive compresses is what the decoder parses.
pub proof fn lemma_joined_is_record(parts: Seq<Vec<u8>>, frames: Seq<FrameModel>, n: int)
    requires
        rows(parts) == wire(frames),
        0 <= n <= parts.len(),
    ensures
        joined(parts, n) == record_bytes(frames.take(n)),
    decreases n,
{
    assert(rows(parts).len() == parts.len());
    assert(wire(frames).len() == frames.len());
    if n > 0 {
        lemma_joined_is_record(parts, frames, n - 1);
        lemma_record_bytes_push(frames.take(n - 1), frames[n - 1]);
        assert(frames.take(n - 1).push(frames[n - 1]) =~= frames.take(n));
        assert(rows(parts)[n - 1] == wire(frames)[n - 1]);
    } else {
        assert(frames.take(0) =~= Seq::<FrameModel>::empty());
    }
}

/// Interning a list of paths keeps the table's invariant, keeps what it held
/// where it was, and leaves every one of the paths in it.
pub proof fn lemma_intern_all_extends(table: Seq<Seq<char>>, paths: Seq<Seq<char>>)
    requires
        table_ok(table),
        intern_all(table, paths).is_some(),
    ensures
        table_ok(intern_all(table, paths).unwrap()),
        extends(table, intern_all(table, paths).unwrap()),
        forall|m: int|
            0 <= m < paths.len() ==> intern_all(table, paths).unwrap().contains(#[trigger] paths[m]),
    decreases paths.len(),
{
    if paths.len() > 0 {
        let head = paths.drop_last();
        lemma_intern_all_extends(table, head);
        let t1 = intern_all(table, head).unwrap();
        lemma_interned_extends(t1, paths.last());
        let t2 = interned(t1, paths.last()).unwrap();
        assert forall|m: int| 0 <= m < paths.len() implies t2.contains(#[trigger] paths[m]) by {
            if m < paths.len() - 1 {
                assert(head[m] == paths[m]);
                assert(t1.contains(head[m]));
                let w = choose|w: int| 0 <= w < t1.len() && t1[w] == paths[m];
                assert(t2[w] == paths[m]);
            }
        }
    }
}

/// The frame of an operation, read against any later state of the table, is
/// the operation again.
proof fn lemma_frame_inverts(table: Seq<Seq<char>>, op: OpModel, big: Seq<Seq<char>>)
    requires
        table_ok(table),
        op_frame(table, op).is_ok(),
        extends(op_frame(table, op).unwrap().0, big),
        table_ok(big),
        op_shaped(op),
    ensures
        frame_ok(op_frame(table, op).unwrap().1),
        frame_op(big, op_frame(table, op).unwrap().1) == Ok::<OpModel, DecodeError>(op),
{
    let (t2, f) = op_frame(table, op).unwrap();
    lemma_intern_all_extends(table, op.paths);
    assert(f.refs.len() == op.paths.len());
    assert forall|m: int| 0 <= m < op.paths.len() implies f.refs[m] < t2.len() && big[f.refs[m] as int]
        == op.paths[m] by {
        assert(t2.contains(op.paths[m]));
        let idx = t2.index_of(op.paths[m]);
        assert(0 <= idx < t2.len() && t2[idx] == op.paths[m]);
        assert(f.refs[m] == idx as u16);
        assert(big[idx] == t2[idx]);
    }
    let paths = Seq::new(f.refs.len(), |j: int| big[f.refs[j] as int]);
    assert(paths =~= op.paths);
    assert(payload_of(op.value).is_ok());
    assert(frame_ok(f));
    if f.refs.len() >= 1 {
        assert(f.refs[0] < t2.len());
    }
    if f.refs.len() >= 2 {
        assert(f.refs[1] < t2.len());
    }
}

/// Encoding operations keeps the table's invariant, only appends to it, and
/// yields one frame for each operation.
pub proof fn lemma_ops_frames_grow(table: Seq<Seq<char>>, ops: Seq<OpModel>, n: int)
    requires
        table_ok(table),
        0 <= n <= ops.len(),
        ops_frames(table, ops, n).is_ok(),
    ensures
        table_ok(ops_frames(table, ops, n).unwrap().0),
        extends(table, ops_frames(table, ops, n).unwrap().0),
        ops_frames(table, ops, n).unwrap().1.len() == n,
    decreases n,
{
    if n > 0 {
        lemma_ops_frames_grow(table, ops, n - 1);
        let t1 = ops_frames(table, ops, n - 1).unwrap().0;
        lemma_intern_all_extends(t1, ops[n - 1].paths);
    }
}

/// What the first `n` frames stand for depends on those frames alone.
proof fn lemma_frames_ops_agree(
    table: Seq<Seq<char>>,
    a: Seq<FrameModel>,
    b: Seq<FrameModel>,
    n: int,
)
    requires
        forall|i: int| 0 <= i < n ==> a[i] == b[i],
    ensures
        frames_ops(table, a, n) == frames_ops(table, b, n),
    decreases n,
{
    if n > 0 {
        lemma_frames_ops_agree(table, a, b, n - 1);
    }
}

/// The frames of a list of operations, read against any later state of the
/// table, are the operations again.
proof fn lemma_ops_frames_invert(
    table: Seq<Seq<char>>,
    ops: Seq<OpModel>,
    n: int,
    big: Seq<Seq<char>>,
)
    requires
        table_ok(table),
        0 <= n <= ops.len(),
        ops_frames(table, ops, n).is_ok(),
        extends(ops_frames(table, ops, n).unwrap().0, big),
        table_ok(big),
        forall|m: int| 0 <= m < n ==> op_shaped(#[trigger] ops[m]),
    ensures
        ops_frames(table, ops, n).unwrap().1.len() == n,
        forall|m: int| 0 <= m < n ==> frame_ok(#[trigger] ops_frames(table, ops, n).unwrap().1[m]),
        frames_ops(big, ops_frames(table, ops, n).unwrap().1, n) == Ok::<
            Seq<OpModel>,
            DecodeError,
        >(ops.take(n)),
    decreases n,
{
    let (t2, frames) = ops_frames(table, ops, n).unwrap();
    if n > 0 {
        let (t1, before) = ops_frames(table, ops, n - 1).unwrap();
        lemma_ops_frames_grow(table, ops, n - 1);
        lemma_intern_all_extends(t1, ops[n - 1].paths);
        lemma_ops_frames_invert(table, ops, n - 1, big);
        lemma_frame_inverts(t1, ops[n - 1], big);
        let f = op_frame(t1, ops[n - 1]).unwrap().1;
        assert(frames == before.push(f));
        lemma_frames_ops_agree(big, frames, before, n - 1);
        assert(frames[n - 1] == f);
        assert(ops.take(n - 1).push(ops[n - 1]) =~= ops.take(n));
        assert forall|m: int| 0 <= m < n implies frame_ok(#[trigger] frames[m]) by {
            if m < n - 1 {
                assert(frames[m] == before[m]);
            }
        }
    } else {
        assert(ops.take(0) =~= Seq::<OpModel>::empty());
    }
}

/// A record written from a list of operations reads back, against any later
/// state of the table, as those operations.
proof fn lemma_record_restores(
    table: Seq<Seq<char>>,
    ops: Seq<OpModel>,
    big: Seq<Seq<char>>,
    current: Seq<char>,
)
    requires
        table_ok(table),
        ops_frames(table, ops, ops.len() as int).is_ok(),
        extends(ops_frames(table, ops, ops.len() as int).unwrap().0, big),
        table_ok(big),
        forall|m: int| 0 <= m < ops.len() ==> op_shaped(#[trigger] ops[m]),
    ensures
        record_value(
            big,
            current,
            record_bytes(ops_frames(table, ops, ops.len() as int).unwrap().1),
        ) == ops_value(current, ops),
{
    let frames = ops_frames(table, ops, ops.len() as int).unwrap().1;
    lemma_ops_frames_invert(table, ops, ops.len() as int, big);
    lemma_parse_written(frames);
    assert(ops.take(ops.len() as int) =~= ops);
}

/// The path table of an encoding never repeats a path, stays within the
/// index space, and only grows from one snapshot to the next, so an index
/// once given out keeps its path.
pub proof fn lemma_encode_prefix_grows(docs: Seq<Seq<char>>, every: int, n: int)
    requires
        0 <= n,
        encode_prefix(docs, every, n).is_ok(),
    ensures
        table_ok(encode_prefix(docs, every, n).unwrap().0),
        encode_prefix(docs, every, n).unwrap().1.len() == n,
        n > 0 ==> encode_prefix(docs, every, n - 1).is_ok() && extends(
            encode_prefix(docs, every, n - 1).unwrap().0,
            encode_prefix(docs, every, n).unwrap().0,
        ),
    decreases n,
{
    if n > 0 {
        lemma_encode_prefix_grows(docs, every, n - 1);
        let t = encode_prefix(docs, every, n - 1).unwrap().0;
        let ops = record_ops(docs, every, n - 1);
        lemma_ops_frames_grow(t, ops, ops.len() as int);
    }
}

/// The record of a snapshot does not depend on the snapshots after it, and
/// the table as it stood after that record is the beginning of the final one.
pub proof fn lemma_record_in_prefix(docs: Seq<Seq<char>>, every: int, n: int, j: int)
    requires
        0 <= j < n,
        encode_prefix(docs, every, n).is_ok(),
    ensures
        encode_prefix(docs, every, j).is_ok(),
        encode_prefix(docs, every, j + 1).is_ok(),
        encode_prefix(docs, every, n).unwrap().1.len() == n,
        encode_prefix(docs, every, n).unwrap().1[j] == encode_prefix(docs, every, j + 1).unwrap().1[j],
        extends(
            encode_prefix(docs, every, j + 1).unwrap().0,
            encode_prefix(docs, every, n).unwrap().0,
        ),
    decreases n,
{
    lemma_encode_prefix_grows(docs, every, n);
    if j < n - 1 {
        lemma_record_in_prefix(docs, every, n - 1, j);
        lemma_encode_prefix_grows(docs, every, n - 1);
    }
}

/// The checkpoint of a snapshot lies at or before it, less than one interval
/// away.
pub proof fn lemma_checkpoint_bounds(i: int, every: int)
    requires
        0 <= i,
        every >= 1,
    ensures
        0 <= checkpoint_of(i, every) <= i,
        i - checkpoint_of(i, every) < every,
        checkpoint_of(i, every) % every == 0,
{
    lemma_fundamental_div_mod(i, every);
    lemma_mod_bound(i, every);
    lemma_mul_is_commutative(i / every, every);
    lemma_mod_multiples_basic(i / every, every);
}

/// Within a window only the first position is a checkpoint.
proof fn lemma_window_positions(i: int, every: int, j: int)
    requires
        0 <= i,
        every >= 1,
        checkpoint_of(i, every) <= j <= i,
    ensures
        0 <= checkpoint_of(i, every) <= i,
        i - checkpoint_of(i, every) < every,
        (j % every == 0) <==> j == checkpoint_of(i, every),
{
    let k = checkpoint_of(i, every);
    lemma_fundamental_div_mod(i, every);
    lemma_mod_bound(i, every);
    lemma_mul_is_commutative(i / every, every);
    lemma_mod_multiples_basic(i / every, every);
    lemma_fundamental_div_mod_converse(j, every, i / every, j - k);
}

/// Replaying the window of snapshot `i` up to position `j` gives snapshot `j`.
proof fn lemma_replay_upto(docs: Seq<Seq<char>>, every: int, i: int, j: int)
    requires
        every >= 1,
        0 <= i < docs.len(),
        checkpoint_of(i, every) <= j <= i,
        encode_prefix(docs, every, docs.len() as int).is_ok(),
    ensures
        replay_value(
            encode_prefix(docs, every, docs.len() as int).unwrap().0,
            base_text(docs),
            window_of(encode_prefix(docs, every, docs.len() as int).unwrap().1, every, i),
            j - checkpoint_of(i, every) + 1,
        ) == Ok::<Seq<char>, DecodeError>(docs[j]),
    decreases j,
{
    let n = docs.len() as int;
    let k = checkpoint_of(i, every);
    let (big, records) = encode_prefix(docs, every, n).unwrap();
    let window = window_of(records, every, i);
    lemma_window_positions(i, every, j);
    if j > k {
        lemma_replay_upto(docs, every, i, j - 1);
    }
    let current = if j > k { docs[j - 1] } else { base_text(docs) };
    assert(replay_value(big, base_text(docs), window, j - k) == Ok::<Seq<char>, DecodeError>(
        current,
    ));
    let source = script_source(docs, every, j);
    assert(current == source);
    lemma_record_in_prefix(docs, every, n, j);
    lemma_encode_prefix_grows(docs, every, n);
    lemma_encode_prefix_grows(docs, every, j);
    let t = encode_prefix(docs, every, j).unwrap().0;
    let ops = record_ops(docs, every, j);
    let script = diff_ops(source, docs[j]);
    let escaped = class_of_text(docs[j]) != class_of_text(docs[0]) || !script_replays(
        source,
        script,
        docs[j],
    );
    if escaped {
        assert(ops[0] == full_value(docs[j]));
    } else {
        lemma_patched_all_no_escape(source, ops, ops.len() as int);
    }
    assert forall|m: int| 0 <= m < ops.len() implies op_shaped(#[trigger] ops[m]) by {}
    lemma_record_restores(t, ops, big, current);
    assert(window[j - k] == record_bytes(records[j]));
}

/// Decoding gives back what was encoded: for a series that encodes, replaying
/// the records from the checkpoint of snapshot `i` up to its own, from the
/// base value and against the entity's path table, yields snapshot `i`. No
/// record before the checkpoint is read, and the window holds at most `every`
/// records.
pub proof fn lemma_replay_restores(docs: Seq<Seq<char>>, every: int, i: int)
    requires
        every >= 1,
        0 <= i < docs.len(),
        encode_prefix(docs, every, docs.len() as int).is_ok(),
    ensures
        window_of(encode_prefix(docs, every, docs.len() as int).unwrap().1, every, i).len() <= every,
        restores(docs, every, i),
        replay_value(
            encode_prefix(docs, every, docs.len() as int).unwrap().0,
            base_text(docs),
            window_of(encode_prefix(docs, every, docs.len() as int).unwrap().1, every, i),
            window_of(
                encode_prefix(docs, every, docs.len() as int).unwrap().1,
                every,
                i,
            ).len() as int,
        ) == Ok::<Seq<char>, DecodeError>(docs[i]),
{
    lemma_checkpoint_bounds(i, every);
    lemma_replay_upto(docs, every, i, i);
    assert(restores(docs, every, i));
}

} // verus!
