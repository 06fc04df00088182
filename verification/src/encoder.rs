//! The differential encoder: turns a series of snapshots into patch records,
//! each a script against the base value (at checkpoints) or against the
//! snapshot before it, or the whole value where no such script would lead
//! back to the snapshot.

use vstd::prelude::*;
use serde_json::Value;
use crate::codec::{frame_bytes, write_frame, Frame, FrameModel, MAX_VALUE_LEN};
use crate::fidelity::{lemma_replay_restores, restores};
use crate::json::{
    apply_script, class_of, class_of_text, clone_value, diff_ops, diff_values, from_msgpack,
    json_text, lemma_model_shaped, lemma_zero_text_class, msgpack_bytes, msgpack_json, op_shaped,
    ops_model, patched_all, same_text, to_msgpack, zero_text, zero_value, OpModel, PatchOp,
};
use crate::paths::{
    intern_all, interned, lemma_index_unique, lemma_interned_extends, EncodeError, PathTable,
};

verus! {

/// The record of one snapshot: its timestamp and the bytes of its operations.
pub type EntityPatch = (u32, Vec<Vec<u8>>);

/// The texts of a series of snapshots.
pub open spec fn docs_of(entity: Seq<(u32, Value)>) -> Seq<Seq<char>> {
    Seq::new(entity.len(), |i: int| json_text(entity[i].1))
}

/// The text of the base value of a series: the empty value of the class of
/// its first snapshot.
pub open spec fn base_text(docs: Seq<Seq<char>>) -> Seq<char> {
    zero_text(class_of_text(docs[0]))
}

/// The escape operation that carries a whole document.
pub open spec fn full_value(doc: Seq<char>) -> OpModel {
    OpModel { code: 6, paths: Seq::empty(), value: Some(doc) }
}

/// The value that the record at position `i` is a script against: the base
/// at a checkpoint, the snapshot before at any other position.
pub open spec fn script_source(docs: Seq<Seq<char>>, every: int, i: int) -> Seq<char> {
    if i % every == 0 {
        base_text(docs)
    } else {
        docs[i - 1]
    }
}

/// The script `ops` is well shaped and leads from `source` to `target`.
pub open spec fn script_replays(source: Seq<char>, ops: Seq<OpModel>, target: Seq<char>) -> bool {
    &&& forall|m: int| 0 <= m < ops.len() ==> op_shaped(#[trigger] ops[m])
    &&& patched_all(source, ops, ops.len() as int) == Some(target)
}

/// The operations of the record at position `i`: the escape where the
/// snapshot's class is not the base's; else the differ's script from the
/// source to the snapshot. A script that would not lead back to the snapshot
/// gives way to the escape as well, so that every record written replays.
pub open spec fn record_ops(docs: Seq<Seq<char>>, every: int, i: int) -> Seq<OpModel> {
    let script = diff_ops(script_source(docs, every, i), docs[i]);
    if class_of_text(docs[i]) != class_of_text(docs[0]) || !script_replays(
        script_source(docs, every, i),
        script,
        docs[i],
    ) {
        seq![full_value(docs[i])]
    } else {
        script
    }
}

/// The index of each of `paths` in `table`.
pub open spec fn refs_in(table: Seq<Seq<char>>, paths: Seq<Seq<char>>) -> Seq<u16> {
    Seq::new(paths.len(), |j: int| table.index_of(paths[j]) as u16)
}

/// The value bytes of a frame: none for an operation without a value, else
/// the value's MessagePack form, which must fit the length field and read
/// back as the value.
pub open spec fn payload_of(value: Option<Seq<char>>) -> Result<Seq<u8>, EncodeError> {
    match value {
        None => Ok(Seq::empty()),
        Some(text) => match msgpack_bytes(text) {
            None => Err(EncodeError::Unserializable),
            Some(b) => if b.len() > MAX_VALUE_LEN {
                Err(EncodeError::ValueTooLarge)
            } else if msgpack_json(b) != Some(text) {
                Err(EncodeError::NotRestored)
            } else {
                Ok(b)
            },
        },
    }
}

/// The frame of one operation, and the table after its paths were interned.
pub open spec fn op_frame(table: Seq<Seq<char>>, op: OpModel) -> Result<
    (Seq<Seq<char>>, FrameModel),
    EncodeError,
> {
    match intern_all(table, op.paths) {
        None => Err(EncodeError::PathTableFull),
        Some(t) => match payload_of(op.value) {
            Err(e) => Err(e),
            Ok(b) => Ok((t, FrameModel { code: op.code, refs: refs_in(t, op.paths), payload: b })),
        },
    }
}

/// The frames of the first `n` of a list of operations, with the table
/// threaded through them.
pub open spec fn ops_frames(table: Seq<Seq<char>>, ops: Seq<OpModel>, n: int) -> Result<
    (Seq<Seq<char>>, Seq<FrameModel>),
    EncodeError,
>
    decreases n,
{
    if n <= 0 {
        Ok((table, Seq::empty()))
    } else {
        match ops_frames(table, ops, n - 1) {
            Err(e) => Err(e),
            Ok((t, frames)) => match op_frame(t, ops[n - 1]) {
                Err(e) => Err(e),
                Ok((t2, f)) => Ok((t2, frames.push(f))),
            },
        }
    }
}

/// The path table and the records of the first `n` snapshots of a series, or
/// the first capacity or serialization error met on the way.
pub open spec fn encode_prefix(docs: Seq<Seq<char>>, every: int, n: int) -> Result<
    (Seq<Seq<char>>, Seq<Seq<FrameModel>>),
    EncodeError,
>
    decreases n,
{
    if n <= 0 {
        Ok((Seq::empty(), Seq::empty()))
    } else {
        match encode_prefix(docs, every, n - 1) {
            Err(e) => Err(e),
            Ok((t, records)) => match ops_frames(
                t,
                record_ops(docs, every, n - 1),
                record_ops(docs, every, n - 1).len() as int,
            ) {
                Err(e) => Err(e),
                Ok((t2, frames)) => Ok((t2, records.push(frames))),
            },
        }
    }
}

/// The byte strings of a list of frames.
pub open spec fn wire(frames: Seq<FrameModel>) -> Seq<Seq<u8>> {
    Seq::new(frames.len(), |j: int| frame_bytes(frames[j]))
}

/// The byte strings that a record holds.
pub open spec fn rows(parts: Seq<Vec<u8>>) -> Seq<Seq<u8>> {
    Seq::new(parts.len(), |j: int| parts[j]@)
}

/// `patches` are the records `records`, stamped with the times of `entity`.
pub open spec fn patches_hold(
    patches: Seq<EntityPatch>,
    entity: Seq<(u32, Value)>,
    records: Seq<Seq<FrameModel>>,
) -> bool {
    &&& patches.len() == records.len()
    &&& patches.len() <= entity.len()
    &&& forall|i: int|
        0 <= i < patches.len() ==> (#[trigger] patches[i]).0 == entity[i].0 && rows(patches[i].1@)
            == wire(records[i])
}

/// A snapshot whose class is not the base's is encoded as the one escape that
/// carries it, whether or not its position is a checkpoint.
pub proof fn lemma_escape_priority(docs: Seq<Seq<char>>, every: int, i: int)
    requires
        0 <= i < docs.len(),
        every >= 1,
        class_of_text(docs[i]) != class_of_text(base_text(docs)),
    ensures
        record_ops(docs, every, i) == seq![full_value(docs[i])],
        record_ops(docs, every, i).len() == 1,
{
    lemma_zero_text_class(class_of_text(docs[0]));
}

/// The path table and the records are determined by the snapshots' values and
/// the checkpoint interval: two series of the same documents, whatever their
/// timestamps, give the same table, path by path and index by index.
pub proof fn lemma_same_series_same_table(
    first: Seq<(u32, Value)>,
    second: Seq<(u32, Value)>,
    every: int,
)
    requires
        first.len() == second.len(),
        forall|i: int| 0 <= i < first.len() ==> json_text(first[i].1) == json_text(second[i].1),
    ensures
        encode_prefix(docs_of(first), every, first.len() as int) == encode_prefix(
            docs_of(second),
            every,
            second.len() as int,
        ),
{
    assert(docs_of(first) =~= docs_of(second));
}

/// What an operation is made of: its code, its paths in wire order, its value.
fn op_fields(op: &PatchOp) -> (out: (u8, Option<&String>, Option<&String>, Option<&Value>))
    ensures
        out.0 == op.model().code,
        out.0 <= 6,
        op.model().paths == match (out.1, out.2) {
            (Some(p), Some(q)) => seq![p@, q@],
            (Some(p), None) => seq![p@],
            _ => Seq::<Seq<char>>::empty(),
        },
        out.1.is_none() ==> out.2.is_none(),
        op.model().value == match out.3 {
            Some(v) => Some(json_text(*v)),
            None => None,
        },
{
    match op {
        PatchOp::Add { path, value } => (0, Some(path), None, Some(value)),
        PatchOp::Remove { path } => (1, Some(path), None, None),
        PatchOp::Replace { path, value } => (2, Some(path), None, Some(value)),
        PatchOp::Move { path, from } => (3, Some(path), Some(from), None),
        PatchOp::Copy { path, from } => (4, Some(path), Some(from), None),
        PatchOp::Test { path, value } => (5, Some(path), None, Some(value)),
        PatchOp::FullValue { value } => (6, None, None, Some(value)),
    }
}

/// Serializes the value of an operation, if it has one.
fn encode_payload(value: Option<&Value>) -> (out: Result<Vec<u8>, EncodeError>)
    ensures
        match out {
            Ok(b) => payload_of(
                match value {
                    Some(v) => Some(json_text(*v)),
                    None => None,
                },
            ) == Ok::<Seq<u8>, EncodeError>(b@),
            Err(e) => payload_of(
                match value {
                    Some(v) => Some(json_text(*v)),
                    None => None,
                },
            ) == Err::<Seq<u8>, EncodeError>(e),
        },
{
    match value {
        None => Ok(Vec::new()),
        Some(v) => match to_msgpack(v) {
            None => Err(EncodeError::Unserializable),
            Some(b) => if b.len() > MAX_VALUE_LEN {
                Err(EncodeError::ValueTooLarge)
            } else {
                match from_msgpack(b.as_slice()) {
                    Some(back) => if same_text(&back, v) {
                        Ok(b)
                    } else {
                        Err(EncodeError::NotRestored)
                    },
                    None => Err(EncodeError::NotRestored),
                }
            },
        },
    }
}

/// The record that carries a whole document.
pub fn escape_of(doc: &Value) -> (ops: Vec<PatchOp>)
    ensures
        ops_model(ops@) == seq![full_value(json_text(*doc))],
{
    let ops = vec![PatchOp::FullValue { value: clone_value(doc) }];
    assert(ops_model(ops@) =~= seq![full_value(json_text(*doc))]);
    ops
}

/// The differ's script from `source` to `target`, if applying it to `source`
/// gives `target` again; else the escape that carries `target`.
pub fn script_or_escape(source: &Value, target: &Value) -> (ops: Vec<PatchOp>)
    ensures
        ops_model(ops@) == if script_replays(
            json_text(*source),
            diff_ops(json_text(*source), json_text(*target)),
            json_text(*target),
        ) {
            diff_ops(json_text(*source), json_text(*target))
        } else {
            seq![full_value(json_text(*target))]
        },
{
    let script = diff_values(source, target);
    proof {
        assert forall|m: int| 0 <= m < ops_model(script@).len() implies op_shaped(
            #[trigger] ops_model(script@)[m],
        ) by {
            lemma_model_shaped(script@[m]);
        }
    }
    let good = match apply_script(clone_value(source), &script) {
        Some(back) => same_text(&back, target),
        None => false,
    };
    if good {
        script
    } else {
        escape_of(target)
    }
}

/// Encodes one operation: interns its paths in `table`, in wire order, and
/// frames their indices with the serialized value.
pub fn encode_op(table: &mut PathTable, op: &PatchOp) -> (out: Result<Vec<u8>, EncodeError>)
    requires
        old(table).wf(),
    ensures
        final(table).wf(),
        match out {
            Ok(bytes) => op_frame(old(table)@, op.model()) matches Ok(r) && r.0 == final(table)@
                && bytes@ == frame_bytes(r.1),
            Err(e) => op_frame(old(table)@, op.model()) == Err::<
                (Seq<Seq<char>>, FrameModel),
                EncodeError,
            >(e),
        },
{
    let (code, first, second, value) = op_fields(op);
    let ghost t0 = table@;
    let ghost paths = op.model().paths;
    let mut refs: Vec<u16> = Vec::new();
    proof {
        assert(intern_all(t0, Seq::<Seq<char>>::empty()) == Some(t0));
    }
    if let Some(p) = first {
        proof {
            assert(seq![p@].drop_last() =~= Seq::<Seq<char>>::empty());
            assert(intern_all(t0, seq![p@]) == interned(t0, p@));
        }
        proof {
            if let Some(q) = second {
                assert(seq![p@, q@].drop_last() =~= seq![p@]);
            }
        }
        let index = match table.intern(p) {
            Ok(index) => index,
            Err(e) => {
                return Err(e);
            },
        };
        refs.push(index);
        let ghost t1 = table@;
        if let Some(q) = second {
            proof {
                assert(intern_all(t0, seq![p@, q@]) == interned(t1, q@));
            }
            let index2 = match table.intern(q) {
                Ok(index2) => index2,
                Err(e) => {
                    return Err(e);
                },
            };
            refs.push(index2);
            proof {
                lemma_interned_extends(t1, q@);
                lemma_index_unique(table@, index as int);
                lemma_index_unique(table@, index2 as int);
                assert(refs@ =~= refs_in(table@, paths));
            }
        } else {
            proof {
                lemma_index_unique(table@, index as int);
                assert(refs@ =~= refs_in(table@, paths));
            }
        }
    } else {
        proof {
            assert(refs@ =~= refs_in(table@, paths));
        }
    }
    let payload = match encode_payload(value) {
        Ok(payload) => payload,
        Err(e) => {
            return Err(e);
        },
    };
    let frame = Frame { op_code: code, refs, value: payload };
    match write_frame(&frame) {
        Some(bytes) => Ok(bytes),
        None => Err(EncodeError::ValueTooLarge),
    }
}

/// Encodes the operations of one record, in order.
pub fn encode_ops(table: &mut PathTable, ops: &Vec<PatchOp>) -> (out: Result<
    Vec<Vec<u8>>,
    EncodeError,
>)
    requires
        old(table).wf(),
    ensures
        final(table).wf(),
        match out {
            Ok(parts) => ops_frames(old(table)@, ops_model(ops@), ops.len() as int) matches Ok(r)
                && r.0 == final(table)@ && rows(parts@) == wire(r.1),
            Err(e) => ops_frames(old(table)@, ops_model(ops@), ops.len() as int) == Err::<
                (Seq<Seq<char>>, Seq<FrameModel>),
                EncodeError,
            >(e),
        },
{
    let ghost t0 = table@;
    let ghost models = ops_model(ops@);
    let mut parts: Vec<Vec<u8>> = Vec::new();
    let ghost mut frames: Seq<FrameModel> = Seq::empty();
    let mut k: usize = 0;
    proof {
        assert(rows(parts@) =~= wire(frames));
    }
    while k < ops.len()
        invariant
            k <= ops.len(),
            t0 == old(table)@,
            models == ops_model(ops@),
            table.wf(),
            ops_frames(t0, models, k as int) == Ok::<
                (Seq<Seq<char>>, Seq<FrameModel>),
                EncodeError,
            >((table@, frames)),
            rows(parts@) == wire(frames),
        decreases ops.len() - k,
    {
        let ghost before = table@;
        match encode_op(table, &ops[k]) {
            Err(e) => {
                proof {
                    assert(op_frame(before, models[k as int]).is_err());
                    assert(ops_frames(t0, models, k + 1) == Err::<
                        (Seq<Seq<char>>, Seq<FrameModel>),
                        EncodeError,
                    >(e));
                    lemma_ops_frames_fail(t0, models, k + 1, ops.len() as int);
                }
                return Err(e);
            },
            Ok(bytes) => {
                proof {
                    let f = op_frame(before, ops[k as int].model()).unwrap().1;
                    let grown = parts@.push(bytes);
                    assert(rows(parts@).len() == parts.len());
                    assert(wire(frames).len() == frames.len());
                    assert forall|j: int| 0 <= j < grown.len() implies rows(grown)[j] == wire(
                        frames.push(f),
                    )[j] by {
                        if j < parts.len() {
                            assert(rows(parts@)[j] == wire(frames)[j]);
                        }
                    }
                    assert(rows(grown) =~= wire(frames.push(f)));
                    frames = frames.push(f);
                }
                parts.push(bytes);
            },
        }
        k += 1;
    }
    Ok(parts)
}

/// An error met on a prefix of the operations is the error of the whole list.
pub proof fn lemma_ops_frames_fail(table: Seq<Seq<char>>, ops: Seq<OpModel>, k: int, n: int)
    requires
        0 <= k <= n,
        ops_frames(table, ops, k).is_err(),
    ensures
        ops_frames(table, ops, n) == ops_frames(table, ops, k),
    decreases n - k,
{
    if k < n {
        lemma_ops_frames_fail(table, ops, k + 1, n);
    }
}

/// An error met on a prefix of the series is the error of the whole series.
pub proof fn lemma_encode_prefix_fail(docs: Seq<Seq<char>>, every: int, k: int, n: int)
    requires
        0 <= k <= n,
        encode_prefix(docs, every, k).is_err(),
    ensures
        encode_prefix(docs, every, n) == encode_prefix(docs, every, k),
    decreases n - k,
{
    if k < n {
        lemma_encode_prefix_fail(docs, every, k + 1, n);
    }
}

/// Encodes a series of snapshots, given in ascending order of time.
///
/// The base value is the empty value of the first snapshot's class. The record
/// at each position holds the operations of `record_ops`, framed against one
/// path table that grows in first-seen order over the whole series. A path
/// table that would pass 65536 entries, a value of more than 65535 bytes, or a
/// value that cannot be serialized, or does not read back, ends the encoding
/// with the matching error. Every record of a series that encodes replays to
/// its snapshot.
pub fn encode(entity: Vec<(u32, Value)>, checkpoint_every: u16) -> (out: Result<
    (Vec<EntityPatch>, PathTable, Value),
    EncodeError,
>)
    requires
        entity.len() > 0,
        checkpoint_every >= 1,
    ensures
        match out {
            Ok((patches, table, base)) => {
                &&& json_text(base) == base_text(docs_of(entity@))
                &&& table.wf()
                &&& patches.len() == entity.len()
                &&& encode_prefix(docs_of(entity@), checkpoint_every as int, entity.len() as int)
                    matches Ok(r) && r.0 == table@ && patches_hold(patches@, entity@, r.1)
                &&& forall|i: int|
                    0 <= i < entity.len() ==> #[trigger] restores(
                        docs_of(entity@),
                        checkpoint_every as int,
                        i,
                    )
            },
            Err(e) => encode_prefix(docs_of(entity@), checkpoint_every as int, entity.len() as int)
                == Err::<(Seq<Seq<char>>, Seq<Seq<FrameModel>>), EncodeError>(e),
        },
{
    let ghost docs = docs_of(entity@);
    let ghost every = checkpoint_every as int;
    let class = class_of(&entity[0].1);
    let base = zero_value(class);
    let mut table = PathTable::new();
    let mut patches: Vec<EntityPatch> = Vec::new();
    let ghost mut records: Seq<Seq<FrameModel>> = Seq::empty();
    let mut i: usize = 0;
    while i < entity.len()
        invariant
            i <= entity.len(),
            entity.len() > 0,
            checkpoint_every >= 1,
            docs == docs_of(entity@),
            every == checkpoint_every as int,
            class == class_of_text(docs[0]),
            json_text(base) == base_text(docs),
            table.wf(),
            patches.len() == i,
            encode_prefix(docs, every, i as int) == Ok::<
                (Seq<Seq<char>>, Seq<Seq<FrameModel>>),
                EncodeError,
            >((table@, records)),
            patches_hold(patches@, entity@, records),
        decreases entity.len() - i,
    {
        let doc = &entity[i].1;
        let ops: Vec<PatchOp> = if class_of(doc) != class {
            escape_of(doc)
        } else if i % (checkpoint_every as usize) == 0 {
            script_or_escape(&base, doc)
        } else {
            assert(i > 0) by {
                if i == 0 {
                    vstd::arithmetic::div_mod::lemma_small_mod(0, checkpoint_every as nat);
                }
            }
            script_or_escape(&entity[i - 1].1, doc)
        };
        assert(ops_model(ops@) == record_ops(docs, every, i as int));
        match encode_ops(&mut table, &ops) {
            Err(e) => {
                proof {
                    assert(encode_prefix(docs, every, i + 1).is_err());
                    lemma_encode_prefix_fail(docs, every, i + 1, entity.len() as int);
                }
                return Err(e);
            },
            Ok(parts) => {
                proof {
                    let frames = ops_frames(
                        encode_prefix(docs, every, i as int).unwrap().0,
                        record_ops(docs, every, i as int),
                        record_ops(docs, every, i as int).len() as int,
                    ).unwrap().1;
                    records = records.push(frames);
                }
                patches.push((entity[i].0, parts));
            },
        }
        i += 1;
    }
    proof {
        assert forall|p: int| 0 <= p < entity.len() implies #[trigger] restores(docs, every, p) by {
            lemma_replay_restores(docs, every, p);
        }
    }
    Ok((patches, table, base))
}

} // verus!
