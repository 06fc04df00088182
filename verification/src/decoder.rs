//! The decoder: reads patch records back into operations and replays them,
//! from the checkpoint at or before a snapshot up to the snapshot itself.

use vstd::prelude::*;
use serde_json::Value;
use crate::codec::{
    carries_value, frame_ok, frames_model, parse_frames, parse_record, Frame, FrameModel,
    MAX_VALUE_LEN,
};
use crate::encoder::rows;
use crate::json::{
    apply_script, clone_value, from_msgpack, json_text, msgpack_json, ops_model, patched_all,
    OpModel, PatchOp,
};
use crate::paths::PathTable;

verus! {

/// Why a snapshot cannot be reconstructed.
#[derive(Clone, Copy, Debug, PartialEq, Eq, Structural)]
pub enum DecodeError {
    /// The index names no snapshot, or a region of its window lies outside
    /// the blob.
    OutOfRange,
    /// A record could not be decompressed.
    Corrupt,
    /// The buffer asked for a decompressed record is larger than the archive
    /// sets aside.
    CapacityTooLarge,
    /// The bytes of a record are not a sequence of frames, or an escape
    /// stands among other operations.
    Malformed,
    /// A frame refers to a path that the table does not hold.
    UnknownPath,
    /// The value bytes of a frame are no document.
    BadValue,
    /// The operations of a record do not apply to the value before it.
    PatchFailed,
}

/// The errors that reading and applying a record can give.
pub open spec fn record_error(e: DecodeError) -> bool {
    e == DecodeError::Malformed || e == DecodeError::UnknownPath || e == DecodeError::BadValue
        || e == DecodeError::PatchFailed
}

/// The operation that a frame stands for under a path table.
pub open spec fn frame_op(table: Seq<Seq<char>>, f: FrameModel) -> Result<OpModel, DecodeError> {
    if !frame_ok(f) {
        Err(DecodeError::Malformed)
    } else if (f.refs.len() >= 1 && f.refs[0] >= table.len()) || (f.refs.len() >= 2 && f.refs[1]
        >= table.len()) {
        Err(DecodeError::UnknownPath)
    } else {
        let paths = Seq::new(f.refs.len(), |j: int| table[f.refs[j] as int]);
        if carries_value(f.code) {
            match msgpack_json(f.payload) {
                None => Err(DecodeError::BadValue),
                Some(text) => Ok(OpModel { code: f.code, paths, value: Some(text) }),
            }
        } else {
            Ok(OpModel { code: f.code, paths, value: None })
        }
    }
}

/// The operations that the first `n` of `frames` stand for, or the first error
/// among them.
pub open spec fn frames_ops(table: Seq<Seq<char>>, frames: Seq<FrameModel>, n: int) -> Result<
    Seq<OpModel>,
    DecodeError,
>
    decreases n,
{
    if n <= 0 {
        Ok(Seq::empty())
    } else {
        match frames_ops(table, frames, n - 1) {
            Err(e) => Err(e),
            Ok(ops) => match frame_op(table, frames[n - 1]) {
                Err(e) => Err(e),
                Ok(op) => Ok(ops.push(op)),
            },
        }
    }
}

/// Whether an escape stands among `ops`.
pub open spec fn has_escape(ops: Seq<OpModel>) -> bool {
    exists|j: int| 0 <= j < ops.len() && (#[trigger] ops[j]).code == 6
}

/// The value that a list of operations makes of `current`: the carried value
/// where the list is one escape, else `current` patched.
pub open spec fn ops_value(current: Seq<char>, ops: Seq<OpModel>) -> Result<
    Seq<char>,
    DecodeError,
> {
    if ops.len() == 1 && ops[0].code == 6 {
        match ops[0].value {
            Some(text) => Ok(text),
            None => Err(DecodeError::Malformed),
        }
    } else if has_escape(ops) {
        Err(DecodeError::Malformed)
    } else {
        match patched_all(current, ops, ops.len() as int) {
            None => Err(DecodeError::PatchFailed),
            Some(text) => Ok(text),
        }
    }
}

/// The value that one record makes of `current`.
pub open spec fn record_value(table: Seq<Seq<char>>, current: Seq<char>, record: Seq<u8>) -> Result<
    Seq<char>,
    DecodeError,
> {
    match parse_frames(record) {
        None => Err(DecodeError::Malformed),
        Some(frames) => match frames_ops(table, frames, frames.len() as int) {
            Err(e) => Err(e),
            Ok(ops) => ops_value(current, ops),
        },
    }
}

/// The value after the first `n` records of `window` were applied in turn,
/// starting from `base`.
pub open spec fn replay_value(
    table: Seq<Seq<char>>,
    base: Seq<char>,
    window: Seq<Seq<u8>>,
    n: int,
) -> Result<Seq<char>, DecodeError>
    decreases n,
{
    if n <= 0 {
        Ok(base)
    } else {
        match replay_value(table, base, window, n - 1) {
            Err(e) => Err(e),
            Ok(v) => record_value(table, v, window[n - 1]),
        }
    }
}

/// An error among the first frames is the error of the whole record.
pub proof fn lemma_frames_ops_fail(table: Seq<Seq<char>>, frames: Seq<FrameModel>, k: int, n: int)
    requires
        0 <= k <= n,
        frames_ops(table, frames, k).is_err(),
    ensures
        frames_ops(table, frames, n) == frames_ops(table, frames, k),
    decreases n - k,
{
    if k < n {
        lemma_frames_ops_fail(table, frames, k + 1, n);
    }
}

/// An error among the first records is the error of the whole replay.
pub proof fn lemma_replay_fail(
    table: Seq<Seq<char>>,
    base: Seq<char>,
    window: Seq<Seq<u8>>,
    k: int,
    n: int,
)
    requires
        0 <= k <= n,
        replay_value(table, base, window, k).is_err(),
    ensures
        replay_value(table, base, window, n) == replay_value(table, base, window, k),
    decreases n - k,
{
    if k < n {
        lemma_replay_fail(table, base, window, k + 1, n);
    }
}

/// Looks up the path that a frame refers to.
fn path_at(table: &PathTable, index: u16) -> (out: Option<String>)
    ensures
        match out {
            Some(p) => index < table@.len() && p@ == table@[index as int],
            None => index >= table@.len(),
        },
{
    match table.get(index) {
        Some(p) => Some(p.clone()),
        None => None,
    }
}

/// Turns a frame back into its operation: resolves its path references in
/// `table` and reads its value.
pub fn decode_frame(table: &PathTable, frame: &Frame) -> (out: Result<PatchOp, DecodeError>)
    ensures
        match out {
            Ok(op) => frame_op(table@, frame@) == Ok::<OpModel, DecodeError>(op.model()),
            Err(e) => frame_op(table@, frame@) == Err::<OpModel, DecodeError>(e) && record_error(e),
        },
{
    let code = frame.op_code;
    let want: usize = if code == 3 || code == 4 { 2 } else if code == 6 { 0 } else { 1 };
    let carries = code == 0 || code == 2 || code == 5 || code == 6;
    if code > 6 || frame.refs.len() != want || frame.value.len() > MAX_VALUE_LEN || (!carries
        && frame.value.len() != 0) {
        return Err(DecodeError::Malformed);
    }
    let first: String = if want >= 1 {
        match path_at(table, frame.refs[0]) {
            Some(p) => p,
            None => {
                return Err(DecodeError::UnknownPath);
            },
        }
    } else {
        String::new()
    };
    let second: String = if want >= 2 {
        match path_at(table, frame.refs[1]) {
            Some(p) => p,
            None => {
                return Err(DecodeError::UnknownPath);
            },
        }
    } else {
        String::new()
    };
    let ghost paths = Seq::new(frame@.refs.len(), |j: int| table@[frame@.refs[j] as int]);
    if carries {
        let value = match from_msgpack(frame.value.as_slice()) {
            Some(v) => v,
            None => {
                return Err(DecodeError::BadValue);
            },
        };
        let op = if code == 0 {
            PatchOp::Add { path: first, value }
        } else if code == 2 {
            PatchOp::Replace { path: first, value }
        } else if code == 5 {
            PatchOp::Test { path: first, value }
        } else {
            PatchOp::FullValue { value }
        };
        assert(op.model().paths =~= paths);
        Ok(op)
    } else {
        let op = if code == 1 {
            PatchOp::Remove { path: first }
        } else if code == 3 {
            PatchOp::Move { path: first, from: second }
        } else {
            PatchOp::Copy { path: first, from: second }
        };
        assert(op.model().paths =~= paths);
        Ok(op)
    }
}

/// Applies one record to `current`. A record that is one escape replaces the
/// value outright; any other record is patched onto it.
pub fn apply_record(table: &PathTable, current: Value, record: &[u8]) -> (out: Result<
    Value,
    DecodeError,
>)
    ensures
        match out {
            Ok(v) => record_value(table@, json_text(current), record@) == Ok::<
                Seq<char>,
                DecodeError,
            >(json_text(v)),
            Err(e) => record_value(table@, json_text(current), record@) == Err::<
                Seq<char>,
                DecodeError,
            >(e) && record_error(e),
        },
{
    let frames = match parse_record(record) {
        Some(frames) => frames,
        None => {
            return Err(DecodeError::Malformed);
        },
    };
    let ghost models = frames_model(frames@);
    let mut ops: Vec<PatchOp> = Vec::new();
    let mut escape = false;
    let mut k: usize = 0;
    proof {
        assert(ops_model(ops@) =~= Seq::<OpModel>::empty());
    }
    while k < frames.len()
        invariant
            k <= frames.len(),
            models == frames_model(frames@),
            parse_frames(record@) == Some(models),
            frames_ops(table@, models, k as int) == Ok::<Seq<OpModel>, DecodeError>(
                ops_model(ops@),
            ),
            ops.len() == k,
            escape == has_escape(ops_model(ops@)),
        decreases frames.len() - k,
    {
        match decode_frame(table, &frames[k]) {
            Err(e) => {
                proof {
                    assert(frames_ops(table@, models, k + 1).is_err());
                    lemma_frames_ops_fail(table@, models, k + 1, frames.len() as int);
                }
                return Err(e);
            },
            Ok(op) => {
                proof {
                    let before = ops_model(ops@);
                    let grown = ops_model(ops@.push(op));
                    assert(grown =~= before.push(op.model()));
                    if has_escape(before) {
                        let j = choose|j: int| 0 <= j < before.len() && (#[trigger] before[j]).code
                            == 6;
                        assert(grown[j].code == 6);
                    }
                    if op.model().code == 6 {
                        assert(grown[before.len() as int].code == 6);
                    }
                    if has_escape(grown) {
                        let j = choose|j: int| 0 <= j < grown.len() && (#[trigger] grown[j]).code
                            == 6;
                        if j < before.len() {
                            assert(before[j].code == 6);
                        }
                    }
                }
                if frames[k].op_code == 6 {
                    escape = true;
                }
                ops.push(op);
            },
        }
        k += 1;
    }
    let ghost all = ops_model(ops@);
    if ops.len() == 1 && escape {
        assert(all[0].code == 6) by {
            let j = choose|j: int| 0 <= j < all.len() && (#[trigger] all[j]).code == 6;
            assert(j == 0);
        }
        match ops.pop() {
            Some(PatchOp::FullValue { value }) => Ok(value),
            _ => Err(DecodeError::Malformed),
        }
    } else if escape {
        Err(DecodeError::Malformed)
    } else {
        match apply_script(current, &ops) {
            Some(v) => Ok(v),
            None => Err(DecodeError::PatchFailed),
        }
    }
}

/// Replays a window of records, oldest first, starting from the base value:
/// each record is applied to what the records before it gave. For the window
/// that the encoder wrote from a snapshot's checkpoint to its own record, that
/// is the snapshot.
pub fn replay(table: &PathTable, base: &Value, window: &Vec<Vec<u8>>) -> (out: Result<
    Value,
    DecodeError,
>)
    ensures
        match out {
            Ok(v) => replay_value(table@, json_text(*base), rows(window@), window.len() as int)
                == Ok::<Seq<char>, DecodeError>(json_text(v)),
            Err(e) => replay_value(table@, json_text(*base), rows(window@), window.len() as int)
                == Err::<Seq<char>, DecodeError>(e) && record_error(e),
        },
{
    let mut current = clone_value(base);
    let mut k: usize = 0;
    while k < window.len()
        invariant
            k <= window.len(),
            replay_value(table@, json_text(*base), rows(window@), k as int) == Ok::<
                Seq<char>,
                DecodeError,
            >(json_text(current)),
        decreases window.len() - k,
    {
        assert(rows(window@)[k as int] == window[k as int]@);
        match apply_record(table, current, window[k].as_slice()) {
            Err(e) => {
                proof {
                    assert(replay_value(table@, json_text(*base), rows(window@), k + 1).is_err());
                    lemma_replay_fail(
                        table@,
                        json_text(*base),
                        rows(window@),
                        k + 1,
                        window.len() as int,
                    );
                }
                return Err(e);
            },
            Ok(v) => {
                current = v;
            },
        }
        k += 1;
    }
    Ok(current)
}

} // verus!
