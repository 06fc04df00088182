//! JSON documents and the operations of an edit script, with the calls into
//! `serde_json`, `json_patch` and `rmp_serde` that the archive relies on.

use vstd::prelude::*;
use serde_json::Value;
use crate::codec::{carries_value, ref_count};
use json_patch::{
    AddOperation, CopyOperation, MoveOperation, Patch, PatchOperation, RemoveOperation,
    ReplaceOperation, TestOperation,
};

verus! {

/// `serde_json::Value`, carried through as an opaque document.
#[verifier::external_type_specification]
#[verifier::external_body]
pub struct ExValue(Value);

/// What a document holds: its compact JSON text, as `serde_json` prints it.
pub uninterp spec fn json_text(v: Value) -> Seq<char>;

/// The script that `json_patch::diff` yields from the document with text `left`
/// to the one with text `right`.
pub uninterp spec fn diff_ops(left: Seq<char>, right: Seq<char>) -> Seq<OpModel>;

/// The MessagePack bytes that `rmp_serde::to_vec` gives for the document with
/// text `doc`, or `None` where it fails.
pub uninterp spec fn msgpack_bytes(doc: Seq<char>) -> Option<Seq<u8>>;

/// The text of the document that `rmp_serde::from_slice` reads from `bytes`, or
/// `None` where it fails.
pub uninterp spec fn msgpack_json(bytes: Seq<u8>) -> Option<Seq<char>>;

/// The text of the document that `json_patch::patch` makes of the document with
/// text `doc` under the one operation `op`, or `None` where it does not apply.
pub uninterp spec fn patched(doc: Seq<char>, op: OpModel) -> Option<Seq<char>>;

/// The six type classes of a JSON value.
#[derive(Clone, Copy, Debug, PartialEq, Eq, Structural)]
pub enum JsonClass {
    Null,
    Bool,
    Number,
    Str,
    Array,
    Object,
}

/// The class of a JSON text, read off its first character.
pub open spec fn class_of_text(text: Seq<char>) -> JsonClass {
    if text.len() == 0 {
        JsonClass::Null
    } else if text[0] == '{' {
        JsonClass::Object
    } else if text[0] == '[' {
        JsonClass::Array
    } else if text[0] == '"' {
        JsonClass::Str
    } else if text[0] == 't' || text[0] == 'f' {
        JsonClass::Bool
    } else if text[0] == 'n' {
        JsonClass::Null
    } else {
        JsonClass::Number
    }
}

/// The text of the empty value of a class.
pub open spec fn zero_text(class: JsonClass) -> Seq<char> {
    match class {
        JsonClass::Null => seq!['n', 'u', 'l', 'l'],
        JsonClass::Bool => seq!['f', 'a', 'l', 's', 'e'],
        JsonClass::Number => seq!['0'],
        JsonClass::Str => seq!['"', '"'],
        JsonClass::Array => seq!['[', ']'],
        JsonClass::Object => seq!['{', '}'],
    }
}

/// The empty value of a class has that class.
pub proof fn lemma_zero_text_class(class: JsonClass)
    ensures
        class_of_text(zero_text(class)) == class,
{
}

/// One operation of a patch record.
pub enum PatchOp {
    Add { path: String, value: Value },
    Remove { path: String },
    Replace { path: String, value: Value },
    Move { path: String, from: String },
    Copy { path: String, from: String },
    Test { path: String, value: Value },
    FullValue { value: Value },
}

/// An operation as plain data: its code, its paths in wire order, and the text
/// of its value where it carries one.
pub struct OpModel {
    pub code: u8,
    pub paths: Seq<Seq<char>>,
    pub value: Option<Seq<char>>,
}

impl PatchOp {
    pub open spec fn model(&self) -> OpModel {
        match self {
            PatchOp::Add { path, value } => OpModel {
                code: 0,
                paths: seq![path@],
                value: Some(json_text(*value)),
            },
            PatchOp::Remove { path } => OpModel { code: 1, paths: seq![path@], value: None },
            PatchOp::Replace { path, value } => OpModel {
                code: 2,
                paths: seq![path@],
                value: Some(json_text(*value)),
            },
            PatchOp::Move { path, from } => OpModel {
                code: 3,
                paths: seq![path@, from@],
                value: None,
            },
            PatchOp::Copy { path, from } => OpModel {
                code: 4,
                paths: seq![path@, from@],
                value: None,
            },
            PatchOp::Test { path, value } => OpModel {
                code: 5,
                paths: seq![path@],
                value: Some(json_text(*value)),
            },
            PatchOp::FullValue { value } => OpModel {
                code: 6,
                paths: Seq::empty(),
                value: Some(json_text(*value)),
            },
        }
    }
}

/// The models of a list of operations, in order.
pub open spec fn ops_model(ops: Seq<PatchOp>) -> Seq<OpModel> {
    Seq::new(ops.len(), |i: int| ops[i].model())
}

/// Tells the variants of `serde_json::Value` apart. The class it returns is the
/// one that the document's text begins with.
#[verifier::external_body]
pub(crate) fn class_of(v: &Value) -> (class: JsonClass)
    ensures
        class == class_of_text(json_text(*v)),
{
    match v {
        Value::Null => JsonClass::Null,
        Value::Bool(_) => JsonClass::Bool,
        Value::Number(_) => JsonClass::Number,
        Value::String(_) => JsonClass::Str,
        Value::Array(_) => JsonClass::Array,
        Value::Object(_) => JsonClass::Object,
    }
}

/// The decimal digits of a number.
pub open spec fn decimal_text(n: nat) -> Seq<char>
    decreases n,
{
    if n < 10 {
        seq![digit_char(n)]
    } else {
        decimal_text(n / 10).push(digit_char(n % 10))
    }
}

/// The character of one decimal digit.
pub open spec fn digit_char(d: nat) -> char {
    if d == 0 {
        '0'
    } else if d == 1 {
        '1'
    } else if d == 2 {
        '2'
    } else if d == 3 {
        '3'
    } else if d == 4 {
        '4'
    } else if d == 5 {
        '5'
    } else if d == 6 {
        '6'
    } else if d == 7 {
        '7'
    } else if d == 8 {
        '8'
    } else {
        '9'
    }
}

/// The text of a truth value.
pub open spec fn bool_text(b: bool) -> Seq<char> {
    if b {
        seq!['t', 'r', 'u', 'e']
    } else {
        seq!['f', 'a', 'l', 's', 'e']
    }
}

/// `Value::Null`, which prints as `null`.
#[verifier::external_body]
pub(crate) fn null_value() -> (v: Value)
    ensures
        json_text(v) == seq!['n', 'u', 'l', 'l'],
{
    Value::Null
}

/// `Value::Bool`, which prints as `true` or `false`.
#[verifier::external_body]
pub(crate) fn bool_value(b: bool) -> (v: Value)
    ensures
        json_text(v) == bool_text(b),
{
    Value::Bool(b)
}

/// `Value::from` for an unsigned integer, which prints as its decimal digits.
#[verifier::external_body]
pub(crate) fn unsigned_value(n: u64) -> (v: Value)
    ensures
        json_text(v) == decimal_text(n as nat),
{
    Value::from(n)
}

/// `Value::String` of the empty string, which prints as two quotes.
#[verifier::external_body]
pub(crate) fn empty_string_value() -> (v: Value)
    ensures
        json_text(v) == seq!['"', '"'],
{
    Value::String(String::new())
}

/// `Value::Array` without elements, which prints as `[]`.
#[verifier::external_body]
pub(crate) fn empty_array_value() -> (v: Value)
    ensures
        json_text(v) == seq!['[', ']'],
{
    Value::Array(Vec::new())
}

/// `Value::Object` without members, which prints as `{}`.
#[verifier::external_body]
pub(crate) fn empty_object_value() -> (v: Value)
    ensures
        json_text(v) == seq!['{', '}'],
{
    Value::Object(serde_json::Map::new())
}

/// The empty value of a class: `null`, `false`, `0`, the empty string, the
/// empty array or the empty object.
pub fn zero_value(class: JsonClass) -> (v: Value)
    ensures
        json_text(v) == zero_text(class),
{
    match class {
        JsonClass::Null => null_value(),
        JsonClass::Bool => bool_value(false),
        JsonClass::Number => unsigned_value(0),
        JsonClass::Str => empty_string_value(),
        JsonClass::Array => empty_array_value(),
        JsonClass::Object => empty_object_value(),
    }
}

/// Calls `Value::clone`, which copies the document as it is.
#[verifier::external_body]
pub(crate) fn clone_value(v: &Value) -> (copy: Value)
    ensures
        json_text(copy) == json_text(*v),
{
    v.clone()
}

/// Calls `json_patch::diff` and hands its operations out one for one. The
/// result is a function of the two documents alone.
#[verifier::external_body]
pub(crate) fn diff_values(left: &Value, right: &Value) -> (ops: Vec<PatchOp>)
    ensures
        ops_model(ops@) == diff_ops(json_text(*left), json_text(*right)),
{
    json_patch::diff(left, right).0.into_iter().map(|op| match op {
        PatchOperation::Add(o) => PatchOp::Add { path: o.path, value: o.value },
        PatchOperation::Remove(o) => PatchOp::Remove { path: o.path },
        PatchOperation::Replace(o) => PatchOp::Replace { path: o.path, value: o.value },
        PatchOperation::Move(o) => PatchOp::Move { path: o.path, from: o.from },
        PatchOperation::Copy(o) => PatchOp::Copy { path: o.path, from: o.from },
        PatchOperation::Test(o) => PatchOp::Test { path: o.path, value: o.value },
    }).collect()
}

/// Calls `rmp_serde::to_vec` on a document. The bytes are a function of the
/// document alone; a failure of the serializer comes back as `None`.
#[verifier::external_body]
pub(crate) fn to_msgpack(v: &Value) -> (bytes: Option<Vec<u8>>)
    ensures
        msgpack_bytes(json_text(*v)) == match bytes {
            Some(b) => Some(b@),
            None => None,
        },
{
    rmp_serde::to_vec(v).ok()
}

/// Calls `rmp_serde::from_slice` to read one document. The document is a
/// function of the bytes alone; malformed input comes back as `None`.
#[verifier::external_body]
pub(crate) fn from_msgpack(bytes: &[u8]) -> (v: Option<Value>)
    ensures
        msgpack_json(bytes@) == text_of(v),
{
    rmp_serde::from_slice::<Value>(bytes).ok()
}

/// An operation of an edit script proper: what the differ yields and the
/// patcher applies.
pub enum EditOp {
    Add { path: String, value: Value },
    Remove { path: String },
    Replace { path: String, value: Value },
    Move { path: String, from: String },
    Copy { path: String, from: String },
    Test { path: String, value: Value },
}

impl EditOp {
    /// The operation as a patch operation.
    pub open spec fn lifted(&self) -> PatchOp {
        match self {
            EditOp::Add { path, value } => PatchOp::Add { path: *path, value: *value },
            EditOp::Remove { path } => PatchOp::Remove { path: *path },
            EditOp::Replace { path, value } => PatchOp::Replace { path: *path, value: *value },
            EditOp::Move { path, from } => PatchOp::Move { path: *path, from: *from },
            EditOp::Copy { path, from } => PatchOp::Copy { path: *path, from: *from },
            EditOp::Test { path, value } => PatchOp::Test { path: *path, value: *value },
        }
    }
}

/// An operation has the paths and the value that its code asks for.
pub open spec fn op_shaped(op: OpModel) -> bool {
    &&& op.code <= 6
    &&& op.paths.len() == ref_count(op.code)
    &&& op.value.is_some() <==> carries_value(op.code)
}

/// Every operation is well shaped.
pub proof fn lemma_model_shaped(op: PatchOp)
    ensures
        op_shaped(op.model()),
{
}

/// The text that the first `n` operations of a script make of `doc`, applied
/// one after the other; `None` where one of them does not apply or is an
/// escape, which no script holds.
pub open spec fn patched_all(doc: Seq<char>, ops: Seq<OpModel>, n: int) -> Option<Seq<char>>
    decreases n,
{
    if n <= 0 {
        Some(doc)
    } else {
        match patched_all(doc, ops, n - 1) {
            None => None,
            Some(d) => if ops[n - 1].code == 6 {
                None
            } else {
                patched(d, ops[n - 1])
            },
        }
    }
}

/// A script that applies holds no escape.
pub proof fn lemma_patched_all_no_escape(doc: Seq<char>, ops: Seq<OpModel>, n: int)
    requires
        patched_all(doc, ops, n).is_some(),
    ensures
        forall|m: int| 0 <= m < n ==> (#[trigger] ops[m]).code != 6,
    decreases n,
{
    if n > 0 {
        lemma_patched_all_no_escape(doc, ops, n - 1);
    }
}

/// Where the script stops applying, it does not apply as a whole.
pub proof fn lemma_patched_all_fail(doc: Seq<char>, ops: Seq<OpModel>, k: int, n: int)
    requires
        0 <= k <= n,
        patched_all(doc, ops, k).is_none(),
    ensures
        patched_all(doc, ops, n).is_none(),
    decreases n - k,
{
    if k < n {
        lemma_patched_all_fail(doc, ops, k + 1, n);
    }
}

/// Calls `json_patch::patch` on `doc` with a script of the one operation `op`,
/// handed over field by field. `None` where the operation does not apply.
#[verifier::external_body]
pub(crate) fn apply_edit(mut doc: Value, op: EditOp) -> (out: Option<Value>)
    ensures
        patched(json_text(doc), op.lifted().model()) == text_of(out),
{
    let one = match op {
        EditOp::Add { path, value } => PatchOperation::Add(AddOperation { path, value }),
        EditOp::Remove { path } => PatchOperation::Remove(RemoveOperation { path }),
        EditOp::Replace { path, value } => PatchOperation::Replace(ReplaceOperation { path, value }),
        EditOp::Move { path, from } => PatchOperation::Move(MoveOperation { path, from }),
        EditOp::Copy { path, from } => PatchOperation::Copy(CopyOperation { path, from }),
        EditOp::Test { path, value } => PatchOperation::Test(TestOperation { path, value }),
    };
    json_patch::patch(&mut doc, &Patch(vec![one])).ok().map(|_| doc)
}

/// Calls `Value::to_string`, which prints the document as compact JSON.
#[verifier::external_body]
pub(crate) fn print_value(v: &Value) -> (text: String)
    ensures
        text@ == json_text(*v),
{
    v.to_string()
}

/// Whether two documents have the same text.
pub fn same_text(a: &Value, b: &Value) -> (same: bool)
    ensures
        same == (json_text(*a) == json_text(*b)),
{
    print_value(a) == print_value(b)
}

/// A copy of an operation as an edit, unless it is an escape.
pub fn edit_of(op: &PatchOp) -> (out: Option<EditOp>)
    ensures
        match out {
            Some(e) => e.lifted().model() == op.model() && op.model().code != 6,
            None => op.model().code == 6,
        },
{
    match op {
        PatchOp::Add { path, value } => Some(
            EditOp::Add { path: path.clone(), value: clone_value(value) },
        ),
        PatchOp::Remove { path } => Some(EditOp::Remove { path: path.clone() }),
        PatchOp::Replace { path, value } => Some(
            EditOp::Replace { path: path.clone(), value: clone_value(value) },
        ),
        PatchOp::Move { path, from } => Some(
            EditOp::Move { path: path.clone(), from: from.clone() },
        ),
        PatchOp::Copy { path, from } => Some(
            EditOp::Copy { path: path.clone(), from: from.clone() },
        ),
        PatchOp::Test { path, value } => Some(
            EditOp::Test { path: path.clone(), value: clone_value(value) },
        ),
        PatchOp::FullValue { value } => None,
    }
}

/// Applies a script to `doc`, one operation after the other. `None` where an
/// operation does not apply or is an escape.
pub fn apply_script(doc: Value, ops: &Vec<PatchOp>) -> (out: Option<Value>)
    ensures
        text_of(out) == patched_all(json_text(doc), ops_model(ops@), ops.len() as int),
{
    let ghost start = json_text(doc);
    let ghost models = ops_model(ops@);
    let mut current = doc;
    let mut k: usize = 0;
    while k < ops.len()
        invariant
            k <= ops.len(),
            start == json_text(doc),
            models == ops_model(ops@),
            patched_all(start, models, k as int) == Some(json_text(current)),
        decreases ops.len() - k,
    {
        assert(models[k as int] == ops[k as int].model());
        let edit = match edit_of(&ops[k]) {
            Some(edit) => edit,
            None => {
                proof {
                    assert(patched_all(start, models, k + 1).is_none());
                    lemma_patched_all_fail(start, models, k + 1, ops.len() as int);
                }
                return None;
            },
        };
        current = match apply_edit(current, edit) {
            Some(next) => next,
            None => {
                proof {
                    assert(patched_all(start, models, k + 1).is_none());
                    lemma_patched_all_fail(start, models, k + 1, ops.len() as int);
                }
                return None;
            },
        };
        k += 1;
    }
    Some(current)
}

/// The text of a document that may be missing.
pub open spec fn text_of(doc: Option<Value>) -> Option<Seq<char>> {
    match doc {
        Some(v) => Some(json_text(v)),
        None => None,
    }
}

} // verus!
