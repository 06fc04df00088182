//! Differential archive of JSON snapshot series.
//!
//! Each snapshot of an entity is stored as a patch record: an edit script
//! against the entity's base value at every checkpoint position, against the
//! snapshot before it elsewhere, or the whole value where its JSON type class
//! differs from the base's. Records are framed in a compact binary layout that
//! refers to structural paths by their index in a per-entity path table,
//! compressed, and appended to one blob; an index keeps the offsets.
//!
//! - [`json`]: documents, operations, and the calls into the JSON, diff and
//!   MessagePack crates.
//! - [`paths`]: the path table.
//! - [`codec`]: the frame layout, written and parsed.
//! - [`encoder`]: snapshots to records.
//! - [`decoder`]: records back to snapshots.
//! - [`archive`]: the blob, its offsets, and the windows the decoder reads.
//! - [`index`]: index entries and the lookup table of an entity type.
//! - [`fidelity`]: what replaying a window restores.

pub mod archive;
pub mod codec;
pub mod decoder;
pub mod encoder;
pub mod fidelity;
pub mod index;
pub mod json;
pub mod paths;
