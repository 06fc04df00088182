//! The index of one entity type: for each entity the offsets of its records,
//! its path table, its checkpoint interval and its base value.

use vstd::prelude::*;
use serde_json::Value;
use zstd::block::{Compressor, Decompressor};
use crate::archive::{
    archive_entity, blob_after, compressor_dictionary, decompressor_dictionary, load_window,
    regions_hold, tiled, window_expands, window_loads, window_out_of_range, window_plain,
    ArchiveError, MAX_RECORD_CAPACITY,
};
use crate::codec::FrameModel;
use crate::decoder::{replay, replay_value, DecodeError};
use crate::encoder::{base_text, docs_of, encode, encode_prefix, rows};
use crate::fidelity::{lemma_plain_records_written, restores, written_records};
use crate::json::json_text;
use crate::paths::{EncodeError, PathTable};

verus! {

/// What the index keeps of one entity.
#[derive(Debug)]
pub struct EntityData {
    /// `(timestamp, start, end)` of each record in the blob, in order.
    pub patches: Vec<(u32, u32, u32)>,
    /// Index to path.
    pub path_map: PathTable,
    /// Every how many snapshots a record is a checkpoint.
    pub checkpoint_every: u16,
    /// The value that checkpoints are scripts against.
    pub base: Value,
}

/// Why an entity could not be added to the archive.
#[derive(Clone, Copy, Debug, PartialEq, Eq, Structural)]
pub enum BuildError {
    /// The snapshots could not be encoded.
    Encode(EncodeError),
    /// The records could not be written to the blob.
    Archive(ArchiveError),
}

/// Encodes the snapshots of one entity, appends their records to the blob and
/// returns the entity's index entry. The blob only grows; where encoding
/// fails it is left as it was.
pub fn archive_snapshots(
    blob: &mut Vec<u8>,
    compressor: &mut Compressor,
    entity: Vec<(u32, Value)>,
    checkpoint_every: u16,
) -> (out: Result<EntityData, BuildError>)
    requires
        entity.len() > 0,
        checkpoint_every >= 1,
    ensures
        compressor_dictionary(*final(compressor)) == compressor_dictionary(*old(compressor)),
        old(blob).len() <= final(blob).len(),
        final(blob)@.take(old(blob).len() as int) == old(blob)@,
        match out {
            Ok(entry) => {
                &&& entry.checkpoint_every == checkpoint_every
                &&& json_text(entry.base) == base_text(docs_of(entity@))
                &&& entry.path_map.wf()
                &&& encode_prefix(docs_of(entity@), checkpoint_every as int, entity.len() as int)
                    matches Ok(r) && r.0 == entry.path_map@
                &&& forall|i: int|
                    0 <= i < entity.len() ==> #[trigger] restores(
                        docs_of(entity@),
                        checkpoint_every as int,
                        i,
                    )
                &&& entry.patches.len() == entity.len()
                &&& forall|i: int|
                    0 <= i < entity.len() ==> (#[trigger] entry.patches[i]).0 == entity[i].0
                &&& tiled(entry.patches@, old(blob).len() as int, final(blob).len() as int)
                &&& encode_prefix(docs_of(entity@), checkpoint_every as int, entity.len() as int)
                    matches Ok(r) && blob_after(
                    compressor_dictionary(*old(compressor)),
                    old(blob)@,
                    written_records(r.1),
                    entity.len() as int,
                ) == Ok::<Seq<u8>, ArchiveError>(final(blob)@) && regions_hold(
                    final(blob)@,
                    entry.patches@,
                    compressor_dictionary(*old(compressor)),
                    written_records(r.1),
                )
            },
            Err(BuildError::Encode(e)) => {
                &&& encode_prefix(docs_of(entity@), checkpoint_every as int, entity.len() as int)
                    == Err::<(Seq<Seq<char>>, Seq<Seq<FrameModel>>), EncodeError>(e)
                &&& final(blob)@ == old(blob)@
            },
            Err(BuildError::Archive(e)) => encode_prefix(
                docs_of(entity@),
                checkpoint_every as int,
                entity.len() as int,
            ) matches Ok(r) && blob_after(
                compressor_dictionary(*old(compressor)),
                old(blob)@,
                written_records(r.1),
                entity.len() as int,
            ) == Err::<Seq<u8>, ArchiveError>(e),
        },
{
    let ghost stamps = entity@;
    proof {
        assert(blob@.take(blob.len() as int) =~= blob@);
    }
    let (patches, path_map, base) = match encode(entity, checkpoint_every) {
        Ok(parts) => parts,
        Err(e) => {
            return Err(BuildError::Encode(e));
        },
    };
    proof {
        let r = encode_prefix(docs_of(stamps), checkpoint_every as int, stamps.len() as int).unwrap();
        lemma_plain_records_written(patches@, stamps, r.1);
    }
    let offsets = match archive_entity(blob, compressor, &patches) {
        Ok(offsets) => offsets,
        Err(e) => {
            return Err(BuildError::Archive(e));
        },
    };
    assert forall|i: int| 0 <= i < stamps.len() implies (#[trigger] offsets[i]).0
        == stamps[i].0 by {
        assert(patches[i].0 == stamps[i].0);
    }
    Ok(EntityData { patches: offsets, path_map, checkpoint_every, base })
}

/// What replaying all of `window` gives.
pub open spec fn replayed(table: Seq<Seq<char>>, base: Seq<char>, window: Seq<Seq<u8>>) -> Result<
    Seq<char>,
    DecodeError,
> {
    replay_value(table, base, window, window.len() as int)
}

/// A result with the document taken by its text.
pub open spec fn result_text(out: Result<Value, DecodeError>) -> Result<Seq<char>, DecodeError> {
    match out {
        Ok(v) => Ok(json_text(v)),
        Err(e) => Err(e),
    }
}

/// Reconstructs snapshot `index` of an entity: reads the regions from its
/// checkpoint to its own, expands them and replays them from the base value.
/// A window that cannot be read gives `OutOfRange`, `CapacityTooLarge` or
/// `Corrupt`; one that can gives what its replay gives.
pub fn read_snapshot(
    entry: &EntityData,
    blob: &[u8],
    decompressor: &mut Decompressor,
    index: usize,
    capacity: usize,
) -> (out: Result<Value, DecodeError>)
    requires
        entry.checkpoint_every >= 1,
    ensures
        out == Err::<Value, DecodeError>(DecodeError::OutOfRange) <==> window_out_of_range(
            entry.patches@,
            entry.checkpoint_every as int,
            blob@.len() as int,
            index as int,
        ),
        out == Err::<Value, DecodeError>(DecodeError::CapacityTooLarge) <==> !window_out_of_range(
            entry.patches@,
            entry.checkpoint_every as int,
            blob@.len() as int,
            index as int,
        ) && capacity > MAX_RECORD_CAPACITY,
        decompressor_dictionary(*final(decompressor)) == decompressor_dictionary(
            *old(decompressor),
        ),
        out == Err::<Value, DecodeError>(DecodeError::Corrupt) <==> !window_out_of_range(
            entry.patches@,
            entry.checkpoint_every as int,
            blob@.len() as int,
            index as int,
        ) && capacity <= MAX_RECORD_CAPACITY && !window_expands(
            decompressor_dictionary(*old(decompressor)),
            blob@,
            entry.patches@,
            entry.checkpoint_every as int,
            index as int,
            capacity,
        ),
        window_loads(
            decompressor_dictionary(*old(decompressor)),
            blob@,
            entry.patches@,
            entry.checkpoint_every as int,
            index as int,
            capacity,
        ) ==> replayed(
            entry.path_map@,
            json_text(entry.base),
            window_plain(
                decompressor_dictionary(*old(decompressor)),
                blob@,
                entry.patches@,
                entry.checkpoint_every as int,
                index as int,
                capacity,
            ),
        ) == result_text(out),
{
    let window = match load_window(
        &entry.patches,
        entry.checkpoint_every,
        blob,
        decompressor,
        index,
        capacity,
    ) {
        Ok(window) => window,
        Err(e) => {
            return Err(e);
        },
    };
    let out = replay(&entry.path_map, &entry.base, &window);
    proof {
        assert(rows(window@).len() == window.len());
        assert(replay_value(
            entry.path_map@,
            json_text(entry.base),
            rows(window@),
            rows(window@).len() as int,
        ) == replay_value(
            entry.path_map@,
            json_text(entry.base),
            rows(window@),
            window.len() as int,
        ));
    }
    out
}

/// The lookup table of one entity type: entity id to index entry, each id
/// once.
#[derive(Debug)]
pub struct EntityTable {
    pub entries: Vec<(String, EntityData)>,
}

/// The entry at position `i` once `data` was inserted under `id`.
pub open spec fn entry_after(before: EntityTable, id: Seq<char>, data: EntityData, i: int) -> EntityData {
    if i < before.entries.len() && before.ids()[i] != id {
        before.entries[i].1
    } else {
        data
    }
}

impl EntityTable {
    /// The ids of the table, in the order in which they were first inserted.
    pub open spec fn ids(&self) -> Seq<Seq<char>> {
        Seq::new(self.entries@.len(), |i: int| self.entries@[i].0@)
    }

    /// No id stands twice.
    pub open spec fn wf(&self) -> bool {
        forall|i: int, j: int| 0 <= i < j < self.ids().len() ==> self.ids()[i] != self.ids()[j]
    }

    /// The empty table.
    pub fn new() -> (table: EntityTable)
        ensures
            table.ids() == Seq::<Seq<char>>::empty(),
            table.wf(),
    {
        let table = EntityTable { entries: Vec::new() };
        assert(table.ids() =~= Seq::<Seq<char>>::empty());
        table
    }

    /// The number of entities.
    pub fn len(&self) -> (n: usize)
        ensures
            n == self.ids().len(),
    {
        self.entries.len()
    }

    /// Where the entry of `id` stands.
    pub fn position(&self, id: &String) -> (at: Option<usize>)
        ensures
            match at {
                Some(i) => i < self.ids().len() && self.ids()[i as int] == id@ && forall|k: int|
                    0 <= k < i ==> self.ids()[k] != id@,
                None => !self.ids().contains(id@),
            },
    {
        let mut i: usize = 0;
        while i < self.entries.len()
            invariant
                i <= self.entries.len(),
                forall|k: int| 0 <= k < i ==> self.ids()[k] != id@,
            decreases self.entries.len() - i,
        {
            if self.entries[i].0 == *id {
                return Some(i);
            }
            i += 1;
        }
        None
    }

    /// The entry of `id`, if the table holds one.
    pub fn get(&self, id: &String) -> (entry: Option<&EntityData>)
        ensures
            match entry {
                Some(e) => exists|i: int|
                    0 <= i < self.entries.len() && (#[trigger] self.entries[i]).0@ == id@
                        && self.entries[i].1 == *e,
                None => !self.ids().contains(id@),
            },
    {
        match self.position(id) {
            Some(i) => {
                assert(self.ids()[i as int] == self.entries[i as int].0@);
                Some(&self.entries[i].1)
            },
            None => None,
        }
    }

    /// Puts the entry of `id` into the table. An entry that the id already had
    /// is replaced where it stands; a new id goes to the end. Returns whether
    /// an entry was replaced.
    pub fn insert(&mut self, id: String, data: EntityData) -> (replaced: bool)
        requires
            old(self).wf(),
        ensures
            final(self).wf(),
            replaced == old(self).ids().contains(id@),
            replaced ==> final(self).ids() == old(self).ids(),
            !replaced ==> final(self).ids() == old(self).ids().push(id@),
            forall|i: int|
                0 <= i < final(self).entries.len() ==> (#[trigger] final(self).entries[i]).1
                    == entry_after(*old(self), id@, data, i),
    {
        match self.position(&id) {
            Some(i) => {
                self.entries.set(i, (id, data));
                assert(self.ids() =~= old(self).ids());
                true
            },
            None => {
                self.entries.push((id, data));
                assert(self.ids() =~= old(self).ids().push(id@));
                assert forall|i: int, j: int| 0 <= i < j < self.ids().len() implies self.ids()[i]
                    != self.ids()[j] by {
                    if j == old(self).ids().len() {
                        assert(old(self).ids().contains(old(self).ids()[i]));
                    }
                }
                false
            },
        }
    }
}

} // verus!
