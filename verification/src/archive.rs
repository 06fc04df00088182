//! The blob archive: compressed patch records appended to one byte store, and
//! the offsets by which the index finds them again.

use vstd::prelude::*;
use vstd::slice::slice_subrange;
use zstd::block::{Compressor, Decompressor};
use crate::codec::{join_record, joined};
use crate::decoder::DecodeError;
use crate::encoder::{rows, EntityPatch};

verus! {

/// `zstd::block::Compressor`: the compression context of one run, with its
/// dictionary.
#[verifier::external_type_specification]
#[verifier::external_body]
pub struct ExCompressor(Compressor);

/// `zstd::block::Decompressor`, the reading side of the same.
#[verifier::external_type_specification]
#[verifier::external_body]
pub struct ExDecompressor(Decompressor);

/// The compression level of patch records.
pub const PATCH_LEVEL: i32 = 22;

/// The longest blob whose offsets fit in 32 bits.
pub const MAX_BLOB_LEN: usize = 0xffff_ffff;

/// The largest buffer that can be asked for at all: half the address space.
pub const MAX_RECORD_CAPACITY: usize = usize::MAX / 2;

/// The dictionary that a compressor was made with.
pub uninterp spec fn compressor_dictionary(compressor: Compressor) -> Seq<u8>;

/// The dictionary that a decompressor was made with.
pub uninterp spec fn decompressor_dictionary(decompressor: Decompressor) -> Seq<u8>;

/// The block that `Compressor::compress` makes of `data` at `level` with the
/// dictionary `dict`, or `None` where it fails.
pub uninterp spec fn compressed(dict: Seq<u8>, data: Seq<u8>, level: i32) -> Option<Seq<u8>>;

/// The bytes that `Decompressor::decompress` expands the block `data` to with
/// the dictionary `dict` and room for `capacity` bytes, or `None` where it
/// fails.
pub uninterp spec fn decompressed(dict: Seq<u8>, data: Seq<u8>, capacity: usize) -> Option<
    Seq<u8>,
>;

/// The bytes of a missing or present byte string.
pub open spec fn bytes_of(v: Option<Vec<u8>>) -> Option<Seq<u8>> {
    match v {
        Some(b) => Some(b@),
        None => None,
    }
}

/// Why a record could not be archived.
#[derive(Clone, Copy, Debug, PartialEq, Eq, Structural)]
pub enum ArchiveError {
    /// The compressor failed.
    CompressionFailed,
    /// The compressor returned no bytes, so the record would have no region.
    EmptyBlock,
    /// The blob would grow past what a 32-bit offset can address.
    BlobTooLarge,
}

/// Calls `Compressor::compress`, which hands the context's dictionary, `data`
/// and `level` to zstd and returns one block. The block is a function of those
/// three; the dictionary stays as it is. A failure comes back as `None`.
#[verifier::external_body]
pub(crate) fn compress_block(compressor: &mut Compressor, data: &[u8], level: i32) -> (out: Option<
    Vec<u8>,
>)
    ensures
        compressor_dictionary(*final(compressor)) == compressor_dictionary(*old(compressor)),
        bytes_of(out) == compressed(compressor_dictionary(*old(compressor)), data@, level),
{
    compressor.compress(data, level).ok()
}

/// Calls `Decompressor::decompress`, which expands one block with the
/// context's dictionary into a buffer of at most `capacity` bytes. The bytes
/// are a function of the dictionary, the block and the capacity; the
/// dictionary stays as it is. A failure comes back as `None`.
#[verifier::external_body]
pub(crate) fn decompress_block(
    decompressor: &mut Decompressor,
    data: &[u8],
    capacity: usize,
) -> (out: Option<Vec<u8>>)
    requires
        capacity <= MAX_RECORD_CAPACITY,
    ensures
        decompressor_dictionary(*final(decompressor)) == decompressor_dictionary(
            *old(decompressor),
        ),
        bytes_of(out) == decompressed(decompressor_dictionary(*old(decompressor)), data@, capacity),
{
    decompressor.decompress(data, capacity).ok()
}

/// The regions of `offsets` lie end to end from `lo` to `hi`, none of them
/// empty.
pub open spec fn tiled(offsets: Seq<(u32, u32, u32)>, lo: int, hi: int) -> bool {
    &&& lo <= hi
    &&& offsets.len() == 0 ==> lo == hi
    &&& offsets.len() > 0 ==> offsets[0].1 == lo && offsets[offsets.len() - 1].2 == hi
    &&& forall|i: int| 0 <= i < offsets.len() ==> (#[trigger] offsets[i]).1 < offsets[i].2
    &&& forall|i: int|
        0 <= i && i + 1 < offsets.len() ==> (#[trigger] offsets[i]).2 == offsets[i + 1].1
}

/// Regions that lie end to end stay between their bounds, and each ends
/// before the next begins.
pub proof fn lemma_tiled_within(offsets: Seq<(u32, u32, u32)>, lo: int, hi: int, i: int, j: int)
    requires
        tiled(offsets, lo, hi),
        0 <= i <= j < offsets.len(),
    ensures
        lo <= offsets[i].1 < offsets[i].2 <= hi,
        i < j ==> offsets[i].2 <= offsets[j].1,
        offsets[i].1 <= offsets[j].1,
    decreases offsets.len() - i,
{
    lemma_tiled_start(offsets, lo, hi, i);
    if i + 1 < offsets.len() {
        lemma_tiled_within(offsets, lo, hi, i + 1, if j > i { j } else { i + 1 });
    }
}

/// Every region of a tiling begins at or after the tiling's start.
pub proof fn lemma_tiled_start(offsets: Seq<(u32, u32, u32)>, lo: int, hi: int, i: int)
    requires
        tiled(offsets, lo, hi),
        0 <= i < offsets.len(),
    ensures
        lo <= offsets[i].1,
    decreases i,
{
    if i > 0 {
        lemma_tiled_start(offsets, lo, hi, i - 1);
    }
}

/// The offsets of one entity are strictly increasing and do not overlap.
pub proof fn lemma_offsets_increase(offsets: Seq<(u32, u32, u32)>, lo: int, hi: int)
    requires
        tiled(offsets, lo, hi),
    ensures
        forall|i: int, j: int|
            0 <= i < j < offsets.len() ==> (#[trigger] offsets[i]).1 < offsets[i].2 <= (
            #[trigger] offsets[j]).1 < offsets[j].2,
{
    assert forall|i: int, j: int| 0 <= i < j < offsets.len() implies (#[trigger] offsets[i]).1
        < offsets[i].2 <= (#[trigger] offsets[j]).1 < offsets[j].2 by {
        lemma_tiled_within(offsets, lo, hi, i, j);
    }
}

/// The regions of two entities archived one after the other never overlap:
/// every region of the first ends before any region of the second begins.
pub proof fn lemma_entities_apart(
    first: Seq<(u32, u32, u32)>,
    second: Seq<(u32, u32, u32)>,
    lo: int,
    mid: int,
    later: int,
    hi: int,
)
    requires
        tiled(first, lo, mid),
        tiled(second, later, hi),
        mid <= later,
    ensures
        forall|i: int, j: int|
            0 <= i < first.len() && 0 <= j < second.len() ==> (#[trigger] first[i]).2 <= (
            #[trigger] second[j]).1,
{
    assert forall|i: int, j: int| 0 <= i < first.len() && 0 <= j < second.len() implies (
    #[trigger] first[i]).2 <= (#[trigger] second[j]).1 by {
        lemma_tiled_within(first, lo, mid, i, i);
        lemma_tiled_within(second, later, hi, j, j);
    }
}

/// Appends one compressed block to the blob and reports the region that it
/// fills, read off the blob's end before and after the write.
pub fn append_block(blob: &mut Vec<u8>, block: &Vec<u8>) -> (out: Result<(u32, u32), ArchiveError>)
    ensures
        match out {
            Ok((start, end)) => {
                &&& block.len() > 0
                &&& old(blob).len() + block.len() <= MAX_BLOB_LEN
                &&& start == old(blob).len()
                &&& end == final(blob).len()
                &&& final(blob)@ == old(blob)@ + block@
            },
            Err(e) => {
                &&& final(blob)@ == old(blob)@
                &&& block.len() == 0 || old(blob).len() + block.len() > MAX_BLOB_LEN
                &&& e == if block.len() == 0 {
                    ArchiveError::EmptyBlock
                } else {
                    ArchiveError::BlobTooLarge
                }
            },
        },
{
    if block.len() == 0 {
        return Err(ArchiveError::EmptyBlock);
    }
    let start = blob.len();
    if start > MAX_BLOB_LEN || block.len() > MAX_BLOB_LEN - start {
        return Err(ArchiveError::BlobTooLarge);
    }
    let mut i: usize = 0;
    while i < block.len()
        invariant
            i <= block.len(),
            blob@ == old(blob)@ + block@.take(i as int),
        decreases block.len() - i,
    {
        blob.push(block[i]);
        assert(block@.take(i as int).push(block[i as int]) =~= block@.take(i + 1));
        i += 1;
    }
    assert(block@.take(i as int) =~= block@);
    Ok((start as u32, blob.len() as u32))
}

/// The byte strings of the records of an entity, each joined from its
/// operations.
pub open spec fn plain_records(patches: Seq<EntityPatch>) -> Seq<Seq<u8>> {
    Seq::new(patches.len(), |i: int| joined(patches[i].1@, patches[i].1@.len() as int))
}

/// The block that record `i` is stored as.
pub open spec fn block_at(dict: Seq<u8>, records: Seq<Seq<u8>>, i: int) -> Seq<u8> {
    compressed(dict, records[i], PATCH_LEVEL).unwrap()
}

/// The blob after the first `n` of `records` were compressed and appended, or
/// the first error on the way: a record that does not compress, a block
/// without bytes, a blob grown past what 32 bits address.
pub open spec fn blob_after(dict: Seq<u8>, blob: Seq<u8>, records: Seq<Seq<u8>>, n: int) -> Result<
    Seq<u8>,
    ArchiveError,
>
    decreases n,
{
    if n <= 0 {
        Ok(blob)
    } else {
        match blob_after(dict, blob, records, n - 1) {
            Err(e) => Err(e),
            Ok(b) => match compressed(dict, records[n - 1], PATCH_LEVEL) {
                None => Err(ArchiveError::CompressionFailed),
                Some(z) => if z.len() == 0 {
                    Err(ArchiveError::EmptyBlock)
                } else if b.len() + z.len() > MAX_BLOB_LEN {
                    Err(ArchiveError::BlobTooLarge)
                } else {
                    Ok(b + z)
                },
            },
        }
    }
}

/// An error met on the first records is the error of them all.
pub proof fn lemma_blob_after_fail(
    dict: Seq<u8>,
    blob: Seq<u8>,
    records: Seq<Seq<u8>>,
    k: int,
    n: int,
)
    requires
        0 <= k <= n,
        blob_after(dict, blob, records, k).is_err(),
    ensures
        blob_after(dict, blob, records, n) == blob_after(dict, blob, records, k),
    decreases n - k,
{
    if k < n {
        lemma_blob_after_fail(dict, blob, records, k + 1, n);
    }
}

/// Each region of `offsets` holds the block of its record.
pub open spec fn regions_hold(
    blob: Seq<u8>,
    offsets: Seq<(u32, u32, u32)>,
    dict: Seq<u8>,
    records: Seq<Seq<u8>>,
) -> bool {
    forall|i: int|
        0 <= i < offsets.len() ==> (#[trigger] offsets[i]).2 <= blob.len() && blob.subrange(
            offsets[i].1 as int,
            offsets[i].2 as int,
        ) == block_at(dict, records, i)
}

/// Archives the records of one entity: joins, compresses and appends each in
/// turn, and returns `(timestamp, start, end)` for each. The blob only grows,
/// and each region holds the compressed bytes of its record. With no records
/// nothing is written; an error leaves the records before it in the blob.
pub fn archive_entity(
    blob: &mut Vec<u8>,
    compressor: &mut Compressor,
    patches: &Vec<EntityPatch>,
) -> (out: Result<Vec<(u32, u32, u32)>, ArchiveError>)
    ensures
        compressor_dictionary(*final(compressor)) == compressor_dictionary(*old(compressor)),
        old(blob).len() <= final(blob).len(),
        final(blob)@.take(old(blob).len() as int) == old(blob)@,
        match out {
            Ok(offsets) => {
                &&& blob_after(
                    compressor_dictionary(*old(compressor)),
                    old(blob)@,
                    plain_records(patches@),
                    patches.len() as int,
                ) == Ok::<Seq<u8>, ArchiveError>(final(blob)@)
                &&& offsets.len() == patches.len()
                &&& forall|i: int|
                    0 <= i < offsets.len() ==> (#[trigger] offsets[i]).0 == patches[i].0
                &&& tiled(offsets@, old(blob).len() as int, final(blob).len() as int)
                &&& regions_hold(
                    final(blob)@,
                    offsets@,
                    compressor_dictionary(*old(compressor)),
                    plain_records(patches@),
                )
                &&& patches.len() > 0 ==> final(blob).len() <= MAX_BLOB_LEN
            },
            Err(e) => blob_after(
                compressor_dictionary(*old(compressor)),
                old(blob)@,
                plain_records(patches@),
                patches.len() as int,
            ) == Err::<Seq<u8>, ArchiveError>(e),
        },
{
    let ghost dict = compressor_dictionary(*compressor);
    let ghost records = plain_records(patches@);
    let mut offsets: Vec<(u32, u32, u32)> = Vec::new();
    let mut k: usize = 0;
    proof {
        assert(blob@.take(blob.len() as int) =~= blob@);
    }
    while k < patches.len()
        invariant
            k <= patches.len(),
            offsets.len() == k,
            dict == compressor_dictionary(*old(compressor)),
            dict == compressor_dictionary(*compressor),
            records == plain_records(patches@),
            old(blob).len() <= blob.len(),
            blob@.take(old(blob).len() as int) == old(blob)@,
            forall|i: int| 0 <= i < offsets.len() ==> (#[trigger] offsets[i]).0 == patches[i].0,
            tiled(offsets@, old(blob).len() as int, blob.len() as int),
            k > 0 ==> blob.len() <= MAX_BLOB_LEN,
            blob_after(dict, old(blob)@, records, k as int) == Ok::<Seq<u8>, ArchiveError>(blob@),
            regions_hold(blob@, offsets@, dict, records),
        decreases patches.len() - k,
    {
        let plain = join_record(&patches[k].1);
        assert(records[k as int] == plain@);
        let block = match compress_block(compressor, plain.as_slice(), PATCH_LEVEL) {
            Some(block) => block,
            None => {
                proof {
                    assert(blob_after(dict, old(blob)@, records, k + 1).is_err());
                    lemma_blob_after_fail(dict, old(blob)@, records, k + 1, patches.len() as int);
                }
                return Err(ArchiveError::CompressionFailed);
            },
        };
        let ghost before = blob@;
        let ghost earlier = offsets@;
        let (start, end) = match append_block(blob, &block) {
            Ok(region) => region,
            Err(e) => {
                proof {
                    assert(blob_after(dict, old(blob)@, records, k + 1) == Err::<
                        Seq<u8>,
                        ArchiveError,
                    >(e));
                    lemma_blob_after_fail(dict, old(blob)@, records, k + 1, patches.len() as int);
                }
                return Err(e);
            },
        };
        offsets.push((patches[k].0, start, end));
        proof {
            assert forall|i: int| 0 <= i < offsets.len() implies (#[trigger] offsets[i]).2
                <= blob.len() && blob@.subrange(offsets[i].1 as int, offsets[i].2 as int)
                == block_at(dict, records, i) by {
                if i < earlier.len() {
                    assert(earlier[i].2 <= before.len());
                    assert(blob@.subrange(earlier[i].1 as int, earlier[i].2 as int)
                        =~= before.subrange(earlier[i].1 as int, earlier[i].2 as int));
                } else {
                    assert(blob@.subrange(start as int, end as int) =~= block@);
                }
            }
            assert(blob@.take(old(blob).len() as int) =~= before.take(old(blob).len() as int));
            assert forall|i: int| 0 <= i && i + 1 < offsets.len() implies (#[trigger] offsets[i]).2
                == offsets[i + 1].1 by {
                if i + 1 < earlier.len() {
                    assert(earlier[i].2 == earlier[i + 1].1);
                }
            }
            assert forall|i: int| 0 <= i < offsets.len() implies (#[trigger] offsets[i]).1
                < offsets[i].2 by {
                if i < earlier.len() {
                    assert(earlier[i].1 < earlier[i].2);
                }
            }
        }
        k += 1;
    }
    Ok(offsets)
}

/// The position of the checkpoint at or before `index`.
pub open spec fn checkpoint_of(index: int, every: int) -> int {
    (index / every) * every
}

/// Finds the checkpoint from which snapshot `index` is replayed. The window
/// from there to `index` holds the checkpoint record and fewer than `every`
/// records after it.
pub fn window_start(index: usize, every: u16) -> (start: usize)
    requires
        every >= 1,
    ensures
        start == checkpoint_of(index as int, every as int),
        start <= index,
        index - start + 1 <= every,
        start % (every as usize) == 0,
{
    proof {
        vstd::arithmetic::div_mod::lemma_fundamental_div_mod(index as int, every as int);
        vstd::arithmetic::div_mod::lemma_mod_bound(index as int, every as int);
        vstd::arithmetic::div_mod::lemma_mod_multiples_basic(
            index as int / every as int,
            every as int,
        );
        vstd::arithmetic::mul::lemma_mul_is_commutative(index as int / every as int, every as int);
    }
    index - index % (every as usize)
}

/// Whether region `j` of `offsets` lies inside a blob of `len` bytes.
pub open spec fn region_ok(offsets: Seq<(u32, u32, u32)>, j: int, len: int) -> bool {
    offsets[j].1 <= offsets[j].2 <= len
}

/// No snapshot stands at `index`, or a region of its window lies outside a
/// blob of `len` bytes.
pub open spec fn window_out_of_range(
    offsets: Seq<(u32, u32, u32)>,
    every: int,
    len: int,
    index: int,
) -> bool {
    index >= offsets.len() || exists|j: int|
        checkpoint_of(index, every) <= j <= index && !region_ok(offsets, j, len)
}

/// What region `j` of the blob expands to.
pub open spec fn region_plain(
    dict: Seq<u8>,
    blob: Seq<u8>,
    offsets: Seq<(u32, u32, u32)>,
    j: int,
    capacity: usize,
) -> Option<Seq<u8>> {
    decompressed(dict, blob.subrange(offsets[j].1 as int, offsets[j].2 as int), capacity)
}

/// Every region of the window of snapshot `index` expands.
pub open spec fn window_expands(
    dict: Seq<u8>,
    blob: Seq<u8>,
    offsets: Seq<(u32, u32, u32)>,
    every: int,
    index: int,
    capacity: usize,
) -> bool {
    forall|j: int|
        checkpoint_of(index, every) <= j <= index ==> (#[trigger] region_plain(
            dict,
            blob,
            offsets,
            j,
            capacity,
        )).is_some()
}

/// The records of the window of snapshot `index`, expanded, oldest first.
pub open spec fn window_plain(
    dict: Seq<u8>,
    blob: Seq<u8>,
    offsets: Seq<(u32, u32, u32)>,
    every: int,
    index: int,
    capacity: usize,
) -> Seq<Seq<u8>> {
    Seq::new(
        (index - checkpoint_of(index, every) + 1) as nat,
        |m: int| region_plain(dict, blob, offsets, checkpoint_of(index, every) + m, capacity).unwrap(),
    )
}

/// The window of snapshot `index` can be read: it lies in the blob, the
/// capacity can be had, and every region expands.
pub open spec fn window_loads(
    dict: Seq<u8>,
    blob: Seq<u8>,
    offsets: Seq<(u32, u32, u32)>,
    every: int,
    index: int,
    capacity: usize,
) -> bool {
    &&& !window_out_of_range(offsets, every, blob.len() as int, index)
    &&& capacity <= MAX_RECORD_CAPACITY
    &&& window_expands(dict, blob, offsets, every, index, capacity)
}

/// Reads the records that snapshot `index` is replayed from: those from its
/// checkpoint up to its own, decompressed, oldest first. No other region of
/// the blob is read. `capacity` is the room set aside for each record while it
/// is expanded: a record that needs more does not expand, and a capacity
/// beyond what a buffer can be asked for is refused.
pub fn load_window(
    offsets: &Vec<(u32, u32, u32)>,
    every: u16,
    blob: &[u8],
    decompressor: &mut Decompressor,
    index: usize,
    capacity: usize,
) -> (out: Result<Vec<Vec<u8>>, DecodeError>)
    requires
        every >= 1,
    ensures
        out == Err::<Vec<Vec<u8>>, DecodeError>(DecodeError::OutOfRange) <==> window_out_of_range(
            offsets@,
            every as int,
            blob@.len() as int,
            index as int,
        ),
        out == Err::<Vec<Vec<u8>>, DecodeError>(DecodeError::CapacityTooLarge)
            <==> !window_out_of_range(offsets@, every as int, blob@.len() as int, index as int)
            && capacity > MAX_RECORD_CAPACITY,
        decompressor_dictionary(*final(decompressor)) == decompressor_dictionary(
            *old(decompressor),
        ),
        out is Ok <==> window_loads(
            decompressor_dictionary(*old(decompressor)),
            blob@,
            offsets@,
            every as int,
            index as int,
            capacity,
        ),
        match out {
            Ok(window) => rows(window@) == window_plain(
                decompressor_dictionary(*old(decompressor)),
                blob@,
                offsets@,
                every as int,
                index as int,
                capacity,
            ) && window.len() == index - checkpoint_of(index as int, every as int) + 1
                && window.len() <= every,
            Err(e) => e == DecodeError::OutOfRange || e == DecodeError::CapacityTooLarge || e
                == DecodeError::Corrupt,
        },
{
    let ghost dict = decompressor_dictionary(*decompressor);
    if index >= offsets.len() {
        return Err(DecodeError::OutOfRange);
    }
    let start = window_start(index, every);
    let mut j: usize = start;
    while j <= index
        invariant
            start <= j <= index + 1,
            start == checkpoint_of(index as int, every as int),
            index < offsets.len(),
            forall|t: int| start <= t < j ==> region_ok(offsets@, t, blob@.len() as int),
        decreases index + 1 - j,
    {
        let (_, lo, hi) = offsets[j];
        if lo > hi || hi as usize > blob.len() {
            assert(!region_ok(offsets@, j as int, blob@.len() as int));
            return Err(DecodeError::OutOfRange);
        }
        j += 1;
    }
    if capacity > MAX_RECORD_CAPACITY {
        return Err(DecodeError::CapacityTooLarge);
    }
    let mut window: Vec<Vec<u8>> = Vec::new();
    let mut j: usize = start;
    while j <= index
        invariant
            start <= j <= index + 1,
            start == checkpoint_of(index as int, every as int),
            index < offsets.len(),
            capacity <= MAX_RECORD_CAPACITY,
            window.len() == j - start,
            dict == decompressor_dictionary(*old(decompressor)),
            dict == decompressor_dictionary(*decompressor),
            forall|t: int| start <= t <= index ==> region_ok(offsets@, t, blob@.len() as int),
            forall|t: int|
                start <= t < j ==> (#[trigger] region_plain(dict, blob@, offsets@, t, capacity))
                    == Some(window[t - start]@),
        decreases index + 1 - j,
    {
        let (_, lo, hi) = offsets[j];
        assert(region_ok(offsets@, j as int, blob@.len() as int));
        let region = slice_subrange(blob, lo as usize, hi as usize);
        match decompress_block(decompressor, region, capacity) {
            Some(plain) => {
                window.push(plain);
            },
            None => {
                assert(region_plain(dict, blob@, offsets@, j as int, capacity).is_none());
                return Err(DecodeError::Corrupt);
            },
        }
        j += 1;
    }
    proof {
        let expected = window_plain(dict, blob@, offsets@, every as int, index as int, capacity);
        assert forall|m: int| 0 <= m < window.len() implies rows(window@)[m] == expected[m] by {
            assert(region_plain(dict, blob@, offsets@, start + m, capacity) == Some(window[m]@));
        }
        assert(rows(window@) =~= expected);
    }
    Ok(window)
}

} // verus!
