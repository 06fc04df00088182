//! The path table of one entity: structural paths in first-seen order, each
//! known by its 16-bit position.

use vstd::prelude::*;

verus! {

/// How many paths the 16-bit index space holds.
pub const MAX_PATHS: usize = 65536;

/// Why a snapshot series cannot be encoded.
#[derive(Clone, Copy, Debug, PartialEq, Eq, Structural)]
pub enum EncodeError {
    /// The entity names more distinct paths than the index space holds.
    PathTableFull,
    /// A serialized value is longer than a frame's length field can say.
    ValueTooLarge,
    /// A value could not be serialized.
    Unserializable,
    /// A serialized value does not read back as the value it was.
    NotRestored,
}

/// No path stands twice in `table`.
pub open spec fn distinct(table: Seq<Seq<char>>) -> bool {
    forall|i: int, j: int| 0 <= i < j < table.len() ==> table[i] != table[j]
}

/// The table after `path` was looked up in it and, where new, appended; `None`
/// where it is new and the table is full.
pub open spec fn interned(table: Seq<Seq<char>>, path: Seq<char>) -> Option<Seq<Seq<char>>> {
    if table.contains(path) {
        Some(table)
    } else if table.len() >= MAX_PATHS {
        None
    } else {
        Some(table.push(path))
    }
}

/// The table after each of `paths` was interned in turn.
pub open spec fn intern_all(table: Seq<Seq<char>>, paths: Seq<Seq<char>>) -> Option<
    Seq<Seq<char>>,
>
    decreases paths.len(),
{
    if paths.len() == 0 {
        Some(table)
    } else {
        match intern_all(table, paths.drop_last()) {
            None => None,
            Some(t) => interned(t, paths.last()),
        }
    }
}

/// In a table without repetition a path's index is its one position.
pub proof fn lemma_index_unique(table: Seq<Seq<char>>, i: int)
    requires
        distinct(table),
        0 <= i < table.len(),
    ensures
        table.index_of(table[i]) == i,
{
    let k = table.index_of(table[i]);
    assert(0 <= k < table.len() && table[k] == table[i]);
    if k < i {
        assert(table[k] != table[i]);
    } else if i < k {
        assert(table[i] != table[k]);
    }
}

/// Interning keeps a table free of repetition and within the index space, and
/// only ever appends to it.
pub proof fn lemma_interned_extends(table: Seq<Seq<char>>, path: Seq<char>)
    requires
        distinct(table),
        table.len() <= MAX_PATHS,
        interned(table, path).is_some(),
    ensures
        distinct(interned(table, path).unwrap()),
        interned(table, path).unwrap().len() <= MAX_PATHS,
        interned(table, path).unwrap().contains(path),
        table.len() <= interned(table, path).unwrap().len(),
        forall|i: int| 0 <= i < table.len() ==> interned(table, path).unwrap()[i] == table[i],
{
    let t = interned(table, path).unwrap();
    if table.contains(path) {
    } else {
        assert(t[table.len() as int] == path);
        assert forall|i: int, j: int| 0 <= i < j < t.len() implies t[i] != t[j] by {
            if j == table.len() {
                assert(table.contains(table[i]));
            }
        }
    }
}

/// Index to path, in the order in which the paths were first seen.
#[derive(Debug)]
pub struct PathTable {
    pub entries: Vec<String>,
}

impl View for PathTable {
    type V = Seq<Seq<char>>;

    open spec fn view(&self) -> Seq<Seq<char>> {
        Seq::new(self.entries@.len(), |i: int| self.entries@[i]@)
    }
}

impl PathTable {
    /// The table's invariant: indices are dense, unique and fit in 16 bits.
    pub open spec fn wf(&self) -> bool {
        distinct(self@) && self@.len() <= MAX_PATHS
    }

    /// The empty table.
    pub fn new() -> (table: PathTable)
        ensures
            table@ == Seq::<Seq<char>>::empty(),
            table.wf(),
    {
        let table = PathTable { entries: Vec::new() };
        assert(table@ =~= Seq::<Seq<char>>::empty());
        table
    }

    /// The number of paths.
    pub fn len(&self) -> (n: usize)
        ensures
            n == self@.len(),
    {
        self.entries.len()
    }

    /// The path that an index stands for, if it stands for one.
    pub fn get(&self, index: u16) -> (path: Option<&String>)
        ensures
            match path {
                Some(p) => index < self@.len() && p@ == self@[index as int],
                None => index >= self@.len(),
            },
    {
        if (index as usize) < self.entries.len() {
            Some(&self.entries[index as usize])
        } else {
            None
        }
    }

    /// The first index at which `path` stands.
    pub fn position(&self, path: &String) -> (at: Option<usize>)
        ensures
            match at {
                Some(i) => i < self@.len() && self@[i as int] == path@ && forall|k: int|
                    0 <= k < i ==> self@[k] != path@,
                None => !self@.contains(path@),
            },
    {
        let mut i: usize = 0;
        while i < self.entries.len()
            invariant
                i <= self.entries.len(),
                forall|k: int| 0 <= k < i ==> self@[k] != path@,
            decreases self.entries.len() - i,
        {
            if self.entries[i] == *path {
                return Some(i);
            }
            i += 1;
        }
        None
    }

    /// Looks `path` up and appends it where it is new. The index returned is
    /// the path's position, which later calls never change. A new path in a
    /// full table is refused and the table left as it was.
    pub fn intern(&mut self, path: &String) -> (out: Result<u16, EncodeError>)
        requires
            old(self).wf(),
        ensures
            final(self).wf(),
            match out {
                Ok(index) => interned(old(self)@, path@) == Some(final(self)@) && index
                    < final(self)@.len() && final(self)@[index as int] == path@,
                Err(e) => e == EncodeError::PathTableFull && interned(old(self)@, path@).is_none()
                    && final(self)@ == old(self)@,
            },
    {
        match self.position(path) {
            Some(i) => Ok(i as u16),
            None => {
                let n = self.entries.len();
                if n >= MAX_PATHS {
                    Err(EncodeError::PathTableFull)
                } else {
                    proof {
                        lemma_interned_extends(self@, path@);
                    }
                    self.entries.push(path.clone());
                    assert(self@ =~= old(self)@.push(path@));
                    Ok(n as u16)
                }
            },
        }
    }
}

} // verus!
