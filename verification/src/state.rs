//! The state store of the operators that keep state.

use vstd::prelude::*;
use vstd::slice::slice_to_vec;

verus! {

/// What a read of `key` gives: the bytes stored there, or no bytes where nothing is.
pub open spec fn state_at(states: Map<Seq<u8>, Seq<u8>>, key: Seq<u8>) -> Seq<u8> {
    if states.contains_key(key) {
        states[key]
    } else {
        Seq::empty()
    }
}

/// Why a write to the state store did not happen.
#[derive(Debug, PartialEq, Eq)]
pub struct StateWriteError {
    pub message: String,
}

/// Keyed byte-blob storage for the operators that keep state.
///
/// A store tells by [`StateManager::takes`] which writes it takes, and by
/// [`StateManager::refusal`] what it says of a write that it does not take. A store
/// that tells nothing of itself stores nothing and takes no write.
pub trait StateManager {
    /// What is stored, by key.
    open spec fn states(&self) -> Map<Seq<u8>, Seq<u8>> {
        Map::empty()
    }

    /// True when the store, as it is, takes the write of `value` at `key`.
    open spec fn takes(&self, key: Seq<u8>, value: Seq<u8>) -> bool {
        false
    }

    /// The message with which the store, as it is, refuses the write of `value` at `key`.
    open spec fn refusal(&self, key: Seq<u8>, value: Seq<u8>) -> Seq<char> {
        "the store takes no write"@
    }

    /// The bytes stored at `key`; none where the key is missing.
    fn get_keyed_state(&self, key: &[u8]) -> (value: Vec<u8>)
        ensures
            value@ == state_at(self.states(), key@),
    ;

    /// Stores `value` at `key`, where the store takes the write. A write that it
    /// does not take changes nothing, and is refused with the store's message.
    fn set_key_state(&mut self, key: &[u8], value: &[u8]) -> (done: Result<(), StateWriteError>)
        ensures
            done is Ok <==> old(self).takes(key@, value@),
            done is Ok ==> final(self).states() == old(self).states().insert(key@, value@),
            done matches Err(error) ==> final(self).states() == old(self).states()
                && error.message@ == old(self).refusal(key@, value@),
    ;
}

/// A state store held in memory. Its writes always happen.
pub struct MemoryStateManager {
    cells: Vec<(Vec<u8>, Vec<u8>)>,
}

/// What the cells store, by key. Where two cells have one key, the earlier one counts.
spec fn cells_map(cells: Seq<(Vec<u8>, Vec<u8>)>) -> Map<Seq<u8>, Seq<u8>>
    decreases cells.len(),
{
    if cells.len() == 0 {
        Map::empty()
    } else {
        cells_map(cells.drop_first()).insert(cells[0].0@, cells[0].1@)
    }
}

/// True when no cell before `at` has the key `key`.
spec fn no_cell_before(cells: Seq<(Vec<u8>, Vec<u8>)>, key: Seq<u8>, at: int) -> bool {
    forall|j: int| 0 <= j < at && j < cells.len() ==> (#[trigger] cells[j]).0@ != key
}

/// A key that no cell has is not stored.
proof fn lemma_cells_missing(cells: Seq<(Vec<u8>, Vec<u8>)>, key: Seq<u8>)
    requires
        no_cell_before(cells, key, cells.len() as int),
    ensures
        !cells_map(cells).contains_key(key),
    decreases cells.len(),
{
    if cells.len() != 0 {
        let tail = cells.drop_first();
        assert forall|j: int| 0 <= j < tail.len() implies (#[trigger] tail[j]).0@ != key by {
            assert(tail[j] == cells[j + 1]);
        }
        lemma_cells_missing(tail, key);
    }
}

/// The first cell that has a key holds what is stored at that key.
proof fn lemma_cells_first(cells: Seq<(Vec<u8>, Vec<u8>)>, key: Seq<u8>, at: int)
    requires
        0 <= at < cells.len(),
        cells[at].0@ == key,
        no_cell_before(cells, key, at),
    ensures
        cells_map(cells).contains_key(key),
        cells_map(cells)[key] == cells[at].1@,
    decreases cells.len(),
{
    if at != 0 {
        let tail = cells.drop_first();
        assert(cells[0].0@ != key);
        assert forall|j: int| 0 <= j < at - 1 && j < tail.len() implies (#[trigger] tail[j]).0@
            != key by {
            assert(tail[j] == cells[j + 1]);
        }
        lemma_cells_first(tail, key, at - 1);
    }
}

/// A new value in the first cell of a key is a new value stored at that key.
proof fn lemma_cells_update(
    cells: Seq<(Vec<u8>, Vec<u8>)>,
    at: int,
    cell: (Vec<u8>, Vec<u8>),
)
    requires
        0 <= at < cells.len(),
        cells[at].0@ == cell.0@,
        no_cell_before(cells, cell.0@, at),
    ensures
        cells_map(cells.update(at, cell)) == cells_map(cells).insert(cell.0@, cell.1@),
    decreases cells.len(),
{
    let tail = cells.drop_first();
    if at == 0 {
        assert(cells.update(at, cell).drop_first() =~= tail);
        assert(cells_map(cells.update(at, cell)) =~= cells_map(cells).insert(cell.0@, cell.1@));
    } else {
        assert(cells[0].0@ != cell.0@);
        assert forall|j: int| 0 <= j < at - 1 && j < tail.len() implies (#[trigger] tail[j]).0@
            != cell.0@ by {
            assert(tail[j] == cells[j + 1]);
        }
        lemma_cells_update(tail, at - 1, cell);
        assert(cells.update(at, cell).drop_first() =~= tail.update(at - 1, cell));
        assert(cells_map(cells.update(at, cell)) =~= cells_map(cells).insert(cell.0@, cell.1@));
    }
}

/// A new cell at the end, with a key that no cell has, is a new value stored at that key.
proof fn lemma_cells_push(cells: Seq<(Vec<u8>, Vec<u8>)>, cell: (Vec<u8>, Vec<u8>))
    requires
        no_cell_before(cells, cell.0@, cells.len() as int),
    ensures
        cells_map(cells.push(cell)) == cells_map(cells).insert(cell.0@, cell.1@),
    decreases cells.len(),
{
    if cells.len() == 0 {
        assert(cells.push(cell).drop_first() =~= cells);
        assert(cells_map(cells.push(cell)) =~= cells_map(cells).insert(cell.0@, cell.1@));
    } else {
        let tail = cells.drop_first();
        assert(cells[0].0@ != cell.0@);
        assert forall|j: int| 0 <= j < tail.len() implies (#[trigger] tail[j]).0@ != cell.0@ by {
            assert(tail[j] == cells[j + 1]);
        }
        lemma_cells_push(tail, cell);
        assert(cells.push(cell).drop_first() =~= tail.push(cell));
        assert(cells_map(cells.push(cell)) =~= cells_map(cells).insert(cell.0@, cell.1@));
    }
}

impl MemoryStateManager {
    /// An empty store.
    pub fn new() -> (store: Self)
        ensures
            store.states() == Map::<Seq<u8>, Seq<u8>>::empty(),
    {
        MemoryStateManager { cells: Vec::new() }
    }

    /// The index of the first cell whose key is `key`, if there is one.
    fn find(&self, key: &[u8]) -> (at: Option<usize>)
        ensures
            match at {
                Some(i) => i < self.cells@.len() && self.cells@[i as int].0@ == key@
                    && no_cell_before(self.cells@, key@, i as int),
                None => no_cell_before(self.cells@, key@, self.cells@.len() as int),
            },
    {
        let mut i: usize = 0;
        while i < self.cells.len()
            invariant
                i <= self.cells.len(),
                no_cell_before(self.cells@, key@, i as int),
            decreases self.cells.len() - i,
        {
            if same_bytes(self.cells[i].0.as_slice(), key) {
                return Some(i);
            }
            i += 1;
        }
        None
    }
}

/// True when the two runs hold the same bytes.
pub fn same_bytes(a: &[u8], b: &[u8]) -> (same: bool)
    ensures
        same == (a@ == b@),
{
    if a.len() != b.len() {
        return false;
    }
    let mut i: usize = 0;
    while i < a.len()
        invariant
            i <= a.len(),
            a.len() == b.len(),
            forall|j: int| 0 <= j < i ==> a@[j] == b@[j],
        decreases a.len() - i,
    {
        if a[i] != b[i] {
            return false;
        }
        i += 1;
    }
    assert(a@ =~= b@);
    true
}

impl StateManager for MemoryStateManager {
    closed spec fn states(&self) -> Map<Seq<u8>, Seq<u8>> {
        cells_map(self.cells@)
    }

    open spec fn takes(&self, key: Seq<u8>, value: Seq<u8>) -> bool {
        true
    }

    fn get_keyed_state(&self, key: &[u8]) -> (value: Vec<u8>) {
        match self.find(key) {
            Some(i) => {
                proof {
                    lemma_cells_first(self.cells@, key@, i as int);
                }
                slice_to_vec(self.cells[i].1.as_slice())
            },
            None => {
                proof {
                    lemma_cells_missing(self.cells@, key@);
                }
                Vec::new()
            },
        }
    }

    fn set_key_state(&mut self, key: &[u8], value: &[u8]) -> (done: Result<(), StateWriteError>)
        ensures
            done is Ok,
    {
        let cell = (slice_to_vec(key), slice_to_vec(value));
        match self.find(key) {
            Some(i) => {
                proof {
                    lemma_cells_update(self.cells@, i as int, cell);
                }
                self.cells.set(i, cell);
            },
            None => {
                proof {
                    lemma_cells_push(self.cells@, cell);
                }
                self.cells.push(cell);
            },
        }
        Ok(())
    }
}

} // verus!
