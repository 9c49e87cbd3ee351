//! The path-addressed blob store.
//!
//! A [`BlobStore`] maps paths to byte blobs. A later write to a path replaces
//! the earlier one. The store knows nothing of authorization: whoever calls
//! [`BlobStore::put`] has already been let through.

use vstd::hash_map::StringHashMap;
use vstd::prelude::*;

verus! {

/// Why a blob could not be read.
#[derive(Debug, Clone, Copy, PartialEq, Eq)]
pub enum StoreError {
    /// Nothing is stored under the path.
    NotFound,
}

/// What [`BlobStore::get`] answers for `path` when the store holds `table`.
pub open spec fn lookup(table: Map<Seq<char>, Seq<u8>>, path: Seq<char>) -> Result<
    Seq<u8>,
    StoreError,
> {
    if table.contains_key(path) {
        Ok(table[path])
    } else {
        Err(StoreError::NotFound)
    }
}

/// A mapping from paths to blobs.
pub struct BlobStore {
    table: StringHashMap<Vec<u8>>,
}

impl View for BlobStore {
    type V = Map<Seq<char>, Seq<u8>>;

    closed spec fn view(&self) -> Map<Seq<char>, Seq<u8>> {
        self.table@.map_values(|blob: Vec<u8>| blob@)
    }
}

impl BlobStore {
    /// A store that holds nothing.
    pub fn new() -> (store: BlobStore)
        ensures
            store@ == Map::<Seq<char>, Seq<u8>>::empty(),
    {
        let store = BlobStore { table: StringHashMap::new() };
        assert(store@ =~= Map::<Seq<char>, Seq<u8>>::empty());
        store
    }

    /// Stores `contents` under `path`, replacing what was there.
    pub fn put(&mut self, path: String, contents: Vec<u8>)
        ensures
            final(self)@ == old(self)@.insert(path@, contents@),
    {
        self.table.insert(path, contents);
        assert(self@ =~= old(self)@.insert(path@, contents@));
    }

    /// A copy of the blob stored under `path`, or [`StoreError::NotFound`] if
    /// there is none.
    pub fn get(&self, path: &str) -> (outcome: Result<Vec<u8>, StoreError>)
        ensures
            match outcome {
                Ok(blob) => lookup(self@, path@) == Ok::<Seq<u8>, StoreError>(blob@),
                Err(error) => lookup(self@, path@) == Err::<Seq<u8>, StoreError>(error),
            },
    {
        match self.table.get(path) {
            Some(blob) => {
                let copy = blob.clone();
                assert(copy@ =~= blob@);
                Ok(copy)
            },
            None => Err(StoreError::NotFound),
        }
    }
}

/// The table after all of `puts` have been applied to `table`, the first of
/// them first. Each put is a path and the blob stored under it.
pub open spec fn after_puts(
    table: Map<Seq<char>, Seq<u8>>,
    puts: Seq<(Seq<char>, Seq<u8>)>,
) -> Map<Seq<char>, Seq<u8>>
    decreases puts.len(),
{
    if puts.len() == 0 {
        table
    } else {
        after_puts(table, puts.drop_last()).insert(puts.last().0, puts.last().1)
    }
}

/// Reading a path right after a blob was put there returns that blob.
pub proof fn lemma_get_after_put(table: Map<Seq<char>, Seq<u8>>, path: Seq<char>, blob: Seq<u8>)
    ensures
        lookup(table.insert(path, blob), path) == Ok::<Seq<u8>, StoreError>(blob),
{
}

/// A second put to a path replaces the blob of the first.
pub proof fn lemma_second_put_overwrites(
    table: Map<Seq<char>, Seq<u8>>,
    path: Seq<char>,
    first: Seq<u8>,
    second: Seq<u8>,
)
    ensures
        lookup(table.insert(path, first).insert(path, second), path) == Ok::<Seq<u8>, StoreError>(
            second,
        ),
        table.insert(path, first).insert(path, second) == table.insert(path, second),
{
    assert(table.insert(path, first).insert(path, second) =~= table.insert(path, second));
}

/// A put to one path leaves every other path as it was.
pub proof fn lemma_put_leaves_other_paths(
    table: Map<Seq<char>, Seq<u8>>,
    path: Seq<char>,
    blob: Seq<u8>,
    other: Seq<char>,
)
    requires
        other != path,
    ensures
        lookup(table.insert(path, blob), other) == lookup(table, other),
{
}

/// Reading a path returns the blob of the last put to that path, however many
/// puts to other paths have followed it.
pub proof fn lemma_last_put_wins(
    table: Map<Seq<char>, Seq<u8>>,
    puts: Seq<(Seq<char>, Seq<u8>)>,
    at: int,
)
    requires
        0 <= at < puts.len(),
        forall|later: int| at < later < puts.len() ==> (#[trigger] puts[later]).0 != puts[at].0,
    ensures
        lookup(after_puts(table, puts), puts[at].0) == Ok::<Seq<u8>, StoreError>(puts[at].1),
    decreases puts.len(),
{
    if at < puts.len() - 1 {
        let earlier = puts.drop_last();
        assert(earlier[at] == puts[at]);
        assert forall|later: int| at < later < earlier.len() implies (#[trigger] earlier[later]).0
            != earlier[at].0 by {
            assert(earlier[later] == puts[later]);
        }
        lemma_last_put_wins(table, earlier, at);
        assert(puts.last() == puts[puts.len() - 1]);
    }
}

/// Reading a path to which nothing was ever put answers
/// [`StoreError::NotFound`].
pub proof fn lemma_never_put_is_not_found(
    table: Map<Seq<char>, Seq<u8>>,
    puts: Seq<(Seq<char>, Seq<u8>)>,
    path: Seq<char>,
)
    requires
        !table.contains_key(path),
        forall|at: int| 0 <= at < puts.len() ==> (#[trigger] puts[at]).0 != path,
    ensures
        lookup(after_puts(table, puts), path) == Err::<Seq<u8>, StoreError>(StoreError::NotFound),
    decreases puts.len(),
{
    if puts.len() > 0 {
        let earlier = puts.drop_last();
        assert forall|at: int| 0 <= at < earlier.len() implies (#[trigger] earlier[at]).0
            != path by {
            assert(earlier[at] == puts[at]);
        }
        lemma_never_put_is_not_found(table, earlier, path);
        assert(puts.last() == puts[puts.len() - 1]);
    }
}

} // verus!
