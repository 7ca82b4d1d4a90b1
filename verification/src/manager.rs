//! The asset manager: keys, the entries registered under them, and the
//! requests made to the asset server on their behalf.

use crate::index::{empty_index, index_entries, KeyIndex};
use crate::loader::{
    answered, asked, asset_of, handle_id, lemma_served_one_more, ready, server_of, weak_copy,
    well_formed_path, Loader,
};
use bevy::asset::{AssetServer, UntypedAssetId, UntypedHandle};
use vstd::prelude::*;

verus! {

/// What the manager stores for a key.
enum AssetHandle {
    /// The asset has not been asked for; this is its path.
    Lazy(String),
    /// The asset has been asked for; this is the handle the server gave.
    Loaded(UntypedHandle),
}

/// An entry as contracts see it.
pub enum Entry {
    /// Registered under this path, and not asked for yet.
    Pending(Seq<char>),
    /// Asked for, with the handle that the server gave.
    Resolved(UntypedHandle),
}

impl View for AssetHandle {
    type V = Entry;

    closed spec fn view(&self) -> Entry {
        match self {
            AssetHandle::Lazy(path) => Entry::Pending(path@),
            AssetHandle::Loaded(handle) => Entry::Resolved(*handle),
        }
    }
}

/// All that contracts say of a manager at one moment.
pub struct Snapshot {
    /// The entry registered under each key.
    pub entries: Map<u64, Entry>,
    /// The paths that the asset server has been asked for, oldest first.
    pub requests: Seq<Seq<char>>,
    /// The handle that the server answered to each of `requests`.
    pub answers: Seq<UntypedHandle>,
}

impl Snapshot {
    /// The state after `key` is registered lazily under `path`: the entry is
    /// pending, whatever stood there before, and no request is made.
    pub open spec fn registered(self, key: u64, path: Seq<char>) -> Snapshot {
        Snapshot {
            entries: self.entries.insert(key, Entry::Pending(path)),
            requests: self.requests,
            answers: self.answers,
        }
    }

    /// The asset that the handle under `key` refers to, where `key` holds
    /// one.
    pub open spec fn asset_under(self, key: u64) -> Option<UntypedAssetId> {
        if self.entries.contains_key(key) && self.entries[key] is Resolved {
            Some(asset_of(self.entries[key]->Resolved_0))
        } else {
            None
        }
    }

    /// Whether `key` is registered and still waits for its first use.
    pub open spec fn is_pending(self, key: u64) -> bool {
        self.entries.contains_key(key) && self.entries[key] is Pending
    }

    /// Whether `key` holds a handle, and `copy` refers to the same asset as
    /// that handle.
    pub open spec fn keeps_asset_of(self, key: u64, copy: UntypedHandle) -> bool {
        &&& self.entries.contains_key(key)
        &&& self.entries[key] matches Entry::Resolved(kept)
        &&& asset_of(copy) == asset_of(kept)
    }

    /// Whether `next` can follow `self` when `key` is registered as loaded
    /// under `path`: one request for `path` is made, `key` holds the handle
    /// that the server answered to it, and every other key is as it was.
    pub open spec fn loads_into(self, next: Snapshot, key: u64, path: Seq<char>) -> bool {
        &&& next.requests == self.requests.push(path)
        &&& next.answers.len() == self.answers.len() + 1
        &&& next.answers == self.answers.push(next.answers.last())
        &&& next.entries == self.entries.insert(key, Entry::Resolved(next.answers.last()))
    }

    /// The state after the pairs of a batch are registered lazily, first to
    /// last: where a key comes twice, its last path stands.
    pub open spec fn registered_all(self, pairs: Seq<(u64, &str)>) -> Snapshot
        decreases pairs.len(),
    {
        if pairs.len() == 0 {
            self
        } else {
            self.registered_all(pairs.drop_last()).registered(pairs.last().0, pairs.last().1@)
        }
    }

    /// Whether `next` can follow `self` when the pairs of a batch are
    /// registered as loaded, first to last: one request is made for each pair,
    /// in the batch's order, every key of the batch holds the handle that the
    /// server answered to the key's last pair, and every other key is as it
    /// was.
    pub open spec fn loads_all_into(self, next: Snapshot, pairs: Seq<(u64, &str)>) -> bool {
        &&& next.requests == self.requests + paths_of(pairs)
        &&& next.answers.len() == self.answers.len() + pairs.len()
        &&& next.answers.take(self.answers.len() as int) == self.answers
        &&& forall|i: int|
            0 <= i < pairs.len() && is_last_for_key(pairs, i) ==> next.entries[(
            #[trigger] pairs[i]).0] == Entry::Resolved(next.answers[self.answers.len() + i])
        &&& forall|key: u64| #[trigger]
            next.entries.contains_key(key) <==> self.entries.contains_key(key) || names_key(
                pairs,
                key,
            )
        &&& forall|key: u64| #[trigger]
            names_key(pairs, key) ==> next.entries[key] is Resolved
        &&& forall|key: u64|
            !names_key(pairs, key) && #[trigger] self.entries.contains_key(key)
                ==> next.entries[key] == self.entries[key]
    }

    /// Whether `next` can follow `self` when `key` is resolved. A pending key
    /// costs one request, for its own path, and then holds a handle. Any other
    /// key, registered or not, changes nothing.
    pub open spec fn resolves_into(self, next: Snapshot, key: u64) -> bool {
        if self.is_pending(key) {
            self.loads_into(next, key, self.entries[key]->Pending_0)
        } else {
            next == self
        }
    }

    /// The paths that the asset server is asked for when `keys` are resolved,
    /// first to last: the path of each key that is pending in `self`, once, at
    /// the key's first place in `keys`.
    pub open spec fn pending_paths(self, keys: Seq<u64>) -> Seq<Seq<char>>
        decreases keys.len(),
    {
        if keys.len() == 0 {
            Seq::empty()
        } else if self.is_pending(keys.last()) && !keys.drop_last().contains(keys.last()) {
            self.pending_paths(keys.drop_last()).push(self.entries[keys.last()]->Pending_0)
        } else {
            self.pending_paths(keys.drop_last())
        }
    }

    /// The keys that are resolved when `keys` are resolved, first to last:
    /// each key that is pending in `self`, once, at its first place in `keys`.
    pub open spec fn pending_keys(self, keys: Seq<u64>) -> Seq<u64>
        decreases keys.len(),
    {
        if keys.len() == 0 {
            Seq::empty()
        } else if self.is_pending(keys.last()) && !keys.drop_last().contains(keys.last()) {
            self.pending_keys(keys.drop_last()).push(keys.last())
        } else {
            self.pending_keys(keys.drop_last())
        }
    }

    /// Those of `keys` that are registered, in the order of `keys` and as
    /// often as they stand there.
    pub open spec fn registered_among(self, keys: Seq<u64>) -> Seq<u64>
        decreases keys.len(),
    {
        if keys.len() == 0 {
            Seq::empty()
        } else if self.entries.contains_key(keys.last()) {
            self.registered_among(keys.drop_last()).push(keys.last())
        } else {
            self.registered_among(keys.drop_last())
        }
    }

    /// Whether `next` can follow `self` when `keys` are resolved, first to
    /// last: the requests are those of `pending_paths`, made for the keys of
    /// `pending_keys`, each of which holds the handle that the server answered
    /// to its request; the same keys are registered, and every other entry is
    /// as it was.
    pub open spec fn resolves_all_into(self, next: Snapshot, keys: Seq<u64>) -> bool {
        &&& next.requests == self.requests + self.pending_paths(keys)
        &&& next.answers.len() == self.answers.len() + self.pending_keys(keys).len()
        &&& next.answers.take(self.answers.len() as int) == self.answers
        &&& forall|j: int|
            0 <= j < self.pending_keys(keys).len() ==> next.entries[#[trigger] self.pending_keys(
                keys,
            )[j]] == Entry::Resolved(next.answers[self.answers.len() + j])
        &&& forall|key: u64| #[trigger]
            next.entries.contains_key(key) <==> self.entries.contains_key(key)
        &&& forall|key: u64| #[trigger]
            self.entries.contains_key(key) ==> if self.is_pending(key) && keys.contains(key) {
                next.entries[key] is Resolved
            } else {
                next.entries[key] == self.entries[key]
            }
    }
}

/// The paths of a batch, in its order.
pub open spec fn paths_of(pairs: Seq<(u64, &str)>) -> Seq<Seq<char>> {
    Seq::new(pairs.len(), |i: int| pairs[i].1@)
}

/// Whether a batch holds a pair with this key.
pub open spec fn names_key(pairs: Seq<(u64, &str)>, key: u64) -> bool {
    exists|i: int| 0 <= i < pairs.len() && (#[trigger] pairs[i]).0 == key
}

/// Whether no later pair of a batch has the key of the pair at `i`.
pub open spec fn is_last_for_key(pairs: Seq<(u64, &str)>, i: int) -> bool {
    forall|j: int| i < j < pairs.len() ==> (#[trigger] pairs[j]).0 != pairs[i].0
}

/// Handles to the assets of one type, each under a key.
pub struct AssetManager {
    index: KeyIndex,
    slots: Vec<AssetHandle>,
    loader: Loader,
}

impl AssetManager {
    /// The loader is ready, every key leads to a slot of its own, and every
    /// lazy slot holds a path that the asset server can parse.
    pub closed spec fn well_formed(&self) -> bool {
        &&& ready(self.loader)
        &&& forall|key: u64| #[trigger]
            index_entries(self.index).contains_key(key) ==> index_entries(self.index)[key]
                < self.slots.len()
        &&& forall|j: u64, k: u64|
            index_entries(self.index).contains_key(j) && index_entries(self.index).contains_key(k)
                && #[trigger] index_entries(self.index)[j] == #[trigger] index_entries(
                self.index,
            )[k] ==> j == k
        &&& forall|i: int|
            0 <= i < self.slots.len() ==> (#[trigger] self.slots[i] matches AssetHandle::Lazy(path)
                ==> well_formed_path(path@))
    }

    /// The entry registered under each key.
    pub closed spec fn entries(&self) -> Map<u64, Entry> {
        Map::new(
            |key: u64| index_entries(self.index).contains_key(key),
            |key: u64| self.slots[index_entries(self.index)[key] as int]@,
        )
    }

    /// The paths that the asset server has been asked for through the
    /// manager's loader, oldest first.
    pub closed spec fn requests(&self) -> Seq<Seq<char>> {
        asked(self.loader)
    }

    /// The handle that the server answered to each of `requests`.
    pub closed spec fn answers(&self) -> Seq<UntypedHandle> {
        answered(self.loader)
    }

    /// The asset server that requests go to.
    pub closed spec fn asset_server(&self) -> AssetServer {
        server_of(self.loader)
    }

    /// The manager's state as contracts see it.
    pub open spec fn snapshot(&self) -> Snapshot {
        Snapshot { entries: self.entries(), requests: self.requests(), answers: self.answers() }
    }

    /// A manager that sends its requests through `loader`. It holds no entry
    /// and makes no request: its requests are those that the loader has
    /// served, which are none for a loader that was just made.
    pub fn new(loader: Loader) -> (manager: Self)
        requires
            ready(loader),
        ensures
            manager.well_formed(),
            manager.entries() == Map::<u64, Entry>::empty(),
            manager.requests() == asked(loader),
            manager.answers() == answered(loader),
            manager.asset_server() == server_of(loader),
    {
        AssetManager { index: empty_index(), slots: Vec::new(), loader }
    }

    /// Puts `entry` under `key`, in the slot that `key` already has or in a
    /// new one.
    fn store(&mut self, key: u64, entry: AssetHandle)
        requires
            old(self).well_formed(),
            entry matches AssetHandle::Lazy(path) ==> well_formed_path(path@),
        ensures
            final(self).well_formed(),
            final(self).entries() == old(self).entries().insert(key, entry@),
            final(self).loader == old(self).loader,
    {
        match self.index.slot_of(key) {
            Some(slot) => {
                self.slots.set(slot, entry);
            },
            None => {
                let slot: usize = self.slots.len();
                self.slots.push(entry);
                self.index.set_slot(key, slot);
            },
        }
    }

    /// Registers `key` lazily under `path`: the asset is asked for when the
    /// key is first resolved or retrieved. An earlier entry under `key` is
    /// replaced.
    pub fn insert(&mut self, key: u64, path: &str)
        requires
            old(self).well_formed(),
            well_formed_path(path@),
        ensures
            final(self).well_formed(),
            final(self).snapshot() == old(self).snapshot().registered(key, path@),
            final(self).asset_server() == old(self).asset_server(),
    {
        self.store(key, AssetHandle::Lazy(path.to_owned()));
    }

    /// Registers `key` as loaded under `path`: the asset server is asked for
    /// the asset at once, and the handle it gives is kept under `key`. An
    /// earlier entry under `key` is replaced.
    pub fn insert_loaded(&mut self, key: u64, path: &str)
        requires
            old(self).well_formed(),
            well_formed_path(path@),
        ensures
            final(self).well_formed(),
            old(self).snapshot().loads_into(final(self).snapshot(), key, path@),
            final(self).asset_server() == old(self).asset_server(),
    {
        let handle = self.loader.request(path);
        proof {
            lemma_served_one_more(old(self).loader, self.loader, path@, handle);
        }
        self.store(key, AssetHandle::Loaded(handle));
    }

    /// Resolves `key` and says where its handle lies: the slot of `key`, or
    /// nothing where `key` is not registered.
    fn resolve_slot(&mut self, key: u64) -> (found: Option<usize>)
        requires
            old(self).well_formed(),
        ensures
            final(self).well_formed(),
            old(self).snapshot().resolves_into(final(self).snapshot(), key),
            final(self).asset_server() == old(self).asset_server(),
            found is Some <==> old(self).entries().contains_key(key),
            found matches Some(slot) ==> slot < final(self).slots.len() && final(self).slots[slot as int]
                is Loaded && final(self).entries()[key] == final(self).slots[slot as int]@,
    {
        let found = self.index.slot_of(key);
        if let Some(slot) = found {
            let fresh = match &self.slots[slot] {
                AssetHandle::Lazy(path) => {
                    let handle = self.loader.request(path.as_str());
                    proof {
                        lemma_served_one_more(old(self).loader, self.loader, path@, handle);
                    }
                    Some(handle)
                },
                AssetHandle::Loaded(_) => None,
            };
            if let Some(handle) = fresh {
                self.slots.set(slot, AssetHandle::Loaded(handle));
                assert(self.entries() == old(self).entries().insert(key, Entry::Resolved(handle)));
            } else {
                assert(self.entries() == old(self).entries());
            }
        }
        found
    }

    /// Asks the asset server for the asset of `key` if that has not been done:
    /// a lazy entry becomes a loaded one. A loaded entry stays as it is, and a
    /// key that is not registered is passed over.
    pub fn load(&mut self, key: u64)
        requires
            old(self).well_formed(),
        ensures
            final(self).well_formed(),
            old(self).snapshot().resolves_into(final(self).snapshot(), key),
            final(self).asset_server() == old(self).asset_server(),
    {
        let _ = self.resolve_slot(key);
    }

    /// A weak handle to the asset of `key`, or nothing where `key` is not
    /// registered. A lazy entry is resolved first, as `load` does it; the
    /// manager keeps the handle that the server gave, so a later call asks the
    /// server for nothing and refers to the same asset.
    pub fn get(&mut self, key: u64) -> (handle: Option<UntypedHandle>)
        requires
            old(self).well_formed(),
        ensures
            final(self).well_formed(),
            old(self).snapshot().resolves_into(final(self).snapshot(), key),
            final(self).asset_server() == old(self).asset_server(),
            handle is Some <==> old(self).entries().contains_key(key),
            handle matches Some(copy) ==> final(self).snapshot().keeps_asset_of(key, copy),
    {
        match self.resolve_slot(key) {
            Some(slot) => {
                match &self.slots[slot] {
                    AssetHandle::Loaded(kept) => Some(weak_copy(kept)),
                    AssetHandle::Lazy(_) => None,
                }
            },
            None => None,
        }
    }

    /// The asset that the handle under `key` refers to, where `key` holds
    /// one. Nothing is resolved: a lazy key gives nothing, as a key that is
    /// not registered does.
    pub fn asset_id(&self, key: u64) -> (id: Option<UntypedAssetId>)
        requires
            self.well_formed(),
        ensures
            id == self.snapshot().asset_under(key),
    {
        match self.index.slot_of(key) {
            Some(slot) => {
                match &self.slots[slot] {
                    AssetHandle::Loaded(kept) => Some(handle_id(kept)),
                    AssetHandle::Lazy(_) => None,
                }
            },
            None => None,
        }
    }

    /// Registers every pair of `pairs` lazily, first to last, as `insert`
    /// does for one.
    pub fn insert_many(&mut self, pairs: &[(u64, &str)])
        requires
            old(self).well_formed(),
            forall|i: int| 0 <= i < pairs@.len() ==> well_formed_path((#[trigger] pairs@[i]).1@),
        ensures
            final(self).well_formed(),
            final(self).snapshot() == old(self).snapshot().registered_all(pairs@),
            final(self).asset_server() == old(self).asset_server(),
    {
        let mut i: usize = 0;
        while i < pairs.len()
            invariant
                i <= pairs@.len(),
                self.well_formed(),
                self.snapshot() == old(self).snapshot().registered_all(pairs@.take(i as int)),
                self.asset_server() == old(self).asset_server(),
                forall|j: int|
                    0 <= j < pairs@.len() ==> well_formed_path((#[trigger] pairs@[j]).1@),
            decreases pairs@.len() - i,
        {
            let pair = pairs[i];
            assert(pairs@.take(i + 1).drop_last() == pairs@.take(i as int));
            self.insert(pair.0, pair.1);
            i += 1;
        }
        assert(pairs@.take(i as int) == pairs@);
    }

    /// Registers every pair of `pairs` as loaded, first to last, as
    /// `insert_loaded` does for one: the asset server is asked once for each
    /// pair.
    pub fn insert_many_loaded(&mut self, pairs: &[(u64, &str)])
        requires
            old(self).well_formed(),
            forall|i: int| 0 <= i < pairs@.len() ==> well_formed_path((#[trigger] pairs@[i]).1@),
        ensures
            final(self).well_formed(),
            old(self).snapshot().loads_all_into(final(self).snapshot(), pairs@),
            final(self).asset_server() == old(self).asset_server(),
    {
        let mut i: usize = 0;
        assert(paths_of(pairs@.take(0)) == Seq::<Seq<char>>::empty());
        assert(self.answers().take(self.answers().len() as int) == self.answers());
        while i < pairs.len()
            invariant
                i <= pairs@.len(),
                self.well_formed(),
                old(self).snapshot().loads_all_into(self.snapshot(), pairs@.take(i as int)),
                self.asset_server() == old(self).asset_server(),
                forall|j: int|
                    0 <= j < pairs@.len() ==> well_formed_path((#[trigger] pairs@[j]).1@),
            decreases pairs@.len() - i,
        {
            let pair = pairs[i];
            let ghost before = self.snapshot();
            self.insert_loaded(pair.0, pair.1);
            proof {
                lemma_loads_one_more(
                    old(self).snapshot(),
                    before,
                    self.snapshot(),
                    pairs@.take(i as int),
                    pairs@[i as int],
                );
                assert(pairs@.take(i as int).push(pairs@[i as int]) == pairs@.take(i + 1));
            }
            i += 1;
        }
        assert(pairs@.take(i as int) == pairs@);
    }

    /// Resolves every key of `keys`, first to last, as `load` does for one.
    pub fn load_many(&mut self, keys: &[u64])
        requires
            old(self).well_formed(),
        ensures
            final(self).well_formed(),
            old(self).snapshot().resolves_all_into(final(self).snapshot(), keys@),
            final(self).asset_server() == old(self).asset_server(),
    {
        let mut i: usize = 0;
        assert(self.answers().take(self.answers().len() as int) == self.answers());
        while i < keys.len()
            invariant
                i <= keys@.len(),
                self.well_formed(),
                old(self).snapshot().resolves_all_into(self.snapshot(), keys@.take(i as int)),
                self.asset_server() == old(self).asset_server(),
            decreases keys@.len() - i,
        {
            let ghost before = self.snapshot();
            self.load(keys[i]);
            proof {
                lemma_resolves_one_more(
                    old(self).snapshot(),
                    before,
                    self.snapshot(),
                    keys@.take(i as int),
                    keys@[i as int],
                );
                assert(keys@.take(i as int).push(keys@[i as int]) == keys@.take(i + 1));
            }
            i += 1;
        }
        assert(keys@.take(i as int) == keys@);
    }

    /// Weak handles to the assets of `keys`, in the order of `keys`, with the
    /// keys that are not registered left out. Each key is retrieved as `get`
    /// does it.
    pub fn get_many(&mut self, keys: &[u64]) -> (handles: Vec<UntypedHandle>)
        requires
            old(self).well_formed(),
        ensures
            final(self).well_formed(),
            old(self).snapshot().resolves_all_into(final(self).snapshot(), keys@),
            final(self).asset_server() == old(self).asset_server(),
            handles@.len() == old(self).snapshot().registered_among(keys@).len(),
            forall|j: int|
                0 <= j < handles@.len() ==> final(self).snapshot().keeps_asset_of(
                    old(self).snapshot().registered_among(keys@)[j],
                    #[trigger] handles@[j],
                ),
    {
        let mut handles: Vec<UntypedHandle> = Vec::new();
        let mut i: usize = 0;
        assert(self.answers().take(self.answers().len() as int) == self.answers());
        while i < keys.len()
            invariant
                i <= keys@.len(),
                self.well_formed(),
                old(self).snapshot().resolves_all_into(self.snapshot(), keys@.take(i as int)),
                self.asset_server() == old(self).asset_server(),
                handles@.len() == old(self).snapshot().registered_among(keys@.take(i as int)).len(),
                forall|j: int|
                    0 <= j < handles@.len() ==> self.snapshot().keeps_asset_of(
                        old(self).snapshot().registered_among(keys@.take(i as int))[j],
                        #[trigger] handles@[j],
                    ),
            decreases keys@.len() - i,
        {
            let ghost before = self.snapshot();
            let ghost found = old(self).snapshot().registered_among(keys@.take(i as int));
            let handle = self.get(keys[i]);
            proof {
                lemma_resolves_one_more(
                    old(self).snapshot(),
                    before,
                    self.snapshot(),
                    keys@.take(i as int),
                    keys@[i as int],
                );
                assert(keys@.take(i as int).push(keys@[i as int]) == keys@.take(i + 1));
                assert(keys@.take(i + 1).drop_last() == keys@.take(i as int));
                assert forall|j: int| 0 <= j < found.len() implies self.snapshot().keeps_asset_of(
                    found[j],
                    #[trigger] handles@[j],
                ) by {
                    assert(before.keeps_asset_of(found[j], handles@[j]));
                }
            }
            if let Some(copy) = handle {
                handles.push(copy);
            }
            i += 1;
        }
        assert(keys@.take(i as int) == keys@);
        handles
    }
}

/// A batch registered as loaded can be extended by one pair: where `done`
/// leads from `start` to `middle`, and `pair` from `middle` to `end`, the batch
/// with `pair` at its end leads from `start` to `end`.
pub proof fn lemma_loads_one_more(
    start: Snapshot,
    middle: Snapshot,
    end: Snapshot,
    done: Seq<(u64, &str)>,
    pair: (u64, &str),
)
    requires
        start.loads_all_into(middle, done),
        middle.loads_into(end, pair.0, pair.1@),
    ensures
        start.loads_all_into(end, done.push(pair)),
{
    let all = done.push(pair);
    let base = start.answers.len() as int;
    assert(paths_of(all) == paths_of(done).push(pair.1@));
    assert(all[done.len() as int] == pair);
    assert forall|key: u64| names_key(all, key) <==> names_key(done, key) || key == pair.0 by {
        if names_key(done, key) {
            let i = choose|i: int| 0 <= i < done.len() && (#[trigger] done[i]).0 == key;
            assert(all[i].0 == key);
        }
        if names_key(all, key) {
            let i = choose|i: int| 0 <= i < all.len() && (#[trigger] all[i]).0 == key;
            if i < done.len() {
                assert(done[i].0 == key);
            }
        }
    }
    assert(end.answers.take(base) == start.answers) by {
        assert(end.answers.take(base) == middle.answers.take(base));
    }
    assert forall|i: int| 0 <= i < all.len() && is_last_for_key(all, i) implies end.entries[(
    #[trigger] all[i]).0] == Entry::Resolved(end.answers[base + i]) by {
        if i < done.len() {
            assert(all[i] == done[i]);
            assert(all[done.len() as int].0 != all[i].0);
            assert(is_last_for_key(done, i)) by {
                assert forall|j: int| i < j < done.len() implies (#[trigger] done[j]).0
                    != done[i].0 by {
                    assert(all[j] == done[j]);
                }
            }
            assert(middle.entries[done[i].0] == Entry::Resolved(middle.answers[base + i]));
            assert(end.answers[base + i] == middle.answers[base + i]);
        }
    }
}

/// Every key of `pending_keys` is one of `keys` and is pending.
pub proof fn lemma_pending_keys_are_pending(state: Snapshot, keys: Seq<u64>)
    ensures
        forall|j: int|
            0 <= j < state.pending_keys(keys).len() ==> keys.contains(
                #[trigger] state.pending_keys(keys)[j],
            ) && state.is_pending(state.pending_keys(keys)[j]),
    decreases keys.len(),
{
    if keys.len() > 0 {
        let rest = keys.drop_last();
        lemma_pending_keys_are_pending(state, rest);
        assert forall|j: int| 0 <= j < state.pending_keys(keys).len() implies keys.contains(
            #[trigger] state.pending_keys(keys)[j],
        ) && state.is_pending(state.pending_keys(keys)[j]) by {
            if j < state.pending_keys(rest).len() {
                let key = state.pending_keys(rest)[j];
                assert(state.pending_keys(keys)[j] == key);
                let at = choose|at: int| 0 <= at < rest.len() && rest[at] == key;
                assert(keys[at] == key);
            } else {
                assert(state.pending_keys(keys)[j] == keys[keys.len() - 1]);
            }
        }
    }
}

/// A run of resolutions can be extended by one key: where `done` leads from
/// `start` to `middle`, and resolving `key` from `middle` to `end`, the keys
/// with `key` at their end lead from `start` to `end`.
pub proof fn lemma_resolves_one_more(
    start: Snapshot,
    middle: Snapshot,
    end: Snapshot,
    done: Seq<u64>,
    key: u64,
)
    requires
        start.resolves_all_into(middle, done),
        middle.resolves_into(end, key),
    ensures
        start.resolves_all_into(end, done.push(key)),
{
    let all = done.push(key);
    let base = start.answers.len() as int;
    let resolved = start.pending_keys(done);
    assert(all.drop_last() == done);
    assert(all.last() == key);
    assert forall|other: u64| all.contains(other) <==> done.contains(other) || other == key by {
        if done.contains(other) {
            let i = choose|i: int| 0 <= i < done.len() && done[i] == other;
            assert(all[i] == other);
        }
        if other == key {
            assert(all[done.len() as int] == other);
        }
    }
    lemma_pending_keys_are_pending(start, done);
    if middle.is_pending(key) {
        assert(start.entries.contains_key(key));
        assert(start.is_pending(key) && !done.contains(key));
        assert(middle.entries[key] == start.entries[key]);
        assert(start.pending_keys(all) == resolved.push(key));
        assert(end.answers.take(base) == start.answers) by {
            assert(end.answers.take(base) == middle.answers.take(base));
        }
        assert forall|j: int| 0 <= j < start.pending_keys(all).len() implies end.entries[
            #[trigger] start.pending_keys(all)[j]] == Entry::Resolved(end.answers[base + j]) by {
            if j < resolved.len() {
                assert(start.pending_keys(all)[j] == resolved[j]);
                assert(done.contains(resolved[j]));
                assert(middle.entries[resolved[j]] == Entry::Resolved(middle.answers[base + j]));
                assert(end.answers[base + j] == middle.answers[base + j]);
            }
        }
    } else {
        assert(end == middle);
        if start.is_pending(key) {
            assert(middle.entries.contains_key(key));
            assert(done.contains(key));
        }
        assert(start.pending_keys(all) == resolved);
    }
}

} // verus!
