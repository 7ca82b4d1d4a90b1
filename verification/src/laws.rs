//! What follows from the contracts of the manager's operations, stated over
//! snapshots and proved once for all managers.

use crate::loader::asset_of;
use crate::manager::{Entry, Snapshot};
use bevy::asset::UntypedHandle;
use vstd::prelude::*;

verus! {

/// A key that was registered lazily costs one request, however often it is
/// resolved or retrieved afterwards: along any run of states in which each
/// follows from the one before by resolving `key`, and that starts with `key`
/// pending under `path`, the requests made are the one for `path`, and the
/// key holds the handle that the server answered to it.
pub proof fn lemma_one_request_per_registration(run: Seq<Snapshot>, key: u64, path: Seq<char>)
    requires
        run.len() >= 2,
        run[0].entries.contains_key(key),
        run[0].entries[key] == Entry::Pending(path),
        forall|i: int| 0 <= i < run.len() - 1 ==> (#[trigger] run[i]).resolves_into(run[i + 1], key),
    ensures
        run.last().requests == run[0].requests.push(path),
        run.last().answers == run[0].answers.push(run.last().answers.last()),
        run.last().entries.contains_key(key),
        run.last().entries[key] == Entry::Resolved(run.last().answers.last()),
    decreases run.len(),
{
    if run.len() == 2 {
        assert(run[0].resolves_into(run[1], key));
    } else {
        let shorter = run.drop_last();
        assert forall|i: int| 0 <= i < shorter.len() - 1 implies (#[trigger] shorter[i]).resolves_into(
            shorter[i + 1],
            key,
        ) by {
            assert(run[i].resolves_into(run[i + 1], key));
        }
        lemma_one_request_per_registration(shorter, key, path);
        assert(run[run.len() - 2].resolves_into(run[run.len() - 1], key));
    }
}

/// Resolving or retrieving a key that already holds a handle changes nothing:
/// no request is made, and the handle stays.
pub proof fn lemma_resolved_entry_is_stable(before: Snapshot, after: Snapshot, key: u64)
    requires
        before.entries.contains_key(key),
        before.entries[key] is Resolved,
        before.resolves_into(after, key),
    ensures
        after == before,
{
}

/// Two retrievals of a key that holds a handle give handles to one asset, and
/// the second makes no request.
pub proof fn lemma_retrieval_is_idempotent(
    before: Snapshot,
    between: Snapshot,
    after: Snapshot,
    key: u64,
    first: UntypedHandle,
    second: UntypedHandle,
)
    requires
        before.entries.contains_key(key),
        before.entries[key] is Resolved,
        before.resolves_into(between, key),
        between.keeps_asset_of(key, first),
        between.resolves_into(after, key),
        after.keeps_asset_of(key, second),
    ensures
        asset_of(first) == asset_of(second),
        after.requests == before.requests,
        after.entries[key] == before.entries[key],
{
}

/// A key registered as loaded has had its one request when the registration
/// returns: resolving or retrieving it afterwards makes none.
pub proof fn lemma_loaded_needs_no_request(
    before: Snapshot,
    loaded: Snapshot,
    after: Snapshot,
    key: u64,
    path: Seq<char>,
)
    requires
        before.loads_into(loaded, key, path),
        loaded.resolves_into(after, key),
    ensures
        loaded.requests == before.requests.push(path),
        loaded.entries[key] == Entry::Resolved(loaded.answers.last()),
        after == loaded,
{
}

/// A lazy registration makes no request and leaves the key pending; the first
/// resolution or retrieval afterwards makes the one request, for the
/// registered path.
pub proof fn lemma_lazy_defers_request(before: Snapshot, after: Snapshot, key: u64, path: Seq<char>)
    requires
        before.registered(key, path).resolves_into(after, key),
    ensures
        before.registered(key, path).requests == before.requests,
        before.registered(key, path).is_pending(key),
        after.requests == before.requests.push(path),
        after.entries[key] == Entry::Resolved(after.answers.last()),
{
}

/// Registering a key lazily twice under one path is the same as doing it
/// once.
pub proof fn lemma_registration_is_idempotent(before: Snapshot, key: u64, path: Seq<char>)
    ensures
        before.registered(key, path).registered(key, path) == before.registered(key, path),
{
    assert(before.registered(key, path).registered(key, path).entries == before.registered(
        key,
        path,
    ).entries);
}

/// A later lazy registration replaces an earlier one: the first resolution or
/// retrieval afterwards asks for the later path, and nothing ever asks for
/// the earlier one.
pub proof fn lemma_overwrite_resets(
    before: Snapshot,
    after: Snapshot,
    key: u64,
    earlier: Seq<char>,
    later: Seq<char>,
)
    requires
        before.registered(key, earlier).registered(key, later).resolves_into(after, key),
    ensures
        before.registered(key, earlier).registered(key, later) == before.registered(key, later),
        after.requests == before.requests.push(later),
{
    assert(before.registered(key, earlier).registered(key, later).entries == before.registered(
        key,
        later,
    ).entries);
}

/// Resolving or retrieving a key that is not registered changes nothing.
pub proof fn lemma_miss_changes_nothing(before: Snapshot, after: Snapshot, key: u64)
    requires
        !before.entries.contains_key(key),
        before.resolves_into(after, key),
    ensures
        after == before,
{
}

/// Keys that are not registered are passed over when a run of keys is
/// retrieved: they add no handle to the result.
pub proof fn lemma_unregistered_keys_are_skipped(state: Snapshot, keys: Seq<u64>)
    requires
        forall|i: int| 0 <= i < keys.len() ==> !state.entries.contains_key(#[trigger] keys[i]),
    ensures
        state.registered_among(keys) == Seq::<u64>::empty(),
    decreases keys.len(),
{
    if keys.len() > 0 {
        assert forall|i: int| 0 <= i < keys.drop_last().len() implies !state.entries.contains_key(
            #[trigger] keys.drop_last()[i],
        ) by {
            assert(keys.drop_last()[i] == keys[i]);
        }
        lemma_unregistered_keys_are_skipped(state, keys.drop_last());
        assert(!state.entries.contains_key(keys[keys.len() - 1]));
    }
}

/// The requests that a run of keys costs are those of the keys that are
/// resolved, one for each, for the key's own path and in the same order.
pub proof fn lemma_requests_follow_resolved_keys(state: Snapshot, keys: Seq<u64>)
    ensures
        state.pending_paths(keys).len() == state.pending_keys(keys).len(),
        forall|j: int|
            0 <= j < state.pending_keys(keys).len() ==> #[trigger] state.pending_paths(keys)[j]
                == state.entries[state.pending_keys(keys)[j]]->Pending_0,
    decreases keys.len(),
{
    if keys.len() > 0 {
        lemma_requests_follow_resolved_keys(state, keys.drop_last());
    }
}

/// Resolving or retrieving a run of keys of which none is pending makes no
/// request: each key either holds a handle already or is not registered.
pub proof fn lemma_settled_keys_ask_for_nothing(state: Snapshot, keys: Seq<u64>)
    requires
        forall|i: int| 0 <= i < keys.len() ==> !state.is_pending(#[trigger] keys[i]),
    ensures
        state.pending_paths(keys) == Seq::<Seq<char>>::empty(),
        state.pending_keys(keys) == Seq::<u64>::empty(),
    decreases keys.len(),
{
    if keys.len() > 0 {
        assert forall|i: int| 0 <= i < keys.drop_last().len() implies !state.is_pending(
            #[trigger] keys.drop_last()[i],
        ) by {
            assert(keys.drop_last()[i] == keys[i]);
        }
        lemma_settled_keys_ask_for_nothing(state, keys.drop_last());
        assert(!state.is_pending(keys[keys.len() - 1]));
    }
}

/// After a lazy batch every key of the batch is registered and pending, under
/// the path of its last pair in the batch; keys outside the batch are as they
/// were, and no request has been made.
pub proof fn lemma_batch_registers_every_key(before: Snapshot, pairs: Seq<(u64, &str)>)
    ensures
        before.registered_all(pairs).requests == before.requests,
        forall|i: int|
            0 <= i < pairs.len() ==> before.registered_all(pairs).is_pending(
                (#[trigger] pairs[i]).0,
            ),
        forall|i: int|
            0 <= i < pairs.len() && (forall|j: int| i < j < pairs.len() ==> pairs[j].0 != pairs[i].0)
                ==> before.registered_all(pairs).entries[(#[trigger] pairs[i]).0] == Entry::Pending(
                pairs[i].1@,
            ),
        forall|key: u64|
            (forall|i: int| 0 <= i < pairs.len() ==> (#[trigger] pairs[i]).0 != key) ==> (
            #[trigger] before.registered_all(pairs).entries.contains_key(key)
                <==> before.entries.contains_key(key)) && (before.entries.contains_key(key)
                ==> before.registered_all(pairs).entries[key] == before.entries[key]),
    decreases pairs.len(),
{
    if pairs.len() > 0 {
        let rest = pairs.drop_last();
        let last = pairs.last();
        lemma_batch_registers_every_key(before, rest);
        let mid = before.registered_all(rest);
        let end = before.registered_all(pairs);
        assert(end == mid.registered(last.0, last.1@));
        assert forall|i: int| 0 <= i < pairs.len() implies end.is_pending(
            (#[trigger] pairs[i]).0,
        ) by {
            if i < rest.len() {
                assert(rest[i] == pairs[i]);
                assert(mid.is_pending(rest[i].0));
            }
        }
        assert forall|i: int|
            0 <= i < pairs.len() && (forall|j: int|
                i < j < pairs.len() ==> pairs[j].0 != pairs[i].0) implies end.entries[(
        #[trigger] pairs[i]).0] == Entry::Pending(pairs[i].1@) by {
            if i < rest.len() {
                assert(rest[i] == pairs[i]);
                assert(pairs[pairs.len() - 1].0 != pairs[i].0);
                assert forall|j: int| i < j < rest.len() implies rest[j].0 != rest[i].0 by {
                    assert(rest[j] == pairs[j]);
                }
            }
        }
        assert forall|key: u64|
            (forall|i: int| 0 <= i < pairs.len() ==> (#[trigger] pairs[i]).0 != key) implies (
        #[trigger] end.entries.contains_key(key) <==> before.entries.contains_key(key)) && (
        before.entries.contains_key(key) ==> end.entries[key] == before.entries[key]) by {
            assert(pairs[pairs.len() - 1].0 != key);
            assert forall|i: int| 0 <= i < rest.len() implies (#[trigger] rest[i]).0 != key by {
                assert(rest[i] == pairs[i]);
            }
        }
    }
}

/// No more keys are found among `keys` than `keys` holds.
pub proof fn lemma_registered_among_is_bounded(state: Snapshot, keys: Seq<u64>)
    ensures
        state.registered_among(keys).len() <= keys.len(),
    decreases keys.len(),
{
    if keys.len() > 0 {
        lemma_registered_among_is_bounded(state, keys.drop_last());
    }
}

} // verus!
