//! Registration by load style, for callers that cannot vouch for their paths.

use crate::loader::{path_parses, well_formed_path};
use crate::manager::{AssetManager, Snapshot};
use vstd::prelude::*;

verus! {

/// When the asset of a key is asked for.
#[derive(Debug, Clone, Copy, PartialEq, Eq)]
pub enum LoadStyle {
    /// When the key is first resolved or retrieved.
    Lazy,
    /// When the key is registered.
    Loaded,
}

/// The pairs of key and path that `entries` gives for one style, in the order
/// of `entries`.
pub open spec fn pairs_of(entries: Seq<(LoadStyle, u64, &str)>, style: LoadStyle) -> Seq<
    (u64, &str),
>
    decreases entries.len(),
{
    if entries.len() == 0 {
        Seq::empty()
    } else if entries.last().0 == style {
        pairs_of(entries.drop_last(), style).push((entries.last().1, entries.last().2))
    } else {
        pairs_of(entries.drop_last(), style)
    }
}

/// Whether the asset server can parse every path of `entries`.
pub open spec fn all_well_formed(entries: Seq<(LoadStyle, u64, &str)>) -> bool {
    forall|i: int| 0 <= i < entries.len() ==> well_formed_path((#[trigger] entries[i]).2@)
}

/// Splits a mixed batch by style, if the asset server can parse every path in
/// it: the lazy pairs and the loaded pairs, each in the batch's order.
pub fn split_by_style<'a>(entries: &[(LoadStyle, u64, &'a str)]) -> (split: Option<
    (Vec<(u64, &'a str)>, Vec<(u64, &'a str)>),
>)
    ensures
        split is Some <==> all_well_formed(entries@),
        split matches Some((lazy, loaded)) ==> lazy@ == pairs_of(entries@, LoadStyle::Lazy)
            && loaded@ == pairs_of(entries@, LoadStyle::Loaded),
{
    let mut lazy: Vec<(u64, &str)> = Vec::new();
    let mut loaded: Vec<(u64, &str)> = Vec::new();
    let mut i: usize = 0;
    while i < entries.len()
        invariant
            i <= entries@.len(),
            all_well_formed(entries@.take(i as int)),
            lazy@ == pairs_of(entries@.take(i as int), LoadStyle::Lazy),
            loaded@ == pairs_of(entries@.take(i as int), LoadStyle::Loaded),
        decreases entries@.len() - i,
    {
        let entry = entries[i];
        if !path_parses(entry.2) {
            return None;
        }
        assert(entries@.take(i + 1).drop_last() == entries@.take(i as int));
        match entry.0 {
            LoadStyle::Lazy => lazy.push((entry.1, entry.2)),
            LoadStyle::Loaded => loaded.push((entry.1, entry.2)),
        }
        i += 1;
    }
    assert(entries@.take(i as int) == entries@);
    Some((lazy, loaded))
}

/// Every pair that `pairs_of` gives carries a path of `entries`.
pub proof fn lemma_pairs_keep_paths(entries: Seq<(LoadStyle, u64, &str)>, style: LoadStyle)
    requires
        all_well_formed(entries),
    ensures
        forall|j: int|
            0 <= j < pairs_of(entries, style).len() ==> well_formed_path(
                (#[trigger] pairs_of(entries, style)[j]).1@,
            ),
    decreases entries.len(),
{
    if entries.len() > 0 {
        assert(all_well_formed(entries.drop_last())) by {
            assert forall|i: int| 0 <= i < entries.drop_last().len() implies well_formed_path(
                (#[trigger] entries.drop_last()[i]).2@,
            ) by {
                assert(entries.drop_last()[i] == entries[i]);
            }
        }
        lemma_pairs_keep_paths(entries.drop_last(), style);
        let rest = pairs_of(entries.drop_last(), style);
        let all = pairs_of(entries, style);
        assert forall|j: int| 0 <= j < all.len() implies well_formed_path(
            (#[trigger] all[j]).1@,
        ) by {
            if j < rest.len() {
                assert(all[j] == rest[j]);
            } else {
                assert(all[j].1 == entries[entries.len() - 1].2);
            }
        }
    }
}

impl AssetManager {
    /// Registers `key` under `path` in the given style, if the asset server
    /// can parse `path`; otherwise nothing changes. Says which it was.
    pub fn register(&mut self, style: LoadStyle, key: u64, path: &str) -> (accepted: bool)
        requires
            old(self).well_formed(),
        ensures
            final(self).well_formed(),
            final(self).asset_server() == old(self).asset_server(),
            accepted == well_formed_path(path@),
            !accepted ==> final(self).snapshot() == old(self).snapshot(),
            accepted && style is Lazy ==> final(self).snapshot() == old(
                self,
            ).snapshot().registered(key, path@),
            accepted && style is Loaded ==> old(self).snapshot().loads_into(
                final(self).snapshot(),
                key,
                path@,
            ),
    {
        if !path_parses(path) {
            return false;
        }
        match style {
            LoadStyle::Lazy => self.insert(key, path),
            LoadStyle::Loaded => self.insert_loaded(key, path),
        }
        true
    }

    /// Registers the entries of a mixed batch, if the asset server can parse
    /// every path in it; otherwise nothing changes. Says which it was. The
    /// lazy entries are registered first, as one batch, and the loaded ones
    /// after them, as another.
    pub fn register_many(&mut self, entries: &[(LoadStyle, u64, &str)]) -> (accepted: bool)
        requires
            old(self).well_formed(),
        ensures
            final(self).well_formed(),
            final(self).asset_server() == old(self).asset_server(),
            accepted == all_well_formed(entries@),
            !accepted ==> final(self).snapshot() == old(self).snapshot(),
            accepted ==> old(self).snapshot().registered_all(
                pairs_of(entries@, LoadStyle::Lazy),
            ).loads_all_into(final(self).snapshot(), pairs_of(entries@, LoadStyle::Loaded)),
    {
        match split_by_style(entries) {
            Some((lazy, loaded)) => {
                proof {
                    lemma_pairs_keep_paths(entries@, LoadStyle::Lazy);
                    lemma_pairs_keep_paths(entries@, LoadStyle::Loaded);
                }
                self.insert_many(lazy.as_slice());
                self.insert_many_loaded(loaded.as_slice());
                true
            },
            None => false,
        }
    }
}

} // verus!
