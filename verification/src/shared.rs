//! An asset manager behind a lock, for callers that share it.
//!
//! Every operation takes the lock once, for writing, works on the manager
//! inside, and gives the lock back: a batch is one such operation, so nothing
//! else touches the manager between its entries. What the operation does to
//! the manager is the contract of the [`AssetManager`] function of the same
//! name. Other callers may come between two operations, so the contracts here
//! say nothing of the manager's state from one call to the next.

use crate::laws::lemma_registered_among_is_bounded;
use crate::loader::{path_parses, ready, server_of, well_formed_path, Loader};
use crate::manager::AssetManager;
use crate::style::{all_well_formed, lemma_pairs_keep_paths, split_by_style, LoadStyle};
use bevy::asset::{AssetServer, UntypedHandle};
use vstd::prelude::*;
use vstd::rwlock::RwLock;

verus! {

/// An [`AssetManager`] that many callers can use through a shared reference.
pub struct SharedAssetManager {
    inner: RwLock<AssetManager, spec_fn(AssetManager) -> bool>,
    server: Ghost<AssetServer>,
}

impl SharedAssetManager {
    /// The lock admits the well-formed managers that send their requests to
    /// this manager's asset server, and only those.
    #[verifier::type_invariant]
    spec fn guards_well_formed(&self) -> bool {
        forall|manager: AssetManager| #[trigger]
            self.inner.inv(manager) <==> manager.well_formed() && manager.asset_server()
                == self.server@
    }

    /// The asset server that requests go to, whichever caller makes them and
    /// whenever: no operation changes it.
    pub closed spec fn asset_server(&self) -> AssetServer {
        self.server@
    }

    /// A shared manager that sends its requests through `loader`, to the
    /// loader's asset server, and holds no entry yet.
    pub fn new(loader: Loader) -> (shared: Self)
        requires
            ready(loader),
        ensures
            shared.asset_server() == server_of(loader),
    {
        let ghost server = server_of(loader);
        let manager = AssetManager::new(loader);
        let inner = RwLock::new(
            manager,
            Ghost(|m: AssetManager| m.well_formed() && m.asset_server() == server),
        );
        SharedAssetManager { inner, server: Ghost(server) }
    }

    /// [`AssetManager::insert`], under the lock.
    pub fn insert(&self, key: u64, path: &str)
        requires
            well_formed_path(path@),
    {
        proof {
            use_type_invariant(self);
        }
        let (mut manager, guard) = self.inner.acquire_write();
        manager.insert(key, path);
        guard.release_write(manager);
    }

    /// [`AssetManager::insert_many`], under the lock.
    pub fn insert_many(&self, pairs: &[(u64, &str)])
        requires
            forall|i: int| 0 <= i < pairs@.len() ==> well_formed_path((#[trigger] pairs@[i]).1@),
    {
        proof {
            use_type_invariant(self);
        }
        let (mut manager, guard) = self.inner.acquire_write();
        manager.insert_many(pairs);
        guard.release_write(manager);
    }

    /// [`AssetManager::insert_loaded`], under the lock.
    pub fn insert_loaded(&self, key: u64, path: &str)
        requires
            well_formed_path(path@),
    {
        proof {
            use_type_invariant(self);
        }
        let (mut manager, guard) = self.inner.acquire_write();
        manager.insert_loaded(key, path);
        guard.release_write(manager);
    }

    /// [`AssetManager::insert_many_loaded`], under the lock.
    pub fn insert_many_loaded(&self, pairs: &[(u64, &str)])
        requires
            forall|i: int| 0 <= i < pairs@.len() ==> well_formed_path((#[trigger] pairs@[i]).1@),
    {
        proof {
            use_type_invariant(self);
        }
        let (mut manager, guard) = self.inner.acquire_write();
        manager.insert_many_loaded(pairs);
        guard.release_write(manager);
    }

    /// [`AssetManager::register`], under the lock: the lock is taken only
    /// where the path is accepted.
    pub fn register(&self, style: LoadStyle, key: u64, path: &str) -> (accepted: bool)
        ensures
            accepted == well_formed_path(path@),
    {
        if !path_parses(path) {
            return false;
        }
        match style {
            LoadStyle::Lazy => self.insert(key, path),
            LoadStyle::Loaded => self.insert_loaded(key, path),
        }
        true
    }

    /// [`AssetManager::register_many`], under the lock: the lazy batch and the
    /// loaded batch go in together, with the lock taken once, and only where
    /// every path is accepted.
    pub fn register_many(&self, entries: &[(LoadStyle, u64, &str)]) -> (accepted: bool)
        ensures
            accepted == all_well_formed(entries@),
    {
        proof {
            use_type_invariant(self);
        }
        match split_by_style(entries) {
            Some((lazy, loaded)) => {
                proof {
                    lemma_pairs_keep_paths(entries@, LoadStyle::Lazy);
                    lemma_pairs_keep_paths(entries@, LoadStyle::Loaded);
                }
                let (mut manager, guard) = self.inner.acquire_write();
                manager.insert_many(lazy.as_slice());
                manager.insert_many_loaded(loaded.as_slice());
                guard.release_write(manager);
                true
            },
            None => false,
        }
    }

    /// [`AssetManager::load`], under the lock.
    pub fn load(&self, key: u64) {
        proof {
            use_type_invariant(self);
        }
        let (mut manager, guard) = self.inner.acquire_write();
        manager.load(key);
        guard.release_write(manager);
    }

    /// [`AssetManager::load_many`], under the lock.
    pub fn load_many(&self, keys: &[u64]) {
        proof {
            use_type_invariant(self);
        }
        let (mut manager, guard) = self.inner.acquire_write();
        manager.load_many(keys);
        guard.release_write(manager);
    }

    /// [`AssetManager::get`], under the lock: the key is looked up, resolved
    /// where it is still lazy, and copied without anything coming between.
    pub fn get(&self, key: u64) -> (handle: Option<UntypedHandle>) {
        proof {
            use_type_invariant(self);
        }
        let (mut manager, guard) = self.inner.acquire_write();
        let handle = manager.get(key);
        guard.release_write(manager);
        handle
    }

    /// [`AssetManager::get_many`], under the lock.
    pub fn get_many(&self, keys: &[u64]) -> (handles: Vec<UntypedHandle>)
        ensures
            handles@.len() <= keys@.len(),
    {
        proof {
            use_type_invariant(self);
        }
        let (mut manager, guard) = self.inner.acquire_write();
        let ghost before = manager.snapshot();
        let handles = manager.get_many(keys);
        guard.release_write(manager);
        proof {
            lemma_registered_among_is_bounded(before, keys@);
        }
        handles
    }
}

} // verus!
