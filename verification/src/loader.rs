//! The calls into Bevy's asset server.
//!
//! Nothing in this module is proved but [`Loader::for_asset`]. Each of the
//! other functions makes one call and states only what the server's source
//! shows of it.

use bevy::asset::{Asset, AssetPath, AssetServer, UntypedAssetId, UntypedHandle};
use vstd::prelude::*;

verus! {

/// Bevy's `AssetServer`, carried through as an opaque value.
#[verifier::external_type_specification]
#[verifier::external_body]
pub struct ExAssetServer(AssetServer);

/// Bevy's `UntypedHandle`, carried through as an opaque value.
#[verifier::external_type_specification]
#[verifier::external_body]
pub struct ExUntypedHandle(UntypedHandle);

/// Bevy's `UntypedAssetId`, carried through as an opaque value.
#[verifier::external_type_specification]
#[verifier::external_body]
pub struct ExUntypedAssetId(UntypedAssetId);

/// An asset server together with the one asset type that is asked of it.
/// Requests reach the server through [`Loader::request`] and no other way, so
/// what a loader has served is what its manager has asked for.
#[verifier::external_body]
pub struct Loader {
    server: AssetServer,
    load: Box<dyn Fn(&AssetServer, String) -> UntypedHandle + Send + Sync>,
}

/// Whether `AssetPath::try_parse` accepts a string as an asset path.
pub uninterp spec fn well_formed_path(path: Seq<char>) -> bool;

/// The asset that a handle refers to, as `UntypedHandle::id` gives it.
pub uninterp spec fn asset_of(handle: UntypedHandle) -> UntypedAssetId;

/// The asset server that a loader asks.
pub uninterp spec fn server_of(loader: Loader) -> AssetServer;

/// The requests made through a loader, oldest first: each path with the
/// handle that the server answered.
pub uninterp spec fn served(loader: Loader) -> Seq<(Seq<char>, UntypedHandle)>;

/// Whether the app behind a loader's server can take a request for the
/// loader's asset type: the asset type has been initialised in it, and an I/O
/// task pool exists. The server's `load` panics where either is missing. No
/// function of the server tells whether the asset type is initialised, so
/// nothing here establishes this: whoever builds a manager vouches for it.
/// Neither an asset type nor the pool is ever taken away again.
pub uninterp spec fn ready(loader: Loader) -> bool;

/// The paths asked through a loader, oldest first.
pub open spec fn asked(loader: Loader) -> Seq<Seq<char>> {
    served(loader).map_values(|request: (Seq<char>, UntypedHandle)| request.0)
}

/// The handles that the server answered through a loader, oldest first.
pub open spec fn answered(loader: Loader) -> Seq<UntypedHandle> {
    served(loader).map_values(|request: (Seq<char>, UntypedHandle)| request.1)
}

/// One more request adds one path to what was asked and one handle to what
/// was answered.
pub proof fn lemma_served_one_more(
    before: Loader,
    after: Loader,
    path: Seq<char>,
    handle: UntypedHandle,
)
    requires
        served(after) == served(before).push((path, handle)),
    ensures
        asked(after) == asked(before).push(path),
        answered(after) == answered(before).push(handle),
{
    assert(asked(after) =~= asked(before).push(path));
    assert(answered(after) =~= answered(before).push(handle));
}

/// `AssetPath::try_parse`, reduced to whether it succeeds.
#[verifier::external_body]
pub(crate) fn path_parses(path: &str) -> (ok: bool)
    ensures
        ok == well_formed_path(path@),
{
    AssetPath::try_parse(path).is_ok()
}

/// Binds `AssetServer::load` for the asset type `A`, with `Handle::untyped`
/// on its result, to a server. No request is made.
#[verifier::external_body]
pub(crate) fn bind_loader<A: Asset>(asset_server: AssetServer) -> (loader: Loader)
    ensures
        server_of(loader) == asset_server,
        served(loader).len() == 0,
{
    Loader {
        server: asset_server,
        load: Box::new(move |server: &AssetServer, path: String| server.load::<A>(path).untyped()),
    }
}

/// `UntypedHandle::id`: the asset that `handle` refers to.
#[verifier::external_body]
pub(crate) fn handle_id(handle: &UntypedHandle) -> (id: UntypedAssetId)
    ensures
        id == asset_of(*handle),
{
    handle.id()
}

/// `UntypedHandle::clone_weak`: a weak handle to the asset that `handle`
/// refers to.
#[verifier::external_body]
pub(crate) fn weak_copy(handle: &UntypedHandle) -> (copy: UntypedHandle)
    ensures
        asset_of(copy) == asset_of(*handle),
{
    handle.clone_weak()
}

impl Loader {
    /// A loader that asks `asset_server` for assets of type `A`. It has
    /// served nothing yet.
    pub fn for_asset<A: Asset>(asset_server: AssetServer) -> (loader: Loader)
        ensures
            server_of(loader) == asset_server,
            served(loader) == Seq::<(Seq<char>, UntypedHandle)>::empty(),
    {
        bind_loader::<A>(asset_server)
    }

    /// `AssetServer::load` for the loader's asset type: asks the server for
    /// the asset at `path`, and returns the handle it gives with its type
    /// erased. The request and its answer are the newest that the loader has
    /// served. The server panics on a path that it cannot parse, and where it
    /// is not ready for the asset type: neither is admitted. Which asset the
    /// handle refers to depends on what the server has loaded so far: nothing
    /// is claimed of it.
    #[verifier::external_body]
    pub(crate) fn request(&mut self, path: &str) -> (handle: UntypedHandle)
        requires
            ready(*old(self)),
            well_formed_path(path@),
        ensures
            served(*final(self)) == served(*old(self)).push((path@, handle)),
            server_of(*final(self)) == server_of(*old(self)),
            ready(*final(self)),
    {
        (self.load)(&self.server, path.to_owned())
    }
}

} // verus!
