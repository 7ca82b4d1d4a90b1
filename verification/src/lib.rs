//! Keyed asset handles for Bevy, loaded eagerly or on first use.
//!
//! An [`AssetManager`] maps integer keys to assets of one type, which it asks
//! of an asset server through a [`Loader`]. A key is registered with the path
//! of its asset, either lazily (the asset server is asked only when the key is
//! first used) or loaded (the server is asked at once). Every operation
//! states, over a mathematical view of the manager, which entries it leaves
//! behind, which paths it asked the server for, and which handle it keeps.

pub mod index;
pub mod laws;
pub mod loader;
pub mod manager;
pub mod shared;
pub mod style;

pub use loader::Loader;
pub use manager::{AssetManager, Entry, Snapshot};
pub use shared::SharedAssetManager;
pub use style::LoadStyle;
