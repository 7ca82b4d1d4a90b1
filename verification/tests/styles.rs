use bevy::app::App;
use bevy::asset::{AssetPlugin, AssetServer, LoadedFolder};
use bevy::prelude::TaskPoolPlugin;
use bevy_asset_manager::style::split_by_style;
use bevy_asset_manager::{AssetManager, LoadStyle, Loader};

fn new_server() -> AssetServer {
    let mut app = App::new();
    app.add_plugins((TaskPoolPlugin::default(), AssetPlugin::default()));
    app.world.resource::<AssetServer>().clone()
}

fn was_requested(server: &AssetServer, path: &str) -> bool {
    server.get_handle_untyped(path.to_owned()).is_some()
}

#[test]
fn split_keeps_each_style_in_order() {
    let split = split_by_style(&[
        (LoadStyle::Loaded, 1, "on.ogg"),
        (LoadStyle::Lazy, 3, "warp.ogg"),
        (LoadStyle::Loaded, 2, "off.ogg"),
        (LoadStyle::Lazy, 4, "stall.ogg"),
    ]);
    let (lazy, loaded) = split.unwrap();
    assert_eq!(lazy, vec![(3, "warp.ogg"), (4, "stall.ogg")]);
    assert_eq!(loaded, vec![(1, "on.ogg"), (2, "off.ogg")]);
}

#[test]
fn split_of_nothing_is_two_empty_batches() {
    let (lazy, loaded) = split_by_style(&[]).unwrap();
    assert!(lazy.is_empty());
    assert!(loaded.is_empty());
}

#[test]
fn split_refuses_a_batch_with_a_malformed_path() {
    assert!(split_by_style(&[(LoadStyle::Lazy, 1, "fine.ogg"), (LoadStyle::Loaded, 2, "scene.gltf#")])
        .is_none());
    assert!(split_by_style(&[(LoadStyle::Lazy, 1, "://nowhere.ogg")]).is_none());
    assert!(split_by_style(&[(LoadStyle::Lazy, 1, "source:/oneslash.ogg")]).is_none());
}

#[test]
fn split_accepts_sources_and_labels() {
    assert!(split_by_style(&[
        (LoadStyle::Lazy, 1, "custom://some/path/scene.gltf#Mesh0"),
        (LoadStyle::Loaded, 2, "some/path/scene.gltf"),
        (LoadStyle::Loaded, 3, ""),
    ])
    .is_some());
}

#[test]
fn register_follows_the_style() {
    let server = new_server();
    let mut manager = AssetManager::new(Loader::for_asset::<LoadedFolder>(server.clone()));
    assert!(manager.register(LoadStyle::Lazy, 1, "lazy.ogg"));
    assert!(manager.register(LoadStyle::Loaded, 2, "loaded.ogg"));
    assert!(!was_requested(&server, "lazy.ogg"));
    assert!(was_requested(&server, "loaded.ogg"));
    assert!(manager.get(1).is_some());
    assert!(was_requested(&server, "lazy.ogg"));
}

#[test]
fn register_refuses_a_malformed_path() {
    let server = new_server();
    let mut manager = AssetManager::new(Loader::for_asset::<LoadedFolder>(server.clone()));
    assert!(!manager.register(LoadStyle::Lazy, 1, "scene.gltf#"));
    assert!(!manager.register(LoadStyle::Loaded, 2, "://scene.gltf"));
    assert!(manager.get(1).is_none());
    assert!(manager.get(2).is_none());
}

#[test]
fn register_many_goes_by_style() {
    let server = new_server();
    let mut manager = AssetManager::new(Loader::for_asset::<LoadedFolder>(server.clone()));
    let accepted = manager.register_many(&[
        (LoadStyle::Loaded, 1, "on.ogg"),
        (LoadStyle::Loaded, 2, "off.ogg"),
        (LoadStyle::Lazy, 3, "warp.ogg"),
    ]);
    assert!(accepted);
    assert!(was_requested(&server, "on.ogg"));
    assert!(was_requested(&server, "off.ogg"));
    assert!(!was_requested(&server, "warp.ogg"));
    assert_eq!(manager.get_many(&[1, 2, 3]).len(), 3);
    assert!(was_requested(&server, "warp.ogg"));
}

#[test]
fn register_many_puts_loaded_entries_after_lazy_ones() {
    let server = new_server();
    let mut manager = AssetManager::new(Loader::for_asset::<LoadedFolder>(server.clone()));
    assert!(manager.register_many(&[(LoadStyle::Loaded, 1, "loaded.ogg"), (LoadStyle::Lazy, 1, "lazy.ogg")]));
    let handle = manager.get(1).unwrap();
    assert!(!was_requested(&server, "lazy.ogg"));
    assert_eq!(handle.id(), server.get_handle_untyped("loaded.ogg").unwrap().id());
}

#[test]
fn register_many_changes_nothing_where_one_path_is_malformed() {
    let server = new_server();
    let mut manager = AssetManager::new(Loader::for_asset::<LoadedFolder>(server.clone()));
    let accepted = manager.register_many(&[
        (LoadStyle::Loaded, 1, "on.ogg"),
        (LoadStyle::Lazy, 3, "warp.ogg#"),
    ]);
    assert!(!accepted);
    assert!(!was_requested(&server, "on.ogg"));
    assert!(manager.get(1).is_none());
    assert!(manager.get(3).is_none());
}
