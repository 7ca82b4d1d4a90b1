use bevy::app::App;
use bevy::asset::{AssetPlugin, AssetServer, LoadedFolder, UntypedHandle};
use bevy::prelude::TaskPoolPlugin;
use bevy_asset_manager::{AssetManager, Loader};

fn asset_server() -> AssetServer {
    let mut app = App::new();
    app.add_plugins((TaskPoolPlugin::default(), AssetPlugin::default()));
    app.world.resource::<AssetServer>().clone()
}

fn requested(server: &AssetServer, path: &str) -> bool {
    server.get_handle_untyped(path.to_owned()).is_some()
}

fn is_weak(handle: &UntypedHandle) -> bool {
    matches!(handle, UntypedHandle::Weak(_))
}

#[test]
fn new_manager_holds_nothing() {
    let server = asset_server();
    let mut manager = AssetManager::new(Loader::for_asset::<LoadedFolder>(server.clone()));
    assert!(manager.get(0).is_none());
    assert!(manager.get(u64::MAX).is_none());
    assert_eq!(manager.get_many(&[1, 2, 3]).len(), 0);
}

#[test]
fn lazy_insert_defers_the_request() {
    let server = asset_server();
    let mut manager = AssetManager::new(Loader::for_asset::<LoadedFolder>(server.clone()));
    manager.insert(7, "sounds/warp.ogg");
    assert!(!requested(&server, "sounds/warp.ogg"));
    let handle = manager.get(7);
    assert!(handle.is_some());
    assert!(requested(&server, "sounds/warp.ogg"));
}

#[test]
fn lazy_insert_is_resolved_by_load() {
    let server = asset_server();
    let mut manager = AssetManager::new(Loader::for_asset::<LoadedFolder>(server.clone()));
    manager.insert(7, "sounds/warp.ogg");
    manager.load(7);
    assert!(requested(&server, "sounds/warp.ogg"));
    let kept = server.get_handle_untyped("sounds/warp.ogg").unwrap();
    assert_eq!(manager.get(7).unwrap().id(), kept.id());
}

#[test]
fn loaded_insert_requests_at_once() {
    let server = asset_server();
    let mut manager = AssetManager::new(Loader::for_asset::<LoadedFolder>(server.clone()));
    manager.insert_loaded(1, "sounds/engine-on.ogg");
    assert!(requested(&server, "sounds/engine-on.ogg"));
    assert!(!requested(&server, "sounds/engine-off.ogg"));
}

#[test]
fn get_gives_a_weak_handle_to_the_requested_asset() {
    let server = asset_server();
    let mut manager = AssetManager::new(Loader::for_asset::<LoadedFolder>(server.clone()));
    manager.insert_loaded(1, "sounds/engine-on.ogg");
    let kept = server.get_handle_untyped("sounds/engine-on.ogg").unwrap();
    let handle = manager.get(1).unwrap();
    assert!(is_weak(&handle));
    assert_eq!(handle.id(), kept.id());
    let typed = handle.typed::<LoadedFolder>();
    assert_eq!(typed.id().untyped(), kept.id());
}

#[test]
fn get_on_a_lazy_key_gives_a_weak_handle_and_keeps_the_asset() {
    let server = asset_server();
    let mut manager = AssetManager::new(Loader::for_asset::<LoadedFolder>(server.clone()));
    manager.insert(3, "textures/ship.png");
    let handle = manager.get(3).unwrap();
    assert!(is_weak(&handle));
    drop(handle);
    assert!(requested(&server, "textures/ship.png"));
}

#[test]
fn repeated_get_refers_to_one_asset() {
    let server = asset_server();
    let mut manager = AssetManager::new(Loader::for_asset::<LoadedFolder>(server.clone()));
    manager.insert(3, "textures/ship.png");
    let first = manager.get(3).unwrap();
    let second = manager.get(3).unwrap();
    assert_eq!(first.id(), second.id());
    assert_eq!(first, second);
    for _ in 0..16 {
        assert_eq!(manager.get(3).unwrap().id(), first.id());
    }
}

#[test]
fn overwrite_asks_for_the_later_path_only() {
    let server = asset_server();
    let mut manager = AssetManager::new(Loader::for_asset::<LoadedFolder>(server.clone()));
    manager.insert(9, "a.ogg");
    manager.insert(9, "b.ogg");
    let handle = manager.get(9).unwrap();
    assert!(!requested(&server, "a.ogg"));
    assert!(requested(&server, "b.ogg"));
    assert_eq!(handle.id(), server.get_handle_untyped("b.ogg").unwrap().id());
}

#[test]
fn lazy_insert_over_a_loaded_key_makes_it_lazy_again() {
    let server = asset_server();
    let mut manager = AssetManager::new(Loader::for_asset::<LoadedFolder>(server.clone()));
    manager.insert_loaded(9, "a.ogg");
    let first = manager.get(9).unwrap();
    manager.insert(9, "b.ogg");
    assert!(!requested(&server, "b.ogg"));
    let second = manager.get(9).unwrap();
    assert!(requested(&server, "b.ogg"));
    assert_ne!(first.id(), second.id());
}

#[test]
fn missing_key_gives_nothing_and_asks_for_nothing() {
    let server = asset_server();
    let mut manager = AssetManager::new(Loader::for_asset::<LoadedFolder>(server.clone()));
    manager.insert(1, "one.ogg");
    assert!(manager.get(2).is_none());
    manager.load(2);
    assert!(!requested(&server, "one.ogg"));
    assert!(manager.get(2).is_none());
}

#[test]
fn get_many_leaves_out_missing_keys() {
    let server = asset_server();
    let mut manager = AssetManager::new(Loader::for_asset::<LoadedFolder>(server.clone()));
    manager.insert(1, "one.ogg");
    manager.insert_loaded(2, "two.ogg");
    let handles = manager.get_many(&[1, 99, 2]);
    assert_eq!(handles.len(), 2);
    assert_eq!(handles[0].id(), server.get_handle_untyped("one.ogg").unwrap().id());
    assert_eq!(handles[1].id(), server.get_handle_untyped("two.ogg").unwrap().id());
    assert!(is_weak(&handles[0]));
    assert!(is_weak(&handles[1]));
}

#[test]
fn get_many_keeps_order_and_repeats() {
    let server = asset_server();
    let mut manager = AssetManager::new(Loader::for_asset::<LoadedFolder>(server.clone()));
    manager.insert_many(&[(1, "one.ogg"), (2, "two.ogg")]);
    let handles = manager.get_many(&[2, 1, 5, 2]);
    assert_eq!(handles.len(), 3);
    let one = server.get_handle_untyped("one.ogg").unwrap().id();
    let two = server.get_handle_untyped("two.ogg").unwrap().id();
    assert_eq!(handles[0].id(), two);
    assert_eq!(handles[1].id(), one);
    assert_eq!(handles[2].id(), two);
}

#[test]
fn get_many_of_nothing_is_empty() {
    let server = asset_server();
    let mut manager = AssetManager::new(Loader::for_asset::<LoadedFolder>(server.clone()));
    manager.insert(1, "one.ogg");
    assert!(manager.get_many(&[]).is_empty());
    assert!(!requested(&server, "one.ogg"));
}

#[test]
fn insert_many_registers_every_key_without_a_request() {
    let server = asset_server();
    let mut manager = AssetManager::new(Loader::for_asset::<LoadedFolder>(server.clone()));
    manager.insert_many(&[(1, "one.ogg"), (2, "two.ogg")]);
    assert!(!requested(&server, "one.ogg"));
    assert!(!requested(&server, "two.ogg"));
    assert!(manager.get(1).is_some());
    assert!(manager.get(2).is_some());
    assert!(requested(&server, "one.ogg"));
    assert!(requested(&server, "two.ogg"));
}

#[test]
fn insert_many_lets_the_last_pair_of_a_key_stand() {
    let server = asset_server();
    let mut manager = AssetManager::new(Loader::for_asset::<LoadedFolder>(server.clone()));
    manager.insert_many(&[(1, "first.ogg"), (2, "two.ogg"), (1, "last.ogg")]);
    let handle = manager.get(1).unwrap();
    assert!(!requested(&server, "first.ogg"));
    assert_eq!(handle.id(), server.get_handle_untyped("last.ogg").unwrap().id());
}

#[test]
fn insert_many_loaded_requests_every_path() {
    let server = asset_server();
    let mut manager = AssetManager::new(Loader::for_asset::<LoadedFolder>(server.clone()));
    manager.insert_many_loaded(&[(1, "one.ogg"), (2, "two.ogg"), (3, "three.ogg")]);
    assert!(requested(&server, "one.ogg"));
    assert!(requested(&server, "two.ogg"));
    assert!(requested(&server, "three.ogg"));
    assert_eq!(manager.get_many(&[1, 2, 3]).len(), 3);
}

#[test]
fn load_many_resolves_the_lazy_keys_it_names() {
    let server = asset_server();
    let mut manager = AssetManager::new(Loader::for_asset::<LoadedFolder>(server.clone()));
    manager.insert_many(&[(1, "one.ogg"), (2, "two.ogg"), (3, "three.ogg")]);
    manager.load_many(&[1, 42, 3, 1]);
    assert!(requested(&server, "one.ogg"));
    assert!(!requested(&server, "two.ogg"));
    assert!(requested(&server, "three.ogg"));
}

#[test]
fn keys_at_the_ends_of_the_range_are_kept_apart() {
    let server = asset_server();
    let mut manager = AssetManager::new(Loader::for_asset::<LoadedFolder>(server.clone()));
    manager.insert_loaded(0, "zero.ogg");
    manager.insert_loaded(u64::MAX, "max.ogg");
    let zero = manager.get(0).unwrap();
    let max = manager.get(u64::MAX).unwrap();
    assert_eq!(zero.id(), server.get_handle_untyped("zero.ogg").unwrap().id());
    assert_eq!(max.id(), server.get_handle_untyped("max.ogg").unwrap().id());
    assert_ne!(zero.id(), max.id());
}

#[test]
fn asset_id_names_the_kept_handle_without_resolving() {
    let server = asset_server();
    let mut manager = AssetManager::new(Loader::for_asset::<LoadedFolder>(server.clone()));
    manager.insert(1, "lazy.ogg");
    manager.insert_loaded(2, "loaded.ogg");
    assert!(manager.asset_id(1).is_none());
    assert!(!requested(&server, "lazy.ogg"));
    assert!(manager.asset_id(3).is_none());
    let kept = server.get_handle_untyped("loaded.ogg").unwrap();
    assert_eq!(manager.asset_id(2), Some(kept.id()));
    let copy = manager.get(1).unwrap();
    assert_eq!(manager.asset_id(1), Some(copy.id()));
}

#[test]
fn the_manager_keeps_the_servers_own_handle() {
    let server = asset_server();
    let mut manager = AssetManager::new(Loader::for_asset::<LoadedFolder>(server.clone()));
    manager.insert(1, "lazy.ogg");
    manager.load(1);
    manager.insert_loaded(2, "loaded.ogg");
    drop(manager.get_many(&[1, 2]));
    assert!(requested(&server, "lazy.ogg"));
    assert!(requested(&server, "loaded.ogg"));
    drop(manager);
    assert!(!requested(&server, "lazy.ogg"));
    assert!(!requested(&server, "loaded.ogg"));
}

#[test]
fn a_loader_asks_for_its_own_asset_type() {
    let server = asset_server();
    let mut manager = AssetManager::new(Loader::for_asset::<LoadedFolder>(server.clone()));
    manager.insert_loaded(2, "loaded.ogg");
    let handle = manager.get(2).unwrap();
    assert_eq!(handle.type_id(), std::any::TypeId::of::<LoadedFolder>());
}
