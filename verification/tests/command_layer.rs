use cask_db::args::{CreateArgs, DeleteArgs, GetArgs, InitArgs, MergeArgs, SetArgs};
use cask_db::commands;

fn get_args(key: &str) -> GetArgs {
    GetArgs { key: key.to_string(), base_dir: None }
}

#[test]
fn create_uses_the_default_directory() {
    let (store, dir) = commands::create(CreateArgs { base_dir: None });
    assert_eq!(dir, "db");
    assert_eq!(commands::get(&store, &get_args("k")), None);
}

#[test]
fn create_honours_a_named_directory() {
    let (_, dir) = commands::create(CreateArgs { base_dir: Some("elsewhere".to_string()) });
    assert_eq!(dir, "elsewhere");
}

#[test]
fn set_get_delete_through_commands() {
    let (mut store, _) = commands::create(CreateArgs { base_dir: None });
    commands::set(
        &mut store,
        &SetArgs { key: "k".to_string(), value: "v".to_string(), base_dir: None },
    );
    assert_eq!(commands::get(&store, &get_args("k")), Some("v".to_string()));
    commands::delete(&mut store, &DeleteArgs { key: "k".to_string(), base_dir: None });
    assert_eq!(commands::get(&store, &get_args("k")), None);
}

#[test]
fn init_replays_what_was_written() {
    let (mut store, _) = commands::create(CreateArgs { base_dir: None });
    commands::set(
        &mut store,
        &SetArgs { key: "k".to_string(), value: "v".to_string(), base_dir: None },
    );
    commands::merge(&mut store, &MergeArgs { base_dir: None });
    let segments = store.close();
    let (store, dir) = commands::init(InitArgs { base_dir: Some("data".to_string()) }, segments);
    assert_eq!(dir, "data");
    assert_eq!(commands::get(&store, &get_args("k")), Some("v".to_string()));
}
