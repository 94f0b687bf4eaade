use boardstore::default_board_data;
use boardstore::models::{BoardListItem, StoreError};
use boardstore::store::Store;

#[test]
fn create_board_becomes_active_with_fresh_id() {
    let mut store = Store::new();
    let a = store.create_board(String::from("Alpha")).unwrap();
    assert_eq!(a.name, "Alpha");
    assert_eq!(a.id.len(), 36);
    assert!(a.collaboration_link.is_none());
    assert!(a.thumbnail.is_none());
    assert_eq!(a.created_at, a.updated_at);
    let ix = store.get_boards();
    assert_eq!(ix.active_board_id.as_deref(), Some(a.id.as_str()));
    assert_eq!(ix.items.len(), 1);

    let b = store.create_board(String::from("Beta")).unwrap();
    assert_ne!(a.id, b.id);
    let ix2 = store.get_boards();
    assert_eq!(ix2.active_board_id.as_deref(), Some(b.id.as_str()));
    assert_eq!(ix2.items.len(), 2);
}

#[test]
fn create_board_at_rejects_taken_id() {
    let mut store = Store::new();
    store
        .create_board_at(String::from("One"), String::from("id-1"), 1000)
        .unwrap();
    let r = store.create_board_at(String::from("Two"), String::from("id-1"), 2000);
    assert!(matches!(r, Err(StoreError::StorageFailure)));
    let ix = store.get_boards();
    assert_eq!(ix.items.len(), 1);
}

#[test]
fn rename_board_updates_name_and_time() {
    let mut store = Store::new();
    store
        .create_board_at(String::from("Old"), String::from("id-1"), 1000)
        .unwrap();
    let b = store
        .rename_board(&String::from("id-1"), String::from("New"), 2000)
        .unwrap();
    assert_eq!(b.name, "New");
    assert_eq!(b.created_at, 1000);
    assert_eq!(b.updated_at, 2000);
    let again = store.get_board(&String::from("id-1")).unwrap();
    assert_eq!(again.name, "New");
}

#[test]
fn rename_unknown_board_is_not_found() {
    let mut store = Store::new();
    let r = store.rename_board(&String::from("missing"), String::from("X"), 1);
    assert!(matches!(r, Err(StoreError::NotFound)));
}

#[test]
fn delete_active_board_moves_active_to_first_reachable() {
    let mut store = Store::new();
    store
        .create_board_at(String::from("A"), String::from("id-a"), 1)
        .unwrap();
    store
        .create_board_at(String::from("B"), String::from("id-b"), 2)
        .unwrap();
    // id-b was created last, so it is active.
    store.delete_board(&String::from("id-b")).unwrap();
    let ix = store.get_boards();
    assert_eq!(ix.active_board_id.as_deref(), Some("id-a"));

    store.delete_board(&String::from("id-a")).unwrap();
    let ix2 = store.get_boards();
    assert!(ix2.active_board_id.is_none());
    assert!(ix2.items.is_empty());
}

#[test]
fn delete_unknown_board_is_not_found() {
    let mut store = Store::new();
    store
        .create_board_at(String::from("A"), String::from("id-a"), 1)
        .unwrap();
    let r = store.delete_board(&String::from("missing"));
    assert!(matches!(r, Err(StoreError::NotFound)));
    assert_eq!(store.get_boards().items.len(), 1);
}

#[test]
fn set_active_board_unknown_id_changes_nothing() {
    let mut store = Store::new();
    store
        .create_board_at(String::from("A"), String::from("id-a"), 1)
        .unwrap();
    let r = store.set_active_board(&String::from("missing"));
    assert!(matches!(r, Err(StoreError::NotFound)));
    let ix = store.get_boards();
    assert_eq!(ix.active_board_id.as_deref(), Some("id-a"));
}

#[test]
fn load_board_data_defaults_to_empty_canvas() {
    let mut store = Store::new();
    store
        .create_board_at(String::from("A"), String::from("id-a"), 1)
        .unwrap();
    let data = store.load_board_data(&String::from("id-a")).unwrap();
    assert_eq!(data, "{\"excalidraw\":null,\"excalidraw-state\":null}");
    assert_eq!(data, default_board_data());
}

#[test]
fn load_board_data_unknown_board_is_not_found() {
    let store = Store::new();
    let r = store.load_board_data(&String::from("missing"));
    assert!(matches!(r, Err(StoreError::NotFound)));
}

#[test]
fn save_board_data_round_trips_and_bumps_time() {
    let mut store = Store::new();
    store
        .create_board_at(String::from("A"), String::from("id-a"), 1)
        .unwrap();
    store
        .save_board_data(&String::from("id-a"), String::from("{\"x\":1}"), 50)
        .unwrap();
    assert_eq!(store.load_board_data(&String::from("id-a")).unwrap(), "{\"x\":1}");
    let b = store.get_board(&String::from("id-a")).unwrap();
    assert_eq!(b.updated_at, 50);

    let r = store.save_board_data(&String::from("missing"), String::from("{}"), 60);
    assert!(matches!(r, Err(StoreError::NotFound)));
}

#[test]
fn set_collaboration_link_sets_and_clears() {
    let mut store = Store::new();
    store
        .create_board_at(String::from("A"), String::from("id-a"), 1)
        .unwrap();
    store
        .set_collaboration_link(&String::from("id-a"), Some(String::from("https://x")), 5)
        .unwrap();
    let b = store.get_board(&String::from("id-a")).unwrap();
    assert_eq!(b.collaboration_link.as_deref(), Some("https://x"));
    store
        .set_collaboration_link(&String::from("id-a"), None, 6)
        .unwrap();
    let b2 = store.get_board(&String::from("id-a")).unwrap();
    assert!(b2.collaboration_link.is_none());
    let r = store.set_collaboration_link(&String::from("missing"), None, 7);
    assert!(matches!(r, Err(StoreError::NotFound)));
}

#[test]
fn duplicate_board_copies_document_and_keeps_active() {
    let mut store = Store::new();
    store
        .create_board_at(String::from("A"), String::from("id-a"), 1)
        .unwrap();
    store
        .save_board_data(&String::from("id-a"), String::from("{\"k\":2}"), 2)
        .unwrap();
    let copy = store
        .duplicate_board_at(
            &String::from("id-a"),
            String::from("A copy"),
            String::from("id-c"),
            9,
        )
        .unwrap();
    assert_eq!(copy.id, "id-c");
    assert_eq!(copy.name, "A copy");
    assert!(copy.collaboration_link.is_none());
    assert_eq!(store.load_board_data(&String::from("id-c")).unwrap(), "{\"k\":2}");
    // The clone does not become active.
    let ix = store.get_boards();
    assert_eq!(ix.active_board_id.as_deref(), Some("id-a"));
    assert_eq!(ix.items.len(), 2);

    let r = store.duplicate_board(&String::from("missing"), String::from("X"));
    assert!(matches!(r, Err(StoreError::NotFound)));
}

fn board_item(store: &Store, id: &str) -> BoardListItem {
    BoardListItem::Board(store.get_board(&String::from(id)).unwrap())
}

#[test]
fn folder_empties_step_by_step_until_it_disappears() {
    // Store has A top-level, and folder F containing B and C.
    let mut store = Store::new();
    store
        .create_board_at(String::from("A"), String::from("id-a"), 1)
        .unwrap();
    store
        .create_board_at(String::from("B"), String::from("id-b"), 2)
        .unwrap();
    store
        .create_board_at(String::from("C"), String::from("id-c"), 3)
        .unwrap();
    let folder = boardstore::models::BoardFolder {
        id: String::from("folder-f"),
        name: String::from("F"),
        items: vec![
            store.get_board(&String::from("id-b")).unwrap(),
            store.get_board(&String::from("id-c")).unwrap(),
        ],
    };
    let items = vec![board_item(&store, "id-a"), BoardListItem::Folder(folder)];
    store.set_boards_index(items).unwrap();

    store.delete_board(&String::from("id-b")).unwrap();
    let ix = store.get_boards();
    assert_eq!(ix.items.len(), 2);
    match &ix.items[1] {
        BoardListItem::Folder(f) => {
            assert_eq!(f.name, "F");
            assert_eq!(f.items.len(), 1);
            assert_eq!(f.items[0].id, "id-c");
        }
        BoardListItem::Board(_) => panic!("expected the folder to survive"),
    }

    store.delete_board(&String::from("id-c")).unwrap();
    let ix2 = store.get_boards();
    assert_eq!(ix2.items.len(), 1);
    match &ix2.items[0] {
        BoardListItem::Board(b) => assert_eq!(b.id, "id-a"),
        BoardListItem::Folder(_) => panic!("expected the folder to be gone"),
    }
}

#[test]
fn set_boards_index_is_idempotent_and_drops_empty_folders() {
    let mut store = Store::new();
    store
        .create_board_at(String::from("A"), String::from("id-a"), 1)
        .unwrap();
    store
        .create_board_at(String::from("B"), String::from("id-b"), 2)
        .unwrap();
    let folder = boardstore::models::BoardFolder {
        id: String::from("folder-f"),
        name: String::from("F"),
        items: vec![store.get_board(&String::from("id-b")).unwrap()],
    };
    let empty_folder = boardstore::models::BoardFolder {
        id: String::from("folder-g"),
        name: String::from("G"),
        items: Vec::new(),
    };
    let items = vec![
        board_item(&store, "id-a"),
        BoardListItem::Folder(folder),
        BoardListItem::Folder(empty_folder),
    ];
    let first = store.set_boards_index(items).unwrap();
    assert_eq!(first.items.len(), 3);
    let view_after_first = store.get_boards();
    // The empty folder is not shown.
    assert_eq!(view_after_first.items.len(), 2);

    // Feeding the returned index back is a fixed point.
    let second = store.set_boards_index(first.items).unwrap();
    assert_eq!(second.active_board_id, first.active_board_id);
    let view_after_second = store.get_boards();
    assert_eq!(view_after_second.items.len(), 2);
    assert_eq!(view_after_second.active_board_id, view_after_first.active_board_id);
    match &view_after_second.items[1] {
        BoardListItem::Folder(f) => {
            assert_eq!(f.id, "folder-f");
            assert_eq!(f.items.len(), 1);
        }
        BoardListItem::Board(_) => panic!("expected the folder"),
    }
}

#[test]
fn set_boards_index_rejects_unknown_folder_members() {
    let mut store = Store::new();
    store
        .create_board_at(String::from("A"), String::from("id-a"), 1)
        .unwrap();
    let ghost_board = boardstore::models::Board {
        id: String::from("nowhere"),
        name: String::from("Ghost"),
        created_at: 0,
        updated_at: 0,
        collaboration_link: None,
        thumbnail: None,
    };
    let folder = boardstore::models::BoardFolder {
        id: String::from("folder-f"),
        name: String::from("F"),
        items: vec![ghost_board],
    };
    let r = store.set_boards_index(vec![BoardListItem::Folder(folder)]);
    assert!(matches!(r, Err(StoreError::StorageFailure)));
    // Nothing moved.
    let ix = store.get_boards();
    assert_eq!(ix.items.len(), 1);
}

#[test]
fn set_boards_index_rejects_a_board_twice_in_one_folder() {
    let mut store = Store::new();
    store
        .create_board_at(String::from("A"), String::from("id-a"), 1)
        .unwrap();
    let b = store.get_board(&String::from("id-a")).unwrap();
    let folder = boardstore::models::BoardFolder {
        id: String::from("folder-f"),
        name: String::from("F"),
        items: vec![b.clone(), b],
    };
    let r = store.set_boards_index(vec![BoardListItem::Folder(folder)]);
    assert!(matches!(r, Err(StoreError::StorageFailure)));
}

#[test]
fn set_boards_index_normalizes_active_against_the_new_list() {
    let mut store = Store::new();
    store
        .create_board_at(String::from("A"), String::from("id-a"), 1)
        .unwrap();
    store
        .create_board_at(String::from("B"), String::from("id-b"), 2)
        .unwrap();
    // id-b is active; an index listing only A forces active to A.
    let ix = store.set_boards_index(vec![board_item(&store, "id-a")]).unwrap();
    assert_eq!(ix.active_board_id.as_deref(), Some("id-a"));
    let view = store.get_boards();
    assert_eq!(view.active_board_id.as_deref(), Some("id-a"));
}

#[test]
fn delete_active_falls_back_to_a_folder_member() {
    // The first index position is a folder: its first member becomes active.
    let mut store = Store::new();
    store
        .create_board_at(String::from("A"), String::from("id-a"), 1)
        .unwrap();
    store
        .create_board_at(String::from("B"), String::from("id-b"), 2)
        .unwrap();
    store
        .create_board_at(String::from("C"), String::from("id-c"), 3)
        .unwrap();
    let folder = boardstore::models::BoardFolder {
        id: String::from("folder-f"),
        name: String::from("F"),
        items: vec![
            store.get_board(&String::from("id-b")).unwrap(),
            store.get_board(&String::from("id-a")).unwrap(),
        ],
    };
    let items = vec![BoardListItem::Folder(folder), board_item(&store, "id-c")];
    store.set_boards_index(items).unwrap();
    store.set_active_board(&String::from("id-c")).unwrap();
    store.delete_board(&String::from("id-c")).unwrap();
    let ix = store.get_boards();
    assert_eq!(ix.active_board_id.as_deref(), Some("id-b"));
}

#[test]
fn get_boards_resolves_a_dangling_active_id() {
    let mut store = Store::new();
    store
        .create_board_at(String::from("A"), String::from("id-a"), 1)
        .unwrap();
    store
        .create_board_at(String::from("B"), String::from("id-b"), 2)
        .unwrap();
    // Drop id-b from the index without deleting its row: the stored active
    // id no longer resolves through the list.
    store.set_boards_index(vec![board_item(&store, "id-a")]).unwrap();
    let ix = store.get_boards();
    assert_eq!(ix.active_board_id.as_deref(), Some("id-a"));
    let again = store.get_boards();
    assert_eq!(again.active_board_id.as_deref(), Some("id-a"));
}
