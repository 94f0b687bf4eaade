use boardstore::models::{Board, BoardFolder, BoardListItem, BoardsIndex};
use boardstore::store::{DocRow, Store};

fn legacy_board(id: &str, name: &str) -> Board {
    Board {
        id: String::from(id),
        name: String::from(name),
        created_at: 100,
        updated_at: 200,
        collaboration_link: None,
        thumbnail: None,
    }
}

#[test]
fn migration_replays_boards_folders_and_active() {
    let mut store = Store::new();
    let legacy = BoardsIndex {
        items: vec![
            BoardListItem::Board(legacy_board("l-a", "A")),
            BoardListItem::Folder(BoardFolder {
                id: String::from("l-f"),
                name: String::from("F"),
                items: vec![legacy_board("l-b", "B")],
            }),
        ],
        active_board_id: Some(String::from("l-b")),
    };
    let docs = vec![DocRow {
        board_id: String::from("l-a"),
        data: String::from("{\"saved\":true}"),
    }];
    store.migrate_legacy(Some(&legacy), &docs).unwrap();

    let ix = store.get_boards();
    assert_eq!(ix.items.len(), 2);
    assert_eq!(ix.active_board_id.as_deref(), Some("l-b"));
    match &ix.items[0] {
        BoardListItem::Board(b) => {
            assert_eq!(b.id, "l-a");
            assert_eq!(b.name, "A");
            assert_eq!(b.created_at, 100);
        }
        BoardListItem::Folder(_) => panic!("expected a board first"),
    }
    match &ix.items[1] {
        BoardListItem::Folder(f) => {
            assert_eq!(f.name, "F");
            assert_eq!(f.items.len(), 1);
            assert_eq!(f.items[0].id, "l-b");
        }
        BoardListItem::Board(_) => panic!("expected the folder second"),
    }
    // The companion file became the document; the folder board got the default.
    assert_eq!(
        store.load_board_data(&String::from("l-a")).unwrap(),
        "{\"saved\":true}"
    );
    assert_eq!(
        store.load_board_data(&String::from("l-b")).unwrap(),
        boardstore::default_board_data()
    );
}

#[test]
fn migration_runs_at_most_once() {
    let mut store = Store::new();
    let legacy = BoardsIndex {
        items: vec![BoardListItem::Board(legacy_board("l-a", "A"))],
        active_board_id: None,
    };
    let docs: Vec<DocRow> = Vec::new();
    store.migrate_legacy(Some(&legacy), &docs).unwrap();
    let first = store.get_boards();

    // A second open sees the flag and replays nothing.
    store.migrate_legacy(Some(&legacy), &docs).unwrap();
    let second = store.get_boards();
    assert_eq!(second.items.len(), first.items.len());
    assert_eq!(second.items.len(), 1);
    assert_eq!(second.active_board_id, first.active_board_id);
}

#[test]
fn migration_without_legacy_file_only_sets_the_flag() {
    let mut store = Store::new();
    assert!(!store.is_migrated());
    store.migrate_legacy(None, &Vec::new()).unwrap();
    assert!(store.is_migrated());
    assert!(store.get_boards().items.is_empty());
}

#[test]
fn migration_skips_a_store_seeded_another_way() {
    let mut store = Store::new();
    store
        .create_board_at(String::from("Mine"), String::from("id-m"), 1)
        .unwrap();
    let legacy = BoardsIndex {
        items: vec![BoardListItem::Board(legacy_board("l-a", "A"))],
        active_board_id: None,
    };
    store.migrate_legacy(Some(&legacy), &Vec::new()).unwrap();
    assert!(store.is_migrated());
    let ix = store.get_boards();
    assert_eq!(ix.items.len(), 1);
    match &ix.items[0] {
        BoardListItem::Board(b) => assert_eq!(b.id, "id-m"),
        BoardListItem::Folder(_) => panic!("expected the existing board"),
    }
}

#[test]
fn migration_deduplicates_a_board_listed_twice() {
    let mut store = Store::new();
    let legacy = BoardsIndex {
        items: vec![
            BoardListItem::Board(legacy_board("l-a", "A")),
            BoardListItem::Board(legacy_board("l-a", "A")),
        ],
        active_board_id: None,
    };
    store.migrate_legacy(Some(&legacy), &Vec::new()).unwrap();
    let ix = store.get_boards();
    // Both index positions resolve to the single inserted row.
    assert_eq!(ix.items.len(), 2);
    let mut distinct = Vec::new();
    for item in &ix.items {
        if let BoardListItem::Board(b) = item {
            if !distinct.contains(&b.id) {
                distinct.push(b.id.clone());
            }
        }
    }
    assert_eq!(distinct.len(), 1);
}

#[test]
fn migration_resolves_a_dangling_active_id() {
    let mut store = Store::new();
    let legacy = BoardsIndex {
        items: vec![BoardListItem::Board(legacy_board("l-a", "A"))],
        active_board_id: Some(String::from("gone")),
    };
    store.migrate_legacy(Some(&legacy), &Vec::new()).unwrap();
    let ix = store.get_boards();
    assert_eq!(ix.active_board_id.as_deref(), Some("l-a"));
}
