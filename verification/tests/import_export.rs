use boardstore::models::{BoardListItem, BoardsExportEntry};
use boardstore::store::Store;

fn entry(id: &str, name: &str, data: Option<&str>) -> BoardsExportEntry {
    BoardsExportEntry {
        id: String::from(id),
        name: String::from(name),
        created_at: 10,
        updated_at: 20,
        collaboration_link: None,
        thumbnail: None,
        data: data.map(String::from),
    }
}

fn board_names(store: &mut Store) -> Vec<String> {
    let mut names = Vec::new();
    for item in store.get_boards().items {
        match item {
            BoardListItem::Board(b) => names.push(b.name),
            BoardListItem::Folder(f) => {
                for b in f.items {
                    names.push(b.name);
                }
            }
        }
    }
    names
}

#[test]
fn export_reprints_documents_canonically() {
    let mut store = Store::new();
    store
        .create_board_at(String::from("A"), String::from("id-a"), 1)
        .unwrap();
    store
        .save_board_data(
            &String::from("id-a"),
            String::from("{\"z\": 1, \"a\": {\"b\": [1, 2]}}"),
            2,
        )
        .unwrap();
    let entries = store.export_entries();
    assert_eq!(entries.len(), 1);
    assert_eq!(entries[0].id, "id-a");
    assert_eq!(entries[0].name, "A");
    // Keys sorted, whitespace gone: the parse-and-reprint is visible.
    assert_eq!(
        entries[0].data.as_deref(),
        Some("{\"a\":{\"b\":[1,2]},\"z\":1}")
    );
}

#[test]
fn export_turns_unparsable_documents_into_null() {
    let mut store = Store::new();
    store
        .create_board_at(String::from("A"), String::from("id-a"), 1)
        .unwrap();
    store
        .save_board_data(&String::from("id-a"), String::from("not json at all"), 2)
        .unwrap();
    let entries = store.export_entries();
    assert_eq!(entries.len(), 1);
    assert!(entries[0].data.is_none());
}

#[test]
fn export_walks_folders_and_skips_duplicate_ids() {
    let mut store = Store::new();
    store
        .create_board_at(String::from("A"), String::from("id-a"), 1)
        .unwrap();
    store
        .create_board_at(String::from("B"), String::from("id-b"), 2)
        .unwrap();
    // id-a sits top-level and inside the folder: it is exported once.
    let folder = boardstore::models::BoardFolder {
        id: String::from("folder-f"),
        name: String::from("F"),
        items: vec![
            store.get_board(&String::from("id-a")).unwrap(),
            store.get_board(&String::from("id-b")).unwrap(),
        ],
    };
    let items = vec![
        BoardListItem::Board(store.get_board(&String::from("id-a")).unwrap()),
        BoardListItem::Folder(folder),
    ];
    store.set_boards_index(items).unwrap();
    let entries = store.export_entries();
    assert_eq!(entries.len(), 2);
    assert_eq!(entries[0].id, "id-a");
    assert_eq!(entries[1].id, "id-b");
}

#[test]
fn import_collisions_get_copy_names() {
    // A store that already has a "Sketch"; two import entries named
    // "Sketch" whose original id is already present.
    let mut store = Store::new();
    store
        .create_board_at(String::from("Sketch"), String::from("id-s"), 1)
        .unwrap();
    let entries = vec![
        entry("id-s", "Sketch", Some("{\"one\":1}")),
        entry("id-s", "Sketch", Some("{\"two\":2}")),
    ];
    let selected = vec![0usize, 1usize];
    let ids = vec![String::from("new-1"), String::from("new-2")];
    let r = store.import_boards_with(&entries, &selected, &ids, 50);
    assert_eq!(r.imported, 2);
    assert_eq!(r.skipped, 0);
    let names = board_names(&mut store);
    assert!(names.contains(&String::from("Sketch")));
    assert!(names.contains(&String::from("Sketch (Copy)")));
    assert!(names.contains(&String::from("Sketch (Copy 2)")));
}

#[test]
fn import_copy_naming_is_case_insensitive() {
    let mut store = Store::new();
    store
        .create_board_at(String::from("Sketch"), String::from("id-s"), 1)
        .unwrap();
    store
        .create_board_at(String::from("sketch (copy)"), String::from("id-t"), 2)
        .unwrap();
    let entries = vec![entry("id-s", "Sketch", None)];
    let r = store.import_boards_with(
        &entries,
        &vec![0usize],
        &vec![String::from("new-1")],
        50,
    );
    assert_eq!(r.imported, 1);
    let names = board_names(&mut store);
    assert!(names.contains(&String::from("Sketch (Copy 2)")));
}

#[test]
fn import_without_id_collision_keeps_the_name() {
    let mut store = Store::new();
    store
        .create_board_at(String::from("Sketch"), String::from("id-s"), 1)
        .unwrap();
    // Same name, but an unknown original id: no rename happens.
    let entries = vec![entry("elsewhere", "Sketch", None)];
    let r = store.import_boards_with(
        &entries,
        &vec![0usize],
        &vec![String::from("new-1")],
        50,
    );
    assert_eq!(r.imported, 1);
    let names = board_names(&mut store);
    assert_eq!(names.iter().filter(|n| n.as_str() == "Sketch").count(), 2);
}

#[test]
fn import_blank_names_get_the_placeholder() {
    let mut store = Store::new();
    let entries = vec![entry("x", "   ", None), entry("y", "  Padded  ", None)];
    let r = store.import_boards_with(
        &entries,
        &vec![0usize, 1usize],
        &vec![String::from("new-1"), String::from("new-2")],
        50,
    );
    assert_eq!(r.imported, 2);
    let names = board_names(&mut store);
    assert!(names.contains(&String::from("Imported board")));
    assert!(names.contains(&String::from("Padded")));
}

#[test]
fn import_skips_entries_whose_fresh_id_clashes() {
    let mut store = Store::new();
    store
        .create_board_at(String::from("A"), String::from("id-a"), 1)
        .unwrap();
    let entries = vec![entry("x", "New", None)];
    // The drawn id collides with an existing board: the entry is skipped.
    let r = store.import_boards_with(
        &entries,
        &vec![0usize],
        &vec![String::from("id-a")],
        50,
    );
    assert_eq!(r.imported, 0);
    assert_eq!(r.skipped, 1);
    assert_eq!(board_names(&mut store).len(), 1);
}

#[test]
fn import_ignores_unselected_entries() {
    let mut store = Store::new();
    let entries = vec![entry("x", "One", None), entry("y", "Two", None)];
    let r = store.import_boards_with(
        &entries,
        &vec![1usize],
        &vec![String::from("new-1")],
        50,
    );
    assert_eq!(r.imported, 1);
    let names = board_names(&mut store);
    assert_eq!(names, vec![String::from("Two")]);
}

#[test]
fn import_restores_the_previous_active_board() {
    let mut store = Store::new();
    store
        .create_board_at(String::from("A"), String::from("id-a"), 1)
        .unwrap();
    let entries = vec![entry("x", "New", Some("{\"n\":1}"))];
    store.import_boards_with(
        &entries,
        &vec![0usize],
        &vec![String::from("new-1")],
        50,
    );
    let ix = store.get_boards();
    assert_eq!(ix.active_board_id.as_deref(), Some("id-a"));
}

#[test]
fn import_saves_the_carried_documents() {
    let mut store = Store::new();
    let entries = vec![entry("x", "One", Some("{\"n\":1}")), entry("y", "Two", None)];
    let r = store.import_boards_with(
        &entries,
        &vec![0usize, 1usize],
        &vec![String::from("new-1"), String::from("new-2")],
        50,
    );
    assert_eq!(r.imported, 2);
    assert_eq!(
        store.load_board_data(&String::from("new-1")).unwrap(),
        "{\"n\":1}"
    );
    assert_eq!(
        store.load_board_data(&String::from("new-2")).unwrap(),
        boardstore::default_board_data()
    );
}

#[test]
fn export_then_import_reproduces_names_and_documents() {
    let mut source = Store::new();
    source
        .create_board_at(String::from("One"), String::from("id-1"), 1)
        .unwrap();
    source
        .save_board_data(&String::from("id-1"), String::from("{\"a\":1}"), 2)
        .unwrap();
    source
        .create_board_at(String::from("Two"), String::from("id-2"), 3)
        .unwrap();
    source
        .save_board_data(&String::from("id-2"), String::from("{\"b\":[true,null]}"), 4)
        .unwrap();
    let entries = source.export_entries();
    assert_eq!(entries.len(), 2);

    let mut target = Store::new();
    let r = target.import_boards_with(
        &entries,
        &vec![0usize, 1usize],
        &vec![String::from("fresh-1"), String::from("fresh-2")],
        99,
    );
    assert_eq!(r.imported, 2);
    assert_eq!(r.skipped, 0);
    let names = board_names(&mut target);
    assert_eq!(names, vec![String::from("One"), String::from("Two")]);
    assert_eq!(
        target.load_board_data(&String::from("fresh-1")).unwrap(),
        "{\"a\":1}"
    );
    assert_eq!(
        target.load_board_data(&String::from("fresh-2")).unwrap(),
        "{\"b\":[true,null]}"
    );
    // The ids are the freshly drawn ones, not the exported ones.
    assert!(target.get_board(&String::from("id-1")).is_err());
}

#[test]
fn import_boards_draws_its_own_ids() {
    let mut store = Store::new();
    let entries = vec![entry("x", "One", None), entry("y", "Two", None)];
    let r = store.import_boards(&entries, &vec![0usize, 1usize]);
    assert_eq!(r.imported, 2);
    assert_eq!(r.skipped, 0);
    let names = board_names(&mut store);
    assert_eq!(names, vec![String::from("One"), String::from("Two")]);
}

#[test]
fn import_leaves_an_unset_active_board_unset() {
    // No board was active before the import; none is after it either, so
    // the next read resolves to the first board of the list, not to the
    // last one the import created.
    let mut store = Store::new();
    let entries = vec![entry("x", "One", None), entry("y", "Two", None)];
    let r = store.import_boards_with(
        &entries,
        &vec![0usize, 1usize],
        &vec![String::from("new-1"), String::from("new-2")],
        50,
    );
    assert_eq!(r.imported, 2);
    let ix = store.get_boards();
    assert_eq!(ix.active_board_id.as_deref(), Some("new-1"));
}

#[test]
fn import_treats_unicode_whitespace_names_as_blank() {
    let mut store = Store::new();
    // Non-breaking space and ideographic space: blank once trimmed.
    let entries = vec![entry("x", "\u{a0}\u{3000}", None)];
    let r = store.import_boards_with(
        &entries,
        &vec![0usize],
        &vec![String::from("new-1")],
        50,
    );
    assert_eq!(r.imported, 1);
    assert!(board_names(&mut store).contains(&String::from("Imported board")));
}

#[test]
fn import_copy_naming_folds_unicode_case() {
    let mut store = Store::new();
    store
        .create_board_at(String::from("\u{c9}COLE"), String::from("id-e"), 1)
        .unwrap();
    store
        .create_board_at(String::from("\u{e9}cole (copy)"), String::from("id-f"), 2)
        .unwrap();
    // The entry collides by id; its base name differs from the stored ones
    // only in case, so both taken keys are skipped.
    let entries = vec![entry("id-e", "\u{e9}cole", None)];
    let r = store.import_boards_with(
        &entries,
        &vec![0usize],
        &vec![String::from("new-1")],
        50,
    );
    assert_eq!(r.imported, 1);
    assert!(board_names(&mut store).contains(&String::from("\u{e9}cole (Copy 2)")));
}
