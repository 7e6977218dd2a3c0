use lms_core::item::LiItem;
use lms_core::library::Library;
use lms_core::LibError;

fn item(id: u32, title: &str, format: &str, copies: u32, avail: u32) -> LiItem {
    LiItem {
        title: title.to_string(),
        author: None,
        year: 1999,
        edition: "1st".to_string(),
        desc: "a test row".to_string(),
        format: format.to_string(),
        id,
        copies,
        avail_copies: avail,
        ratings: 4,
    }
}

#[test]
fn load_counts_valid_rows() {
    let mut lib = Library::new();
    let rows = vec![
        item(1, "Dune", "book", 3, 2),
        item(2, "Alien", "movie", 1, 1),
    ];
    assert_eq!(lib.load_catalog(rows), Ok(2));
    assert!(lib.lookup(1).is_some());
    assert!(lib.lookup(2).is_some());
}

#[test]
fn load_skips_rows_with_excess_available_copies() {
    let mut lib = Library::new();
    let rows = vec![
        item(1, "Dune", "book", 3, 2),
        item(2, "Broken", "book", 2, 5),
        item(3, "Alien", "movie", 1, 1),
    ];
    assert_eq!(lib.load_catalog(rows), Ok(2));
    assert!(lib.lookup(1).is_some());
    assert!(lib.lookup(2).is_none());
    assert!(lib.lookup(3).is_some());
    for it in lib.query_catalog() {
        assert!(it.avail_copies <= it.copies);
    }
}

#[test]
fn load_fails_when_no_row_is_valid() {
    let mut lib = Library::new();
    let rows = vec![item(1, "Broken", "book", 0, 1), item(2, "Worse", "book", 2, 9)];
    assert_eq!(lib.load_catalog(rows), Err(LibError::LoadFailed));
    assert!(lib.query_catalog().is_empty());
}

#[test]
fn load_fails_on_empty_input() {
    let mut lib = Library::new();
    assert_eq!(lib.load_catalog(Vec::new()), Err(LibError::LoadFailed));
}

#[test]
fn load_duplicate_id_last_row_wins() {
    let mut lib = Library::new();
    let rows = vec![
        item(7, "First printing", "book", 1, 1),
        item(7, "Second printing", "book", 4, 3),
    ];
    assert_eq!(lib.load_catalog(rows), Ok(2));
    let found = lib.lookup(7).unwrap();
    assert_eq!(found.title, "Second printing");
    assert_eq!(found.copies, 4);
    assert_eq!(found.avail_copies, 3);
}

#[test]
fn lookup_unknown_id_is_none() {
    let mut lib = Library::new();
    lib.load_catalog(vec![item(1, "Dune", "book", 1, 1)]).unwrap();
    assert!(lib.lookup(99).is_none());
}

#[test]
fn query_catalog_lists_every_item_once() {
    let mut lib = Library::new();
    lib.load_catalog(vec![
        item(1, "Dune", "book", 3, 2),
        item(2, "Alien", "movie", 1, 1),
        item(3, "Atlas", "map", 2, 2),
    ])
    .unwrap();
    let mut ids: Vec<u32> = lib.query_catalog().iter().map(|it| it.id).collect();
    ids.sort();
    assert_eq!(ids, vec![1, 2, 3]);
}
