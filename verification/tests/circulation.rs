use lms_core::item::LiItem;
use lms_core::library::Library;
use lms_core::LibError;

const MONTH_1: i64 = 2_678_400; // one month after the epoch: 1970-02-01
const MONTH_2: i64 = 5_097_600; // two months after the epoch: 1970-03-01

fn item(id: u32, title: &str, format: &str, copies: u32, avail: u32) -> LiItem {
    LiItem {
        title: title.to_string(),
        author: Some("A. Author".to_string()),
        year: 1999,
        edition: "1st".to_string(),
        desc: "a test row".to_string(),
        format: format.to_string(),
        id,
        copies,
        avail_copies: avail,
        ratings: 4,
    }
}

#[test]
fn issue_to_new_member_and_return_round_trip() {
    let mut lib = Library::new();
    lib.load_catalog(vec![item(7, "Dune", "book", 2, 2)]).unwrap();

    let member_id = lib.issue_to_new_member(7, 0).unwrap();
    assert_eq!(member_id, 1);
    assert_eq!(lib.lookup(7).unwrap().avail_copies, 1);
    let record = lib.member_record(1, 7).unwrap();
    assert_eq!(record.title, "Dune");
    assert_eq!(record.id, 7);
    assert_eq!(record.renew_factor, 1);
    assert_eq!(record.due_date, MONTH_1);
    assert!(!record.notice);

    let returned = lib.book_return(7, 1).unwrap();
    assert_eq!(returned.avail_copies, 2);
    assert_eq!(returned.title, "Dune");
    assert!(lib.member_record(1, 7).is_none());
    assert_eq!(lib.lookup(7).unwrap().avail_copies, 2);
}

#[test]
fn issue_to_existing_member() {
    let mut lib = Library::new();
    lib.load_catalog(vec![
        item(1, "Dune", "book", 2, 2),
        item(2, "Alien", "movie", 1, 1),
    ])
    .unwrap();
    let member_id = lib.issue_to_new_member(1, 0).unwrap();
    assert_eq!(lib.issue_to_member(2, member_id, 0), Ok(()));
    assert_eq!(lib.lookup(2).unwrap().avail_copies, 0);
    let record = lib.member_record(member_id, 2).unwrap();
    assert_eq!(record.renew_factor, 2);
    assert_eq!(record.due_date, MONTH_2);
}

#[test]
fn issue_unknown_item_changes_nothing() {
    let mut lib = Library::new();
    lib.load_catalog(vec![item(1, "Dune", "book", 2, 2)]).unwrap();
    assert_eq!(lib.issue_to_new_member(99, 0), Err(LibError::ItemNotFound));
    assert_eq!(lib.lookup(1).unwrap().avail_copies, 2);
    assert!(lib.query_members().is_empty());
}

#[test]
fn issue_unknown_member_changes_nothing() {
    let mut lib = Library::new();
    lib.load_catalog(vec![item(1, "Dune", "book", 2, 2)]).unwrap();
    assert_eq!(lib.issue_to_member(1, 5, 0), Err(LibError::MemberNotFound));
    assert_eq!(lib.lookup(1).unwrap().avail_copies, 2);
}

#[test]
fn issue_without_available_copies_fails_and_keeps_state() {
    let mut lib = Library::new();
    lib.load_catalog(vec![item(1, "Dune", "book", 3, 0)]).unwrap();
    assert_eq!(lib.issue_to_new_member(1, 0), Err(LibError::NoCopiesAvailable));
    assert_eq!(lib.lookup(1).unwrap().avail_copies, 0);
    assert!(lib.query_members().is_empty());

    let mut lib2 = Library::new();
    lib2.load_catalog(vec![item(1, "Dune", "book", 1, 1)]).unwrap();
    let first = lib2.issue_to_new_member(1, 0).unwrap();
    assert_eq!(lib2.issue_to_new_member(1, 0), Err(LibError::NoCopiesAvailable));
    assert_eq!(lib2.lookup(1).unwrap().avail_copies, 0);
    assert!(lib2.member_record(first, 1).is_some());
}

#[test]
fn reissuing_a_held_item_is_rejected() {
    let mut lib = Library::new();
    lib.load_catalog(vec![item(1, "Dune", "book", 3, 3)]).unwrap();
    let member_id = lib.issue_to_new_member(1, 0).unwrap();
    assert_eq!(lib.issue_to_member(1, member_id, 0), Err(LibError::AlreadyCheckedOut));
    assert_eq!(lib.lookup(1).unwrap().avail_copies, 2);
}

#[test]
fn return_by_unknown_member_fails() {
    let mut lib = Library::new();
    lib.load_catalog(vec![item(1, "Dune", "book", 2, 2)]).unwrap();
    assert_eq!(lib.book_return(1, 3).err(), Some(LibError::MemberNotFound));
    assert_eq!(lib.lookup(1).unwrap().avail_copies, 2);
}

#[test]
fn return_of_item_not_checked_out_keeps_available_copies() {
    let mut lib = Library::new();
    lib.load_catalog(vec![
        item(1, "Dune", "book", 2, 2),
        item(2, "Alien", "movie", 1, 1),
    ])
    .unwrap();
    let member_id = lib.issue_to_new_member(1, 0).unwrap();
    assert_eq!(lib.book_return(2, member_id).err(), Some(LibError::ItemNotCheckedOut));
    assert_eq!(lib.lookup(2).unwrap().avail_copies, 1);
    assert_eq!(lib.lookup(1).unwrap().avail_copies, 1);
}

#[test]
fn auto_created_member_ids_increase_without_collision() {
    let mut lib = Library::new();
    lib.load_catalog(vec![item(1, "Dune", "book", 5, 5)]).unwrap();
    let a = lib.issue_to_new_member(1, 0).unwrap();
    let b = lib.issue_to_new_member(1, 0).unwrap();
    let c = lib.issue_to_new_member(1, 0).unwrap();
    assert_eq!((a, b, c), (1, 2, 3));
}

#[test]
fn query_members_lists_checkouts() {
    let mut lib = Library::new();
    lib.load_catalog(vec![
        item(1, "Dune", "book", 2, 2),
        item(2, "Alien", "movie", 1, 1),
    ])
    .unwrap();
    let member_id = lib.issue_to_new_member(1, 0).unwrap();
    lib.issue_to_member(2, member_id, 0).unwrap();
    let members = lib.query_members();
    assert_eq!(members.len(), 1);
    let (id, mut rows) = members.into_iter().next().unwrap();
    assert_eq!(id, member_id);
    rows.sort();
    assert_eq!(rows, vec![(1, "Dune".to_string()), (2, "Alien".to_string())]);
}

#[test]
fn error_messages_match_their_kinds() {
    assert_eq!(LibError::ItemNotFound.message(), "Invalid Item ID!");
    assert_eq!(LibError::MemberNotFound.message(), "Invalid Member ID!");
    assert_eq!(LibError::NoCopiesAvailable.message(), "No available copies left!");
    assert_eq!(
        LibError::ItemNotCheckedOut.message(),
        "This item was not checked out by this member"
    );
    assert_eq!(
        LibError::AlreadyCheckedOut.message(),
        "This item is already checked out by this member"
    );
    assert_eq!(LibError::InvalidInput.message(), "Not a valid numeric ID");
    assert_eq!(LibError::LoadFailed.message(), "No items loaded from the catalog source");
}
