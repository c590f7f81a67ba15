use dupdb::alert::dupdb_notification_for;
use dupdb::index::DuplicateDatabase;
use dupdb::sync::{apply_hashed, apply_observed, dupdb_update_hashes_for, files_to_index, PathState};

fn contents(text: &str) -> PathState {
    PathState::Contents(text.as_bytes().to_vec())
}

fn sorted(mut v: Vec<String>) -> Vec<String> {
    v.sort();
    v
}

#[test]
fn hello_written_twice_then_one_deleted() {
    let h1 = seahash::hash(b"hello");
    let mut db = DuplicateDatabase::new();

    let first = dupdb_update_hashes_for(vec![("/w/a.txt".to_string(), contents("hello"))], &mut db);
    assert!(first.newly_duplicate.is_empty());
    assert!(first.dirty);
    assert!(!db.contains_duplicate_for_hash(h1));

    let second = dupdb_update_hashes_for(vec![("/w/b.txt".to_string(), contents("hello"))], &mut db);
    assert_eq!(second.newly_duplicate, vec!["/w/b.txt"]);
    assert!(db.contains_duplicate_for_hash(h1));

    let third = dupdb_update_hashes_for(vec![("/w/a.txt".to_string(), PathState::Missing)], &mut db);
    assert!(third.newly_duplicate.is_empty());
    assert!(third.dirty);
    assert!(!db.contains_duplicate_for_hash(h1));
    assert_eq!(db.paths_for(h1), vec!["/w/b.txt"]);
}

#[test]
fn identical_bytes_make_a_duplicate_pair() {
    let mut db = DuplicateDatabase::new();
    db.add(1, "/w/other.txt".to_string());
    let batch = vec![
        ("/w/x.bin".to_string(), PathState::Contents(vec![0, 1, 2, 255])),
        ("/w/y.bin".to_string(), PathState::Contents(vec![0, 1, 2, 255])),
    ];
    dupdb_update_hashes_for(batch, &mut db);
    let hash = seahash::hash(&[0, 1, 2, 255]);
    assert!(db.contains_duplicate_for_hash(hash));
    assert_eq!(sorted(db.paths_for(hash)), vec!["/w/x.bin", "/w/y.bin"]);
}

#[test]
fn the_index_holds_the_content_hash_not_the_bytes() {
    let mut db = DuplicateDatabase::new();
    dupdb_update_hashes_for(vec![("/w/a.txt".to_string(), contents("abc"))], &mut db);
    assert_eq!(db.hash_of(&"/w/a.txt".to_string()), Some(seahash::hash(b"abc")));
    assert_ne!(seahash::hash(b"abc"), seahash::hash(b"abd"));
}

#[test]
fn three_new_duplicates_come_out_as_one_list_and_one_alert() {
    let mut db = DuplicateDatabase::new();
    dupdb_update_hashes_for(vec![("/w/orig.txt".to_string(), contents("same"))], &mut db);
    let batch = vec![
        ("/w/one.txt".to_string(), contents("same")),
        ("/w/two.txt".to_string(), contents("same")),
        ("/w/three.txt".to_string(), contents("same")),
    ];
    let outcome = dupdb_update_hashes_for(batch, &mut db);
    assert_eq!(outcome.newly_duplicate, vec!["/w/one.txt", "/w/two.txt", "/w/three.txt"]);
    let alert = dupdb_notification_for(&outcome.newly_duplicate).unwrap();
    assert_eq!(
        alert.body,
        "Duplicate files were saved to the watched directory by dupdb.\n \u{2022} one.txt\n \u{2022} two.txt\n \u{2022} three.txt"
    );
    assert_eq!(alert.image_path, "/w/one.txt");
}

#[test]
fn saving_known_duplicates_again_reports_nothing() {
    let mut db = DuplicateDatabase::new();
    let batch = vec![("/w/a".to_string(), contents("x")), ("/w/b".to_string(), contents("x"))];
    let first = dupdb_update_hashes_for(batch, &mut db);
    assert_eq!(first.newly_duplicate, vec!["/w/b"]);
    let again = vec![("/w/a".to_string(), contents("x")), ("/w/b".to_string(), contents("x"))];
    let second = dupdb_update_hashes_for(again, &mut db);
    assert!(second.newly_duplicate.is_empty());
    assert!(second.dirty);
}

#[test]
fn a_path_reported_twice_in_a_batch_is_listed_once() {
    let mut db = DuplicateDatabase::new();
    db.add(1, "/w/p".to_string());
    db.add(2, "/w/q".to_string());
    let mut reported = Vec::new();
    apply_hashed(&mut db, "/w/r".to_string(), 1, &mut reported);
    apply_hashed(&mut db, "/w/r".to_string(), 2, &mut reported);
    assert_eq!(reported, vec!["/w/r"]);
    assert_eq!(db.paths_for(1), vec!["/w/p"]);
}

#[test]
fn directories_and_unreadable_files_leave_the_index_alone() {
    let mut db = DuplicateDatabase::new();
    db.add(5, "/w/d".to_string());
    let batch = vec![
        ("/w/d".to_string(), PathState::Directory),
        ("/w/e".to_string(), PathState::Unreadable),
    ];
    let outcome = dupdb_update_hashes_for(batch, &mut db);
    assert!(!outcome.dirty);
    assert!(outcome.newly_duplicate.is_empty());
    assert_eq!(db.rows(), vec![(5, "/w/d".to_string())]);
}

#[test]
fn a_path_created_and_deleted_in_one_window_is_removed() {
    let mut db = DuplicateDatabase::new();
    db.add(5, "/w/tmp".to_string());
    let mut reported = Vec::new();
    let changed = apply_observed(&mut db, "/w/tmp".to_string(), &PathState::Missing, &mut reported);
    assert!(changed);
    assert!(db.rows().is_empty());
}

#[test]
fn an_empty_batch_changes_nothing() {
    let mut db = DuplicateDatabase::new();
    let outcome = dupdb_update_hashes_for(Vec::new(), &mut db);
    assert!(!outcome.dirty);
    assert!(outcome.newly_duplicate.is_empty());
    assert!(dupdb_notification_for(&outcome.newly_duplicate).is_none());
}

#[test]
fn only_paths_with_an_extension_are_indexed() {
    let entries = vec![
        "/w/a.txt".to_string(),
        "/w/sub".to_string(),
        "/w/sub/b.png".to_string(),
        "/w/.hidden".to_string(),
    ];
    assert_eq!(files_to_index(entries), vec!["/w/a.txt", "/w/sub/b.png"]);
}
