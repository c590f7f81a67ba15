use dupdb::index::DuplicateDatabase;

#[test]
fn adding_a_dupe_can_be_detected() {
    let mut dupdb = DuplicateDatabase::new();
    let hash = 12456;
    let fake_path = "the_file_path";
    let db_has_dupe = dupdb.contains_duplicate_for_hash(hash);
    assert_eq!(db_has_dupe, false);

    dupdb.add(hash, fake_path.to_string());

    let db_has_dupe = dupdb.contains_duplicate_for_hash(hash);
    assert_eq!(db_has_dupe, false);

    let fake_path = "the_dup_file_path";
    dupdb.add(hash, fake_path.to_string());
    let db_has_dupe = dupdb.contains_duplicate_for_hash(hash);
    assert_eq!(db_has_dupe, true);
}

#[test]
fn removing_a_file_removes_detected_dupes() {
    let mut dupdb = DuplicateDatabase::new();
    let hash = 12456;
    let fake_path = "the_file_path";
    let dup_path = "the_dup_path";

    dupdb.add(hash, fake_path.to_string());
    dupdb.add(hash, dup_path.to_string());
    let db_has_dupe = dupdb.contains_duplicate_for_hash(hash);
    assert_eq!(db_has_dupe, true);

    dupdb.remove(dup_path.to_string());
    let db_has_dupe = dupdb.contains_duplicate_for_hash(hash);
    assert_eq!(db_has_dupe, false);
}

fn sorted(mut v: Vec<String>) -> Vec<String> {
    v.sort();
    v
}

#[test]
fn paths_for_lists_each_holder_once() {
    let mut db = DuplicateDatabase::new();
    db.add(7, "/w/a.txt".to_string());
    db.add(7, "/w/b.txt".to_string());
    db.add(8, "/w/c.txt".to_string());
    assert_eq!(sorted(db.paths_for(7)), vec!["/w/a.txt", "/w/b.txt"]);
    assert_eq!(db.paths_for(8), vec!["/w/c.txt"]);
    assert!(db.paths_for(9).is_empty());
}

#[test]
fn removing_one_of_a_pair_leaves_the_other_alone() {
    let mut db = DuplicateDatabase::new();
    db.add(7, "/w/a.txt".to_string());
    db.add(7, "/w/b.txt".to_string());
    db.remove("/w/a.txt".to_string());
    assert!(!db.contains_duplicate_for_hash(7));
    assert_eq!(db.paths_for(7), vec!["/w/b.txt"]);
}

#[test]
fn removing_an_unknown_path_changes_nothing() {
    let mut db = DuplicateDatabase::new();
    db.add(7, "/w/a.txt".to_string());
    db.add(7, "/w/b.txt".to_string());
    db.remove("/w/never.txt".to_string());
    assert!(db.contains_duplicate_for_hash(7));
    assert_eq!(db.rows().len(), 2);
}

#[test]
fn adding_the_same_pair_twice_is_adding_it_once() {
    let mut once = DuplicateDatabase::new();
    once.add(7, "/w/a.txt".to_string());
    let mut twice = DuplicateDatabase::new();
    twice.add(7, "/w/a.txt".to_string());
    twice.add(7, "/w/a.txt".to_string());
    assert_eq!(once.rows(), twice.rows());
    assert!(!twice.contains_duplicate_for_hash(7));
    assert_eq!(twice.paths_for(7), vec!["/w/a.txt"]);
}

#[test]
fn a_changed_file_holds_only_its_new_hash() {
    let mut db = DuplicateDatabase::new();
    db.add(1, "/w/p.txt".to_string());
    db.add(1, "/w/q.txt".to_string());
    db.add(2, "/w/p.txt".to_string());
    assert_eq!(db.hash_of(&"/w/p.txt".to_string()), Some(2));
    assert_eq!(db.paths_for(1), vec!["/w/q.txt"]);
    assert_eq!(db.paths_for(2), vec!["/w/p.txt"]);
    assert!(!db.contains_duplicate_for_hash(1));
    assert_eq!(db.rows().len(), 2);
}

#[test]
fn reset_forgets_everything() {
    let mut db = DuplicateDatabase::new();
    db.add(7, "/w/a.txt".to_string());
    db.add(7, "/w/b.txt".to_string());
    db.reset();
    assert!(!db.contains_duplicate_for_hash(7));
    assert!(db.rows().is_empty());
    assert_eq!(db.hash_of(&"/w/a.txt".to_string()), None);
}

#[test]
fn debug_key_shows_the_paths_sharing_a_files_hash() {
    let mut db = DuplicateDatabase::new();
    db.add(7, "/w/a.txt".to_string());
    db.add(7, "/w/b.txt".to_string());
    db.add(8, "/w/c.txt".to_string());
    let (hash, paths) = db.debug_key(&"/w/b.txt".to_string()).unwrap();
    assert_eq!(hash, 7);
    assert_eq!(sorted(paths), vec!["/w/a.txt", "/w/b.txt"]);
    assert!(db.debug_key(&"/w/none.txt".to_string()).is_none());
}

#[test]
fn rows_hold_one_row_per_path() {
    let mut db = DuplicateDatabase::new();
    db.add(7, "/w/a.txt".to_string());
    db.add(9, "/w/b.txt".to_string());
    db.add(8, "/w/a.txt".to_string());
    let mut rows = db.rows();
    rows.sort();
    assert_eq!(rows, vec![(8, "/w/a.txt".to_string()), (9, "/w/b.txt".to_string())]);
}

#[test]
fn three_holders_are_one_duplicate_set() {
    let mut db = DuplicateDatabase::new();
    for p in ["/w/1", "/w/2", "/w/3"] {
        db.add(u64::MAX, p.to_string());
    }
    assert!(db.contains_duplicate_for_hash(u64::MAX));
    db.remove("/w/1".to_string());
    assert!(db.contains_duplicate_for_hash(u64::MAX));
    db.remove("/w/2".to_string());
    assert!(!db.contains_duplicate_for_hash(u64::MAX));
}

#[test]
fn duplicates_list_every_shared_content() {
    let mut db = DuplicateDatabase::new();
    db.add(7, "/w/a".to_string());
    db.add(7, "/w/b".to_string());
    db.add(8, "/w/c".to_string());
    db.add(9, "/w/d".to_string());
    db.add(9, "/w/e".to_string());
    db.add(9, "/w/f".to_string());
    let mut rows = db.duplicates();
    rows.sort();
    let expected: Vec<(u64, String)> = vec![(7, "/w/a"), (7, "/w/b"), (9, "/w/d"), (9, "/w/e"), (9, "/w/f")]
        .into_iter()
        .map(|(h, p)| (h, p.to_string()))
        .collect();
    assert_eq!(rows, expected);
    db.remove("/w/a".to_string());
    assert_eq!(db.duplicates().len(), 3);
}
