use dupdb::scan::RecursiveDirIterator;

#[test]
fn entries_come_breadth_first() {
    let mut scan = RecursiveDirIterator::new(vec!["Cargo.toml".to_string(), "src".to_string()]);
    let mut seen = Vec::new();
    while let Some(entry) = scan.next_entry() {
        if entry == "src" {
            scan.push_entries(vec!["src/lib.rs".to_string(), "src/main.rs".to_string()]);
        }
        seen.push(entry);
    }
    assert_eq!(seen, vec!["Cargo.toml", "src", "src/lib.rs", "src/main.rs"]);
    assert!(scan.is_done());
}

#[test]
fn a_root_without_entries_gives_an_empty_scan() {
    let mut scan = RecursiveDirIterator::new(Vec::new());
    assert!(scan.is_done());
    assert!(scan.next_entry().is_none());
}

#[test]
fn can_iterate_dir() {
    let mut iter = RecursiveDirIterator::new(vec!["./Cargo.toml".to_string(), "./src".to_string()]);
    let mut entries = Vec::new();
    while let Some(entry) = iter.next_entry() {
        if entry == "./src" {
            iter.push_entries(vec!["./src/main.rs".to_string(), "./src/lib.rs".to_string()]);
        }
        entries.push(entry);
    }
    let mut rust_files_in_nav_update_dir: Vec<String> =
        entries.into_iter().filter(|entry| entry.ends_with(".rs")).collect();
    rust_files_in_nav_update_dir.sort();

    assert_eq!("lib.rs", rust_files_in_nav_update_dir[0].rsplit('/').next().unwrap());
    assert_eq!("main.rs", rust_files_in_nav_update_dir[1].rsplit('/').next().unwrap());
}
