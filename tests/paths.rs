use dupdb::paths::get_full_path;

#[test]
fn an_existing_path_resolves_to_an_absolute_one() {
    let full = get_full_path(".").unwrap();
    assert!(std::path::Path::new(&full).is_absolute());
    assert_ne!(full, ".");
}

#[test]
fn a_missing_path_is_an_error() {
    assert!(get_full_path("/no/such/dir/anywhere/at/all.txt").is_err());
}

#[test]
fn a_full_path_starts_at_the_root() {
    let full = get_full_path(".").unwrap();
    assert!(full.starts_with('/'));
}
