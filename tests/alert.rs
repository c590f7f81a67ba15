use dupdb::alert::{dupdb_notification_for, ALERT_SUMMARY};

#[test]
fn the_alert_lists_file_names_not_paths() {
    let paths = vec!["/home/u/photos/cat.png".to_string(), "/home/u/dog.jpg".to_string()];
    let alert = dupdb_notification_for(&paths).unwrap();
    assert_eq!(alert.summary, ALERT_SUMMARY);
    assert_eq!(alert.summary, "Duplicate Files detected");
    assert_eq!(
        alert.body,
        "Duplicate files were saved to the watched directory by dupdb.\n \u{2022} cat.png\n \u{2022} dog.jpg"
    );
    assert_eq!(alert.image_path, "/home/u/photos/cat.png");
}

#[test]
fn a_path_without_a_file_name_is_not_listed() {
    let paths = vec!["/w/..".to_string(), "/w/z.txt".to_string()];
    let alert = dupdb_notification_for(&paths).unwrap();
    assert_eq!(alert.body, "Duplicate files were saved to the watched directory by dupdb.\n \u{2022} z.txt");
    assert_eq!(alert.image_path, "/w/..");
}

#[test]
fn no_paths_no_alert() {
    assert!(dupdb_notification_for(&Vec::new()).is_none());
}
