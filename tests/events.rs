use dupdb::events::{coalesce_events, drop_directories, ChangeKind, RawEvent};

fn event(kind: ChangeKind, paths: &[&str]) -> RawEvent {
    RawEvent { kind, paths: paths.iter().map(|p| p.to_string()).collect() }
}

#[test]
fn many_events_for_one_path_give_one_entry() {
    let events = vec![
        event(ChangeKind::Create, &["/w/a.txt"]),
        event(ChangeKind::Modify, &["/w/a.txt"]),
        event(ChangeKind::Modify, &["/w/a.txt"]),
        event(ChangeKind::Remove, &["/w/a.txt"]),
        event(ChangeKind::Any, &["/w/a.txt"]),
    ];
    assert_eq!(coalesce_events(&events), vec!["/w/a.txt"]);
}

#[test]
fn access_and_other_events_are_dropped() {
    let events = vec![
        event(ChangeKind::Access, &["/w/read.txt"]),
        event(ChangeKind::Other, &["/w/other.txt"]),
        event(ChangeKind::Modify, &["/w/b.txt", "/w/c.txt"]),
        event(ChangeKind::Create, &["/w/c.txt"]),
    ];
    assert_eq!(coalesce_events(&events), vec!["/w/b.txt", "/w/c.txt"]);
}

#[test]
fn no_events_give_an_empty_batch() {
    assert!(coalesce_events(&Vec::new()).is_empty());
}

#[test]
fn directories_leave_the_batch() {
    let events = vec![event(ChangeKind::Create, &["/w/dir", "/w/a.txt"]), event(ChangeKind::Modify, &["/w/a.txt", "/w/gone"])];
    let batch = coalesce_events(&events);
    assert_eq!(batch, vec!["/w/dir", "/w/a.txt", "/w/gone"]);
    let is_dir = vec![true, false, false];
    assert_eq!(drop_directories(batch, &is_dir), vec!["/w/a.txt", "/w/gone"]);
}
