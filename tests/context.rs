use dupdb::context::{get_action, ContextWindow, NEUTRAL_IMAGE};
use dupdb::rules::SentimentAction;

#[test]
fn old_pieces_leave_the_window() {
    let mut window = ContextWindow::new();
    window.add_context(1_000, "Hello ".to_string());
    window.add_context(5_000, "World".to_string());
    assert_eq!(window.current_context(), "hello world");
    window.add_context(12_000, "!".to_string());
    assert_eq!(window.current_context(), "world!");
    window.set_context_duration(1);
    window.add_context(20_000, "Again".to_string());
    assert_eq!(window.current_context(), "again");
}

#[test]
fn early_pieces_stay_when_the_window_reaches_past_zero() {
    let mut window = ContextWindow::new();
    window.add_context(0, "A".to_string());
    window.add_context(9_999, "B".to_string());
    assert_eq!(window.current_context(), "ab");
    window.set_context_duration(u64::MAX);
    window.add_context(u64::MAX, "C".to_string());
    assert_eq!(window.current_context(), "abc");
}

#[test]
fn the_first_applying_rule_wins() {
    let actions = vec![
        SentimentAction { show: "happy.png".to_string() },
        SentimentAction { show: "sad.png".to_string() },
    ];
    assert_eq!(get_action(&vec![false, true], &actions).show, "sad.png");
    assert_eq!(get_action(&vec![true, true], &actions).show, "happy.png");
    assert_eq!(get_action(&vec![false, false], &actions).show, NEUTRAL_IMAGE);
    assert_eq!(get_action(&Vec::new(), &Vec::new()).show, "./data/neutral.png");
}
