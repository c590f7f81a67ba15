use dupdb::flaps::{SimpleFaceState, SimpleFlaps};
use dupdb::phones::PhonemeSet;

#[test]
fn a_word_becomes_alternating_mouth_states() {
    let word = PhonemeSet::from("HYUN  HH AY1 AH0 N").unwrap();
    let states: Vec<SimpleFaceState> = SimpleFaceState::from(&word).into_iter().collect();
    assert_eq!(
        states,
        vec![
            SimpleFaceState::FlapOpen(50),
            SimpleFaceState::FlapClosed(50),
            SimpleFaceState::FlapOpen(100),
        ]
    );
}

#[test]
fn the_face_plays_out_what_it_was_given_to_say() {
    let word = PhonemeSet::from("HYUN  HH AY1 AH0 N").unwrap();
    let mut face = SimpleFlaps::new();
    assert_eq!(face.display(), "0 u 0");
    face.speak(&word);
    assert_eq!(face.time_left_before_finished_speaking(), 200);
    face.tick(25);
    assert_eq!(face.state, SimpleFaceState::FlapOpen(50));
    assert_eq!(face.display(), "0 o 0");
    face.tick(30);
    assert_eq!(face.state, SimpleFaceState::FlapOpen(20));
    face.tick(30);
    assert_eq!(face.state, SimpleFaceState::FlapClosed(50));
    assert_eq!(face.display(), "0 - 0");
    assert_eq!(face.time_left_before_finished_speaking(), 150);
    face.tick(50);
    assert_eq!(face.state, SimpleFaceState::FlapClosed(0));
    face.tick(1);
    face.tick(1000);
    assert_eq!(face.state, SimpleFaceState::Neutral);
    assert_eq!(face.time_left_before_finished_speaking(), 0);
}

#[test]
fn added_time_lengthens_a_state() {
    assert_eq!(SimpleFaceState::FlapClosed(10).add_time(5), SimpleFaceState::FlapClosed(15));
    assert_eq!(SimpleFaceState::Neutral.add_time(5), SimpleFaceState::Neutral);
}
