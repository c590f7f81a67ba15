use dupdb::phones::{dictionary_entries, LexicalStress, Phone, Phoneme, PhonemeSet};

#[test]
fn phone_parses_properly() {
    let maybe_aa = Phone::from("AA");
    assert!(maybe_aa.is_some());
    assert_eq!(Phone::AA, maybe_aa.unwrap());
}

#[test]
fn phone_returns_none_for_bad_input() {
    let maybe_aa = Phone::from("");
    assert!(maybe_aa.is_none());
}

#[test]
fn phoneme_parses_4_types_of_valid_input() {
    let cases = vec![
        Phoneme::from("AA"),
        Phoneme::from("AA0"),
        Phoneme::from("AA1"),
        Phoneme::from("AA2"),
    ];

    for case in &cases {
        assert!(case.is_some());
        assert_eq!(case.unwrap().phone, Phone::AA);
    }

    assert_eq!(LexicalStress::NoStress, cases[0].unwrap().stress);
    assert_eq!(LexicalStress::NoStress, cases[1].unwrap().stress);
    assert_eq!(LexicalStress::Primary, cases[2].unwrap().stress);
    assert_eq!(LexicalStress::Secondary, cases[3].unwrap().stress);
}

#[test]
fn phoneme_fails_toparse_invalid_input() {
    assert_eq!(None, Phoneme::from("FOOBAR"));
    assert_eq!(None, Phoneme::from("0AA"));
    assert_eq!(None, Phoneme::from(" AA "));
}

#[test]
fn phoneme_set_parses_line_properly() {
    let example_a = PhonemeSet::from("HYUN  HH AY1 AH0 N");
    assert!(example_a.is_some());
    let example_a = example_a.unwrap();

    assert_eq!(example_a.word, "HYUN");
    assert_eq!(example_a.set[0].phone, Phone::HH);
    assert_eq!(example_a.set[0].stress, LexicalStress::NoStress);

    assert_eq!(example_a.set[1].phone, Phone::AY);
    assert_eq!(example_a.set[1].stress, LexicalStress::Primary);

    assert_eq!(example_a.set[2].phone, Phone::AH);
    assert_eq!(example_a.set[2].stress, LexicalStress::NoStress);

    assert_eq!(example_a.set[3].phone, Phone::N);
    assert_eq!(example_a.set[3].stress, LexicalStress::NoStress);
}

#[test]
fn every_phone_reads_back_from_its_name() {
    for (name, phone) in [("ZH", Phone::ZH), ("B", Phone::B), ("NG", Phone::NG), ("UW", Phone::UW)] {
        assert_eq!(Phone::from(name), Some(phone));
    }
    assert_eq!(Phone::from("aa"), None);
    assert_eq!(Phone::from("AAA"), None);
}

#[test]
fn vowels_are_counted() {
    let entry = PhonemeSet::from("HYUN  HH AY1 AH0 N").unwrap();
    assert_eq!(entry.vowel_count(), 2);
    assert!(Phone::ER.contains_vowel());
    assert!(!Phone::TH.contains_vowel());
}

#[test]
fn a_line_without_two_spaces_is_no_entry() {
    assert!(PhonemeSet::from("HYUN HH AY1").is_none());
    assert!(PhonemeSet::from("").is_none());
    let bare = PhonemeSet::from("A  ").unwrap();
    assert_eq!(bare.word, "A");
    assert!(bare.set.is_empty());
}

#[test]
fn a_dictionary_file_is_read_line_by_line() {
    let mut file: Vec<u8> = b";;; comment  AA\nHELLO  HH AH0 L OW1\r\nNOPE\n".to_vec();
    file.extend_from_slice(b"CAF\xc9  K AE1 F EY0\n");
    let entries = dictionary_entries(&file);
    assert_eq!(entries.len(), 2);
    assert_eq!(entries[0].word, "HELLO");
    assert_eq!(entries[0].set.len(), 4);
    assert_eq!(entries[0].set[3].phone, Phone::OW);
    assert_eq!(entries[0].set[3].stress, LexicalStress::Primary);
    assert_eq!(entries[1].word, "CAF\u{c9}");
    assert_eq!(entries[1].vowel_count(), 2);
}
