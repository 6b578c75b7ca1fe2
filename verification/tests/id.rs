use qfocus::id::Id;

#[test]
fn writes_twenty_six_characters_and_reads_them_back() {
    let id = Id::new(1_758_124_800_000, 0x0123_4567_89AB_CDEF_0123);
    let text = id.to_string();
    assert_eq!(text.len(), 26);
    assert_eq!(Id::parse(&text), Some(id));
}

#[test]
fn keeps_the_millisecond_stamp() {
    let id = Id::new(1_758_124_800_000, 7);
    assert_eq!(id.millis(), 1_758_124_800_000);
}

#[test]
fn sorts_by_time_then_randomness() {
    let earlier = Id::new(1_000, u128::MAX);
    let later = Id::new(1_001, 0);
    assert!(earlier < later);
}

#[test]
fn rejects_wrong_length_and_unknown_letters() {
    assert_eq!(Id::parse("TOOSHORT"), None);
    assert_eq!(Id::parse("UUUUUUUUUUUUUUUUUUUUUUUUUU"), None);
}

#[test]
fn accepts_lowercase_and_crockford_aliases() {
    let id = Id::new(1_758_124_800_000, 42);
    let text = id.to_string().to_lowercase();
    assert_eq!(Id::parse(&text), Some(id));
    assert_eq!(Id::parse("0000000000000000000000000i"), Id::parse("00000000000000000000000001"));
}

#[test]
fn generated_ids_differ() {
    let first = Id::generate(1_758_124_800_000);
    let second = Id::generate(1_758_124_800_000);
    assert_ne!(first, second);
}

#[test]
fn the_text_of_an_identifier_reads_back_as_it() {
    for (millis, random) in [(0, 0), (1, 1), (1_758_124_800_000, u128::MAX), ((1u64 << 47) - 1, 12345)] {
        let id = Id::new(millis, random);
        assert_eq!(Id::parse(&id.to_string()), Some(id));
    }
}

#[test]
fn an_identifier_made_later_sorts_later() {
    let first = Id::new(1_758_124_800_000, u128::MAX);
    let second = Id::new(1_758_124_800_001, 0);
    assert!(first < second);
    assert!(first.millis() < second.millis());
}

#[test]
fn the_stamp_keeps_only_its_lowest_forty_eight_bits() {
    let id = Id::new(u64::MAX, 0);
    assert_eq!(id.millis(), (1u64 << 48) - 1);
}

#[test]
fn the_first_character_above_three_is_refused() {
    assert_eq!(Id::parse("40000000000000000000000000"), None);
    assert!(Id::parse("30000000000000000000000000").is_some());
}
