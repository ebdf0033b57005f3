use beatcrate::title::{char_in_class, count_while, strip_beat_a_day, strip_leading_tracknum, title_from_filename, CharClass};

#[test]
fn title_stripping_matches_js() {
    assert_eq!(title_from_filename("1.14 North Country.wav"), "North Country");
    assert_eq!(title_from_filename("01 - Chelsea Piers.wav"), "Chelsea Piers");
    assert_eq!(title_from_filename("01. Cold toes.aiff"), "Cold toes");
    assert_eq!(title_from_filename("April showers.wav"), "April showers");
    // Pure-number stems fall back to the base.
    assert_eq!(title_from_filename("12.wav"), "12");
}

#[test]
fn beat_a_day_prefix_is_stripped() {
    assert_eq!(strip_beat_a_day("1.14 North Country"), Some("North Country"));
    assert_eq!(strip_beat_a_day("12.30  x "), Some("x "));
    assert_eq!(strip_beat_a_day("12.3"), None);
    assert_eq!(strip_beat_a_day("North Country"), None);
    assert_eq!(strip_beat_a_day("1.x"), None);
}

#[test]
fn leading_track_numbers_are_stripped() {
    assert_eq!(strip_leading_tracknum("01 - Chelsea Piers"), "Chelsea Piers");
    assert_eq!(strip_leading_tracknum("01. Cold toes"), "Cold toes");
    assert_eq!(strip_leading_tracknum("April showers"), "April showers");
}

#[test]
fn counting_a_character_class() {
    let chars: Vec<char> = "0123abc".chars().collect();
    assert_eq!(count_while(&chars, 0, 10, |c: char| c.is_ascii_digit()), 4);
    assert_eq!(count_while(&chars, 0, 2, |c: char| c.is_ascii_digit()), 2);
    assert_eq!(count_while(&chars, 4, 10, |c: char| c.is_ascii_digit()), 0);
    assert_eq!(count_while(&chars, 7, 10, |c: char| c.is_ascii_digit()), 0);
    assert_eq!(count_while(&chars, 50, 10, |c: char| c.is_ascii_digit()), 0);
    let seps: Vec<char> = "01 -_. x".chars().collect();
    assert_eq!(count_while(&seps, 2, usize::MAX, |c: char| char_in_class(c, CharClass::TrackSeparator)), 5);
    assert_eq!(count_while(&seps, 0, usize::MAX, |c: char| char_in_class(c, CharClass::Digit)), 2);
}

#[test]
fn blank_titles_fall_back_to_the_stem() {
    assert_eq!(title_from_filename("01 - .wav"), "01 - ");
    assert_eq!(title_from_filename("noext"), "noext");
}
