use beatcrate::scan::{has_audio_ext, name_le_exec, path_join};
use beatcrate::text::{eq_ignore_ascii_case, extension, file_name, file_stem, parse_i64, trim};

#[test]
fn integers_parse_like_str_parse() {
    assert_eq!(parse_i64("42"), Some(42));
    assert_eq!(parse_i64("+7"), Some(7));
    assert_eq!(parse_i64("-9223372036854775808"), Some(i64::MIN));
    assert_eq!(parse_i64("9223372036854775807"), Some(i64::MAX));
    assert_eq!(parse_i64("9223372036854775808"), None);
    assert_eq!(parse_i64("99999999999999999999999"), None);
    assert_eq!(parse_i64(""), None);
    assert_eq!(parse_i64("-"), None);
    assert_eq!(parse_i64(" 1"), None);
    assert_eq!(parse_i64("1.5"), None);
}

#[test]
fn path_parts() {
    assert_eq!(file_name("/a/b/c.wav"), Some("c.wav".to_string()));
    assert_eq!(file_name("/a/b/"), Some("b".to_string()));
    assert_eq!(file_name("/a/.."), None);
    assert_eq!(file_stem("/a/b.tar.gz"), Some("b.tar".to_string()));
    assert_eq!(file_stem(".hidden"), Some(".hidden".to_string()));
    assert_eq!(extension("/a/b.tar.gz"), Some("gz".to_string()));
    assert_eq!(extension(".hidden"), None);
    assert_eq!(extension("noext"), None);
    assert_eq!(path_join("/a", "b"), "/a/b");
    assert_eq!(path_join("/a/", "b"), "/a/b");
    assert_eq!(path_join("/a", "/b"), "/b");
}

#[test]
fn text_helpers() {
    assert_eq!(trim("\t a b \n"), "a b");
    assert!(eq_ignore_ascii_case("ALS", "als"));
    assert!(!eq_ignore_ascii_case("alsx", "als"));
    assert!(has_audio_ext("beat.wav"));
    assert!(has_audio_ext("beat.final.flac"));
    assert!(!has_audio_ext("beat.wav.asd"));
    assert!(!has_audio_ext("wav"));
    assert!(name_le_exec(&"A.wav".to_string(), &"b.wav".to_string()));
    assert!(!name_le_exec(&"b".to_string(), &"a".to_string()));
    assert!(name_le_exec(&"ab".to_string(), &"ab".to_string()));
}

#[test]
fn written_numbers_read_back() {
    for n in [0i64, 7, -7, 1_000_000, i64::MAX, i64::MIN] {
        let mut s = String::new();
        beatcrate::commands::append_int(&mut s, n);
        assert_eq!(parse_i64(&s), Some(n));
    }
}
