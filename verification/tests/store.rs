use setting_saver::store::LoadError;
use setting_saver::store::SettingSaver;

#[test]
fn get_default_empty() {
    let s = SettingSaver::new();
    assert_eq!(s.get_settings("unknown".to_string()), "");
}

#[test]
fn set_then_get_same_store() {
    let mut s = SettingSaver::new();
    s.set_settings("app".to_string(), "v1".to_string());
    assert_eq!(s.get_settings("app".to_string()), "v1");
}

#[test]
fn set_overwrites() {
    let mut s = SettingSaver::new();
    s.set_settings("app".to_string(), "v1".to_string());
    s.set_settings("app".to_string(), "v2".to_string());
    assert_eq!(s.get_settings("app".to_string()), "v2");
}

#[test]
fn round_trip_empty() {
    let s = SettingSaver::new();
    let text = s.save_settings();
    assert_eq!(text, "");
    let loaded = SettingSaver::read_settings(&text).unwrap();
    assert_eq!(loaded.get_settings("any".to_string()), "");
}

#[test]
fn round_trip_entries() {
    let mut s = SettingSaver::new();
    s.set_settings("gnome".to_string(), "dark".to_string());
    s.set_settings("kde".to_string(), "light".to_string());
    s.set_settings("xfce".to_string(), "plain".to_string());
    let text = s.save_settings();
    let loaded = SettingSaver::read_settings(&text).unwrap();
    assert_eq!(loaded.get_settings("gnome".to_string()), "dark");
    assert_eq!(loaded.get_settings("kde".to_string()), "light");
    assert_eq!(loaded.get_settings("xfce".to_string()), "plain");
    assert_eq!(loaded.get_settings("mate".to_string()), "");
}

#[test]
fn save_twice_identical() {
    let mut s = SettingSaver::new();
    s.set_settings("a".to_string(), "1".to_string());
    s.set_settings("b".to_string(), "2".to_string());
    let first = s.save_settings();
    let second = s.save_settings();
    assert_eq!(first, second);
}

#[test]
fn missing_file_is_empty_store() {
    let r = SettingSaver::load_settings(None);
    let s = r.unwrap();
    assert_eq!(s.get_settings("unknown".to_string()), "");
}

#[test]
fn present_file_is_parsed() {
    let r = SettingSaver::load_settings(Some("a\n1\n"));
    let s = r.unwrap();
    assert_eq!(s.get_settings("a".to_string()), "1");
}

#[test]
fn odd_line_count_is_parse_error() {
    let r = SettingSaver::read_settings("a\n1\nb\n");
    assert_eq!(r.unwrap_err(), LoadError::ParseError);
}

#[test]
fn single_line_is_parse_error() {
    let r = SettingSaver::load_settings(Some("key-without-value\n"));
    assert_eq!(r.unwrap_err(), LoadError::ParseError);
}

#[test]
fn final_line_without_terminator_counts() {
    let s = SettingSaver::read_settings("a\n1").unwrap();
    assert_eq!(s.get_settings("a".to_string()), "1");
}

#[test]
fn duplicate_key_later_entry_wins() {
    let s = SettingSaver::read_settings("a\n1\na\n2\n").unwrap();
    assert_eq!(s.get_settings("a".to_string()), "2");
}

#[test]
fn saved_text_is_alternating_lines() {
    let mut s = SettingSaver::new();
    s.set_settings("gnome".to_string(), "dark".to_string());
    assert_eq!(s.save_settings(), "gnome\ndark\n");
}
