use setting_saver::protocol::Action;
use setting_saver::protocol::Outcome;
use setting_saver::store::SettingSaver;

fn reply_of(outcome: Outcome) -> String {
    match outcome {
        Outcome::Reply(s) => s,
        Outcome::Continue => panic!("expected a reply, dispatch continued"),
        Outcome::Stop => panic!("expected a reply, dispatch stopped"),
    }
}

#[test]
fn set_then_get_dispatch() {
    let mut s = SettingSaver::new();
    let o = s.handle_action(Action::SetSettings("app".to_string(), "v1".to_string()));
    assert!(matches!(o, Outcome::Continue));
    let o = s.handle_action(Action::GetSettings("app".to_string()));
    assert_eq!(reply_of(o), "v1");
}

#[test]
fn later_set_wins_in_order() {
    let mut s = SettingSaver::new();
    s.handle_action(Action::SetSettings("a".to_string(), "1".to_string()));
    s.handle_action(Action::SetSettings("a".to_string(), "2".to_string()));
    let o = s.handle_action(Action::GetSettings("a".to_string()));
    assert_eq!(reply_of(o), "2");
}

#[test]
fn exit_stops_and_flush_survives_restart() {
    let mut s = SettingSaver::new();
    s.handle_action(Action::SetSettings("a".to_string(), "1".to_string()));
    let o = s.handle_action(Action::Exit);
    assert!(matches!(o, Outcome::Stop));
    let text = s.save_settings();
    let restarted = SettingSaver::load_settings(Some(&text)).unwrap();
    assert_eq!(restarted.get_settings("a".to_string()), "1");
}

#[test]
fn get_unknown_replies_empty() {
    let mut s = SettingSaver::new();
    let o = s.handle_action(Action::GetSettings("nobody".to_string()));
    assert_eq!(reply_of(o), "");
}

#[test]
fn full_session_scenario() {
    let mut s = SettingSaver::new();
    let o = s.handle_action(Action::SetSettings(
        "gnome".to_string(),
        "{\"theme\":\"dark\"}".to_string(),
    ));
    assert!(matches!(o, Outcome::Continue));
    let o = s.handle_action(Action::GetSettings("gnome".to_string()));
    assert_eq!(reply_of(o), "{\"theme\":\"dark\"}");
    let o = s.handle_action(Action::GetSettings("kde".to_string()));
    assert_eq!(reply_of(o), "");
    let o = s.handle_action(Action::Exit);
    assert!(matches!(o, Outcome::Stop));
    let text = s.save_settings();
    assert_eq!(text, "gnome\n{\"theme\":\"dark\"}\n");
    let lines: Vec<&str> = text.lines().collect();
    assert_eq!(lines, vec!["gnome", "{\"theme\":\"dark\"}"]);
}
