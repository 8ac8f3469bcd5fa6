use unforget::engine::{App, AppEvent};
use unforget::history::load_history;

fn strings(words: &[&str]) -> Vec<String> {
    words.iter().map(|w| w.to_string()).collect()
}

fn chars(s: &str) -> Vec<char> {
    s.chars().collect()
}

#[test]
fn empty_query_keeps_every_index() {
    let h = strings(&["ls", "cd /tmp", "make"]);
    let f = App::filter_commands(&h, &chars(""));
    assert_eq!(f, vec![0, 1, 2]);
}

#[test]
fn filter_is_case_insensitive_both_ways() {
    let h = strings(&["Make Build", "ls"]);
    assert_eq!(App::filter_commands(&h, &chars("make")), vec![0]);
    assert_eq!(App::filter_commands(&h, &chars("LS")), vec![1]);
}

#[test]
fn filter_matches_substring_anywhere() {
    let h = strings(&["git status", "ls", "echo statue"]);
    assert_eq!(App::filter_commands(&h, &chars("stat")), vec![0, 2]);
}

#[test]
fn filter_without_match_is_empty() {
    let h = strings(&["ls", "cd"]);
    assert_eq!(App::filter_commands(&h, &chars("xyz")), Vec::<usize>::new());
}

#[test]
fn filter_handles_non_ascii_case_folding() {
    let h = strings(&["echo LÖWE", "ls"]);
    assert_eq!(App::filter_commands(&h, &chars("löwe")), vec![0]);
}

#[test]
fn selection_wraps_forward_and_backward() {
    let h = strings(&["a", "b", "c"]);
    let mut app = App::new(h, Vec::new());
    assert_eq!(app.selected, Some(0));
    app.handle_event(AppEvent::MoveDown);
    assert_eq!(app.selected, Some(1));
    app.handle_event(AppEvent::MoveDown);
    assert_eq!(app.selected, Some(2));
    app.handle_event(AppEvent::MoveDown);
    assert_eq!(app.selected, Some(0));
    app.handle_event(AppEvent::MoveUp);
    assert_eq!(app.selected, Some(2));
}

#[test]
fn navigation_on_empty_view_is_noop() {
    let mut app = App::new(Vec::new(), Vec::new());
    assert_eq!(app.selected, None);
    app.handle_event(AppEvent::MoveDown);
    assert_eq!(app.selected, None);
    app.handle_event(AppEvent::MoveUp);
    assert_eq!(app.selected, None);
    assert!(!app.should_quit);
}

#[test]
fn append_and_backspace_reset_cursor() {
    let h = strings(&["ls", "cd"]);
    let mut app = App::new(h, Vec::new());
    app.handle_event(AppEvent::MoveDown);
    assert_eq!(app.selected, Some(1));
    app.handle_event(AppEvent::AppendChar('z'));
    assert_eq!(app.selected, None);
    app.handle_event(AppEvent::Backspace);
    assert_eq!(app.selected, Some(0));
}

#[test]
fn backspace_on_empty_query_is_noop() {
    let h = strings(&["ls"]);
    let mut app = App::new(h, Vec::new());
    app.handle_event(AppEvent::Backspace);
    let m = app.render_model();
    assert_eq!(m.query, "");
    assert_eq!(m.filtered_count, 1);
}

#[test]
fn other_event_changes_nothing() {
    let h = strings(&["ls"]);
    let mut app = App::new(h, Vec::new());
    app.handle_event(AppEvent::Other);
    assert_eq!(app.selected, Some(0));
    assert!(!app.should_quit);
    assert_eq!(app.selected_command, None);
}

#[test]
fn quit_terminates_without_selection() {
    let h = strings(&["ls"]);
    let mut app = App::new(h, Vec::new());
    app.handle_event(AppEvent::Quit);
    assert!(app.should_quit);
    assert_eq!(app.selected_command, None);
}

#[test]
fn seed_query_is_words_joined_by_spaces() {
    let h = strings(&["git log", "ls"]);
    let app = App::new(h, strings(&["git", "log"]));
    let m = app.render_model();
    assert_eq!(m.query, "git log");
    assert_eq!(m.visible, strings(&["git log"]));
}

#[test]
fn typing_narrows_filter_incrementally() {
    let h = strings(&["ls", "ls -la", "cd"]);
    let mut app = App::new(h, Vec::new());
    app.handle_event(AppEvent::AppendChar('l'));
    app.handle_event(AppEvent::AppendChar('s'));
    let m = app.render_model();
    assert_eq!(m.visible, strings(&["ls", "ls -la"]));
    assert_eq!(m.highlighted, Some(0));
    app.handle_event(AppEvent::AppendChar(' '));
    let m = app.render_model();
    assert_eq!(m.visible, strings(&["ls -la"]));
}

#[test]
fn scenario_seeded_session_selects_second_match() {
    let history = load_history("ls\ncd /tmp\nls -la\nls\n");
    assert_eq!(history, strings(&["ls", "ls -la", "cd /tmp"]));
    let mut app = App::new(history, strings(&["ls"]));
    assert_eq!(app.filtered_commands, vec![0, 1]);
    app.handle_event(AppEvent::MoveDown);
    app.handle_event(AppEvent::Confirm);
    assert!(app.should_quit);
    assert_eq!(app.selected_command, Some("ls -la".to_string()));
}

#[test]
fn scenario_empty_history_reports_zero_of_zero() {
    let history = load_history("");
    let mut app = App::new(history, Vec::new());
    let m = app.render_model();
    assert_eq!(m.filtered_count, 0);
    assert_eq!(m.total_count, 0);
    assert_eq!(m.highlighted, None);
    assert!(m.visible.is_empty());
    app.handle_event(AppEvent::Confirm);
    assert!(app.should_quit);
    assert_eq!(app.selected_command, None);
}

#[test]
fn render_model_marks_highlighted_entry() {
    let h = strings(&["a", "b", "c"]);
    let mut app = App::new(h, Vec::new());
    app.handle_event(AppEvent::MoveDown);
    let m = app.render_model();
    assert_eq!(m.visible, strings(&["a", "b", "c"]));
    assert_eq!(m.highlighted, Some(1));
    assert_eq!(m.filtered_count, 3);
    assert_eq!(m.total_count, 3);
}

#[test]
fn confirm_resolves_through_filtered_view() {
    let h = strings(&["apple", "banana", "cherry"]);
    let mut app = App::new(h, strings(&["an"]));
    let m = app.render_model();
    assert_eq!(m.visible, strings(&["banana"]));
    app.handle_event(AppEvent::Confirm);
    assert_eq!(app.selected_command, Some("banana".to_string()));
}
