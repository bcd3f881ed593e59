use treetop::pattern::SearchPattern;
use treetop::process::Process;
use treetop::process::SortBy;
use treetop::process::Visible;
use treetop::treetop_app::normalize_list_state;
use treetop::treetop_app::status_line;
use treetop::treetop_app::Key;
use treetop::treetop_app::ListState;
use treetop::treetop_app::Signal;
use treetop::treetop_app::TreetopApp;
use treetop::treetop_app::UiMode;
use treetop::treetop_app::UpdateResult;

const HEIGHT: u16 = 20;

fn fake(pid: u32, parent: Option<u32>) -> Process {
    Process {
        pid,
        name: format!("p{pid}"),
        arguments: Vec::new(),
        parent,
        cpu: 0,
        ram: 0,
        visible: Visible::default(),
    }
}

fn test_app(processes: &[Process]) -> TreetopApp {
    let mut app = TreetopApp::new(None, false, 1_000_000).unwrap();
    app.update_processes(processes.to_vec());
    app
}

fn simulate_key_press(app: &mut TreetopApp, processes: &[Process], key: Key) -> UpdateResult {
    let result = app.update(key);
    app.update_processes(processes.to_vec());
    result
}

#[test]
fn normalize_leaves_state_unmodified() {
    let mut list_state = ListState { selected: Some(7), offset: 5 };
    normalize_list_state(&mut list_state, 30, HEIGHT);
    assert_eq!(list_state.selected, Some(7));
    assert_eq!(list_state.offset, 5);
}

#[test]
fn normalize_caps_at_the_list_end() {
    let mut list_state = ListState { selected: Some(11), offset: 0 };
    normalize_list_state(&mut list_state, 10, HEIGHT);
    assert_eq!(list_state.selected, Some(9));
}

#[test]
fn normalize_resets_offset_to_zero_when_the_list_fits_the_area() {
    let mut list_state = ListState { selected: Some(0), offset: 5 };
    normalize_list_state(&mut list_state, 10, HEIGHT);
    assert_eq!(list_state.offset, 0);
}

#[test]
fn normalize_scrolls_up_when_offset_is_too_big() {
    let mut list_state = ListState { selected: Some(0), offset: 25 };
    normalize_list_state(&mut list_state, 30, HEIGHT);
    assert_eq!(list_state.offset, 10);
}

#[test]
fn typing_patterns() {
    let processes = vec![fake(1, None), fake(2, Some(1))];
    let mut app = test_app(&processes);
    simulate_key_press(&mut app, &processes, Key::Char('/'));
    simulate_key_press(&mut app, &processes, Key::Char('a'));
    simulate_key_press(&mut app, &processes, Key::Char('b'));
    assert_eq!(app.pattern.as_str(), "ab");
    simulate_key_press(&mut app, &processes, Key::Backspace);
    assert_eq!(app.pattern.as_str(), "a");
    simulate_key_press(&mut app, &processes, Key::Char('('));
    simulate_key_press(&mut app, &processes, Key::Char('b'));
    simulate_key_press(&mut app, &processes, Key::Char(')'));
    assert_eq!(app.pattern.as_str(), "a(b)");
}

#[test]
fn exit_pattern_edit_mode() {
    let mut app = test_app(&[]);
    simulate_key_press(&mut app, &[], Key::Char('/'));
    simulate_key_press(&mut app, &[], Key::Enter);
    assert_eq!(app.ui_mode, UiMode::Normal);
}

#[test]
fn selecting_processes() {
    let processes = vec![fake(1, None), fake(2, Some(1)), fake(3, None), fake(4, Some(3))];
    let mut app = test_app(&processes);
    assert_eq!(app.ui_mode, UiMode::Normal);
    simulate_key_press(&mut app, &processes, Key::Enter);
    assert_eq!(app.ui_mode, UiMode::ProcessSelected(1));
    simulate_key_press(&mut app, &processes, Key::Esc);
    assert_eq!(app.ui_mode, UiMode::Normal);
    simulate_key_press(&mut app, &processes, Key::Down);
    simulate_key_press(&mut app, &processes, Key::Enter);
    assert_eq!(app.ui_mode, UiMode::ProcessSelected(2));
}

#[test]
fn error_status_line() {
    let mut app = test_app(&[]);
    app.set_error("test error".to_string());
    assert_eq!(app.error_state, Some("test error".to_string()));
    simulate_key_press(&mut app, &[], Key::Char('&'));
    assert_eq!(app.error_state, None);
}

#[test]
fn selection_is_dropped_when_the_process_goes_away() {
    let processes = vec![fake(1, None), fake(2, Some(1)), fake(3, None)];
    let mut app = test_app(&processes);
    simulate_key_press(&mut app, &processes, Key::Down);
    simulate_key_press(&mut app, &processes, Key::Enter);
    assert_eq!(app.ui_mode, UiMode::ProcessSelected(2));
    app.update_processes(vec![fake(1, None), fake(3, None)]);
    assert_eq!(app.ui_mode, UiMode::Normal);
}

#[test]
fn selection_survives_while_the_process_is_shown() {
    let processes = vec![fake(1, None), fake(2, Some(1))];
    let mut app = test_app(&processes);
    simulate_key_press(&mut app, &processes, Key::Enter);
    app.update_processes(processes.clone());
    assert_eq!(app.ui_mode, UiMode::ProcessSelected(1));
}

#[test]
fn signals_are_requested_for_the_selected_process() {
    let processes = vec![fake(5, None)];
    let mut app = test_app(&processes);
    assert_eq!(app.update(Key::Char('t')), UpdateResult::Continue);
    app.update(Key::Enter);
    assert_eq!(app.update(Key::Char('t')), UpdateResult::SendSignal(5, Signal::Term));
    assert_eq!(app.update(Key::Char('k')), UpdateResult::SendSignal(5, Signal::Kill));
}

#[test]
fn quitting() {
    let mut app = test_app(&[]);
    assert_eq!(app.update(Key::CtrlC), UpdateResult::Exit);
    assert_eq!(app.update(Key::Char('q')), UpdateResult::Exit);
    app.update(Key::Char('/'));
    assert_eq!(app.update(Key::Char('q')), UpdateResult::Continue);
    assert_eq!(app.pattern.as_str(), "q");
    assert_eq!(app.update(Key::CtrlC), UpdateResult::Exit);
}

#[test]
fn cursor_moves_and_stays_on_the_rows() {
    let processes: Vec<Process> = (1..=30).map(|pid| fake(pid, None)).collect();
    let mut app = test_app(&processes);
    app.update(Key::Up);
    assert_eq!(app.list_state.selected, Some(0));
    app.update(Key::PageDown);
    assert_eq!(app.list_state.selected, Some(20));
    app.update(Key::Down);
    assert_eq!(app.list_state.selected, Some(21));
    app.update(Key::PageDown);
    assert_eq!(app.list_state.selected, Some(29));
    app.update(Key::PageUp);
    assert_eq!(app.list_state.selected, Some(9));
    let mut empty = test_app(&[]);
    empty.update(Key::Down);
    assert_eq!(empty.list_state.selected, Some(0));
}

#[test]
fn tab_cycles_the_sort_column() {
    let processes = vec![fake(1, None), fake(2, None)];
    let mut app = test_app(&processes);
    simulate_key_press(&mut app, &processes, Key::Tab);
    assert_eq!(app.sort_column, SortBy::Cpu);
    simulate_key_press(&mut app, &processes, Key::Tab);
    simulate_key_press(&mut app, &processes, Key::Tab);
    assert_eq!(app.sort_column, SortBy::Pid);
}

#[test]
fn invalid_initial_pattern_is_refused() {
    assert!(TreetopApp::new(Some("a(".to_string()), false, 1).is_err());
    let app = TreetopApp::new(Some("ab".to_string()), false, 1).unwrap();
    assert!(matches!(app.pattern, SearchPattern::Regex { .. }));
}

#[test]
fn status_line_lists_keys_and_pattern() {
    assert_eq!(
        status_line(UiMode::Normal, ""),
        "Ctrl+C: Quit | ↑↓ : scroll | ENTER: select process | /: filter processes"
    );
    assert_eq!(
        status_line(UiMode::Normal, "ab"),
        "Ctrl+C: Quit | ↑↓ : scroll | ENTER: select process | /: filter processes | search pattern: ab"
    );
    assert_eq!(
        status_line(UiMode::EditingPattern, ""),
        "Ctrl+C: Quit | ↑↓ : scroll | ENTER: select process | ESC: exit search mode | type search pattern: ▌"
    );
    assert_eq!(
        status_line(UiMode::ProcessSelected(3), "x"),
        "Ctrl+C: Quit | ↑↓ : scroll | t: SIGTERM process | k: SIGKILL process | ESC: unselect | ENTER: select other | search pattern: x"
    );
}

#[test]
fn header_labels() {
    assert_eq!(SortBy::Pid.label(), "pid");
    assert_eq!(SortBy::Cpu.label(), "cpu");
    assert_eq!(SortBy::Ram.label(), "ram");
    assert_eq!(SortBy::Pid.header_padding() + SortBy::Cpu.header_padding() + SortBy::Ram.header_padding(), 15);
}
