use treetop::highlight::Span;
use treetop::pattern::ByteRange;
use treetop::pattern::SearchPattern;
use treetop::process::Match;
use treetop::process::Process;
use treetop::process::SortBy;
use treetop::process::Visible;
use treetop::style::highlight_style;
use treetop::style::Style;

fn process(pid: u32, name: &str, arguments: Vec<&str>) -> Process {
    Process {
        pid,
        name: name.to_string(),
        arguments: arguments.into_iter().map(|a| a.to_string()).collect(),
        parent: None,
        cpu: 0,
        ram: 0,
        visible: Visible::default(),
    }
}

fn default_process() -> Process {
    process(42, "name", vec![])
}

fn with_arguments(arguments: Vec<&str>) -> Process {
    let mut p = default_process();
    p.arguments = arguments.into_iter().map(|a| a.to_string()).collect();
    p
}

#[test]
fn is_match_considers_arguments() {
    assert!(!with_arguments(vec!["foo"])
        .get_matches(&SearchPattern::from_string("foo"), 0, false)
        .is_empty());
    assert!(with_arguments(vec!["foo"])
        .get_matches(&SearchPattern::from_string("bar"), 0, false)
        .is_empty());
    assert!(!with_arguments(vec!["foobarbaz"])
        .get_matches(&SearchPattern::from_string("bar"), 0, false)
        .is_empty());
}

#[test]
fn filtering_by_matching_on_multiple_process_arguments() {
    assert!(!with_arguments(vec!["foo", "bar"])
        .get_matches(&SearchPattern::from_string("fo.*ar"), 0, false)
        .is_empty());
    assert!(!with_arguments(vec!["foo", "bar"])
        .get_matches(&SearchPattern::from_string("foo bar"), 0, false)
        .is_empty());
    let mut p = with_arguments(vec!["bar"]);
    p.name = "foo".to_string();
    assert!(!p
        .get_matches(&SearchPattern::from_string("foo bar"), 0, false)
        .is_empty());
}

#[test]
fn is_match_hides_treetop_for_arguments() {
    let process = process(42, "treetop", vec!["foo"]);
    assert!(process
        .get_matches(&SearchPattern::from_string("foo"), 42, false)
        .is_empty());
    assert!(!process
        .get_matches(&SearchPattern::from_string("foo"), 43, false)
        .is_empty());
    assert!(!process
        .get_matches(&SearchPattern::from_string("treetop"), 42, false)
        .is_empty());
    assert!(!process
        .get_matches(&SearchPattern::from_string("42"), 42, false)
        .is_empty());
}

#[test]
fn is_match_shows_treetop_when_asked_to() {
    let process = process(42, "treetop", vec!["foo"]);
    assert!(!process
        .get_matches(&SearchPattern::from_string("foo"), 42, true)
        .is_empty());
}

#[test]
fn self_hide_scenario_gives_the_three_states() {
    let mut p = process(42, "treetop", vec!["foo"]);
    p.update_visible(&SearchPattern::from_string("foo"), 42, false);
    assert!(matches!(p.visible, Visible::NotVisible));
    p.update_visible(&SearchPattern::from_string("treetop"), 42, false);
    assert_eq!(
        p.visible.matches(),
        vec![Match::InCommand(ByteRange { start: 0, end: 7 })]
    );
    p.update_visible(&SearchPattern::from_string("foo"), 42, true);
    assert_eq!(
        p.visible.matches(),
        vec![Match::InCommand(ByteRange { start: 8, end: 11 })]
    );
}

#[test]
fn empty_pattern_makes_everything_visible_without_matches() {
    let mut p = process(7, "seven", vec!["x"]);
    p.update_visible(&SearchPattern::empty(), 7, false);
    assert!(matches!(p.visible, Visible::Visible(ref m) if m.is_empty()));
}

#[test]
fn matches_in_pid_and_command_are_both_reported() {
    let p = process(123, "a123", vec![]);
    assert_eq!(
        p.get_matches(&SearchPattern::from_string("23"), 0, false),
        vec![
            Match::InPid(ByteRange { start: 1, end: 3 }),
            Match::InCommand(ByteRange { start: 2, end: 4 })
        ]
    );
}

#[test]
fn command_line_joins_name_and_arguments() {
    assert_eq!(process(1, "ls", vec!["-l", "/tmp"]).command_line(), "ls -l /tmp");
}

#[test]
fn pattern_states_follow_the_text() {
    assert!(matches!(SearchPattern::from_string(""), SearchPattern::Empty));
    assert!(matches!(SearchPattern::from_string("a("), SearchPattern::Invalid { .. }));
    assert!(matches!(SearchPattern::from_string("a(b)"), SearchPattern::Regex { .. }));
    assert_eq!(SearchPattern::from_string("a(").as_str(), "a(");
    assert_eq!(SearchPattern::from_string("x+").as_str(), "x+");
    assert_eq!(SearchPattern::from_string("a(").find("a("), None);
    assert_eq!(SearchPattern::empty().find("abc"), None);
    assert_eq!(
        SearchPattern::from_string("b+").find("abbbc"),
        Some(ByteRange { start: 1, end: 4 })
    );
}

#[test]
fn modify_moves_between_states() {
    let mut p = SearchPattern::from_string("a");
    p.modify(|mut s| {
        s.push('(');
        s
    });
    assert!(matches!(p, SearchPattern::Invalid { .. }));
    p.modify(|mut s| {
        s.push(')');
        s
    });
    assert!(matches!(p, SearchPattern::Regex { .. }));
    assert_eq!(p.as_str(), "a()");
    p.modify(|_| String::new());
    assert!(matches!(p, SearchPattern::Empty));
}

#[test]
fn compare_orders_by_column_then_pid() {
    let mut a = process(1, "a", vec![]);
    let mut b = process(2, "b", vec![]);
    a.cpu = 100;
    b.cpu = 300;
    a.ram = 5;
    b.ram = 5;
    assert_eq!(a.compare(&b, SortBy::Pid), std::cmp::Ordering::Less);
    assert_eq!(a.compare(&b, SortBy::Cpu), std::cmp::Ordering::Greater);
    assert_eq!(a.compare(&b, SortBy::Ram), std::cmp::Ordering::Less);
    assert_eq!(a.compare(&a, SortBy::Cpu), std::cmp::Ordering::Equal);
}

#[test]
fn sort_columns_cycle() {
    assert_eq!(SortBy::default(), SortBy::Pid);
    assert_eq!(SortBy::Pid.next(), SortBy::Cpu);
    assert_eq!(SortBy::Cpu.next(), SortBy::Ram);
    assert_eq!(SortBy::Ram.next(), SortBy::Pid);
    assert_eq!(SortBy::all(), vec![SortBy::Pid, SortBy::Cpu, SortBy::Ram]);
}

#[test]
fn accumulate_adds_metrics_and_saturates() {
    let mut a = process(1, "a", vec![]);
    let mut b = process(1, "a", vec![]);
    a.cpu = 150;
    b.cpu = 50;
    a.ram = u64::MAX - 1;
    b.ram = 10;
    a.accumulate_from(&b);
    assert_eq!(a.cpu, 200);
    assert_eq!(a.ram, u64::MAX);
}

#[test]
fn from_command_shows_the_file_name_of_the_first_word() {
    let p = Process::from_command(
        10,
        Some(1),
        vec!["/usr/bin/ls".to_string(), "-l".to_string()],
        Some("/bin/other".to_string()),
        "name".to_string(),
        250,
        4096,
    );
    assert_eq!(p.name, "ls");
    assert_eq!(p.arguments, vec!["-l".to_string()]);
    assert_eq!(p.parent, Some(1));
    assert_eq!(p.cpu, 250);
    assert_eq!(p.ram, 4096);
}

#[test]
fn from_command_falls_back_to_executable_then_name() {
    let p = Process::from_command(1, None, vec![], Some("/sbin/init".to_string()), "systemd".to_string(), 0, 0);
    assert_eq!(p.name, "init");
    assert!(p.arguments.is_empty());
    let q = Process::from_command(1, None, vec![], None, "kthreadd".to_string(), 0, 0);
    assert_eq!(q.name, "kthreadd");
    let r = Process::from_command(1, None, vec!["..".to_string()], None, "x".to_string(), 0, 0);
    assert_eq!(r.name, "..");
}

#[test]
fn pid_column_is_padded_and_highlighted() {
    let mut p = process(4242, "x", vec![]);
    p.update_visible(&SearchPattern::from_string("24"), 0, false);
    assert_eq!(
        p.pid_spans(),
        vec![
            Span { content: b"    ".to_vec(), style: Style::new() },
            Span { content: b"4".to_vec(), style: Style::new() },
            Span { content: b"24".to_vec(), style: Style::new().patch(highlight_style()) },
            Span { content: b"2".to_vec(), style: Style::new() },
        ]
    );
}
