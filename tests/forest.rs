use treetop::pattern::SearchPattern;
use treetop::process::Process;
use treetop::process::SortBy;
use treetop::process::Visible;
use treetop::tree::Forest;

fn render_number(n: u32) -> &'static str {
    match n {
        1 => "one",
        2 => "two",
        3 => "three",
        4 => "four",
        5 => "five",
        6 => "six",
        7 => "seven",
        _ => "some-process",
    }
}

fn fake(pid: u32, cpu: u64, parent: Option<u32>) -> Process {
    Process {
        pid,
        name: render_number(pid).to_string(),
        arguments: Vec::new(),
        parent,
        cpu,
        ram: 0,
        visible: Visible::default(),
    }
}

fn rows(forest: &Forest) -> Vec<(String, u32)> {
    forest
        .render_forest_prefixes()
        .into_iter()
        .map(|r| (r.prefix, r.node.pid))
        .collect()
}

fn pids(forest: &Forest) -> Vec<u32> {
    forest.iter().into_iter().map(|p| p.pid).collect()
}

fn search(records: Vec<Process>, pattern: &str, own_pid: u32, dont_hide_self: bool) -> Forest {
    let pattern = SearchPattern::from_string(pattern);
    let records = records
        .into_iter()
        .map(|mut p| {
            p.update_visible(&pattern, own_pid, dont_hide_self);
            p
        })
        .collect();
    let mut forest = Forest::new_forest(records);
    forest.sort_by(SortBy::Pid);
    forest.filter();
    forest
}

fn seven() -> Vec<Process> {
    vec![
        fake(1, 100, None),
        fake(2, 200, Some(1)),
        fake(3, 300, Some(2)),
        fake(4, 400, Some(1)),
        fake(5, 500, Some(4)),
        fake(6, 500, Some(4)),
        fake(7, 500, Some(6)),
    ]
}

#[test]
fn end_to_end_prefixes() {
    let mut forest = Forest::new_forest(vec![
        fake(4, 100, None),
        fake(5, 0, Some(4)),
        fake(1, 400, None),
        fake(3, 200, Some(2)),
        fake(2, 300, Some(1)),
    ]);
    forest.sort_by(SortBy::Pid);
    assert_eq!(
        rows(&forest),
        vec![
            ("├─ ".to_string(), 1),
            ("│  └─ ".to_string(), 2),
            ("│     └─ ".to_string(), 3),
            ("└─ ".to_string(), 4),
            ("   └─ ".to_string(), 5),
        ]
    );
}

#[test]
fn processes_get_sorted_by_pid() {
    let mut forest = Forest::new_forest(vec![
        fake(3, 400, None),
        fake(1, 100, None),
        fake(4, 300, None),
        fake(2, 200, None),
    ]);
    forest.sort_by(SortBy::Pid);
    assert_eq!(pids(&forest), vec![1, 2, 3, 4]);
}

#[test]
fn processes_can_be_sorted_by_cpu() {
    let mut forest = Forest::new_forest(vec![
        fake(1, 100, None),
        fake(2, 200, None),
        fake(3, 400, None),
        fake(4, 300, None),
    ]);
    forest.sort_by(SortBy::Cpu);
    assert_eq!(pids(&forest), vec![3, 4, 2, 1]);
}

#[test]
fn more_complicated_tree() {
    let mut forest = Forest::new_forest(seven());
    forest.sort_by(SortBy::Pid);
    assert_eq!(
        rows(&forest),
        vec![
            ("└─ ".to_string(), 1),
            ("   ├─ ".to_string(), 2),
            ("   │  └─ ".to_string(), 3),
            ("   └─ ".to_string(), 4),
            ("      ├─ ".to_string(), 5),
            ("      └─ ".to_string(), 6),
            ("         └─ ".to_string(), 7),
        ]
    );
}

#[test]
fn filtering() {
    let forest = search(seven(), "four", 0, false);
    assert_eq!(pids(&forest), vec![1, 4, 5, 6, 7]);
    assert_eq!(rows(&forest)[1].0, "   └─ ");
}

#[test]
fn filtering_with_regexes() {
    let forest = search(
        vec![fake(1, 0, None), fake(2, 0, Some(1)), fake(3, 0, Some(1)), fake(4, 0, Some(1))],
        "two|three",
        0,
        false,
    );
    assert_eq!(pids(&forest), vec![1, 2, 3]);
}

#[test]
fn filtering_by_pid() {
    let forest = search(vec![fake(1, 0, None), fake(2, 0, None), fake(3, 0, None)], "2", 0, false);
    assert_eq!(pids(&forest), vec![2]);
}

fn with_args(mut p: Process, arguments: Vec<&str>) -> Process {
    p.arguments = arguments.into_iter().map(|a| a.to_string()).collect();
    p
}

#[test]
fn filtering_by_process_arguments() {
    let forest = search(
        vec![
            with_args(fake(1, 0, None), vec!["foo"]),
            with_args(fake(2, 0, None), vec!["bar"]),
            with_args(fake(3, 0, None), vec!["baz"]),
        ],
        "bar",
        0,
        false,
    );
    assert_eq!(pids(&forest), vec![2]);
}

#[test]
fn filters_out_itself_by_default() {
    let forest = search(
        vec![
            with_args(fake(1, 0, None), vec!["foo"]),
            with_args(fake(4242, 0, None), vec!["bar"]),
            with_args(fake(3, 0, None), vec!["baz"]),
        ],
        "bar",
        4242,
        false,
    );
    assert_eq!(pids(&forest), Vec::<u32>::new());
}

#[test]
fn does_not_filter_out_itself_when_asked_to() {
    let forest = search(
        vec![
            with_args(fake(1, 0, None), vec!["foo"]),
            with_args(fake(4242, 0, None), vec!["bar"]),
            with_args(fake(3, 0, None), vec!["baz"]),
        ],
        "bar",
        4242,
        true,
    );
    assert_eq!(pids(&forest), vec![4242]);
}

#[test]
fn filtering_keeps_ancestors_and_descendants() {
    let forest = search(seven(), "six", 0, false);
    assert_eq!(pids(&forest), vec![1, 4, 6, 7]);
}

#[test]
fn filtering_twice_changes_nothing() {
    let mut forest = search(seven(), "two", 0, false);
    let once = rows(&forest);
    forest.filter();
    assert_eq!(rows(&forest), once);
    assert_eq!(pids(&forest), vec![1, 2, 3]);
}

#[test]
fn build_visits_every_record_once() {
    let forest = Forest::new_forest(vec![fake(5, 0, Some(9)), fake(3, 0, Some(5)), fake(8, 0, None)]);
    let mut seen = pids(&forest);
    seen.sort();
    assert_eq!(seen, vec![3, 5, 8]);
    assert_eq!(pids(&forest), vec![5, 3, 8]);
}

#[test]
fn orphans_become_roots() {
    let forest = Forest::new_forest(vec![fake(2, 0, Some(99)), fake(3, 0, Some(2))]);
    assert_eq!(rows(&forest), vec![("└─ ".to_string(), 2), ("   └─ ".to_string(), 3)]);
}

#[test]
fn circles_of_parents_are_broken() {
    let forest = Forest::new_forest(vec![fake(1, 0, Some(2)), fake(2, 0, Some(1)), fake(3, 0, Some(1))]);
    assert_eq!(
        rows(&forest),
        vec![("└─ ".to_string(), 1), ("   ├─ ".to_string(), 2), ("   └─ ".to_string(), 3)]
    );
}

#[test]
fn duplicate_ids_are_merged() {
    let mut a = fake(1, 100, None);
    a.ram = 10;
    let mut b = fake(1, 50, Some(7));
    b.name = "other".to_string();
    b.ram = 5;
    let forest = Forest::new_forest(vec![a, fake(2, 0, Some(1)), b]);
    let nodes = forest.iter();
    assert_eq!(nodes.len(), 2);
    assert_eq!(nodes[0].pid, 1);
    assert_eq!(nodes[0].name, "one");
    assert_eq!(nodes[0].parent, None);
    assert_eq!(nodes[0].cpu, 150);
    assert_eq!(nodes[0].ram, 15);
}

#[test]
fn sorting_keeps_the_shape() {
    let mut forest = Forest::new_forest(seven());
    forest.sort_by(SortBy::Cpu);
    assert_eq!(pids(&forest), vec![1, 4, 5, 6, 7, 2, 3]);
}

#[test]
fn empty_forest_has_no_rows() {
    let forest = Forest::empty();
    assert!(forest.iter().is_empty());
    assert!(Forest::new_forest(vec![]).render_forest_prefixes().is_empty());
}
