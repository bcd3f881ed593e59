use treetop::highlight::style_spans;
use treetop::highlight::style_spans_single;
use treetop::highlight::Span;
use treetop::pattern::ByteRange;
use treetop::style::Color;
use treetop::style::Style;
use treetop::style::BOLD;
use treetop::style::UNDERLINED;

fn plain(s: &str) -> Span {
    Span { content: s.as_bytes().to_vec(), style: Style::new() }
}

fn bold(s: &str) -> Span {
    Span { content: s.as_bytes().to_vec(), style: Style::new().add(BOLD) }
}

fn range(start: usize, end: usize) -> ByteRange {
    ByteRange { start, end }
}

#[test]
fn style_spans_works() {
    let cases = vec![
        (vec!["foo"], range(0, 3), vec![bold("foo")]),
        (vec!["foo"], range(1, 2), vec![plain("f"), bold("o"), plain("o")]),
        (vec!["foo"], range(3, 7), vec![plain("foo")]),
        (vec!["foo"], range(0, 42), vec![bold("foo")]),
        (vec!["foo"], range(0, 0), vec![plain("foo")]),
        (vec![], range(1, 2), vec![]),
        (vec!["foo", "bar"], range(3, 6), vec![plain("foo"), bold("bar")]),
        (
            vec!["foo", "bar"],
            range(1, 5),
            vec![plain("f"), bold("oo"), bold("ba"), plain("r")],
        ),
        (
            vec!["foo", "bar", "baz"],
            range(2, 7),
            vec![plain("fo"), bold("o"), bold("bar"), bold("b"), plain("az")],
        ),
        (vec!["foo"], range(5, 7), vec![plain("foo")]),
    ];
    for (spans, range, expected) in cases {
        let spans: Vec<Span> = spans.into_iter().map(plain).collect();
        let result = style_spans_single(spans, range, Style::new().add(BOLD));
        assert_eq!(result, expected);
    }
}

#[test]
fn style_spans_maintains_existing_styles() {
    let spans = vec![Span { content: b"foo".to_vec(), style: Style::new().add(UNDERLINED) }];
    let result = style_spans_single(spans, range(0, 3), Style::new().add(BOLD));
    assert_eq!(
        result,
        vec![Span { content: b"foo".to_vec(), style: Style::new().add(UNDERLINED).add(BOLD) }]
    );
}

#[test]
fn no_ranges_leave_runs_unchanged() {
    let spans = vec![plain("ab"), bold("cd"), plain("")];
    assert_eq!(style_spans(spans.clone(), &vec![], Style::new().add(BOLD)), spans);
}

#[test]
fn full_range_patches_every_run() {
    let spans = vec![plain("ab"), Span { content: b"cd".to_vec(), style: Style::new().add(UNDERLINED) }];
    let hl = Style::new().add(BOLD);
    assert_eq!(
        style_spans(spans, &vec![range(0, 4)], hl),
        vec![bold("ab"), Span { content: b"cd".to_vec(), style: Style::new().add(UNDERLINED).add(BOLD) }]
    );
}

#[test]
fn several_ranges_apply_in_turn() {
    let hl = Style::new().add(BOLD);
    assert_eq!(
        style_spans(vec![plain("abcdef")], &vec![range(4, 5), range(0, 1)], hl),
        vec![bold("a"), plain("bcd"), bold("e"), plain("f")]
    );
}

#[test]
fn patch_overrides_colors_and_modifiers() {
    let base = Style::new().fg(Color::Red).add(UNDERLINED);
    let over = Style { fg: Some(Color::Blue), bg: None, underline_color: None, add_modifier: BOLD, sub_modifier: UNDERLINED };
    let r = base.patch(over);
    assert_eq!(r.fg, Some(Color::Blue));
    assert_eq!(r.add_modifier, BOLD);
    assert_eq!(r.sub_modifier, UNDERLINED);
}
