use vstd::prelude::*;

use crate::pattern::ByteRange;
use crate::style::Style;

verus! {

/// A run of text bytes that share one style.
#[derive(Clone, Debug, PartialEq, Eq)]
pub struct Span {
    pub content: Vec<u8>,
    pub style: Style,
}

/// The mathematical value of a run.
pub struct SpanView {
    pub content: Seq<u8>,
    pub style: Style,
}

impl View for Span {
    type V = SpanView;

    open spec fn view(&self) -> SpanView {
        SpanView { content: self.content@, style: self.style }
    }
}

pub open spec fn views(s: Seq<Span>) -> Seq<SpanView> {
    s.map_values(|x: Span| x@)
}

/// The bytes of all runs, one after the other.
pub open spec fn content_of(s: Seq<SpanView>) -> Seq<u8>
    decreases s.len(),
{
    if s.len() == 0 {
        Seq::empty()
    } else {
        content_of(s.drop_last()) + s.last().content
    }
}

pub open spec fn sat_sub(a: int, b: int) -> int {
    if a > b {
        a - b
    } else {
        0
    }
}

pub open spec fn min(a: int, b: int) -> int {
    if a < b {
        a
    } else {
        b
    }
}

/// `c` with style `st`, as one run, or nothing where `c` is empty.
pub open spec fn piece(c: Seq<u8>, st: Style) -> Seq<SpanView> {
    if c.len() == 0 {
        Seq::empty()
    } else {
        seq![SpanView { content: c, style: st }]
    }
}

/// Run `s` split at the range `start..end` (relative to its own first byte, clamped
/// to its length): the part before, the part inside with `hl` laid over its
/// style, and the part after, without empty parts.
pub open spec fn split_view(s: SpanView, start: int, end: int, hl: Style) -> Seq<SpanView> {
    let len = s.content.len() as int;
    let a = min(start, len);
    let b = min(end, len);
    piece(s.content.subrange(0, a), s.style) + piece(
        s.content.subrange(a, b),
        s.style.spec_patch(hl),
    ) + piece(s.content.subrange(b, len), s.style)
}

/// The first `k` runs of `s`, each split against the range `start..end` taken in
/// whole-content coordinates, so shifted by the length of the runs before it.
pub open spec fn styled_prefix(s: Seq<SpanView>, k: int, start: int, end: int, hl: Style) -> Seq<
    SpanView,
>
    decreases k,
{
    if k <= 0 {
        Seq::empty()
    } else {
        let off = content_of(s.subrange(0, k - 1)).len() as int;
        styled_prefix(s, k - 1, start, end, hl) + split_view(
            s[k - 1],
            sat_sub(start, off),
            sat_sub(end, off),
            hl,
        )
    }
}

/// All runs of `s` with the bytes in `start..end` highlighted.
pub open spec fn styled_single(s: Seq<SpanView>, start: int, end: int, hl: Style) -> Seq<SpanView> {
    styled_prefix(s, s.len() as int, start, end, hl)
}

/// The runs of `s` with each range of `ranges[0..k]` highlighted in turn.
pub open spec fn styled_all(s: Seq<SpanView>, ranges: Seq<ByteRange>, k: int, hl: Style) -> Seq<
    SpanView,
>
    decreases k,
{
    if k <= 0 {
        s
    } else {
        let r = ranges[k - 1];
        styled_single(styled_all(s, ranges, k - 1, hl), r.start as int, r.end as int, hl)
    }
}

/// The non-empty runs of `s[0..k]` with `hl` laid over each.
pub open spec fn patched_prefix(s: Seq<SpanView>, k: int, hl: Style) -> Seq<SpanView>
    decreases k,
{
    if k <= 0 {
        Seq::empty()
    } else {
        patched_prefix(s, k - 1, hl) + piece(s[k - 1].content, s[k - 1].style.spec_patch(hl))
    }
}

fn copy_bytes(v: &Vec<u8>, a: usize, b: usize) -> (r: Vec<u8>)
    requires
        a <= b <= v.len(),
    ensures
        r@ == v@.subrange(a as int, b as int),
{
    let mut r: Vec<u8> = Vec::new();
    let mut i: usize = a;
    while i < b
        invariant
            a <= i <= b <= v.len(),
            r@ == v@.subrange(a as int, i as int),
        decreases b - i,
    {
        r.push(v[i]);
        i = i + 1;
        assert(r@ =~= v@.subrange(a as int, i as int));
    }
    r
}

fn push_piece(out: &mut Vec<Span>, content: Vec<u8>, style: Style)
    ensures
        views(final(out)@) == views(old(out)@) + piece(content@, style),
{
    proof {
        assert(views(old(out)@) + Seq::empty() =~= views(old(out)@));
    }
    if content.len() > 0 {
        out.push(Span { content, style });
        proof {
            assert(views(final(out)@) =~= views(old(out)@) + piece(content@, style));
        }
    }
}

/// Splits `s` at `r` (clamped to its length) into the parts before, inside and after.
pub fn split_span(s: &Span, r: &ByteRange) -> (parts: (Span, Span, Span))
    requires
        min(r.start as int, s.content@.len() as int) <= min(r.end as int, s.content@.len() as int),
    ensures
        ({
            let len = s.content@.len() as int;
            let a = min(r.start as int, len);
            let b = min(r.end as int, len);
            &&& parts.0@ == (SpanView { content: s.content@.subrange(0, a), style: s.style })
            &&& parts.1@ == (SpanView { content: s.content@.subrange(a, b), style: s.style })
            &&& parts.2@ == (SpanView { content: s.content@.subrange(b, len), style: s.style })
        }),
{
    let len = s.content.len();
    let start = if r.start < len {
        r.start
    } else {
        len
    };
    let end = if r.end < len {
        r.end
    } else {
        len
    };
    (
        Span { content: copy_bytes(&s.content, 0, start), style: s.style },
        Span { content: copy_bytes(&s.content, start, end), style: s.style },
        Span { content: copy_bytes(&s.content, end, len), style: s.style },
    )
}

/// Highlights the bytes in `range` (whole-content coordinates) with `style`,
/// keeping each run's own style beneath it and dropping empty runs.
pub fn style_spans_single(spans: Vec<Span>, range: ByteRange, style: Style) -> (r: Vec<Span>)
    requires
        range.start <= range.end,
    ensures
        views(r@) == styled_single(views(spans@), range.start as int, range.end as int, style),
{
    let ghost s = views(spans@);
    let mut result: Vec<Span> = Vec::new();
    let mut cur = range;
    let mut i: usize = 0;
    while i < spans.len()
        invariant
            s == views(spans@),
            i <= spans.len(),
            cur.start <= cur.end,
            cur.start == sat_sub(range.start as int, content_of(s.subrange(0, i as int)).len() as int),
            cur.end == sat_sub(range.end as int, content_of(s.subrange(0, i as int)).len() as int),
            views(result@) == styled_prefix(s, i as int, range.start as int, range.end as int, style),
        decreases spans.len() - i,
    {
        let span = &spans[i];
        let len = span.content.len();
        let (a, b, c) = split_span(span, &cur);
        push_piece(&mut result, a.content, a.style);
        push_piece(&mut result, b.content, b.style.patch(style));
        push_piece(&mut result, c.content, c.style);
        proof {
            let pre = s.subrange(0, i as int);
            let next = s.subrange(0, i + 1);
            assert(next.drop_last() =~= pre);
            assert(s[i as int] == spans@[i as int]@);
        }
        cur = ByteRange {
            start: if cur.start > len {
                cur.start - len
            } else {
                0
            },
            end: if cur.end > len {
                cur.end - len
            } else {
                0
            },
        };
        i = i + 1;
    }
    proof {
        assert(s.subrange(0, s.len() as int) =~= s);
    }
    result
}

/// Highlights each of `ranges` in turn.
pub fn style_spans(spans: Vec<Span>, ranges: &Vec<ByteRange>, style: Style) -> (r: Vec<Span>)
    requires
        forall|k: int| 0 <= k < ranges.len() ==> ranges[k].start <= ranges[k].end,
    ensures
        views(r@) == styled_all(views(spans@), ranges@, ranges.len() as int, style),
{
    let ghost orig = views(spans@);
    let mut spans = spans;
    let mut k: usize = 0;
    while k < ranges.len()
        invariant
            k <= ranges.len(),
            forall|j: int| 0 <= j < ranges.len() ==> ranges[j].start <= ranges[j].end,
            views(spans@) == styled_all(orig, ranges@, k as int, style),
        decreases ranges.len() - k,
    {
        spans = style_spans_single(spans, ranges[k], style);
        k = k + 1;
    }
    spans
}

proof fn lemma_content_prefix_step(s: Seq<SpanView>, k: int)
    requires
        0 < k <= s.len(),
    ensures
        content_of(s.subrange(0, k)).len() == content_of(s.subrange(0, k - 1)).len()
            + s[k - 1].content.len(),
{
    assert(s.subrange(0, k).drop_last() =~= s.subrange(0, k - 1));
}

proof fn lemma_content_prefix_le(s: Seq<SpanView>, k: int)
    requires
        0 <= k <= s.len(),
    ensures
        content_of(s.subrange(0, k)).len() <= content_of(s).len(),
    decreases s.len() - k,
{
    if k < s.len() {
        lemma_content_prefix_step(s, k + 1);
        lemma_content_prefix_le(s, k + 1);
    } else {
        assert(s.subrange(0, k) =~= s);
    }
}

/// Highlighting with no ranges at all hands the runs back unchanged.
pub proof fn lemma_no_ranges_unchanged(s: Seq<SpanView>, ranges: Seq<ByteRange>, hl: Style)
    requires
        ranges.len() == 0,
    ensures
        styled_all(s, ranges, ranges.len() as int, hl) == s,
{
}

/// Highlighting a range that covers the whole content keeps every non-empty run,
/// in order and with its bytes, and lays the highlight over each run's own style.
pub proof fn lemma_full_range_patches_every_run(s: Seq<SpanView>, end: int, hl: Style)
    requires
        end >= content_of(s).len(),
    ensures
        styled_single(s, 0, end, hl) == patched_prefix(s, s.len() as int, hl),
{
    lemma_full_range_prefix(s, s.len() as int, end, hl);
}

proof fn lemma_full_range_prefix(s: Seq<SpanView>, k: int, end: int, hl: Style)
    requires
        0 <= k <= s.len(),
        end >= content_of(s).len(),
    ensures
        styled_prefix(s, k, 0, end, hl) == patched_prefix(s, k, hl),
    decreases k,
{
    if k > 0 {
        lemma_full_range_prefix(s, k - 1, end, hl);
        lemma_content_prefix_step(s, k);
        lemma_content_prefix_le(s, k);
        let c = s[k - 1].content;
        let len = c.len() as int;
        assert(c.subrange(0, 0) =~= Seq::<u8>::empty());
        assert(c.subrange(0, len) =~= c);
        assert(c.subrange(len, len) =~= Seq::<u8>::empty());
        let off = content_of(s.subrange(0, k - 1)).len() as int;
        assert(split_view(s[k - 1], sat_sub(0, off), sat_sub(end, off), hl) =~= piece(
            c,
            s[k - 1].style.spec_patch(hl),
        ));
    }
}

proof fn lemma_content_concat(a: Seq<SpanView>, b: Seq<SpanView>)
    ensures
        content_of(a + b) == content_of(a) + content_of(b),
    decreases b.len(),
{
    if b.len() == 0 {
        assert(a + b =~= a);
        assert(content_of(a) + content_of(b) =~= content_of(a));
    } else {
        lemma_content_concat(a, b.drop_last());
        assert((a + b).drop_last() =~= a + b.drop_last());
        assert(content_of(a + b) =~= content_of(a) + content_of(b));
    }
}

proof fn lemma_content_piece(c: Seq<u8>, st: Style)
    ensures
        content_of(piece(c, st)) == c,
{
    if c.len() == 0 {
        assert(content_of(piece(c, st)) =~= c);
    } else {
        assert(piece(c, st).drop_last() =~= Seq::<SpanView>::empty());
        assert(content_of(piece(c, st).drop_last()) == Seq::<u8>::empty());
        assert(Seq::<u8>::empty() + c =~= c);
    }
}

proof fn lemma_content_split(x: SpanView, start: int, end: int, hl: Style)
    requires
        0 <= start <= end,
    ensures
        content_of(split_view(x, start, end, hl)) == x.content,
{
    let len = x.content.len() as int;
    let p1 = piece(x.content.subrange(0, min(start, len)), x.style);
    let p2 = piece(x.content.subrange(min(start, len), min(end, len)), x.style.spec_patch(hl));
    let p3 = piece(x.content.subrange(min(end, len), len), x.style);
    lemma_content_concat(p1 + p2, p3);
    lemma_content_concat(p1, p2);
    lemma_content_piece(x.content.subrange(0, min(start, len)), x.style);
    lemma_content_piece(x.content.subrange(min(start, len), min(end, len)), x.style.spec_patch(hl));
    lemma_content_piece(x.content.subrange(min(end, len), len), x.style);
    assert(x.content.subrange(0, min(start, len)) + x.content.subrange(min(start, len), min(end, len))
        + x.content.subrange(min(end, len), len) =~= x.content);
}

proof fn lemma_content_styled_prefix(s: Seq<SpanView>, k: int, start: int, end: int, hl: Style)
    requires
        0 <= k <= s.len(),
        0 <= start <= end,
    ensures
        content_of(styled_prefix(s, k, start, end, hl)) == content_of(s.subrange(0, k)),
    decreases k,
{
    if k == 0 {
        assert(s.subrange(0, 0) =~= Seq::<SpanView>::empty());
    } else {
        lemma_content_styled_prefix(s, k - 1, start, end, hl);
        let off = content_of(s.subrange(0, k - 1)).len() as int;
        lemma_content_split(s[k - 1], sat_sub(start, off), sat_sub(end, off), hl);
        lemma_content_concat(
            styled_prefix(s, k - 1, start, end, hl),
            split_view(s[k - 1], sat_sub(start, off), sat_sub(end, off), hl),
        );
        assert(s.subrange(0, k).drop_last() =~= s.subrange(0, k - 1));
    }
}

/// Highlighting never changes the text: the runs that come out hold the same
/// bytes, in the same order, as the runs that went in.
pub proof fn lemma_highlight_keeps_content(s: Seq<SpanView>, ranges: Seq<ByteRange>, hl: Style)
    requires
        forall|k: int| 0 <= k < ranges.len() ==> ranges[k].start <= ranges[k].end,
    ensures
        content_of(styled_all(s, ranges, ranges.len() as int, hl)) == content_of(s),
{
    lemma_content_styled_all(s, ranges, ranges.len() as int, hl);
}

proof fn lemma_content_styled_all(s: Seq<SpanView>, ranges: Seq<ByteRange>, k: int, hl: Style)
    requires
        0 <= k <= ranges.len(),
        forall|j: int| 0 <= j < ranges.len() ==> ranges[j].start <= ranges[j].end,
    ensures
        content_of(styled_all(s, ranges, k, hl)) == content_of(s),
    decreases k,
{
    if k > 0 {
        lemma_content_styled_all(s, ranges, k - 1, hl);
        let prev = styled_all(s, ranges, k - 1, hl);
        let r = ranges[k - 1];
        lemma_content_styled_prefix(prev, prev.len() as int, r.start as int, r.end as int, hl);
        assert(prev.subrange(0, prev.len() as int) =~= prev);
    }
}

} // verus!
