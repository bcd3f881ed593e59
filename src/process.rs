use vstd::prelude::*;
use vstd::string::StringExecFns;
use vstd::string::StringSliceAdditionalSpecFns;

use crate::highlight::style_spans;
use crate::highlight::styled_all;
use crate::highlight::views;
use crate::highlight::Span;
use crate::highlight::SpanView;
use crate::pattern::ByteRange;
use crate::pattern::SearchPattern;
use crate::style::highlight_style;
use crate::style::plain_style;
use crate::style::spec_highlight;
use crate::style::Style;

verus! {

/// Where a match was found: in the decimal process id, or in the command line.
#[derive(Clone, Copy, Debug, PartialEq, Eq, Structural)]
pub enum Match {
    InPid(ByteRange),
    InCommand(ByteRange),
}

/// The search state of a process: visible (with the matches that made it so,
/// none while no pattern is set), or hidden by the pattern.
#[derive(Clone, Debug)]
pub enum Visible {
    Visible(Vec<Match>),
    NotVisible,
}

impl Visible {
    pub open spec fn match_seq(&self) -> Seq<Match> {
        match self {
            Visible::Visible(items) => items@,
            Visible::NotVisible => Seq::empty(),
        }
    }

    pub fn default() -> (r: Visible)
        ensures
            r is Visible,
            r.match_seq().len() == 0,
    {
        Visible::Visible(Vec::new())
    }

    /// The matches recorded, none where the process is hidden.
    pub fn matches(&self) -> (r: Vec<Match>)
        ensures
            r@ == self.match_seq(),
    {
        let mut r: Vec<Match> = Vec::new();
        match self {
            Visible::Visible(items) => {
                let mut i: usize = 0;
                while i < items.len()
                    invariant
                        i <= items.len(),
                        r@ == items@.subrange(0, i as int),
                    decreases items.len() - i,
                {
                    r.push(items[i]);
                    i = i + 1;
                    assert(r@ =~= items@.subrange(0, i as int));
                }
                assert(items@.subrange(0, items.len() as int) =~= items@);
            },
            Visible::NotVisible => {},
        }
        r
    }
}

/// The column the process list is ordered by.
#[derive(Clone, Copy, Debug, PartialEq, Eq, Structural)]
pub enum SortBy {
    Pid,
    Cpu,
    Ram,
}

impl SortBy {
    pub fn default() -> (r: SortBy)
        ensures
            r == SortBy::Pid,
    {
        SortBy::Pid
    }

    pub open spec fn spec_next(self) -> SortBy {
        match self {
            SortBy::Pid => SortBy::Cpu,
            SortBy::Cpu => SortBy::Ram,
            SortBy::Ram => SortBy::Pid,
        }
    }

    /// The next column in the cycle pid, cpu, ram, pid, ...
    pub fn next(self) -> (r: SortBy)
        ensures
            r == self.spec_next(),
    {
        match self {
            SortBy::Pid => SortBy::Cpu,
            SortBy::Cpu => SortBy::Ram,
            SortBy::Ram => SortBy::Pid,
        }
    }

    /// The column's header label.
    pub fn label(self) -> (r: &'static str)
        ensures
            r@ == match self {
                SortBy::Pid => "pid"@,
                SortBy::Cpu => "cpu"@,
                SortBy::Ram => "ram"@,
            },
    {
        match self {
            SortBy::Pid => "pid",
            SortBy::Cpu => "cpu",
            SortBy::Ram => "ram",
        }
    }

    /// The spaces before the column's label in the header, so that each label
    /// ends above its column.
    pub fn header_padding(self) -> (r: usize)
        ensures
            r == match self {
                SortBy::Pid => 5usize,
                SortBy::Cpu => 3usize,
                SortBy::Ram => 7usize,
            },
    {
        match self {
            SortBy::Pid => 5,
            SortBy::Cpu => 3,
            SortBy::Ram => 7,
        }
    }

    /// All columns, in display order.
    pub fn all() -> (r: Vec<SortBy>)
        ensures
            r@ == seq![SortBy::Pid, SortBy::Cpu, SortBy::Ram],
    {
        let r = vec![SortBy::Pid, SortBy::Cpu, SortBy::Ram];
        assert(r@ =~= seq![SortBy::Pid, SortBy::Cpu, SortBy::Ram]);
        r
    }
}

/// One process: its id, executable name, arguments, parent id, CPU usage in
/// hundredths of a percent, resident memory in bytes, and its search state.
#[derive(Clone, Debug)]
pub struct Process {
    pub pid: u32,
    pub name: String,
    pub arguments: Vec<String>,
    pub parent: Option<u32>,
    pub cpu: u64,
    pub ram: u64,
    pub visible: Visible,
}

/// The decimal digits of `n`, most significant first.
pub open spec fn decimal(n: nat) -> Seq<char>
    decreases n,
{
    let d = seq![(('0' as u8) + (n % 10) as u8) as char];
    if n < 10 {
        d
    } else {
        decimal(n / 10) + d
    }
}

/// Relies on `u32`'s `to_string`: its decimal digits.
#[verifier::external_body]
fn decimal_text(n: u32) -> (r: String)
    ensures
        r@ == decimal(n as nat),
{
    n.to_string()
}

/// Appends `t` to `s`.
pub(crate) fn push_text(s: &mut String, t: &str)
    ensures
        final(s)@ == old(s)@ + t@,
{
    s.append(t);
}

/// The last component of path `p`, if it has one.
pub uninterp spec fn file_name_of(p: Seq<char>) -> Option<Seq<char>>;

/// Relies on `std::path::Path::file_name`: the final component of the path,
/// none where the path ends in `..` or is a root.
#[verifier::external_body]
fn file_name(p: &str) -> (r: Option<String>)
    ensures
        match r {
            Some(f) => file_name_of(p@) == Some(f@),
            None => file_name_of(p@) is None,
        },
{
    std::path::Path::new(p).file_name().map(|f| f.to_string_lossy().to_string())
}

/// The file name of path `p`, or the whole path where it has none.
pub open spec fn short_name(p: Seq<char>) -> Seq<char> {
    match file_name_of(p) {
        Some(f) => f,
        None => p,
    }
}

fn short_name_of(p: String) -> (r: String)
    ensures
        r@ == short_name(p@),
{
    match file_name(p.as_str()) {
        Some(f) => f,
        None => p,
    }
}

/// The ranges of the matches in the pid, leaving out any whose start lies past
/// its end.
pub open spec fn pid_ranges(m: Seq<Match>) -> Seq<ByteRange>
    decreases m.len(),
{
    if m.len() == 0 {
        Seq::empty()
    } else {
        pid_ranges(m.drop_last()) + match m.last() {
            Match::InPid(r) => if r.start <= r.end {
                seq![r]
            } else {
                Seq::empty()
            },
            Match::InCommand(_) => Seq::empty(),
        }
    }
}

/// `n` spaces (none for negative `n`).
pub open spec fn spaces(n: int) -> Seq<u8> {
    Seq::new(if n > 0 { n as nat } else { 0 }, |i: int| 32u8)
}

/// `name` followed by each argument, each after one space.
pub open spec fn command_of(name: Seq<char>, args: Seq<String>) -> Seq<char>
    decreases args.len(),
{
    if args.len() == 0 {
        name
    } else {
        command_of(name, args.drop_last()) + seq![' '] + args.last()@
    }
}

pub open spec fn sat_add(a: u64, b: u64) -> u64 {
    if a + b > u64::MAX {
        u64::MAX
    } else {
        (a + b) as u64
    }
}

/// `a` orders strictly before `b` under `key`; equal keys fall back to the pid.
pub open spec fn before(a: &Process, b: &Process, key: SortBy) -> bool {
    match key {
        SortBy::Pid => a.pid < b.pid,
        SortBy::Cpu => a.cpu > b.cpu || (a.cpu == b.cpu && a.pid < b.pid),
        SortBy::Ram => a.ram > b.ram || (a.ram == b.ram && a.pid < b.pid),
    }
}

pub open spec fn spec_compare(a: &Process, b: &Process, key: SortBy) -> std::cmp::Ordering {
    if before(a, b, key) {
        std::cmp::Ordering::Less
    } else if before(b, a, key) {
        std::cmp::Ordering::Greater
    } else {
        std::cmp::Ordering::Equal
    }
}

impl Process {
    /// The length of the name in bytes.
    pub open spec fn name_len(&self) -> int {
        vstd::utf8::encode_utf8(self.name@).len() as usize as int
    }

    pub open spec fn command(&self) -> Seq<char> {
        command_of(self.name@, self.arguments@)
    }

    /// The matches of `pattern` in this process: in its pid first, then in its
    /// command line, where a command match of the running program itself is
    /// dropped if it reaches into the arguments (unless `dont_hide_self`).
    pub open spec fn spec_matches(
        &self,
        pattern: SearchPattern,
        own_pid: u32,
        dont_hide_self: bool,
    ) -> Seq<Match> {
        let in_pid = match pattern.spec_find(decimal(self.pid as nat)) {
            Some((s, e)) => seq![Match::InPid(ByteRange { start: s as usize, end: e as usize })],
            None => Seq::empty(),
        };
        let in_command = match pattern.spec_find(self.command()) {
            Some((s, e)) => if own_pid == self.pid && !dont_hide_self && e > self.name_len() {
                Seq::empty()
            } else {
                seq![Match::InCommand(ByteRange { start: s as usize, end: e as usize })]
            },
            None => Seq::empty(),
        };
        in_pid + in_command
    }

    /// The search state that `pattern` gives this process.
    pub open spec fn spec_visible(&self, pattern: SearchPattern, own_pid: u32, dont_hide_self: bool) -> (
        bool,
        Seq<Match>,
    ) {
        if pattern is Empty {
            (true, Seq::empty())
        } else {
            let m = self.spec_matches(pattern, own_pid, dont_hide_self);
            (m.len() > 0, m)
        }
    }

    /// A process from its command words, executable path and name: shown as
    /// the file name of the first command word, else of the executable path,
    /// else by its name; the remaining command words are its arguments.
    pub fn from_command(
        pid: u32,
        parent: Option<u32>,
        command: Vec<String>,
        exe: Option<String>,
        name: String,
        cpu: u64,
        ram: u64,
    ) -> (r: Process)
        ensures
            r.pid == pid,
            r.parent == parent,
            r.cpu == cpu,
            r.ram == ram,
            r.visible is Visible,
            r.visible.match_seq().len() == 0,
            command@.len() > 0 ==> r.name@ == short_name(command@[0]@) && r.arguments@ == command@.drop_first(),
            command@.len() == 0 ==> r.arguments@.len() == 0 && r.name@ == match exe {
                Some(e) => short_name(e@),
                None => name@,
            },
    {
        let mut words = command;
        let shown = if words.len() > 0 {
            let first = words.remove(0);
            short_name_of(first)
        } else {
            match exe {
                Some(e) => short_name_of(e),
                None => name,
            }
        };
        Process { pid, name: shown, arguments: words, parent, cpu, ram, visible: Visible::default() }
    }

    /// The pid column: padding to eight places, then the decimal pid with its
    /// matches highlighted.
    pub fn pid_spans(&self) -> (r: Vec<Span>)
        ensures
            views(r@) == seq![
                SpanView {
                    content: spaces(8 - vstd::utf8::encode_utf8(decimal(self.pid as nat)).len()),
                    style: plain_style(),
                },
            ] + styled_all(
                seq![SpanView { content: vstd::utf8::encode_utf8(decimal(self.pid as nat)), style: plain_style() }],
                pid_ranges(self.visible.match_seq()),
                pid_ranges(self.visible.match_seq()).len() as int,
                spec_highlight(),
            ),
    {
        let digits = decimal_text(self.pid);
        let text = digits.as_str();
        let bytes = text.as_bytes();
        let mut content: Vec<u8> = Vec::new();
        let mut i: usize = 0;
        while i < bytes.len()
            invariant
                i <= bytes@.len(),
                content@ == bytes@.subrange(0, i as int),
            decreases bytes@.len() - i,
        {
            content.push(bytes[i]);
            i = i + 1;
            assert(content@ =~= bytes@.subrange(0, i as int));
        }
        assert(bytes@.subrange(0, bytes@.len() as int) =~= bytes@);
        let pad_len: usize = if text.len() < 8 { 8 - text.len() } else { 0 };
        let mut pad: Vec<u8> = Vec::new();
        let mut k: usize = 0;
        while k < pad_len
            invariant
                k <= pad_len,
                pad@ == spaces(k as int),
            decreases pad_len - k,
        {
            pad.push(32u8);
            k = k + 1;
            assert(pad@ =~= spaces(k as int));
        }
        let matches = self.visible.matches();
        let mut ranges: Vec<ByteRange> = Vec::new();
        let mut j: usize = 0;
        while j < matches.len()
            invariant
                j <= matches@.len(),
                matches@ == self.visible.match_seq(),
                ranges@ == pid_ranges(matches@.subrange(0, j as int)),
                forall|x: int| 0 <= x < ranges@.len() ==> ranges@[x].start <= ranges@[x].end,
            decreases matches@.len() - j,
        {
            proof {
                assert(matches@.subrange(0, j + 1).drop_last() =~= matches@.subrange(0, j as int));
            }
            match matches[j] {
                Match::InPid(r) => {
                    if r.start <= r.end {
                        ranges.push(r);
                    }
                },
                Match::InCommand(_) => {},
            }
            j = j + 1;
            proof {
                assert(ranges@ =~= pid_ranges(matches@.subrange(0, j as int)));
            }
        }
        assert(matches@.subrange(0, matches@.len() as int) =~= matches@);
        let style = Style::new();
        let mut out: Vec<Span> = Vec::new();
        out.push(Span { content: pad, style });
        let ghost content_view = content@;
        let single = vec![Span { content, style }];
        proof {
            assert(views(single@) =~= seq![SpanView { content: content_view, style }]);
        }
        let mut pid_part = style_spans(single, &ranges, highlight_style());
        let ghost first = out@;
        let ghost second = pid_part@;
        out.append(&mut pid_part);
        proof {
            assert(views(out@) =~= views(first) + views(second));
            assert(content_view == vstd::utf8::encode_utf8(decimal(self.pid as nat)));
            assert(views(first) =~= seq![SpanView { content: spaces(8 - content_view.len()), style: plain_style() }]);
        }
        out
    }

    pub fn id(&self) -> (r: u32)
        ensures
            r == self.pid,
    {
        self.pid
    }

    pub fn parent(&self) -> (r: Option<u32>)
        ensures
            r == self.parent,
    {
        self.parent
    }

    /// Adds the metrics of `other` to this one (saturating).
    pub fn accumulate_from(&mut self, other: &Process)
        ensures
            *final(self) == (Process {
                cpu: sat_add(old(self).cpu, other.cpu),
                ram: sat_add(old(self).ram, other.ram),
                ..*old(self)
            }),
    {
        self.cpu = self.cpu.saturating_add(other.cpu);
        self.ram = self.ram.saturating_add(other.ram);
    }

    /// Orders by `sort_by` (pid ascending; cpu or ram descending), ties by pid.
    pub fn compare(&self, other: &Process, sort_by: SortBy) -> (r: std::cmp::Ordering)
        ensures
            r == spec_compare(self, other, sort_by),
    {
        let less = match sort_by {
            SortBy::Pid => self.pid < other.pid,
            SortBy::Cpu => self.cpu > other.cpu || (self.cpu == other.cpu && self.pid < other.pid),
            SortBy::Ram => self.ram > other.ram || (self.ram == other.ram && self.pid < other.pid),
        };
        let greater = match sort_by {
            SortBy::Pid => other.pid < self.pid,
            SortBy::Cpu => other.cpu > self.cpu || (other.cpu == self.cpu && other.pid < self.pid),
            SortBy::Ram => other.ram > self.ram || (other.ram == self.ram && other.pid < self.pid),
        };
        if less {
            std::cmp::Ordering::Less
        } else if greater {
            std::cmp::Ordering::Greater
        } else {
            std::cmp::Ordering::Equal
        }
    }

    /// The name and the arguments, joined by single spaces.
    pub fn command_line(&self) -> (r: String)
        ensures
            r@ == self.command(),
    {
        let mut command = self.name.clone();
        let mut i: usize = 0;
        while i < self.arguments.len()
            invariant
                i <= self.arguments.len(),
                command@ == command_of(self.name@, self.arguments@.subrange(0, i as int)),
            decreases self.arguments.len() - i,
        {
            proof {
                reveal_strlit(" ");
                assert(self.arguments@.subrange(0, i + 1).drop_last() =~= self.arguments@.subrange(
                    0,
                    i as int,
                ));
            }
            push_text(&mut command, " ");
            push_text(&mut command, self.arguments[i].as_str());
            i = i + 1;
        }
        assert(self.arguments@.subrange(0, i as int) =~= self.arguments@);
        command
    }

    /// The matches of `pattern` in this process, given the pid of the running
    /// program.
    pub fn get_matches(&self, pattern: &SearchPattern, own_pid: u32, dont_hide_self: bool) -> (r:
        Vec<Match>)
        ensures
            r@ == self.spec_matches(*pattern, own_pid, dont_hide_self),
    {
        let mut result: Vec<Match> = Vec::new();
        let id_text = decimal_text(self.pid);
        if let Some(range) = pattern.find(id_text.as_str()) {
            result.push(Match::InPid(range));
        }
        let command = self.command_line();
        if let Some(range) = pattern.find(command.as_str()) {
            if own_pid == self.pid && !dont_hide_self && range.end > self.name.as_str().len() {
                // the program's own row, matched only through its arguments
            } else {
                result.push(Match::InCommand(range));
            }
        }
        proof {
            let ghost s = self.spec_matches(*pattern, own_pid, dont_hide_self);
            assert(result@ =~= s);
        }
        result
    }

    /// Recomputes the search state for `pattern`.
    pub fn update_visible(&mut self, pattern: &SearchPattern, own_pid: u32, dont_hide_self: bool)
        ensures
            final(self).visible is Visible == old(self).spec_visible(
                *pattern,
                own_pid,
                dont_hide_self,
            ).0,
            final(self).visible.match_seq() == old(self).spec_visible(
                *pattern,
                own_pid,
                dont_hide_self,
            ).1,
            final(self).pid == old(self).pid,
            final(self).name == old(self).name,
            final(self).arguments == old(self).arguments,
            final(self).parent == old(self).parent,
            final(self).cpu == old(self).cpu,
            final(self).ram == old(self).ram,
    {
        let visible = if let SearchPattern::Empty = pattern {
            Visible::Visible(Vec::new())
        } else {
            let matches = self.get_matches(pattern, own_pid, dont_hide_self);
            if matches.len() == 0 {
                Visible::NotVisible
            } else {
                Visible::Visible(matches)
            }
        };
        self.visible = visible;
    }
}

} // verus!
