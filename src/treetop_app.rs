use vstd::prelude::*;

use crate::highlight::min;
use crate::highlight::sat_sub;
use crate::pattern::SearchPattern;
use crate::process::Process;
use crate::process::SortBy;
use crate::tree::lemma_build_places_each_record_once;
use crate::tree::lemma_filter_keeps_context;
use crate::tree::lemma_filter_keeps_sibling_order;
use crate::tree::lemma_sort_keeps_rows;
use crate::tree::unique_pids;
use crate::tree::reversed;
use crate::process::push_text;
use crate::tree::Forest;

verus! {

/// What the user is doing: browsing, typing a search pattern, or acting on
/// one selected process.
#[derive(Clone, Copy, Debug, PartialEq, Eq, Structural)]
pub enum UiMode {
    Normal,
    EditingPattern,
    ProcessSelected(u32),
}

/// A key press, as the controller sees it. `Char` is a character typed without
/// modifiers; `CtrlC` is the quit combination; anything else is `Other`.
#[derive(Clone, Copy, Debug, PartialEq, Eq, Structural)]
pub enum Key {
    CtrlC,
    Char(char),
    Up,
    Down,
    PageUp,
    PageDown,
    Enter,
    Esc,
    Tab,
    Backspace,
    Other,
}

/// The signals the user can send to the selected process.
#[derive(Clone, Copy, Debug, PartialEq, Eq, Structural)]
pub enum Signal {
    Term,
    Kill,
}

/// What the event loop does after a key press.
#[derive(Clone, Copy, Debug, PartialEq, Eq, Structural)]
pub enum UpdateResult {
    Exit,
    Continue,
    /// Deliver the signal to the process, then continue.
    SendSignal(u32, Signal),
}

/// The cursor of the process list and the first row on screen.
#[derive(Clone, Copy, Debug, PartialEq, Eq, Structural)]
pub struct ListState {
    pub selected: Option<usize>,
    pub offset: usize,
}

/// Keeps the cursor on the list and scrolls up where the list ends above the
/// bottom of an area `height` rows high.
pub fn normalize_list_state(list_state: &mut ListState, list_len: usize, height: u16)
    ensures
        final(list_state).selected == match old(list_state).selected {
            Some(s) => Some(min(s as int, sat_sub(list_len as int, 1)) as usize),
            None => None,
        },
        final(list_state).offset == min(
            old(list_state).offset as int,
            sat_sub(list_len as int, height as int),
        ),
{
    let last = list_len.saturating_sub(1);
    if let Some(s) = list_state.selected {
        list_state.selected = Some(if s < last { s } else { last });
    }
    let max_offset = list_len.saturating_sub(height as usize);
    if list_state.offset > max_offset {
        list_state.offset = max_offset;
    }
}

/// The error a bad initial pattern gives.
#[derive(Clone, Debug, PartialEq, Eq)]
pub struct PatternError {
    pub pattern: String,
}

/// The state of the process viewer: the search pattern, the forest on screen,
/// the cursor, the mode, the sort column and a transient error message.
pub struct TreetopApp {
    pub own_pid: u32,
    pub dont_hide_self: bool,
    pub forest: Forest,
    pub pattern: SearchPattern,
    pub list_state: ListState,
    pub ui_mode: UiMode,
    pub sort_column: SortBy,
    pub error_state: Option<String>,
}

/// Relies on `String::push`: the text grows by one character.
#[verifier::external_body]
fn push_char(s: &mut String, c: char)
    ensures
        final(s)@ == old(s)@.push(c),
{
    s.push(c)
}

/// Relies on `String::pop`: the last character goes, if there is one.
#[verifier::external_body]
fn pop_char(s: &mut String)
    ensures
        old(s)@.len() == 0 ==> final(s)@ == old(s)@,
        old(s)@.len() > 0 ==> final(s)@ == old(s)@.drop_last(),
{
    s.pop();
}

/// `records` with each search state computed for `pattern`.
pub open spec fn with_search(records: Seq<Process>, out: Seq<Process>, pattern: SearchPattern, own_pid: u32, dont_hide_self: bool) -> bool {
    &&& out.len() == records.len()
    &&& forall|i: int| 0 <= i < records.len() ==> {
        let (v, m) = #[trigger] records[i].spec_visible(pattern, own_pid, dont_hide_self);
        &&& out[i].visible is Visible == v
        &&& out[i].visible.match_seq() == m
        &&& out[i].pid == records[i].pid
        &&& out[i].name == records[i].name
        &&& out[i].arguments == records[i].arguments
        &&& out[i].parent == records[i].parent
        &&& out[i].cpu == records[i].cpu
        &&& out[i].ram == records[i].ram
    }
}

/// `f` is what a tick makes of `records`: their search states computed, the
/// forest built (`f1`), sorted by `key` (`f2`) and filtered.
pub open spec fn rebuilt_from(
    f: Forest,
    records: Seq<Process>,
    pattern: SearchPattern,
    own_pid: u32,
    dont_hide_self: bool,
    key: SortBy,
) -> bool {
    exists|searched: Seq<Process>, f1: Forest, f2: Forest, s1: Seq<int>, s2: Seq<int>| {
        &&& with_search(records, searched, pattern, own_pid, dont_hide_self)
        &&& f1.built_from(searched)
        &&& f1.wf()
        &&& f2.wf()
        &&& f2.sorted_from(&f1, s1, key)
        &&& f.filtered_from(&f2, s2)
    }
}

/// After a tick, every group of siblings on screen is in order under the sort
/// column (by pid: increasing pids).
pub proof fn lemma_tick_orders_siblings(
    f: Forest,
    records: Seq<Process>,
    pattern: SearchPattern,
    own_pid: u32,
    dont_hide_self: bool,
    key: SortBy,
)
    requires
        rebuilt_from(f, records, pattern, own_pid, dont_hide_self, key),
    ensures
        f.siblings_ordered(key),
{
    let (searched, f1, f2, s1, s2) = choose|searched: Seq<Process>, f1: Forest, f2: Forest, s1: Seq<int>, s2: Seq<int>| {
        &&& with_search(records, searched, pattern, own_pid, dont_hide_self)
        &&& f1.built_from(searched)
        &&& f1.wf()
        &&& f2.wf()
        &&& f2.sorted_from(&f1, s1, key)
        &&& f.filtered_from(&f2, s2)
    };
    assert(f2.siblings_ordered(key));
    lemma_filter_keeps_sibling_order(f2, f, s2, key);
}

/// After a tick over records with distinct ids, every record that the
/// pattern makes visible is on screen.
pub proof fn lemma_tick_shows_visible(
    f: Forest,
    records: Seq<Process>,
    pattern: SearchPattern,
    own_pid: u32,
    dont_hide_self: bool,
    key: SortBy,
    i: int,
)
    requires
        rebuilt_from(f, records, pattern, own_pid, dont_hide_self, key),
        unique_pids(records),
        0 <= i < records.len(),
        records[i].spec_visible(pattern, own_pid, dont_hide_self).0,
    ensures
        shows_pid(f, records[i].pid),
{
    let (searched, f1, f2, s1, s2) = choose|searched: Seq<Process>, f1: Forest, f2: Forest, s1: Seq<int>, s2: Seq<int>| {
        &&& with_search(records, searched, pattern, own_pid, dont_hide_self)
        &&& f1.built_from(searched)
        &&& f1.wf()
        &&& f2.wf()
        &&& f2.sorted_from(&f1, s1, key)
        &&& f.filtered_from(&f2, s2)
    };
    let _ = records[i].spec_visible(pattern, own_pid, dont_hide_self);
    assert(unique_pids(searched)) by {
        assert forall|a: int, b: int| 0 <= a < b < searched.len() implies #[trigger] searched[a].pid != #[trigger] searched[b].pid by {
            let _ = records[a].spec_visible(pattern, own_pid, dont_hide_self);
            let _ = records[b].spec_visible(pattern, own_pid, dont_hide_self);
        }
    }
    lemma_build_places_each_record_once(searched, f1);
    assert(f1.has_row(searched[i]));
    let k1 = choose|k1: int| 0 <= k1 < f1.rows().len() && f1.rows()[k1] == searched[i];
    lemma_sort_keeps_rows(f1, f2, s1, key, k1);
    let k2 = choose|k2: int| 0 <= k2 < f2.rows().len() && #[trigger] f2.rows()[k2] == f1.rows()[k1];
    assert(f2.matched(k2));
    lemma_filter_keeps_context(f2, f, s2, k2);
    let j = choose|j: int| 0 <= j < s2.len() && s2[j] == k2;
    assert(f.rows()[j] == f2.rows()[k2]);
}

/// Some row of `f` shows process `pid`.
pub open spec fn shows_pid(f: Forest, pid: u32) -> bool {
    exists|k: int| 0 <= k < f.rows().len() && #[trigger] f.rows()[k].pid == pid
}

impl TreetopApp {
    pub open spec fn wf(&self) -> bool {
        self.forest.wf()
    }

    /// The viewer at start-up, with an empty forest. An initial pattern that
    /// does not compile is refused.
    pub fn new(pattern: Option<String>, dont_hide_self: bool, own_pid: u32) -> (r: Result<TreetopApp, PatternError>)
        ensures
            match pattern {
                None => r matches Ok(app) && app.pattern is Empty,
                Some(p) => match r {
                    Ok(app) => app.pattern.denotes(p@) && !(app.pattern is Invalid),
                    Err(e) => e.pattern@ == p@ && p@.len() > 0 && !crate::pattern::compiles(p@),
                },
            },
            r matches Ok(app) ==> app.wf() && app.own_pid == own_pid && app.dont_hide_self == dont_hide_self
                && app.ui_mode == UiMode::Normal && app.sort_column == SortBy::Pid && app.error_state is None
                && app.list_state == (ListState { selected: Some(0), offset: 0 })
                && app.forest.rows().len() == 0,
    {
        let search = match pattern {
            Some(p) => {
                let s = SearchPattern::from_string(p.as_str());
                if let SearchPattern::Invalid { .. } = s {
                    return Err(PatternError { pattern: p });
                }
                s
            },
            None => SearchPattern::empty(),
        };
        Ok(TreetopApp {
            own_pid,
            dont_hide_self,
            forest: Forest::empty(),
            pattern: search,
            list_state: ListState { selected: Some(0), offset: 0 },
            ui_mode: UiMode::Normal,
            sort_column: SortBy::default(),
            error_state: None,
        })
    }

    /// Rebuilds the forest from a fresh set of records: each record's search
    /// state is computed, the forest is built, sorted by the current column and
    /// filtered; a selected process that is no longer shown is let go.
    pub fn update_processes(&mut self, records: Vec<Process>)
        requires
            old(self).wf(),
        ensures
            final(self).wf(),
            rebuilt_from(
                final(self).forest,
                records@,
                old(self).pattern,
                old(self).own_pid,
                old(self).dont_hide_self,
                old(self).sort_column,
            ),
            final(self).ui_mode == match old(self).ui_mode {
                UiMode::ProcessSelected(pid) => if shows_pid(final(self).forest, pid) {
                    old(self).ui_mode
                } else {
                    UiMode::Normal
                },
                m => m,
            },
            final(self).pattern == old(self).pattern,
            final(self).sort_column == old(self).sort_column,
            final(self).list_state == old(self).list_state,
            final(self).error_state == old(self).error_state,
            final(self).own_pid == old(self).own_pid,
            final(self).dont_hide_self == old(self).dont_hide_self,
    {
        let ghost orig = records@;
        let n = records.len();
        let mut rev = reversed(records);
        let mut searched: Vec<Process> = Vec::new();
        let mut i: usize = 0;
        while i < n
            invariant
                n == orig.len(),
                i <= n,
                rev@.len() == n - i,
                forall|k: int| 0 <= k < rev@.len() ==> #[trigger] rev@[k] == orig[n - 1 - k],
                with_search(orig.subrange(0, i as int), searched@, self.pattern, self.own_pid, self.dont_hide_self),
            decreases n - i,
        {
            let mut p = rev.pop().unwrap();
            proof {
                assert(p == orig[i as int]);
            }
            let ghost before_p = p;
            let ghost prev = searched@;
            p.update_visible(&self.pattern, self.own_pid, self.dont_hide_self);
            let ghost after_p = p;
            searched.push(p);
            i = i + 1;
            proof {
                let s = orig.subrange(0, i as int);
                assert forall|j: int| 0 <= j < s.len() implies {
                    let (v, m) = #[trigger] s[j].spec_visible(self.pattern, self.own_pid, self.dont_hide_self);
                    &&& searched@[j].visible is Visible == v
                    &&& searched@[j].visible.match_seq() == m
                    &&& searched@[j].pid == s[j].pid
                    &&& searched@[j].name == s[j].name
                    &&& searched@[j].arguments == s[j].arguments
                    &&& searched@[j].parent == s[j].parent
                    &&& searched@[j].cpu == s[j].cpu
                    &&& searched@[j].ram == s[j].ram
                } by {
                    if j < i - 1 {
                        assert(s[j] == orig.subrange(0, i - 1)[j]);
                        assert(searched@[j] == prev[j]);
                        let _ = orig.subrange(0, i - 1)[j].spec_visible(self.pattern, self.own_pid, self.dont_hide_self);
                    } else {
                        assert(s[j] == before_p);
                        assert(searched@[j] == after_p);
                    }
                }
            }
        }
        proof {
            assert(orig.subrange(0, n as int) =~= orig);
        }
        let ghost searched_seq = searched@;
        let mut forest = Forest::new_forest(searched);
        let ghost f1 = forest;
        forest.sort_by(self.sort_column);
        let ghost f2 = forest;
        forest.filter();
        self.forest = forest;
        if let UiMode::ProcessSelected(selected) = self.ui_mode {
            let rows = self.forest.iter();
            let mut found = false;
            let mut k: usize = 0;
            while k < rows.len()
                invariant
                    k <= rows@.len(),
                    rows@.len() == self.forest.rows().len(),
                    forall|j: int| 0 <= j < rows@.len() ==> *rows@[j] == self.forest.rows()[j],
                    found <==> exists|j: int| 0 <= j < k && #[trigger] self.forest.rows()[j].pid == selected,
                decreases rows@.len() - k,
            {
                if rows[k].pid == selected {
                    found = true;
                }
                k = k + 1;
            }
            if !found {
                self.ui_mode = UiMode::Normal;
            }
        }
    }

    /// `cursor`, moved up onto the last row where it lies past it.
    fn clamp_cursor(&self, cursor: usize) -> (r: usize)
        requires
            self.wf(),
        ensures
            r == min(cursor as int, sat_sub(self.forest.rows().len() as int, 1)),
    {
        let last = self.forest.len().saturating_sub(1);
        if cursor < last {
            cursor
        } else {
            last
        }
    }

    fn selected_pid(&self) -> (r: Option<u32>)
        requires
            self.wf(),
        ensures
            match self.list_state.selected {
                Some(s) => if s < self.forest.rows().len() {
                    r == Some(self.forest.rows()[s as int].pid)
                } else {
                    r is None
                },
                None => r is None,
            },
    {
        match self.list_state.selected {
            Some(s) => {
                let rows = self.forest.render_forest_prefixes();
                if s < rows.len() {
                    Some(rows[s].node.pid)
                } else {
                    None
                }
            },
            None => None,
        }
    }

    /// Handles one key press: clears the error message, then moves the cursor
    /// (kept on the rows),
    /// switches mode, edits the pattern, cycles the sort column, or asks for a
    /// signal to be sent. The caller rebuilds the forest afterwards.
    pub fn update(&mut self, key: Key) -> (r: UpdateResult)
        requires
            old(self).wf(),
        ensures
            final(self).wf(),
            final(self).error_state is None,
            final(self).forest == old(self).forest,
            final(self).own_pid == old(self).own_pid,
            final(self).dont_hide_self == old(self).dont_hide_self,
            r == match (key, old(self).ui_mode) {
                (Key::CtrlC, _) | (Key::Char('q'), UiMode::Normal) => UpdateResult::Exit,
                (Key::Char('t'), UiMode::ProcessSelected(pid)) => UpdateResult::SendSignal(pid, Signal::Term),
                (Key::Char('k'), UiMode::ProcessSelected(pid)) => UpdateResult::SendSignal(pid, Signal::Kill),
                _ => UpdateResult::Continue,
            },
            final(self).ui_mode == match (key, old(self).ui_mode) {
                (Key::Enter, UiMode::EditingPattern) => UiMode::Normal,
                (Key::Enter, m) => match old(self).list_state.selected {
                    Some(s) => if s < old(self).forest.rows().len() {
                        UiMode::ProcessSelected(old(self).forest.rows()[s as int].pid)
                    } else {
                        m
                    },
                    None => m,
                },
                (Key::Char('/'), _) => UiMode::EditingPattern,
                (Key::Esc, _) => UiMode::Normal,
                (_, m) => m,
            },
            final(self).sort_column == if key == Key::Tab {
                old(self).sort_column.spec_next()
            } else {
                old(self).sort_column
            },
            final(self).list_state.offset == old(self).list_state.offset,
            final(self).list_state.selected == {
                let s = match old(self).list_state.selected {
                    Some(s) => s as int,
                    None => 0,
                };
                let last = sat_sub(old(self).forest.rows().len() as int, 1);
                match key {
                    Key::Up => Some(min(sat_sub(s, 1), last) as usize),
                    Key::PageUp => Some(min(sat_sub(s, 20), last) as usize),
                    Key::Down => Some(min(s + 1, last) as usize),
                    Key::PageDown => Some(min(s + 20, last) as usize),
                    _ => old(self).list_state.selected,
                }
            },
            match (key, old(self).ui_mode) {
                (Key::Char(c), UiMode::EditingPattern) => if c != '/' && (c as u32) < 128 {
                    final(self).pattern.denotes(old(self).pattern.text().push(c))
                } else {
                    final(self).pattern == old(self).pattern
                },
                (Key::Backspace, UiMode::EditingPattern) => final(self).pattern.denotes(
                    if old(self).pattern.text().len() == 0 {
                        old(self).pattern.text()
                    } else {
                        old(self).pattern.text().drop_last()
                    },
                ),
                _ => final(self).pattern == old(self).pattern,
            },
    {
        self.error_state = None;
        let mode = self.ui_mode;
        match key {
            Key::CtrlC => {
                return UpdateResult::Exit;
            },
            Key::Char('q') if mode == UiMode::Normal => {
                return UpdateResult::Exit;
            },
            Key::Up => {
                let s = match self.list_state.selected {
                    Some(s) => s,
                    None => 0,
                };
                self.list_state.selected = Some(self.clamp_cursor(s.saturating_sub(1)));
            },
            Key::PageUp => {
                let s = match self.list_state.selected {
                    Some(s) => s,
                    None => 0,
                };
                self.list_state.selected = Some(self.clamp_cursor(s.saturating_sub(20)));
            },
            Key::Down => {
                let s = match self.list_state.selected {
                    Some(s) => s,
                    None => 0,
                };
                self.list_state.selected = Some(self.clamp_cursor(s.saturating_add(1)));
            },
            Key::PageDown => {
                let s = match self.list_state.selected {
                    Some(s) => s,
                    None => 0,
                };
                self.list_state.selected = Some(self.clamp_cursor(s.saturating_add(20)));
            },
            Key::Enter => {
                if mode == UiMode::EditingPattern {
                    self.ui_mode = UiMode::Normal;
                } else if let Some(pid) = self.selected_pid() {
                    self.ui_mode = UiMode::ProcessSelected(pid);
                }
            },
            Key::Char('/') => {
                self.ui_mode = UiMode::EditingPattern;
            },
            Key::Tab => {
                self.sort_column = self.sort_column.next();
            },
            Key::Esc => {
                self.ui_mode = UiMode::Normal;
            },
            Key::Char(c) => {
                match mode {
                    UiMode::EditingPattern => {
                        if (c as u32) < 128 {
                            let append = |s: String| -> (t: String)
                                ensures
                                    t@ == s@.push(c),
                                {
                                    let mut s = s;
                                    push_char(&mut s, c);
                                    s
                                };
                            self.pattern.modify(append);
                        }
                    },
                    UiMode::ProcessSelected(pid) => {
                        if c == 't' {
                            return UpdateResult::SendSignal(pid, Signal::Term);
                        } else if c == 'k' {
                            return UpdateResult::SendSignal(pid, Signal::Kill);
                        }
                    },
                    UiMode::Normal => {},
                }
            },
            Key::Backspace => {
                if mode == UiMode::EditingPattern {
                    let remove = |s: String| -> (t: String)
                        ensures
                            s@.len() == 0 ==> t@ == s@,
                            s@.len() > 0 ==> t@ == s@.drop_last(),
                        {
                            let mut s = s;
                            pop_char(&mut s);
                            s
                        };
                    self.pattern.modify(remove);
                }
            },
            Key::Other => {},
        }
        UpdateResult::Continue
    }

    /// Records a transient error message, shown until the next key press.
    pub fn set_error(&mut self, message: String)
        ensures
            final(self).error_state == Some(message),
            final(self).forest == old(self).forest,
            final(self).ui_mode == old(self).ui_mode,
            final(self).pattern == old(self).pattern,
            final(self).list_state == old(self).list_state,
            final(self).sort_column == old(self).sort_column,
            final(self).own_pid == old(self).own_pid,
            final(self).dont_hide_self == old(self).dont_hide_self,
    {
        self.error_state = Some(message);
    }
}

/// The status line: the keys of the current mode, and the search pattern
/// (always while it is typed, with a cursor block; otherwise where non-empty).
pub open spec fn status_text(mode: UiMode, pattern: Seq<char>) -> Seq<char> {
    let with_pattern = if pattern.len() > 0 {
        " | search pattern: "@ + pattern
    } else {
        Seq::empty()
    };
    match mode {
        UiMode::Normal => "Ctrl+C: Quit | ↑↓ : scroll | ENTER: select process | /: filter processes"@
            + with_pattern,
        UiMode::EditingPattern => "Ctrl+C: Quit | ↑↓ : scroll | ENTER: select process | ESC: exit search mode | type search pattern: "@
            + pattern + "▌"@,
        UiMode::ProcessSelected(_) => "Ctrl+C: Quit | ↑↓ : scroll | t: SIGTERM process | k: SIGKILL process | ESC: unselect | ENTER: select other"@
            + with_pattern,
    }
}

/// The status line for `mode` and the pattern text `pattern`.
pub fn status_line(mode: UiMode, pattern: &str) -> (r: String)
    ensures
        r@ == status_text(mode, pattern@),
{
    let mut line = String::new();
    match mode {
        UiMode::Normal => {
            push_text(&mut line, "Ctrl+C: Quit | ↑↓ : scroll | ENTER: select process | /: filter processes");
        },
        UiMode::EditingPattern => {
            push_text(&mut line, "Ctrl+C: Quit | ↑↓ : scroll | ENTER: select process | ESC: exit search mode | type search pattern: ");
            push_text(&mut line, pattern);
            push_text(&mut line, "▌");
        },
        UiMode::ProcessSelected(_) => {
            push_text(&mut line, "Ctrl+C: Quit | ↑↓ : scroll | t: SIGTERM process | k: SIGKILL process | ESC: unselect | ENTER: select other");
        },
    }
    if mode != UiMode::EditingPattern && !pattern.is_empty() {
        push_text(&mut line, " | search pattern: ");
        push_text(&mut line, pattern);
    }
    proof {
        assert(line@ =~= status_text(mode, pattern@));
    }
    line
}

} // verus!
