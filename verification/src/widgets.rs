use vstd::prelude::*;

use crate::frontmatter::{split_lines, split_lines_exec, trim_spec, trim_str, vviews};
use crate::graph::filter_tasks;
use crate::order::stably_sorted;
use crate::service::{child_count, child_of, done_count, epic_progress, ids_of};
use crate::task::{Status, Task, TaskType, TaskView, Timestamp, priority_keys, str_views, task_views};
use crate::taskmap::{TaskMap, lookup};
use crate::text::{decimal, decimal_spec, joined, push_all, string_of};
use crate::tui::{FocusPane, Filter, Mode, ModeView, indicator, status_at};

verus! {

// ── Text inputs ─────────────────────────────────────────────────────

/// `input` fitted into `width` columns by character count: when it is
/// longer and there is room for more than the marker, `…` followed by its
/// last `width - 1` characters; otherwise unchanged.
pub open spec fn fitted(input: Seq<char>, width: nat) -> Seq<char> {
    if input.len() > width && width > 1 {
        seq!['…'] + input.subrange(input.len() - (width - 1), input.len() as int)
    } else {
        input
    }
}

/// Fits `input` into `inner_width` columns (see `fitted`), counting
/// characters so that multi-byte text is never cut inside a character.
pub fn truncate_input_for_display(input: &str, inner_width: usize) -> (r: String)
    ensures
        r@ == fitted(input@, inner_width as nat),
{
    let n = input.unicode_len();
    if n > inner_width && inner_width > 1 {
        let tail = inner_width - 1;
        let mut v: Vec<char> = Vec::new();
        v.push('…');
        for i in n - tail..n
            invariant
                n == input@.len(),
                tail < n,
                v@ == seq!['…'] + input@.subrange(n - tail, i as int),
        {
            v.push(input.get_char(i));
            assert(v@ =~= seq!['…'] + input@.subrange(n - tail, i + 1));
        }
        string_of(&v)
    } else {
        input.to_string()
    }
}

/// A centered text-input box.
pub struct InputModalWidget {
    pub title: String,
    pub input: String,
}

impl InputModalWidget {
    /// A box with this title holding this input.
    pub fn new(title: &str, input: &str) -> (w: InputModalWidget)
        ensures
            w.title@ == title@,
            w.input@ == input@,
    {
        InputModalWidget { title: title.to_string(), input: input.to_string() }
    }

    /// The text shown in a box `inner_width` columns wide.
    pub fn display_text(&self, inner_width: usize) -> (r: String)
        ensures
            r@ == fitted(self.input@, inner_width as nat),
    {
        truncate_input_for_display(self.input.as_str(), inner_width)
    }
}

/// A text-input prompt at the bottom of the screen.
pub struct InputPromptWidget {
    pub title: String,
    pub input: String,
}

impl InputPromptWidget {
    /// A prompt with this title holding this input.
    pub fn new(title: &str, input: &str) -> (w: InputPromptWidget)
        ensures
            w.title@ == title@,
            w.input@ == input@,
    {
        InputPromptWidget { title: title.to_string(), input: input.to_string() }
    }

    /// The text shown in a prompt `inner_width` columns wide.
    pub fn display_text(&self, inner_width: usize) -> (r: String)
        ensures
            r@ == fitted(self.input@, inner_width as nat),
    {
        truncate_input_for_display(self.input.as_str(), inner_width)
    }
}

// ── Status picker ───────────────────────────────────────────────────

/// The status picker.
pub struct StatusModalWidget {
    pub selected: usize,
}

/// Entry `i` of the status picker: a marker on the selected entry, then the
/// status name.
pub open spec fn status_item(i: int, selected: usize) -> Seq<char> {
    (if i == selected {
        "▶ "@
    } else {
        "  "@
    }) + status_at(i).label()
}

impl StatusModalWidget {
    /// A picker with this entry selected.
    pub fn new(selected: usize) -> (w: StatusModalWidget)
        ensures
            w.selected == selected,
    {
        StatusModalWidget { selected }
    }

    /// The picker's entries, one per status in pick-list order.
    pub fn items(&self) -> (r: Vec<String>)
        ensures
            r@.len() == 5,
            forall|i: int| 0 <= i < 5 ==> #[trigger] r@[i]@ == status_item(i, self.selected),
    {
        let mut r: Vec<String> = Vec::new();
        for i in 0..5usize
            invariant
                r@.len() == i,
                forall|k: int| 0 <= k < i ==> #[trigger] r@[k]@ == status_item(k, self.selected),
        {
            let mut s = String::new();
            if i == self.selected {
                push_all(&mut s, "▶ ");
            } else {
                push_all(&mut s, "  ");
            }
            let l = crate::tui::status_at_exec(i).to_string();
            push_all(&mut s, l.as_str());
            r.push(s);
        }
        r
    }
}

// ── Bottom bar ──────────────────────────────────────────────────────

/// The key hints of the bottom bar, with the text they stand for.
pub struct BottomBarWidget {
    pub mode: Mode,
    pub focus: FocusPane,
    pub show_all: bool,
    pub error_message: Option<String>,
}

/// The hints for a mode, focus and show-all setting, as (key, description)
/// pairs.
pub open spec fn hints_for(mode: ModeView, focus: FocusPane, show_all: bool) -> Seq<(Seq<char>, Seq<char>)> {
    match mode {
        ModeView::Normal => seq![
            ("q"@, "quit"@),
            ("Tab"@, "switch pane"@),
            ("j/k"@, if focus == FocusPane::List { "navigate"@ } else { "scroll"@ }),
            ("e"@, "edit"@),
            ("c"@, "create"@),
            ("s"@, "status"@),
            ("d"@, "delete"@),
            ("/"@, "filter"@),
            ("a"@, if show_all { "hide done"@ } else { "show all"@ }),
        ],
        ModeView::StatusSelect { .. } => seq![("Esc"@, "cancel"@), ("j/k"@, "navigate"@), ("Enter"@, "confirm"@)],
        ModeView::CreateInput { .. } => seq![("Esc"@, "cancel"@), ("Enter"@, "create"@)],
        ModeView::FilterInput { .. } => seq![("Esc"@, "cancel"@), ("Enter"@, "apply"@)],
        ModeView::ConfirmDelete { .. } => seq![("y"@, "confirm delete"@), ("any"@, "cancel"@)],
    }
}

/// The width that hint `i` of `hs` takes: ` key ` and ` desc `, and one
/// separator unless it is the last.
pub open spec fn hint_width(hs: Seq<(Seq<char>, Seq<char>)>, i: int) -> int {
    hs[i].0.len() + 2 + hs[i].1.len() + 2 + if i < hs.len() - 1 {
        1int
    } else {
        0int
    }
}

/// The total width of the first `k` hints.
pub open spec fn hints_width(hs: Seq<(Seq<char>, Seq<char>)>, k: int) -> int
    decreases k,
{
    if k <= 0 {
        0
    } else {
        hints_width(hs, k - 1) + hint_width(hs, k - 1)
    }
}

/// How many hints fit into `max` columns: the longest run from the start
/// whose total width is at most `max`.
pub open spec fn fitting(hs: Seq<(Seq<char>, Seq<char>)>, max: int, k: int) -> bool {
    &&& 0 <= k <= hs.len()
    &&& hints_width(hs, k) <= max
    &&& (k == hs.len() || hints_width(hs, k + 1) > max)
}

impl BottomBarWidget {
    /// The bar for this mode, focus, filter and error message.
    pub fn new(mode: &Mode, focus: &FocusPane, filter: &Filter, error_message: Option<&str>) -> (w: BottomBarWidget)
        ensures
            w.mode.view() == mode.view(),
            w.focus == *focus,
            w.show_all == filter.show_all,
            crate::task::opt_str_view(w.error_message) == crate::task::opt_view(error_message),
    {
        let m = match mode {
            Mode::Normal => Mode::Normal,
            Mode::StatusSelect { task_id, selected } => Mode::StatusSelect { task_id: task_id.clone(), selected: *selected },
            Mode::CreateInput { input } => Mode::CreateInput { input: input.clone() },
            Mode::FilterInput { input } => Mode::FilterInput { input: input.clone() },
            Mode::ConfirmDelete { task_id, title } => Mode::ConfirmDelete { task_id: task_id.clone(), title: title.clone() },
        };
        let e = match error_message {
            Some(s) => Some(s.to_string()),
            None => None,
        };
        BottomBarWidget { mode: m, focus: *focus, show_all: filter.show_all, error_message: e }
    }

    /// The hints for the bar's mode (see `hints_for`).
    pub fn hints(&self) -> (r: Vec<(String, String)>)
        ensures
            hint_views(r@) == hints_for(self.mode.view(), self.focus, self.show_all),
    {
        let mut r: Vec<(String, String)> = Vec::new();
        match &self.mode {
            Mode::Normal => {
                r.push(("q".to_string(), "quit".to_string()));
                r.push(("Tab".to_string(), "switch pane".to_string()));
                let nav = match self.focus {
                    FocusPane::List => "navigate",
                    FocusPane::Detail => "scroll",
                };
                r.push(("j/k".to_string(), nav.to_string()));
                r.push(("e".to_string(), "edit".to_string()));
                r.push(("c".to_string(), "create".to_string()));
                r.push(("s".to_string(), "status".to_string()));
                r.push(("d".to_string(), "delete".to_string()));
                r.push(("/".to_string(), "filter".to_string()));
                let a = if self.show_all { "hide done" } else { "show all" };
                r.push(("a".to_string(), a.to_string()));
            },
            Mode::StatusSelect { .. } => {
                r.push(("Esc".to_string(), "cancel".to_string()));
                r.push(("j/k".to_string(), "navigate".to_string()));
                r.push(("Enter".to_string(), "confirm".to_string()));
            },
            Mode::CreateInput { .. } => {
                r.push(("Esc".to_string(), "cancel".to_string()));
                r.push(("Enter".to_string(), "create".to_string()));
            },
            Mode::FilterInput { .. } => {
                r.push(("Esc".to_string(), "cancel".to_string()));
                r.push(("Enter".to_string(), "apply".to_string()));
            },
            Mode::ConfirmDelete { .. } => {
                r.push(("y".to_string(), "confirm delete".to_string()));
                r.push(("any".to_string(), "cancel".to_string()));
            },
        }
        assert(hint_views(r@) =~= hints_for(self.mode.view(), self.focus, self.show_all));
        r
    }

    /// The hints that fit into `max_width` columns, from the first on (see
    /// `fitting`). All hint texts are ASCII, so characters are columns.
    pub fn visible_hints(&self, max_width: usize) -> (r: Vec<(String, String)>)
        ensures
            hint_views(r@) == hints_for(self.mode.view(), self.focus, self.show_all).take(r@.len() as int),
            fitting(hints_for(self.mode.view(), self.focus, self.show_all), max_width as int, r@.len() as int),
    {
        let hs = self.hints();
        let ghost hv = hint_views(hs@);
        let n = hs.len();
        let mut used: usize = 0;
        let mut k: usize = 0;
        let mut stop = false;
        while k < n && !stop
            invariant
                hv == hint_views(hs@),
                n == hv.len(),
                k <= n,
                used == hints_width(hv, k as int),
                used <= max_width,
                stop ==> k < n && hints_width(hv, k + 1) > max_width,
            decreases n - k + (if stop { 0int } else { 1int }),
        {
            let kl = hs[k].0.unicode_len();
            let dl = hs[k].1.unicode_len();
            let sep: usize = if k < n - 1 { 1 } else { 0 };
            let rem = max_width - used;
            if kl > rem || dl > rem - kl || 4 + sep > rem - kl - dl {
                stop = true;
            } else {
                used = used + (kl + dl + 4 + sep);
                k = k + 1;
            }
        }
        let mut r: Vec<(String, String)> = Vec::new();
        for i in 0..k
            invariant
                hv == hint_views(hs@),
                k <= hs@.len(),
                r@.len() == i,
                forall|j: int| #![trigger r@[j]] 0 <= j < i ==> r@[j].0@ == hv[j].0 && r@[j].1@ == hv[j].1,
        {
            r.push((hs[i].0.clone(), hs[i].1.clone()));
        }
        assert(hint_views(r@) =~= hv.take(k as int));
        r
    }
}

/// The text segments of the first `k` of the hints `hs`: ` key ` and
/// ` desc ` for each, with a one-space separator after every hint but the
/// last of `hs`.
pub open spec fn hint_segments(hs: Seq<(Seq<char>, Seq<char>)>, k: int) -> Seq<Seq<char>>
    decreases k,
{
    if k <= 0 {
        Seq::empty()
    } else {
        hint_segments(hs, k - 1) + seq![" "@ + hs[k - 1].0 + " "@, " "@ + hs[k - 1].1 + " "@] + if k - 1 < hs.len()
            - 1 {
            seq![" "@]
        } else {
            Seq::<Seq<char>>::empty()
        }
    }
}

/// The segments of an error bar: the ` ERROR ` badge and the message.
pub open spec fn error_segments(m: Seq<char>) -> Seq<Seq<char>> {
    seq![" ERROR "@, " "@ + m + " "@]
}

impl BottomBarWidget {
    /// The text of the bar in `max_width` columns, as segments: the error
    /// when there is one, else the hints that fit (see `fitting` and
    /// `hint_segments`).
    pub fn segments(&self, max_width: usize) -> (r: Vec<String>)
        ensures
            match self.error_message {
                Some(m) => crate::text::string_views(r@) == error_segments(m@),
                None => exists|k: int|
                    fitting(hints_for(self.mode.view(), self.focus, self.show_all), max_width as int, k)
                        && #[trigger] crate::text::string_views(r@) == hint_segments(
                        hints_for(self.mode.view(), self.focus, self.show_all),
                        k,
                    ),
            },
    {
        let mut r: Vec<String> = Vec::new();
        match &self.error_message {
            Some(m) => {
                r.push(" ERROR ".to_string());
                let mut t = " ".to_string();
                push_all(&mut t, m.as_str());
                push_all(&mut t, " ");
                r.push(t);
                assert(crate::text::string_views(r@) =~= error_segments(m@));
                r
            },
            None => {
                let hs = self.hints();
                let vis = self.visible_hints(max_width);
                let ghost hv = hint_views(hs@);
                let n = hs.len();
                let k = vis.len();
                for i in 0..k
                    invariant
                        hv == hint_views(hs@),
                        hv == hints_for(self.mode.view(), self.focus, self.show_all),
                        n == hv.len(),
                        k == vis@.len(),
                        k <= n,
                        hint_views(vis@) == hv.take(k as int),
                        crate::text::string_views(r@) == hint_segments(hv, i as int),
                {
                    assert(hint_views(vis@)[i as int] == hv[i as int]);
                    let ghost before = crate::text::string_views(r@);
                    let mut a = " ".to_string();
                    push_all(&mut a, vis[i].0.as_str());
                    push_all(&mut a, " ");
                    let mut b = " ".to_string();
                    push_all(&mut b, vis[i].1.as_str());
                    push_all(&mut b, " ");
                    r.push(a);
                    r.push(b);
                    if i < n - 1 {
                        r.push(" ".to_string());
                    }
                    assert(crate::text::string_views(r@) =~= hint_segments(hv, i + 1));
                }
                r
            },
        }
    }
}

/// The (key, description) texts of a list of hints.
pub open spec fn hint_views(v: Seq<(String, String)>) -> Seq<(Seq<char>, Seq<char>)> {
    v.map_values(|h: (String, String)| (h.0@, h.1@))
}

// ── Body ────────────────────────────────────────────────────────────

/// A line with a trailing carriage return removed.
pub open spec fn strip_cr(l: Seq<char>) -> Seq<char> {
    if l.len() > 0 && l.last() == '\r' {
        l.drop_last()
    } else {
        l
    }
}

/// `str::lines`: the pieces between line feeds, each without a carriage
/// return before its line feed, and no empty piece after a final line feed.
pub open spec fn text_lines(s: Seq<char>) -> Seq<Seq<char>> {
    let ls = split_lines(s);
    let inner = Seq::new((ls.len() - 1) as nat, |i: int| strip_cr(ls[i]));
    if ls.last().len() == 0 {
        inner
    } else {
        inner.push(ls.last())
    }
}

/// The rule between the task information and its body.
pub open spec fn body_rule() -> Seq<char> {
    "───────────────────────────────"@
}

/// The body of a task as shown in the detail pane.
pub struct BodyWidget {
    pub body: String,
}

proof fn lemma_split_lines_nonempty(s: Seq<char>)
    ensures
        split_lines(s).len() >= 1,
    decreases s.len(),
{
    if s.len() > 0 {
        lemma_split_lines_nonempty(s.drop_last());
    }
}

impl BodyWidget {
    /// A body widget for this text.
    pub fn new(body: &str) -> (w: BodyWidget)
        ensures
            w.body@ == body@,
    {
        BodyWidget { body: body.to_string() }
    }

    /// Nothing for a blank body; otherwise a blank line, a rule, a blank
    /// line, and the body's lines.
    pub fn lines(&self) -> (r: Vec<String>)
        ensures
            crate::text::string_views(r@) == (if trim_spec(self.body@).len() == 0 {
                Seq::<Seq<char>>::empty()
            } else {
                seq![Seq::<char>::empty(), body_rule(), Seq::<char>::empty()] + text_lines(self.body@)
            }),
    {
        let t = trim_str(self.body.as_str());
        let mut r: Vec<String> = Vec::new();
        if t.unicode_len() == 0 {
            assert(crate::text::string_views(r@) =~= Seq::<Seq<char>>::empty());
            return r;
        }
        r.push(String::new());
        r.push("───────────────────────────────".to_string());
        r.push(String::new());
        let cs = crate::text::chars_of(self.body.as_str());
        let ls = split_lines_exec(&cs);
        let ghost lv = vviews(ls@);
        proof {
            lemma_split_lines_nonempty(self.body@);
        }
        let n = ls.len();
        for i in 0..n - 1
            invariant
                lv == vviews(ls@),
                lv == split_lines(self.body@),
                n == lv.len(),
                n >= 1,
                r@.len() == 3 + i,
                r@[0]@ == Seq::<char>::empty(),
                r@[1]@ == body_rule(),
                r@[2]@ == Seq::<char>::empty(),
                forall|k: int| 0 <= k < i ==> #[trigger] r@[3 + k]@ == strip_cr(lv[k]),
        {
            let line = &ls[i];
            let m = line.len();
            let mut v: Vec<char> = Vec::new();
            let keep = if m > 0 && line[m - 1] == '\r' { m - 1 } else { m };
            for j in 0..keep
                invariant
                    keep <= m,
                    m == line@.len(),
                    v@ == line@.subrange(0, j as int),
            {
                v.push(line[j]);
                assert(v@ =~= line@.subrange(0, j + 1));
            }
            assert(v@ =~= strip_cr(line@));
            let ghost before = r@;
            r.push(string_of(&v));
            assert(forall|k: int| 0 <= k < 3 + i ==> r@[k] == before[k]);
        }
        let last = &ls[n - 1];
        if last.len() > 0 {
            r.push(string_of(last));
        }
        proof {
            let expect = seq![Seq::<char>::empty(), body_rule(), Seq::<char>::empty()] + text_lines(self.body@);
            assert(crate::text::string_views(r@) =~= expect) by {
                assert forall|k: int| 0 <= k < expect.len() implies crate::text::string_views(r@)[k] == expect[k] by {
                    if k < 3 {
                    } else if k < 3 + n - 1 {
                        assert(r@[3 + (k - 3)]@ == strip_cr(lv[k - 3]));
                    }
                }
            }
        }
        r
    }
}

// ── Task information ────────────────────────────────────────────────

/// What `chrono` prints for a UTC time with the pattern
/// `%Y-%m-%d %H:%M`, or `None` when the seconds and nanoseconds name no time.
pub uninterp spec fn minute_stamp(secs: i64, nanos: u32) -> Option<Seq<char>>;

/// `DateTime::from_timestamp` and `format("%Y-%m-%d %H:%M")`: the printed
/// time as named by `minute_stamp`, or `None` for an out-of-range time.
#[verifier::external_body]
fn format_minutes(t: Timestamp) -> (r: Option<String>)
    ensures
        match r {
            Some(s) => minute_stamp(t.secs, t.nanos) == Some(s@),
            None => minute_stamp(t.secs, t.nanos).is_none(),
        },
{
    match chrono::DateTime::from_timestamp(t.secs, t.nanos) {
        Some(d) => Some(d.format("%Y-%m-%d %H:%M").to_string()),
        None => None,
    }
}

/// A time as the task information shows it: to the minute, or nothing for
/// a time out of range.
pub open spec fn stamp_text(t: Timestamp) -> Seq<char> {
    match minute_stamp(t.secs, t.nanos) {
        Some(s) => s,
        None => Seq::<char>::empty(),
    }
}

/// The status as the task information shows it: with `(done/total)` for an
/// epic.
pub open spec fn status_text(t: TaskView, done: nat, total: nat) -> Seq<char> {
    if t.task_type == TaskType::Epic {
        t.status.label() + " ("@ + decimal_spec(done) + "/"@ + decimal_spec(total) + ")"@
    } else {
        t.status.label()
    }
}

/// The rows of the task information, as (label, value) pairs: the title
/// (no label), a blank row, status, priority, the type for an epic, tags,
/// assignee and parent when present, and the two times.
pub open spec fn info_rows(t: TaskView, done: nat, total: nat) -> Seq<(Seq<char>, Seq<char>)> {
    seq![(Seq::<char>::empty(), t.title), (Seq::<char>::empty(), Seq::<char>::empty())]
        + seq![("Status:   "@, status_text(t, done, total)), ("Priority: "@, t.priority.label())]
        + (if t.task_type == TaskType::Epic { seq![("Type:     "@, "epic"@)] } else { Seq::empty() })
        + (if t.tags.len() > 0 { seq![("Tags:     "@, joined(t.tags, ", "@))] } else { Seq::empty() })
        + (if t.assignee.len() > 0 { seq![("Assignee: "@, t.assignee)] } else { Seq::empty() })
        + (match t.parent {
        Some(p) => seq![("Parent:   "@, p)],
        None => Seq::empty(),
    }) + seq![("Created:  "@, stamp_text(t.created)), ("Updated:  "@, stamp_text(t.updated))]
}

/// The information block of the detail pane.
pub struct TaskInfoWidget<'a> {
    pub task: &'a Task,
    pub task_map: &'a TaskMap,
}

fn stamp_exec(t: Timestamp) -> (s: String)
    ensures
        s@ == stamp_text(t),
{
    match format_minutes(t) {
        Some(s) => s,
        None => String::new(),
    }
}

fn row(label: &str, value: String) -> (r: (String, String))
    ensures
        r.0@ == label@,
        r.1@ == value@,
{
    (label.to_string(), value)
}

impl<'a> TaskInfoWidget<'a> {
    /// The information block for `task`, with the tasks that give an
    /// epic its progress.
    pub fn new(task: &'a Task, task_map: &'a TaskMap) -> (w: TaskInfoWidget<'a>)
        ensures
            w.task == task,
            w.task_map == task_map,
    {
        TaskInfoWidget { task, task_map }
    }

    /// The rows of the block (see `info_rows`), with an epic's progress
    /// counted among the tasks of the map.
    pub fn lines(&self) -> (r: Vec<(String, String)>)
        ensures
            hint_views(r@) == info_rows(
                self.task@,
                done_count(self.task_map.view(), self.task@.id),
                child_count(self.task_map.view(), self.task@.id),
            ),
    {
        let t = self.task;
        let p = epic_progress(self.task_map, t.id.as_str());
        let ghost tv = t@;
        proof {
            reveal_strlit("");
        }
        let ghost done = done_count(self.task_map.view(), tv.id);
        let ghost total = child_count(self.task_map.view(), tv.id);
        let mut r: Vec<(String, String)> = Vec::new();
        r.push(row("", t.title.clone()));
        r.push(row("", String::new()));
        let mut st = t.status.to_string();
        if t.task_type.is_epic() {
            push_all(&mut st, " (");
            let d = decimal(p.done as u64);
            push_all(&mut st, d.as_str());
            push_all(&mut st, "/");
            let n = decimal(p.total as u64);
            push_all(&mut st, n.as_str());
            push_all(&mut st, ")");
        }
        assert(st@ == status_text(tv, done, total));
        r.push(row("Status:   ", st));
        r.push(row("Priority: ", t.priority.to_string()));
        let ghost a = seq![(Seq::<char>::empty(), tv.title), (Seq::<char>::empty(), Seq::<char>::empty())]
            + seq![("Status:   "@, status_text(tv, done, total)), ("Priority: "@, tv.priority.label())];
        assert(r@.len() == 4);
        assert(hint_views(r@)[0] == a[0]);
        assert(hint_views(r@)[1] == a[1]);
        assert(hint_views(r@)[2] == a[2]);
        assert(hint_views(r@)[3] == a[3]);
        assert(hint_views(r@) =~= a);
        let ghost b = if tv.task_type == TaskType::Epic { seq![("Type:     "@, "epic"@)] } else { Seq::<(Seq<char>, Seq<char>)>::empty() };
        if t.task_type.is_epic() {
            r.push(row("Type:     ", "epic".to_string()));
        }
        assert(hint_views(r@) =~= a + b);
        let ghost c = if tv.tags.len() > 0 { seq![("Tags:     "@, joined(tv.tags, ", "@))] } else { Seq::<(Seq<char>, Seq<char>)>::empty() };
        if t.tags.len() > 0 {
            r.push(row("Tags:     ", crate::text::join_strings(&t.tags, ", ")));
        }
        assert(hint_views(r@) =~= a + b + c);
        let ghost d = if tv.assignee.len() > 0 { seq![("Assignee: "@, tv.assignee)] } else { Seq::<(Seq<char>, Seq<char>)>::empty() };
        if t.assignee.unicode_len() > 0 {
            r.push(row("Assignee: ", t.assignee.clone()));
        }
        assert(hint_views(r@) =~= a + b + c + d);
        let ghost e = match tv.parent {
            Some(q) => seq![("Parent:   "@, q)],
            None => Seq::<(Seq<char>, Seq<char>)>::empty(),
        };
        match &t.parent {
            Some(q) => {
                r.push(row("Parent:   ", q.clone()));
            },
            None => {},
        }
        assert(hint_views(r@) =~= a + b + c + d + e);
        r.push(row("Created:  ", stamp_exec(t.created)));
        r.push(row("Updated:  ", stamp_exec(t.updated)));
        assert(hint_views(r@) =~= a + b + c + d + e + seq![("Created:  "@, stamp_text(tv.created)), ("Updated:  "@, stamp_text(tv.updated))]);
        r
    }
}

// ── Dependencies ────────────────────────────────────────────────────

/// The line for a dependency: its status symbol, ID and title, or its ID
/// marked unavailable when no task has it.
pub open spec fn dep_line(ts: Seq<TaskView>, id: Seq<char>) -> Seq<char> {
    match lookup(ts, id) {
        Some(d) => "  "@ + indicator(d.status) + " ["@ + d.id + "] "@ + d.title,
        None => "  ["@ + id + "] (unavailable)"@,
    }
}


// ── Subtasks ────────────────────────────────────────────────────────

/// The children of `pid` among the tasks, in entry order.
pub open spec fn kids_of(ts: Seq<TaskView>, pid: Seq<char>) -> Seq<TaskView> {
    filter_tasks(ts, child_of(pid))
}

/// The children of `pid`, stably sorted by priority and then creation time
/// (there is exactly one such list; see `lemma_stably_sorted_unique`).
pub open spec fn sorted_kids(ts: Seq<TaskView>, pid: Seq<char>) -> Seq<TaskView> {
    choose|k: Seq<TaskView>| stably_sorted(kids_of(ts, pid), priority_keys(kids_of(ts, pid)), k)
}

/// How many of `ids` are not in `seen`, counted with repetition.
pub open spec fn unseen(ids: Seq<Seq<char>>, seen: Set<Seq<char>>) -> nat
    decreases ids.len(),
{
    if ids.len() == 0 {
        0
    } else {
        unseen(ids.drop_last(), seen) + if seen.contains(ids.last()) {
            0nat
        } else {
            1nat
        }
    }
}

/// Seeing more leaves no more unseen.
pub proof fn lemma_unseen_mono(ids: Seq<Seq<char>>, a: Set<Seq<char>>, b: Set<Seq<char>>)
    requires
        a.subset_of(b),
    ensures
        unseen(ids, b) <= unseen(ids, a),
    decreases ids.len(),
{
    if ids.len() > 0 {
        lemma_unseen_mono(ids.drop_last(), a, b);
    }
}

/// Seeing one more of the IDs leaves fewer unseen.
pub proof fn lemma_unseen_insert(ids: Seq<Seq<char>>, s: Set<Seq<char>>, x: Seq<char>)
    requires
        ids.contains(x),
        !s.contains(x),
    ensures
        unseen(ids, s.insert(x)) < unseen(ids, s),
    decreases ids.len(),
{
    lemma_unseen_mono(ids.drop_last(), s, s.insert(x));
    if ids.last() != x {
        let k = choose|k: int| 0 <= k < ids.len() && ids[k] == x;
        assert(ids.drop_last()[k] == x);
        lemma_unseen_insert(ids.drop_last(), s, x);
    }
}

/// The connector in front of a child: the last child closes the branch.
pub open spec fn connector(last: bool) -> Seq<char> {
    if last {
        "└─ "@
    } else {
        "├─ "@
    }
}

/// The indentation under a child that is an epic.
pub open spec fn branch_pad(last: bool) -> Seq<char> {
    (if last {
        " "@
    } else {
        "│"@
    }) + "  "@
}

/// The line of a row of the subtask tree.
pub open spec fn row_line(r: (Seq<char>, TaskView)) -> Seq<char> {
    r.0 + indicator(r.1.status) + " ["@ + r.1.id + "] "@ + r.1.title
}

/// The lines of rows of the subtask tree.
pub open spec fn row_lines(rows: Seq<(Seq<char>, TaskView)>) -> Seq<Seq<char>> {
    rows.map_values(|r: (Seq<char>, TaskView)| row_line(r))
}

/// The tree rows for the children `kids` from position `i` on, under
/// `prefix`, skipping tasks already `seen` and expanding epics into their
/// own (sorted) children; with the tasks seen afterwards. The two guards
/// that give up never apply to children taken from `ts` (see
/// `lemma_render_grows`); they make the definition's termination evident.
pub open spec fn render_kids(
    ts: Seq<TaskView>,
    kids: Seq<TaskView>,
    i: int,
    prefix: Seq<char>,
    seen: Set<Seq<char>>,
) -> (Seq<(Seq<char>, TaskView)>, Set<Seq<char>>)
    decreases unseen(ids_of(ts), seen), kids.len() - i,
{
    if i < 0 || i >= kids.len() {
        (Seq::empty(), seen)
    } else if seen.contains(kids[i].id) {
        render_kids(ts, kids, i + 1, prefix, seen)
    } else if !ids_of(ts).contains(kids[i].id) {
        (Seq::empty(), seen)
    } else {
        let c = kids[i];
        let last = i == kids.len() - 1;
        let seen1 = seen.insert(c.id);
        proof {
            lemma_unseen_insert(ids_of(ts), seen, c.id);
        }
        let sub = if c.task_type == TaskType::Epic {
            render_kids(ts, sorted_kids(ts, c.id), 0, prefix + branch_pad(last), seen1)
        } else {
            (Seq::<(Seq<char>, TaskView)>::empty(), seen1)
        };
        if !seen1.subset_of(sub.1) {
            (Seq::empty(), seen)
        } else {
            proof {
                lemma_unseen_mono(ids_of(ts), seen1, sub.1);
            }
            let rest = render_kids(ts, kids, i + 1, prefix, sub.1);
            (seq![(prefix + connector(last), c)] + sub.0 + rest.0, rest.1)
        }
    }
}


/// Rendering only ever adds to the tasks seen.
pub proof fn lemma_render_grows(
    ts: Seq<TaskView>,
    kids: Seq<TaskView>,
    i: int,
    prefix: Seq<char>,
    seen: Set<Seq<char>>,
)
    ensures
        seen.subset_of(render_kids(ts, kids, i, prefix, seen).1),
    decreases unseen(ids_of(ts), seen), kids.len() - i,
{
    if i < 0 || i >= kids.len() {
    } else if seen.contains(kids[i].id) {
        lemma_render_grows(ts, kids, i + 1, prefix, seen);
    } else if !ids_of(ts).contains(kids[i].id) {
    } else {
        let c = kids[i];
        let last = i == kids.len() - 1;
        let seen1 = seen.insert(c.id);
        lemma_unseen_insert(ids_of(ts), seen, c.id);
        if c.task_type == TaskType::Epic {
            lemma_render_grows(ts, sorted_kids(ts, c.id), 0, prefix + branch_pad(last), seen1);
        }
        let sub = if c.task_type == TaskType::Epic {
            render_kids(ts, sorted_kids(ts, c.id), 0, prefix + branch_pad(last), seen1)
        } else {
            (Seq::<(Seq<char>, TaskView)>::empty(), seen1)
        };
        lemma_unseen_mono(ids_of(ts), seen1, sub.1);
        lemma_render_grows(ts, kids, i + 1, prefix, sub.1);
    }
}

/// Every task that a filter keeps is one of the tasks.
proof fn lemma_filter_members(ts: Seq<TaskView>, f: spec_fn(TaskView) -> bool)
    ensures
        forall|m: int| 0 <= m < filter_tasks(ts, f).len() ==> ts.contains(#[trigger] filter_tasks(ts, f)[m]),
    decreases ts.len(),
{
    if ts.len() > 0 {
        lemma_filter_members(ts.drop_last(), f);
        let r = filter_tasks(ts.drop_last(), f);
        assert forall|m: int| 0 <= m < filter_tasks(ts, f).len() implies ts.contains(#[trigger] filter_tasks(ts, f)[m]) by {
            if m < r.len() {
                assert(r[m] == filter_tasks(ts, f)[m]);
                assert(ts.drop_last().contains(r[m]));
                let q = choose|q: int| 0 <= q < ts.drop_last().len() && ts.drop_last()[q] == r[m];
                assert(ts[q] == r[m]);
            } else {
                assert(filter_tasks(ts, f)[m] == ts.last());
                assert(ts[ts.len() - 1] == ts.last());
            }
        }
    }
}

/// A stable sort of the children is the sorted children, and it holds
/// only tasks of the list.
proof fn lemma_sorted_kids(ts: Seq<TaskView>, pid: Seq<char>, k: Seq<TaskView>)
    requires
        stably_sorted(kids_of(ts, pid), priority_keys(kids_of(ts, pid)), k),
    ensures
        sorted_kids(ts, pid) == k,
        forall|j: int| 0 <= j < k.len() ==> ids_of(ts).contains(#[trigger] k[j].id),
{
    let src = kids_of(ts, pid);
    let c = sorted_kids(ts, pid);
    assert(stably_sorted(src, priority_keys(src), c));
    crate::order::lemma_stably_sorted_unique(src, priority_keys(src), c, k);
    lemma_filter_members(ts, child_of(pid));
    let order = choose|order: Seq<usize>|
        crate::order::is_stable_order(priority_keys(src), order) && k.len() == src.len() && forall|q: int|
            0 <= q < k.len() ==> #[trigger] k[q] == src[order[q] as int];
    assert forall|j: int| 0 <= j < k.len() implies ids_of(ts).contains(#[trigger] k[j].id) by {
        assert(k[j] == src[order[j] as int]);
        assert(order[j] < priority_keys(src).len());
        assert(ts.contains(src[order[j] as int]));
        let q = choose|q: int| 0 <= q < ts.len() && ts[q] == src[order[j] as int];
        assert(ids_of(ts)[q] == k[j].id);
    }
}

/// The IDs held in a list of strings, as a set.
pub open spec fn seen_set(v: Seq<String>) -> Set<Seq<char>> {
    Set::new(|x: Seq<char>| exists|k: int| 0 <= k < v.len() && #[trigger] v[k]@ == x)
}

/// Appends to `lines` the tree lines for the children of `pid` under
/// `prefix` (see `render_kids`), adding the tasks shown to `seen`.
fn render_children(map: &TaskMap, pid: &str, prefix: &str, seen: &mut Vec<String>, lines: &mut Vec<String>)
    ensures
        crate::text::string_views(final(lines)@) == crate::text::string_views(old(lines)@) + row_lines(render_kids(
            map.view(),
            sorted_kids(map.view(), pid@),
            0,
            prefix@,
            seen_set(old(seen)@),
        ).0),
        seen_set(final(seen)@) == render_kids(map.view(), sorted_kids(map.view(), pid@), 0, prefix@, seen_set(old(seen)@)).1,
    decreases unseen(ids_of(map.view()), seen_set(old(seen)@)),
{
    let ghost ts = map.view();
    let ghost ids = ids_of(ts);
    let ghost s0 = seen_set(seen@);
    let ghost l0 = crate::text::string_views(lines@);
    let all = map.tasks();
    let mut keep: Vec<bool> = Vec::new();
    for i in 0..all.len()
        invariant
            task_views(all@) == ts,
            keep@.len() == i,
            forall|j: int| 0 <= j < i ==> keep@[j] == (child_of(pid@))(ts[j]),
    {
        assert(ts[i as int] == all@[i as int]@);
        let k = match &all[i].parent {
            Some(p) => crate::text::str_eq(p.as_str(), pid),
            None => false,
        };
        keep.push(k);
    }
    let mut kids = crate::service::select_tasks(map, Ghost(child_of(pid@)), &keep);
    crate::task::sort_by_priority_owned(&mut kids);
    let ghost kv = task_views(kids@);
    proof {
        lemma_sorted_kids(ts, pid@, kv);
    }
    let n = kids.len();
    for i in 0..n
        invariant
            ts == map.view(),
            ids == ids_of(ts),
            s0 == seen_set(old(seen)@),
            kv == task_views(kids@),
            kv == sorted_kids(ts, pid@),
            n == kv.len(),
            forall|j: int| 0 <= j < kv.len() ==> ids.contains(#[trigger] kv[j].id),
            crate::text::string_views(lines@) + row_lines(render_kids(ts, kv, i as int, prefix@, seen_set(seen@)).0) == l0
                + row_lines(render_kids(ts, kv, 0, prefix@, s0).0),
            render_kids(ts, kv, i as int, prefix@, seen_set(seen@)).1 == render_kids(ts, kv, 0, prefix@, s0).1,
            s0.subset_of(seen_set(seen@)),
            unseen(ids, seen_set(seen@)) <= unseen(ids, s0),
    {
        let c = &kids[i];
        let ghost cv = kv[i as int];
        assert(c@ == cv);
        let ghost si = seen_set(seen@);
        let ghost li = crate::text::string_views(lines@);
        if crate::task::contains_string(seen, c.id.as_str()) {
            proof {
                let k = choose|k: int| 0 <= k < str_views(seen@).len() && str_views(seen@)[k] == cv.id;
                assert(seen@[k]@ == cv.id);
                assert(si.contains(cv.id));
            }
        } else {
            proof {
                assert forall|k: int| 0 <= k < seen@.len() implies seen@[k]@ != cv.id by {
                    assert(str_views(seen@)[k] == seen@[k]@);
                }
                assert(!si.contains(cv.id));
                lemma_unseen_insert(ids, si, cv.id);
                lemma_unseen_mono(ids, s0, si);
            }
            let last = i == n - 1;
            let mut row = String::new();
            push_all(&mut row, prefix);
            push_all(&mut row, if last { "└─ " } else { "├─ " });
            push_all(&mut row, crate::tui::status_indicator(&c.status));
            push_all(&mut row, " [");
            push_all(&mut row, c.id.as_str());
            push_all(&mut row, "] ");
            push_all(&mut row, c.title.as_str());
            assert(row@ == row_line((prefix@ + connector(last), cv)));
            let ghost sv = seen@;
            seen.push(c.id.clone());
            let ghost s1 = seen_set(seen@);
            assert(seen@ == sv.push(c.id));
            assert(s1 =~= si.insert(cv.id)) by {
                assert forall|x: Seq<char>| s1.contains(x) implies si.insert(cv.id).contains(x) by {
                    let k = choose|k: int| 0 <= k < seen@.len() && #[trigger] seen@[k]@ == x;
                    if k < sv.len() {
                        assert(sv[k]@ == x);
                    }
                }
                assert forall|x: Seq<char>| si.insert(cv.id).contains(x) implies s1.contains(x) by {
                    if x == cv.id {
                        assert(seen@[sv.len() as int]@ == x);
                    } else {
                        let k = choose|k: int| 0 <= k < sv.len() && #[trigger] sv[k]@ == x;
                        assert(seen@[k]@ == x);
                    }
                }
            }
            lines.push(row);
            let ghost lrow = crate::text::string_views(lines@);
            assert(lrow =~= li.push(row_line((prefix@ + connector(last), cv))));
            if c.task_type.is_epic() {
                let mut p2 = String::new();
                push_all(&mut p2, prefix);
                push_all(&mut p2, if last { " " } else { "│" });
                push_all(&mut p2, "  ");
                assert(p2@ == prefix@ + branch_pad(last));
                assert(unseen(ids_of(map.view()), seen_set(seen@)) < unseen(ids_of(map.view()), s0));
                render_children(map, c.id.as_str(), p2.as_str(), seen, lines);
                proof {
                    lemma_render_grows(ts, sorted_kids(ts, cv.id), 0, prefix@ + branch_pad(last), s1);
                }
            }
            proof {
                let sub = if cv.task_type == TaskType::Epic {
                    render_kids(ts, sorted_kids(ts, cv.id), 0, prefix@ + branch_pad(last), s1)
                } else {
                    (Seq::<(Seq<char>, TaskView)>::empty(), s1)
                };
                assert(seen_set(seen@) == sub.1);
                assert(crate::text::string_views(lines@) =~= lrow + row_lines(sub.0));
                assert(s1.subset_of(sub.1));
                lemma_unseen_mono(ids, s1, sub.1);
                let rest = render_kids(ts, kv, i + 1, prefix@, sub.1);
                let row = (prefix@ + connector(last), cv);
                assert(render_kids(ts, kv, i as int, prefix@, si) == (seq![row] + sub.0 + rest.0, rest.1));
                assert(row_lines(seq![row] + sub.0 + rest.0) =~= seq![row_line(row)] + row_lines(sub.0) + row_lines(rest.0));
                assert(crate::text::string_views(lines@) + row_lines(rest.0) =~= li + row_lines(seq![row] + sub.0 + rest.0));
                assert(s0.subset_of(seen_set(seen@)));
                lemma_unseen_mono(ids, s0, seen_set(seen@));
            }
        }
    }
    assert(crate::text::string_views(lines@) =~= l0 + row_lines(render_kids(ts, kv, 0, prefix@, s0).0));
}



/// No task appears twice among the rows, none of them was seen before, and
/// all of them are seen afterwards.
pub proof fn lemma_render_distinct(
    ts: Seq<TaskView>,
    kids: Seq<TaskView>,
    i: int,
    prefix: Seq<char>,
    seen: Set<Seq<char>>,
)
    ensures
        forall|a: int, b: int|
            0 <= a < b < render_kids(ts, kids, i, prefix, seen).0.len() ==> (#[trigger] render_kids(ts, kids, i, prefix, seen).0[a]).1.id
                != (#[trigger] render_kids(ts, kids, i, prefix, seen).0[b]).1.id,
        forall|k: int|
            0 <= k < render_kids(ts, kids, i, prefix, seen).0.len() ==> !seen.contains(
                (#[trigger] render_kids(ts, kids, i, prefix, seen).0[k]).1.id,
            ) && render_kids(ts, kids, i, prefix, seen).1.contains(render_kids(ts, kids, i, prefix, seen).0[k].1.id),
    decreases unseen(ids_of(ts), seen), kids.len() - i,
{
    if i < 0 || i >= kids.len() {
    } else if seen.contains(kids[i].id) {
        lemma_render_distinct(ts, kids, i + 1, prefix, seen);
    } else if !ids_of(ts).contains(kids[i].id) {
    } else {
        let c = kids[i];
        let last = i == kids.len() - 1;
        let seen1 = seen.insert(c.id);
        lemma_unseen_insert(ids_of(ts), seen, c.id);
        if c.task_type == TaskType::Epic {
            lemma_render_grows(ts, sorted_kids(ts, c.id), 0, prefix + branch_pad(last), seen1);
            lemma_render_distinct(ts, sorted_kids(ts, c.id), 0, prefix + branch_pad(last), seen1);
        }
        let sub = if c.task_type == TaskType::Epic {
            render_kids(ts, sorted_kids(ts, c.id), 0, prefix + branch_pad(last), seen1)
        } else {
            (Seq::<(Seq<char>, TaskView)>::empty(), seen1)
        };
        lemma_unseen_mono(ids_of(ts), seen1, sub.1);
        lemma_render_grows(ts, kids, i + 1, prefix, sub.1);
        lemma_render_distinct(ts, kids, i + 1, prefix, sub.1);
        let rest = render_kids(ts, kids, i + 1, prefix, sub.1);
        let row = (prefix + connector(last), c);
        let rows = seq![row] + sub.0 + rest.0;
        assert(render_kids(ts, kids, i, prefix, seen) == (rows, rest.1));
        let n1 = 1 + sub.0.len();
        assert forall|k: int| 0 <= k < rows.len() implies !seen.contains(#[trigger] rows[k].1.id) && rest.1.contains(rows[k].1.id)
            && (k == 0 ==> rows[k].1.id == c.id) && (1 <= k < n1 ==> !seen1.contains(rows[k].1.id) && sub.1.contains(rows[k].1.id))
            && (n1 <= k ==> !sub.1.contains(rows[k].1.id)) by {
            if k == 0 {
            } else if k < n1 {
                assert(rows[k] == sub.0[k - 1]);
            } else {
                assert(rows[k] == rest.0[k - n1]);
            }
        }
        assert forall|a: int, b: int| 0 <= a < b < rows.len() implies (#[trigger] rows[a]).1.id != (#[trigger] rows[b]).1.id by {
            if 1 <= a && b < n1 {
                assert(rows[a] == sub.0[a - 1] && rows[b] == sub.0[b - 1]);
            } else if n1 <= a {
                assert(rows[a] == rest.0[a - n1] && rows[b] == rest.0[b - n1]);
            }
        }
    }
}

/// The subtask tree of an epic lists each task at most once, and never the
/// epic itself, even when parent links form a cycle.
pub proof fn lemma_subtasks_each_once(ts: Seq<TaskView>, t: TaskView)
    ensures
        forall|a: int, b: int|
            0 <= a < b < render_kids(ts, sorted_kids(ts, t.id), 0, Seq::empty(), set![t.id]).0.len() ==> (#[trigger] render_kids(
                ts,
                sorted_kids(ts, t.id),
                0,
                Seq::empty(),
                set![t.id],
            ).0[a]).1.id != (#[trigger] render_kids(ts, sorted_kids(ts, t.id), 0, Seq::empty(), set![t.id]).0[b]).1.id,
        forall|k: int|
            0 <= k < render_kids(ts, sorted_kids(ts, t.id), 0, Seq::empty(), set![t.id]).0.len() ==> (#[trigger] render_kids(
                ts,
                sorted_kids(ts, t.id),
                0,
                Seq::empty(),
                set![t.id],
            ).0[k]).1.id != t.id,
{
    lemma_render_distinct(ts, sorted_kids(ts, t.id), 0, Seq::empty(), set![t.id]);
}

/// The subtask tree of a task: nothing unless it is an epic with children;
/// otherwise a blank line, a heading, and the tree of its children (see
/// `render_kids`), the epic itself counting as seen.
pub open spec fn subtask_lines(ts: Seq<TaskView>, t: TaskView) -> Seq<Seq<char>> {
    if t.task_type != TaskType::Epic {
        Seq::empty()
    } else {
        let body = render_kids(ts, sorted_kids(ts, t.id), 0, Seq::empty(), set![t.id]).0;
        if body.len() == 0 {
            Seq::empty()
        } else {
            seq![Seq::<char>::empty(), "Subtasks"@] + row_lines(body)
        }
    }
}

/// An epic's subtasks as a parent-to-child tree, nested epics expanded.
pub struct SubtaskGraphWidget<'a> {
    pub task: &'a Task,
    pub task_map: &'a TaskMap,
}

impl<'a> SubtaskGraphWidget<'a> {
    /// The subtask tree of `task`, with its children looked up in the map.
    pub fn new(task: &'a Task, task_map: &'a TaskMap) -> (w: SubtaskGraphWidget<'a>)
        ensures
            w.task == task,
            w.task_map == task_map,
    {
        SubtaskGraphWidget { task, task_map }
    }

    /// The lines of the tree (see `subtask_lines`). Each task appears at
    /// most once, even when parent links form a cycle.
    pub fn lines(&self) -> (r: Vec<String>)
        ensures
            crate::text::string_views(r@) == subtask_lines(self.task_map.view(), self.task@),
    {
        let t = self.task;
        let mut r: Vec<String> = Vec::new();
        if !t.task_type.is_epic() {
            assert(crate::text::string_views(r@) =~= Seq::<Seq<char>>::empty());
            return r;
        }
        let mut seen: Vec<String> = vec![t.id.clone()];
        assert(seen_set(seen@) =~= set![t@.id]) by {
            assert(seen@[0]@ == t@.id);
        }
        let mut body: Vec<String> = Vec::new();
        proof {
            reveal_strlit("");
        }
        assert(crate::text::string_views(body@) =~= Seq::<Seq<char>>::empty());
        assert(""@ =~= Seq::<char>::empty());
        render_children(self.task_map, t.id.as_str(), "", &mut seen, &mut body);
        let ghost bv = row_lines(render_kids(self.task_map.view(), sorted_kids(self.task_map.view(), t@.id), 0, Seq::empty(), set![t@.id]).0);
        assert(crate::text::string_views(body@) =~= bv);
        if body.len() == 0 {
            assert(crate::text::string_views(r@) =~= Seq::<Seq<char>>::empty());
            return r;
        }
        r.push(String::new());
        r.push("Subtasks".to_string());
        let ghost head = crate::text::string_views(r@);
        for i in 0..body.len()
            invariant
                r@.len() == 2 + i,
                crate::text::string_views(r@) == head + crate::text::string_views(body@).take(i as int),
        {
            let ghost old_r = r@;
            r.push(body[i].clone());
            assert(crate::text::string_views(r@) =~= crate::text::string_views(old_r).push(body@[i as int]@));
            assert(crate::text::string_views(body@).take(i + 1) =~= crate::text::string_views(body@).take(i as int).push(body@[i as int]@));
            assert(crate::text::string_views(r@) =~= head + crate::text::string_views(body@).take(i + 1));
        }
        assert(crate::text::string_views(body@).take(body@.len() as int) =~= crate::text::string_views(body@));
        assert(head =~= seq![Seq::<char>::empty(), "Subtasks"@]);
        r
    }
}

/// The direct dependencies of a task, one line each.
pub struct DepTreeWidget<'a> {
    pub task: &'a Task,
    pub task_map: &'a TaskMap,
}

impl<'a> DepTreeWidget<'a> {
    /// The dependency list for `task`, looked up in the map.
    pub fn new(task: &'a Task, task_map: &'a TaskMap) -> (w: DepTreeWidget<'a>)
        ensures
            w.task == task,
            w.task_map == task_map,
    {
        DepTreeWidget { task, task_map }
    }

    /// Nothing when the task has no dependencies; otherwise a blank line, a
    /// heading, and one line per dependency (see `dep_line`), in order.
    pub fn lines(&self) -> (r: Vec<String>)
        ensures
            self.task@.depends_on.len() == 0 ==> r@.len() == 0,
            self.task@.depends_on.len() > 0 ==> r@.len() == self.task@.depends_on.len() + 2 && r@[0]@ == Seq::<char>::empty()
                && r@[1]@ == "Dependencies"@ && forall|k: int|
                0 <= k < self.task@.depends_on.len() ==> #[trigger] r@[k + 2]@ == dep_line(
                    self.task_map.view(),
                    self.task@.depends_on[k],
                ),
    {
        let t = self.task;
        let mut r: Vec<String> = Vec::new();
        if t.depends_on.len() == 0 {
            return r;
        }
        r.push(String::new());
        r.push("Dependencies".to_string());
        for k in 0..t.depends_on.len()
            invariant
                r@.len() == k + 2,
                r@[0]@ == Seq::<char>::empty(),
                r@[1]@ == "Dependencies"@,
                forall|j: int| 0 <= j < k ==> #[trigger] r@[j + 2]@ == dep_line(self.task_map.view(), t@.depends_on[j]),
        {
            let id = &t.depends_on[k];
            assert(t@.depends_on[k as int] == id@);
            let mut s = String::new();
            match self.task_map.get(id.as_str()) {
                Some(d) => {
                    push_all(&mut s, "  ");
                    push_all(&mut s, crate::tui::status_indicator(&d.status));
                    push_all(&mut s, " [");
                    push_all(&mut s, d.id.as_str());
                    push_all(&mut s, "] ");
                    push_all(&mut s, d.title.as_str());
                },
                None => {
                    push_all(&mut s, "  [");
                    push_all(&mut s, id.as_str());
                    push_all(&mut s, "] (unavailable)");
                },
            }
            let ghost before = r@;
            r.push(s);
            assert(forall|j: int| 0 <= j < k + 2 ==> r@[j] == before[j]);
        }
        r
    }
}


// ── Task list ───────────────────────────────────────────────────────

/// The row of a task in the list: priority, status symbol, ID, an epic
/// marker, and the title.
pub open spec fn list_row(t: TaskView) -> Seq<char> {
    t.priority.label() + " "@ + indicator(t.status) + " ["@ + t.id + "] "@ + (if t.task_type == TaskType::Epic {
        "◆ "@
    } else {
        Seq::<char>::empty()
    }) + t.title
}

/// The title of the list: the query and the show-all setting when set, and
/// the number of rows.
pub open spec fn list_title(query: Seq<char>, show_all: bool, n: nat) -> Seq<char> {
    " Tasks"@ + (if query.len() > 0 {
        " ["@ + query + "]"@
    } else {
        Seq::<char>::empty()
    }) + (if show_all {
        " (all)"@
    } else {
        Seq::<char>::empty()
    }) + " ("@ + decimal_spec(n) + ") "@
}

/// The task list pane.
pub struct TaskListWidget<'a> {
    pub tasks: &'a Vec<Task>,
    pub filter: &'a Filter,
}

impl<'a> TaskListWidget<'a> {
    /// A list of these tasks under this filter.
    pub fn new(tasks: &'a Vec<Task>, filter: &'a Filter) -> (w: TaskListWidget<'a>)
        ensures
            w.tasks == tasks,
            w.filter == filter,
    {
        TaskListWidget { tasks, filter }
    }

    /// One row per task, in order (see `list_row`).
    pub fn rows(&self) -> (r: Vec<String>)
        ensures
            r@.len() == self.tasks@.len(),
            forall|k: int| 0 <= k < r@.len() ==> #[trigger] r@[k]@ == list_row(self.tasks@[k]@),
    {
        proof {
            reveal_strlit("");
        }
        let mut r: Vec<String> = Vec::new();
        for k in 0..self.tasks.len()
            invariant
                r@.len() == k,
                forall|j: int| 0 <= j < k ==> #[trigger] r@[j]@ == list_row(self.tasks@[j]@),
        {
            let t = &self.tasks[k];
            let mut s = t.priority.to_string();
            push_all(&mut s, " ");
            push_all(&mut s, crate::tui::status_indicator(&t.status));
            push_all(&mut s, " [");
            push_all(&mut s, t.id.as_str());
            push_all(&mut s, "] ");
            if t.task_type.is_epic() {
                push_all(&mut s, "◆ ");
            }
            push_all(&mut s, t.title.as_str());
            assert(s@ == list_row(t@));
            r.push(s);
        }
        r
    }

    /// The title of the pane (see `list_title`).
    pub fn title(&self) -> (r: String)
        ensures
            r@ == list_title(self.filter.query@, self.filter.show_all, self.tasks@.len()),
    {
        proof {
            reveal_strlit("");
        }
        let mut s = " Tasks".to_string();
        if self.filter.query.unicode_len() > 0 {
            push_all(&mut s, " [");
            push_all(&mut s, self.filter.query.as_str());
            push_all(&mut s, "]");
        }
        if self.filter.show_all {
            push_all(&mut s, " (all)");
        }
        push_all(&mut s, " (");
        let d = decimal(self.tasks.len() as u64);
        push_all(&mut s, d.as_str());
        push_all(&mut s, ") ");
        s
    }
}


// ── Detail pane ─────────────────────────────────────────────────────

/// The text lines of information rows: label and value side by side.
pub open spec fn info_lines(rows: Seq<(Seq<char>, Seq<char>)>) -> Seq<Seq<char>> {
    rows.map_values(|r: (Seq<char>, Seq<char>)| r.0 + r.1)
}

/// The detail pane of a task: its information rows, its dependencies and
/// its body, in that order.
pub open spec fn detail_lines(ts: Seq<TaskView>, t: TaskView) -> Seq<Seq<char>> {
    info_lines(info_rows(t, done_count(ts, t.id), child_count(ts, t.id))) + (if t.depends_on.len() == 0 {
        Seq::<Seq<char>>::empty()
    } else {
        seq![Seq::<char>::empty(), "Dependencies"@] + t.depends_on.map_values(|d: Seq<char>| dep_line(ts, d))
    }) + (if trim_spec(t.body).len() == 0 {
        Seq::<Seq<char>>::empty()
    } else {
        seq![Seq::<char>::empty(), body_rule(), Seq::<char>::empty()] + text_lines(t.body)
    })
}

/// The detail pane.
pub struct TaskDetailWidget<'a> {
    pub task: Option<&'a Task>,
    pub task_map: &'a TaskMap,
}

impl<'a> TaskDetailWidget<'a> {
    /// The pane for the selected task, if any.
    pub fn new(task: Option<&'a Task>, task_map: &'a TaskMap) -> (w: TaskDetailWidget<'a>)
        ensures
            w.task == task,
            w.task_map == task_map,
    {
        TaskDetailWidget { task, task_map }
    }

    /// The lines of the pane: `No tasks found.` without a task, else those
    /// of `detail_lines`.
    pub fn lines(&self) -> (r: Vec<String>)
        ensures
            crate::text::string_views(r@) == match self.task {
                None => seq!["No tasks found."@],
                Some(t) => detail_lines(self.task_map.view(), t@),
            },
    {
        let mut r: Vec<String> = Vec::new();
        let t = match self.task {
            None => {
                r.push("No tasks found.".to_string());
                assert(crate::text::string_views(r@) =~= seq!["No tasks found."@]);
                return r;
            },
            Some(t) => t,
        };
        let info = TaskInfoWidget::new(t, self.task_map).lines();
        for i in 0..info.len()
            invariant
                r@.len() == i,
                forall|k: int| 0 <= k < i ==> #[trigger] r@[k]@ == info@[k].0@ + info@[k].1@,
        {
            let mut s = info[i].0.clone();
            push_all(&mut s, info[i].1.as_str());
            r.push(s);
        }
        let ghost a = info_lines(info_rows(t@, done_count(self.task_map.view(), t@.id), child_count(self.task_map.view(), t@.id)));
        assert(crate::text::string_views(r@) =~= a) by {
            assert(hint_views(info@).len() == info@.len());
            assert forall|k: int| 0 <= k < info@.len() implies crate::text::string_views(r@)[k] == a[k] by {
                assert(hint_views(info@)[k] == (info@[k].0@, info@[k].1@));
            }
        }
        let deps = DepTreeWidget::new(t, self.task_map).lines();
        let ghost b = if t@.depends_on.len() == 0 {
            Seq::<Seq<char>>::empty()
        } else {
            seq![Seq::<char>::empty(), "Dependencies"@] + t@.depends_on.map_values(|d: Seq<char>| dep_line(self.task_map.view(), d))
        };
        assert(crate::text::string_views(deps@) =~= b) by {
            if t@.depends_on.len() > 0 {
                assert forall|k: int| 0 <= k < deps@.len() implies crate::text::string_views(deps@)[k] == b[k] by {
                    if k >= 2 {
                        assert(deps@[(k - 2) + 2]@ == dep_line(self.task_map.view(), t@.depends_on[k - 2]));
                    }
                }
            }
        }
        let body = BodyWidget::new(t.body.as_str()).lines();
        let ghost before = crate::text::string_views(r@);
        let mut j: usize = 0;
        while j < deps.len()
            invariant
                j <= deps@.len(),
                crate::text::string_views(r@) == before + crate::text::string_views(deps@).take(j as int),
            decreases deps@.len() - j,
        {
            let ghost old_r = r@;
            r.push(deps[j].clone());
            assert(crate::text::string_views(r@) =~= crate::text::string_views(old_r).push(deps@[j as int]@));
            assert(crate::text::string_views(deps@).take(j + 1) =~= crate::text::string_views(deps@).take(j as int).push(deps@[j as int]@));
            assert(crate::text::string_views(r@) =~= before + crate::text::string_views(deps@).take(j + 1));
            j = j + 1;
        }
        assert(crate::text::string_views(deps@).take(deps@.len() as int) =~= crate::text::string_views(deps@));
        let ghost mid = crate::text::string_views(r@);
        let mut q: usize = 0;
        while q < body.len()
            invariant
                q <= body@.len(),
                crate::text::string_views(r@) == mid + crate::text::string_views(body@).take(q as int),
            decreases body@.len() - q,
        {
            let ghost old_r = r@;
            r.push(body[q].clone());
            assert(crate::text::string_views(r@) =~= crate::text::string_views(old_r).push(body@[q as int]@));
            assert(crate::text::string_views(body@).take(q + 1) =~= crate::text::string_views(body@).take(q as int).push(body@[q as int]@));
            assert(crate::text::string_views(r@) =~= mid + crate::text::string_views(body@).take(q + 1));
            q = q + 1;
        }
        assert(crate::text::string_views(body@).take(body@.len() as int) =~= crate::text::string_views(body@));
        assert(crate::text::string_views(r@) =~= detail_lines(self.task_map.view(), t@));
        r
    }
}

} // verus!
