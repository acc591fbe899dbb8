use vstd::prelude::*;

use crate::graph::{filter_tasks, is_ready, is_task_ready};
use crate::task::{Status, Task, TaskType, TaskView, opt_str_view, task_views};
use crate::taskmap::{TaskMap, has_id, lookup};
use crate::text::{lowercase, occurs_in, to_lowercase};

verus! {

/// A key press, as the terminal front end reports it.
#[derive(Debug, Clone, Copy, PartialEq, Eq, Structural)]
pub enum Key {
    Char(char),
    Enter,
    Esc,
    Backspace,
    Tab,
    Up,
    Down,
    Left,
    Right,
    Home,
    End,
    Other,
}

/// What the event loop should do after a key press.
#[derive(Debug, Clone, PartialEq, Eq)]
pub enum Action {
    /// Nothing to do.
    Noop,
    Quit,
    EditSelected,
    CreateTask(String),
    UpdateStatus(String, Status),
    DeleteTask(String),
}

/// An action as mathematics.
pub enum ActionView {
    Noop,
    Quit,
    EditSelected,
    CreateTask(Seq<char>),
    UpdateStatus(Seq<char>, Status),
    DeleteTask(Seq<char>),
}

impl Action {
    /// The action as mathematics.
    pub open spec fn view(&self) -> ActionView {
        match self {
            Action::Noop => ActionView::Noop,
            Action::Quit => ActionView::Quit,
            Action::EditSelected => ActionView::EditSelected,
            Action::CreateTask(t) => ActionView::CreateTask(t@),
            Action::UpdateStatus(id, s) => ActionView::UpdateStatus(id@, *s),
            Action::DeleteTask(id) => ActionView::DeleteTask(id@),
        }
    }
}

/// Which pane has the focus.
#[derive(Debug, Clone, Copy, PartialEq, Eq, Structural)]
pub enum FocusPane {
    List,
    Detail,
}

/// The current interaction mode.
#[derive(Debug, Clone, PartialEq, Eq)]
pub enum Mode {
    Normal,
    StatusSelect { task_id: String, selected: usize },
    CreateInput { input: String },
    FilterInput { input: String },
    ConfirmDelete { task_id: String, title: String },
}

/// A mode as mathematics.
pub enum ModeView {
    Normal,
    StatusSelect { task_id: Seq<char>, selected: usize },
    CreateInput { input: Seq<char> },
    FilterInput { input: Seq<char> },
    ConfirmDelete { task_id: Seq<char>, title: Seq<char> },
}

impl Mode {
    /// The mode as mathematics.
    pub open spec fn view(&self) -> ModeView {
        match self {
            Mode::Normal => ModeView::Normal,
            Mode::StatusSelect { task_id, selected } => ModeView::StatusSelect { task_id: task_id@, selected: *selected },
            Mode::CreateInput { input } => ModeView::CreateInput { input: input@ },
            Mode::FilterInput { input } => ModeView::FilterInput { input: input@ },
            Mode::ConfirmDelete { task_id, title } => ModeView::ConfirmDelete { task_id: task_id@, title: title@ },
        }
    }
}

/// Which tasks the list shows.
#[derive(Debug, Clone, Copy, PartialEq, Eq, Structural)]
pub enum ListMode {
    /// Open, in-progress and blocked tasks (the default).
    Open,
    /// Tasks whose dependencies are all done.
    Ready,
    /// Epics.
    Epics,
    /// Done and cancelled tasks still in the active store.
    Completed,
    /// Tasks moved to the archive.
    Archive,
    /// Everything.
    All,
}

impl Default for ListMode {
    fn default() -> (m: ListMode)
        ensures
            m == ListMode::Open,
    {
        ListMode::Open
    }
}

/// The mode after `m` in the cycle Open, Ready, Epics, Completed, Archive, All.
pub open spec fn next_mode(m: ListMode) -> ListMode {
    match m {
        ListMode::Open => ListMode::Ready,
        ListMode::Ready => ListMode::Epics,
        ListMode::Epics => ListMode::Completed,
        ListMode::Completed => ListMode::Archive,
        ListMode::Archive => ListMode::All,
        ListMode::All => ListMode::Open,
    }
}

/// The name of a list mode.
pub open spec fn mode_label(m: ListMode) -> Seq<char> {
    match m {
        ListMode::Open => "Open"@,
        ListMode::Ready => "Ready"@,
        ListMode::Epics => "Epics"@,
        ListMode::Completed => "Completed"@,
        ListMode::Archive => "Archive"@,
        ListMode::All => "All"@,
    }
}

impl ListMode {
    /// The next mode in the cycle.
    pub fn next(self) -> (m: ListMode)
        ensures
            m == next_mode(self),
    {
        match self {
            ListMode::Open => ListMode::Ready,
            ListMode::Ready => ListMode::Epics,
            ListMode::Epics => ListMode::Completed,
            ListMode::Completed => ListMode::Archive,
            ListMode::Archive => ListMode::All,
            ListMode::All => ListMode::Open,
        }
    }

    /// The mode's name.
    pub fn label(self) -> (s: &'static str)
        ensures
            s@ == mode_label(self),
    {
        match self {
            ListMode::Open => "Open",
            ListMode::Ready => "Ready",
            ListMode::Epics => "Epics",
            ListMode::Completed => "Completed",
            ListMode::Archive => "Archive",
            ListMode::All => "All",
        }
    }
}

/// The filters on the task list.
#[derive(Debug, Clone)]
pub struct Filter {
    pub query: String,
    pub list_mode: ListMode,
    /// Ignore the list mode and show every task that matches the query.
    pub show_all: bool,
}

impl Default for Filter {
    fn default() -> (f: Filter)
        ensures
            f.query@.len() == 0,
            f.list_mode == ListMode::Open,
            !f.show_all,
    {
        Filter { query: String::new(), list_mode: ListMode::Open, show_all: false }
    }
}

/// A task passes the list mode: active ones for Open, settled ones for
/// Completed, open plain tasks for Ready (readiness itself is checked
/// against the graph), epics for Epics, anything for Archive and All, and
/// anything at all when `show_all` is set.
pub open spec fn mode_admits(m: ListMode, show_all: bool, t: TaskView) -> bool {
    show_all || match m {
        ListMode::Open => t.status != Status::Done && t.status != Status::Cancelled,
        ListMode::Completed => t.status == Status::Done || t.status == Status::Cancelled,
        ListMode::Ready => t.status == Status::Open && t.task_type == TaskType::Task,
        ListMode::Epics => t.task_type == TaskType::Epic,
        ListMode::Archive => true,
        ListMode::All => true,
    }
}

/// A task matches the lowercased query `q`: an empty query, or `q` occurs
/// in the lowercased title, ID or one of the lowercased tags.
pub open spec fn query_admits(t: TaskView, q: Seq<char>) -> bool {
    ||| q.len() == 0
    ||| occurs_in(q, lowercase(t.title))
    ||| occurs_in(q, lowercase(t.id))
    ||| exists|k: int| 0 <= k < t.tags.len() && occurs_in(q, lowercase(#[trigger] t.tags[k]))
}

fn str_contains(hay: &str, needle: &str) -> (r: bool)
    ensures
        r == occurs_in(needle@, hay@),
{
    let h = crate::text::chars_of(hay);
    let n = crate::text::chars_of(needle);
    crate::text::contains_chars(&h, &n)
}

impl Filter {
    /// Whether a task passes the list mode and the lowercased query (the
    /// Ready mode's graph check aside).
    pub fn matches(&self, task: &Task, query_lower: &str) -> (r: bool)
        ensures
            r == (mode_admits(self.list_mode, self.show_all, task@) && query_admits(task@, query_lower@)),
    {
        if !self.show_all {
            let ok = match self.list_mode {
                ListMode::Open => !(task.status == Status::Done || task.status == Status::Cancelled),
                ListMode::Completed => task.status == Status::Done || task.status == Status::Cancelled,
                ListMode::Archive => true,
                ListMode::Ready => task.status == Status::Open && task.task_type.is_task(),
                ListMode::Epics => task.task_type.is_epic(),
                ListMode::All => true,
            };
            if !ok {
                return false;
            }
        }
        if query_lower.unicode_len() == 0 {
            return true;
        }
        let title = to_lowercase(task.title.as_str());
        if str_contains(title.as_str(), query_lower) {
            return true;
        }
        let id = to_lowercase(task.id.as_str());
        if str_contains(id.as_str(), query_lower) {
            return true;
        }
        for k in 0..task.tags.len()
            invariant
                mode_admits(self.list_mode, self.show_all, task@),
                forall|j: int| 0 <= j < k ==> !occurs_in(query_lower@, lowercase(#[trigger] task@.tags[j])),
        {
            let tag = to_lowercase(task.tags[k].as_str());
            assert(task@.tags[k as int] == task.tags@[k as int]@);
            if str_contains(tag.as_str(), query_lower) {
                return true;
            }
        }
        false
    }
}

/// The status pick list of the status modal, in order.
pub open spec fn status_at(i: int) -> Status {
    if i == 0 {
        Status::Open
    } else if i == 1 {
        Status::InProgress
    } else if i == 2 {
        Status::Done
    } else if i == 3 {
        Status::Blocked
    } else {
        Status::Cancelled
    }
}

/// The position of a status in the pick list.
pub open spec fn status_pos(s: Status) -> usize {
    match s {
        Status::Open => 0,
        Status::InProgress => 1,
        Status::Done => 2,
        Status::Blocked => 3,
        Status::Cancelled => 4,
    }
}

/// Number of entries of the status pick list.
pub const STATUS_COUNT: usize = 5;

/// The status at position `i` of the pick list.
pub fn status_at_exec(i: usize) -> (s: Status)
    requires
        i < 5,
    ensures
        s == status_at(i as int),
{
    if i == 0 {
        Status::Open
    } else if i == 1 {
        Status::InProgress
    } else if i == 2 {
        Status::Done
    } else if i == 3 {
        Status::Blocked
    } else {
        Status::Cancelled
    }
}

/// The position of a status in the pick list.
pub fn status_position(s: Status) -> (i: usize)
    ensures
        i == status_pos(s),
{
    match s {
        Status::Open => 0,
        Status::InProgress => 1,
        Status::Done => 2,
        Status::Blocked => 3,
        Status::Cancelled => 4,
    }
}

/// The symbol shown for a status in the task list.
pub open spec fn indicator(s: Status) -> Seq<char> {
    match s {
        Status::Open => "○"@,
        Status::InProgress => "●"@,
        Status::Done => "✓"@,
        Status::Blocked => "⊘"@,
        Status::Cancelled => "✗"@,
    }
}

/// The symbol shown for a status in the task list.
pub fn status_indicator(s: &Status) -> (r: &'static str)
    ensures
        r@ == indicator(*s),
{
    match s {
        Status::Open => "○",
        Status::InProgress => "●",
        Status::Done => "✓",
        Status::Blocked => "⊘",
        Status::Cancelled => "✗",
    }
}

/// The state of the task browser.
pub struct App {
    pub all_tasks: Vec<Task>,
    /// Tasks from the archive, shown only in `ListMode::Archive`.
    pub archived_tasks: Vec<Task>,
    /// The tasks the list shows, in order.
    pub tasks: Vec<Task>,
    pub task_map: TaskMap,
    /// The selected row of the list, if any.
    pub selected: Option<usize>,
    pub base: String,
    pub mode: Mode,
    pub filter: Filter,
    pub error_message: Option<String>,
    pub focus: FocusPane,
    pub detail_scroll: u16,
    pub detail_content_height: u16,
    pub detail_visible_height: u16,
    pub last_selected_id: Option<String>,
}

/// The browser state as mathematics (the project directory and the error
/// message aside, which key presses leave alone).
pub struct AppView {
    pub all: Seq<TaskView>,
    pub archived: Seq<TaskView>,
    pub shown: Seq<TaskView>,
    pub map: Seq<TaskView>,
    pub selected: Option<usize>,
    pub mode: ModeView,
    pub query: Seq<char>,
    pub list_mode: ListMode,
    pub show_all: bool,
    pub focus: FocusPane,
    pub scroll: u16,
    pub content_height: u16,
    pub visible_height: u16,
    pub last_id: Option<Seq<char>>,
}

impl App {
    /// The state as mathematics.
    pub open spec fn view(&self) -> AppView {
        AppView {
            all: task_views(self.all_tasks@),
            archived: task_views(self.archived_tasks@),
            shown: task_views(self.tasks@),
            map: self.task_map.view(),
            selected: self.selected,
            mode: self.mode.view(),
            query: self.filter.query@,
            list_mode: self.filter.list_mode,
            show_all: self.filter.show_all,
            focus: self.focus,
            scroll: self.detail_scroll,
            content_height: self.detail_content_height,
            visible_height: self.detail_visible_height,
            last_id: opt_str_view(self.last_selected_id),
        }
    }
}

/// The ID of the selected task, if a row within the list is selected.
pub open spec fn selected_id(v: AppView) -> Option<Seq<char>> {
    match v.selected {
        Some(i) => if i < v.shown.len() {
            Some(v.shown[i as int].id)
        } else {
            None
        },
        None => None,
    }
}

/// The tasks the list draws from: the archive in Archive mode, the active
/// tasks otherwise.
pub open spec fn source(v: AppView) -> Seq<TaskView> {
    if v.list_mode == ListMode::Archive {
        v.archived
    } else {
        v.all
    }
}

/// The list filter: the mode and query, and readiness in Ready mode.
pub open spec fn list_filter(v: AppView) -> spec_fn(TaskView) -> bool {
    |t: TaskView|
        mode_admits(v.list_mode, v.show_all, t) && query_admits(t, lowercase(v.query)) && (v.list_mode
            != ListMode::Ready || is_ready(v.map, t, None, None))
}

/// The first position of a task with this ID in `s`, if any.
pub open spec fn first_pos(s: Seq<TaskView>, id: Seq<char>) -> Option<int>
    decreases s.len(),
{
    if s.len() == 0 {
        None
    } else {
        match first_pos(s.drop_last(), id) {
            Some(k) => Some(k),
            None => if s.last().id == id {
                Some(s.len() - 1)
            } else {
                None
            },
        }
    }
}

/// The selection after the list changes to `shown`: the task `old_id` where
/// it still is; else the old row, clamped to the list; else the first row;
/// nothing when the list is empty.
pub open spec fn fallback(shown: Seq<TaskView>, old_id: Option<Seq<char>>, old_idx: Option<usize>) -> Option<usize> {
    if shown.len() == 0 {
        None
    } else {
        match (match old_id {
            Some(id) => first_pos(shown, id),
            None => None,
        }) {
            Some(p) => Some(p as usize),
            None => match old_idx {
                Some(o) => Some(if o < shown.len() - 1 {
                    o
                } else {
                    (shown.len() - 1) as usize
                }),
                None => Some(0usize),
            },
        }
    }
}

/// The state with the list recomputed from the filters and the selection
/// kept by ID (see `fallback`).
pub open spec fn refiltered(v: AppView, old_id: Option<Seq<char>>, old_idx: Option<usize>) -> AppView {
    let shown = filter_tasks(source(v), list_filter(v));
    AppView { shown, selected: fallback(shown, old_id, old_idx), ..v }
}

/// The state with the list recomputed, keeping the current selection.
pub open spec fn reapplied(v: AppView) -> AppView {
    refiltered(v, selected_id(v), v.selected)
}

/// The largest scroll offset of the detail pane.
pub open spec fn max_scroll(v: AppView) -> u16 {
    if v.content_height >= v.visible_height {
        (v.content_height - v.visible_height) as u16
    } else {
        0
    }
}

/// The state with the detail scroll offset cut down to its largest value.
pub open spec fn clamp_scroll(v: AppView) -> AppView {
    AppView { scroll: if v.scroll <= max_scroll(v) { v.scroll } else { max_scroll(v) }, ..v }
}

/// The width of the task list pane for a body `body_width` columns wide:
/// 40% of it, at most 40 columns.
pub fn list_pane_width(body_width: u16) -> (w: u16)
    requires
        body_width * 40 <= u16::MAX,
    ensures
        w == if body_width * 40 / 100 <= 40 { body_width * 40 / 100 } else { 40 },
{
    let w = body_width * 40 / 100;
    if w <= 40 {
        w
    } else {
        40
    }
}

/// After a key: when the selected task changed, the detail pane scrolls
/// back to the top.
pub open spec fn scroll_reset(v: AppView) -> AppView {
    if selected_id(v) != v.last_id {
        AppView { scroll: 0, last_id: selected_id(v), ..v }
    } else {
        v
    }
}

/// The selection moved down one row, wrapping to the top.
pub open spec fn sel_next(sel: Option<usize>, n: nat) -> Option<usize> {
    if n == 0 {
        sel
    } else {
        let i = match sel {
            Some(i) => i,
            None => 0,
        };
        Some(if i >= n - 1 {
            0usize
        } else {
            (i + 1) as usize
        })
    }
}

/// The selection moved up one row, wrapping to the bottom.
pub open spec fn sel_prev(sel: Option<usize>, n: nat) -> Option<usize> {
    if n == 0 {
        sel
    } else {
        let i = match sel {
            Some(i) => i,
            None => 0,
        };
        Some(if i == 0 {
            (n - 1) as usize
        } else {
            (i - 1) as usize
        })
    }
}

/// What a key does in normal mode: the new state and the action.
pub open spec fn normal_step(v: AppView, k: Key) -> (AppView, ActionView) {
    let n = v.shown.len();
    let on_list = v.focus == FocusPane::List;
    match k {
        Key::Char('q') | Key::Esc => (v, ActionView::Quit),
        Key::Tab => (AppView { focus: if on_list { FocusPane::Detail } else { FocusPane::List }, ..v }, ActionView::Noop),
        Key::Right => if on_list { (AppView { focus: FocusPane::Detail, ..v }, ActionView::Noop) } else { (v, ActionView::Noop) },
        Key::Left => if !on_list { (AppView { focus: FocusPane::List, ..v }, ActionView::Noop) } else { (v, ActionView::Noop) },
        Key::Char('j') | Key::Down => if on_list {
            (AppView { selected: sel_next(v.selected, n), ..v }, ActionView::Noop)
        } else {
            (AppView { scroll: if v.scroll + 1 <= max_scroll(v) { (v.scroll + 1) as u16 } else { max_scroll(v) }, ..v }, ActionView::Noop)
        },
        Key::Char('k') | Key::Up => if on_list {
            (AppView { selected: sel_prev(v.selected, n), ..v }, ActionView::Noop)
        } else {
            (AppView { scroll: if v.scroll > 0 { (v.scroll - 1) as u16 } else { 0 }, ..v }, ActionView::Noop)
        },
        Key::Home | Key::Char('g') => if on_list {
            (AppView { selected: if n == 0 { v.selected } else { Some(0usize) }, ..v }, ActionView::Noop)
        } else {
            (AppView { scroll: 0, ..v }, ActionView::Noop)
        },
        Key::End | Key::Char('G') => if on_list {
            (AppView { selected: if n == 0 { v.selected } else { Some((n - 1) as usize) }, ..v }, ActionView::Noop)
        } else {
            (v, ActionView::Noop)
        },
        Key::Enter => if on_list { (AppView { focus: FocusPane::Detail, ..v }, ActionView::Noop) } else { (v, ActionView::Noop) },
        Key::Char('e') => (v, ActionView::EditSelected),
        Key::Char('c') => (AppView { mode: ModeView::CreateInput { input: Seq::empty() }, ..v }, ActionView::Noop),
        Key::Char('s') => match v.selected {
            Some(i) => if i < n {
                (AppView { mode: ModeView::StatusSelect { task_id: v.shown[i as int].id, selected: status_pos(v.shown[i as int].status) }, ..v }, ActionView::Noop)
            } else {
                (v, ActionView::Noop)
            },
            None => (v, ActionView::Noop),
        },
        Key::Char('/') => (AppView { mode: ModeView::FilterInput { input: v.query }, ..v }, ActionView::Noop),
        Key::Char('a') => (reapplied(AppView { show_all: !v.show_all, ..v }), ActionView::Noop),
        Key::Char('d') => match v.selected {
            Some(i) => if i < n {
                (AppView { mode: ModeView::ConfirmDelete { task_id: v.shown[i as int].id, title: v.shown[i as int].title }, ..v }, ActionView::Noop)
            } else {
                (v, ActionView::Noop)
            },
            None => (v, ActionView::Noop),
        },
        _ => (v, ActionView::Noop),
    }
}

/// What a key does while picking a status.
pub open spec fn status_step(v: AppView, id: Seq<char>, sel: usize, k: Key) -> (AppView, ActionView) {
    match k {
        Key::Esc | Key::Char('q') => (AppView { mode: ModeView::Normal, ..v }, ActionView::Noop),
        Key::Char('j') | Key::Down => (AppView { mode: ModeView::StatusSelect { task_id: id, selected: if sel >= 4 { 0 } else { (sel + 1) as usize } }, ..v }, ActionView::Noop),
        Key::Char('k') | Key::Up => (AppView { mode: ModeView::StatusSelect { task_id: id, selected: if sel == 0 { 4 } else { (sel - 1) as usize } }, ..v }, ActionView::Noop),
        Key::Enter => (AppView { mode: ModeView::Normal, ..v }, ActionView::UpdateStatus(id, status_at(sel as int))),
        _ => (v, ActionView::Noop),
    }
}

/// How a key edits a text input: `Some(s)` for the edited text, `None` for a
/// key that is no edit.
pub open spec fn edited(input: Seq<char>, k: Key) -> Option<Seq<char>> {
    match k {
        Key::Backspace => Some(if input.len() > 0 { input.drop_last() } else { input }),
        Key::Char(c) => Some(input.push(c)),
        _ => None,
    }
}

/// What a key does while typing a new task's title: Enter creates a task
/// with the trimmed title, unless it is empty; Esc cancels.
pub open spec fn create_step(v: AppView, input: Seq<char>, k: Key) -> (AppView, ActionView) {
    match k {
        Key::Enter => {
            let title = crate::frontmatter::trim_spec(input);
            (AppView { mode: ModeView::Normal, ..v }, if title.len() == 0 { ActionView::Noop } else { ActionView::CreateTask(title) })
        },
        Key::Esc => (AppView { mode: ModeView::Normal, ..v }, ActionView::Noop),
        _ => match edited(input, k) {
            Some(s) => (AppView { mode: ModeView::CreateInput { input: s }, ..v }, ActionView::Noop),
            None => (v, ActionView::Noop),
        },
    }
}

/// What a key does while typing a filter: Enter applies the trimmed query;
/// Esc cancels.
pub open spec fn filter_step(v: AppView, input: Seq<char>, k: Key) -> (AppView, ActionView) {
    match k {
        Key::Enter => {
            let q = crate::frontmatter::trim_spec(input);
            (reapplied(AppView { query: q, mode: ModeView::Normal, ..v }), ActionView::Noop)
        },
        Key::Esc => (AppView { mode: ModeView::Normal, ..v }, ActionView::Noop),
        _ => match edited(input, k) {
            Some(s) => (AppView { mode: ModeView::FilterInput { input: s }, ..v }, ActionView::Noop),
            None => (v, ActionView::Noop),
        },
    }
}

/// What a key does when asked to confirm a deletion: `y` or `Y` deletes,
/// anything else cancels.
pub open spec fn delete_step(v: AppView, id: Seq<char>, k: Key) -> (AppView, ActionView) {
    let w = AppView { mode: ModeView::Normal, ..v };
    match k {
        Key::Char('y') | Key::Char('Y') => (w, ActionView::DeleteTask(id)),
        _ => (w, ActionView::Noop),
    }
}

/// What a key does in the current mode.
pub open spec fn key_step(v: AppView, k: Key) -> (AppView, ActionView) {
    match v.mode {
        ModeView::Normal => normal_step(v, k),
        ModeView::StatusSelect { task_id, selected } => status_step(v, task_id, selected, k),
        ModeView::CreateInput { input } => create_step(v, input, k),
        ModeView::FilterInput { input } => filter_step(v, input, k),
        ModeView::ConfirmDelete { task_id, .. } => delete_step(v, task_id, k),
    }
}

/// Copies of the tasks of `src` that pass the filter of the state `v`.
fn filtered_tasks(src: &Vec<Task>, filter: &Filter, map: &TaskMap, v: Ghost<AppView>) -> (r: Vec<Task>)
    requires
        filter.list_mode == v@.list_mode,
        filter.show_all == v@.show_all,
        filter.query@ == v@.query,
        map.view() == v@.map,
    ensures
        task_views(r@) == filter_tasks(task_views(src@), list_filter(v@)),
{
    let q = to_lowercase(filter.query.as_str());
    let ghost f = list_filter(v@);
    let ghost sv = task_views(src@);
    let mut r: Vec<Task> = Vec::new();
    for i in 0..src.len()
        invariant
            sv == task_views(src@),
            f == list_filter(v@),
            q@ == lowercase(v@.query),
            filter.list_mode == v@.list_mode,
            filter.show_all == v@.show_all,
            map.view() == v@.map,
            task_views(r@) == filter_tasks(sv.take(i as int), f),
    {
        assert(sv.take(i + 1).drop_last() =~= sv.take(i as int));
        assert(sv.take(i + 1).last() == src@[i as int]@);
        let t = &src[i];
        let keep = filter.matches(t, q.as_str()) && (!(filter.list_mode == ListMode::Ready)
            || is_task_ready(map, t));
        if keep {
            r.push(t.clone());
            assert(task_views(r@) =~= filter_tasks(sv.take(i + 1), f));
        }
    }
    assert(sv.take(src@.len() as int) =~= sv);
    r
}

/// The first position of a task with this ID.
fn position_of(tasks: &Vec<Task>, id: &str) -> (r: Option<usize>)
    ensures
        match r {
            Some(p) => first_pos(task_views(tasks@), id@) == Some(p as int),
            None => first_pos(task_views(tasks@), id@).is_none(),
        },
{
    let ghost sv = task_views(tasks@);
    for i in 0..tasks.len()
        invariant
            sv == task_views(tasks@),
            first_pos(sv.take(i as int), id@).is_none(),
    {
        assert(sv.take(i + 1).drop_last() =~= sv.take(i as int));
        assert(sv.take(i + 1).last() == tasks@[i as int]@);
        if crate::text::str_eq(tasks[i].id.as_str(), id) {
            proof {
                lemma_first_pos_prefix(sv, id@, i as int);
            }
            return Some(i);
        }
    }
    assert(sv.take(tasks@.len() as int) =~= sv);
    None
}

proof fn lemma_first_pos_prefix(s: Seq<TaskView>, id: Seq<char>, k: int)
    requires
        0 <= k < s.len(),
        first_pos(s.take(k), id).is_none(),
        s[k].id == id,
    ensures
        first_pos(s, id) == Some(k),
    decreases s.len(),
{
    if k < s.len() - 1 {
        assert(s.drop_last().take(k) =~= s.take(k));
        lemma_first_pos_prefix(s.drop_last(), id, k);
    } else {
        assert(s.drop_last() =~= s.take(k));
    }
}

/// The lines of a text input after a key: Backspace drops the last
/// character, a character key appends it.
/// The outcome of a key press on a text input.
#[derive(Debug, Clone, PartialEq, Eq)]
pub enum TextInputResult {
    /// Enter: submit the trimmed input.
    Submit(String),
    /// A character typed or one deleted: the new input.
    Update(String),
    /// Esc: abandon the input.
    Cancel,
    /// A key the text input does not handle.
    Ignored,
}

/// A text-input outcome as mathematics.
pub enum TextInputView {
    Submit(Seq<char>),
    Update(Seq<char>),
    Cancel,
    Ignored,
}

impl TextInputResult {
    /// The outcome as mathematics.
    pub open spec fn view(&self) -> TextInputView {
        match self {
            TextInputResult::Submit(s) => TextInputView::Submit(s@),
            TextInputResult::Update(s) => TextInputView::Update(s@),
            TextInputResult::Cancel => TextInputView::Cancel,
            TextInputResult::Ignored => TextInputView::Ignored,
        }
    }
}

/// What a key does to a text input: Enter submits it trimmed, Esc cancels,
/// Backspace and characters edit it (see `edited`), other keys are ignored.
pub open spec fn text_input_step(k: Key, input: Seq<char>) -> TextInputView {
    match k {
        Key::Enter => TextInputView::Submit(crate::frontmatter::trim_spec(input)),
        Key::Esc => TextInputView::Cancel,
        _ => match edited(input, k) {
            Some(s) => TextInputView::Update(s),
            None => TextInputView::Ignored,
        },
    }
}

/// Resolves a key press against the current text input (see
/// `text_input_step`).
pub fn resolve_text_input(key: Key, input: &str) -> (r: TextInputResult)
    ensures
        r.view() == text_input_step(key, input@),
{
    match key {
        Key::Enter => TextInputResult::Submit(crate::frontmatter::trim_str(input)),
        Key::Esc => TextInputResult::Cancel,
        _ => match edit_input(&input.to_string(), key) {
            Some(s) => TextInputResult::Update(s),
            None => TextInputResult::Ignored,
        },
    }
}

fn edit_input(input: &String, k: Key) -> (r: Option<String>)
    ensures
        match r {
            Some(s) => edited(input@, k) == Some(s@),
            None => edited(input@, k).is_none(),
        },
{
    match k {
        Key::Backspace => {
            let mut v = crate::text::chars_of(input.as_str());
            let ghost before = v@;
            v.pop();
            proof {
                if before.len() > 0 {
                    assert(v@ =~= before.drop_last());
                }
            }
            Some(crate::text::string_of(&v))
        },
        Key::Char(c) => {
            let mut s = input.clone();
            crate::text::push_char(&mut s, c);
            Some(s)
        },
        _ => None,
    }
}

impl App {
    /// A browser over `tasks` (the active tasks in list order) and their
    /// lookup map, showing the Open list with the first row selected.
    pub fn new(tasks: Vec<Task>, task_map: TaskMap, base: String) -> (app: App)
        ensures
            app.view().all == task_views(tasks@),
            app.view().archived.len() == 0,
            app.view().map == task_map.view(),
            app.view().mode == ModeView::Normal,
            app.view().query.len() == 0,
            app.view().list_mode == ListMode::Open,
            !app.view().show_all,
            app.view().focus == FocusPane::List,
            app.view().scroll == 0,
            app.view().content_height == 0,
            app.view().visible_height == 0,
            app.view().shown == filter_tasks(task_views(tasks@), list_filter(app.view())),
            app.view().selected == (if app.view().shown.len() > 0 { Some(0usize) } else { None }),
            app.view().last_id == selected_id(app.view()),
            view_bounds(app.view()),
            app.error_message.is_none(),
            app.base@ == base@,
    {
        let filter = Filter::default();
        let ghost v0 = AppView {
            all: task_views(tasks@),
            archived: Seq::empty(),
            shown: Seq::empty(),
            map: task_map.view(),
            selected: None,
            mode: ModeView::Normal,
            query: filter.query@,
            list_mode: ListMode::Open,
            show_all: false,
            focus: FocusPane::List,
            scroll: 0,
            content_height: 0,
            visible_height: 0,
            last_id: None,
        };
        let filtered = filtered_tasks(&tasks, &filter, &task_map, Ghost(v0));
        let selected = if filtered.len() > 0 { Some(0usize) } else { None };
        let last_selected_id = if filtered.len() > 0 { Some(filtered[0].id.clone()) } else { None };
        let app = App {
            all_tasks: tasks,
            archived_tasks: Vec::new(),
            tasks: filtered,
            task_map,
            selected,
            base,
            mode: Mode::Normal,
            filter,
            error_message: None,
            focus: FocusPane::List,
            detail_scroll: 0,
            detail_content_height: 0,
            detail_visible_height: 0,
            last_selected_id,
        };
        assert(app.view().archived =~= Seq::<TaskView>::empty());
        assert(list_filter(app.view()) == list_filter(v0));
        app
    }

    /// The selected row, if any.
    pub fn selected_index(&self) -> (r: Option<usize>)
        ensures
            r == self.selected,
    {
        self.selected
    }

    /// The selected task, when the selected row is within the list.
    pub fn selected_task(&self) -> (r: Option<&Task>)
        ensures
            match r {
                Some(t) => self.selected matches Some(i) && i < self.tasks@.len() && t == self.tasks@[i as int],
                None => !(self.selected matches Some(i) && i < self.tasks@.len()),
            },
    {
        match self.selected {
            Some(i) => if i < self.tasks.len() {
                Some(&self.tasks[i])
            } else {
                None
            },
            None => None,
        }
    }

    fn selected_id_exec(&self) -> (r: Option<String>)
        ensures
            opt_str_view(r) == selected_id(self.view()),
    {
        match self.selected_task() {
            Some(t) => {
                assert(task_views(self.tasks@)[self.selected.unwrap() as int] == t@);
                Some(t.id.clone())
            },
            None => None,
        }
    }

    /// Recomputes the list and restores the selection (see `refiltered`).
    pub fn apply_filter_with_fallback(&mut self, old_id: Option<&str>, old_idx: Option<usize>)
        ensures
            final(self).view() == refiltered(old(self).view(), crate::task::opt_view(old_id), old_idx),
            final(self).error_message == old(self).error_message,
            final(self).base == old(self).base,
    {
        let ghost v = self.view();
        let tasks = if self.filter.list_mode == ListMode::Archive {
            filtered_tasks(&self.archived_tasks, &self.filter, &self.task_map, Ghost(v))
        } else {
            filtered_tasks(&self.all_tasks, &self.filter, &self.task_map, Ghost(v))
        };
        let n = tasks.len();
        let pos = match old_id {
            Some(id) => position_of(&tasks, id),
            None => None,
        };
        let new_idx = if n == 0 {
            None
        } else {
            match pos {
                Some(p) => Some(p),
                None => match old_idx {
                    Some(o) => Some(if o < n - 1 { o } else { n - 1 }),
                    None => Some(0),
                },
            }
        };
        self.tasks = tasks;
        self.selected = new_idx;
        proof {
            let shown = filter_tasks(source(v), list_filter(v));
            assert(task_views(self.tasks@) == shown);
            assert(self.view() == AppView { shown, selected: fallback(shown, crate::task::opt_view(old_id), old_idx), ..v });
        }
    }

    /// Recomputes the list, keeping the current selection (see `reapplied`).
    pub fn apply_filter(&mut self)
        ensures
            final(self).view() == reapplied(old(self).view()),
            final(self).error_message == old(self).error_message,
            final(self).base == old(self).base,
    {
        let id = self.selected_id_exec();
        let old_idx = self.selected;
        match id {
            Some(s) => self.apply_filter_with_fallback(Some(s.as_str()), old_idx),
            None => self.apply_filter_with_fallback(None, old_idx),
        }
    }

    /// The largest scroll offset of the detail pane.
    pub fn detail_max_scroll(&self) -> (r: u16)
        ensures
            r == max_scroll(self.view()),
    {
        if self.detail_content_height >= self.detail_visible_height {
            self.detail_content_height - self.detail_visible_height
        } else {
            0
        }
    }

    /// Records the heights the detail pane measured when it was drawn (its
    /// content and its visible part), then keeps the scroll offset within the
    /// new largest offset.
    pub fn record_detail_metrics(&mut self, content_height: u16, visible_height: u16)
        ensures
            final(self).view() == clamp_scroll(AppView { content_height, visible_height, ..old(self).view() }),
            final(self).error_message == old(self).error_message,
            final(self).base == old(self).base,
    {
        self.detail_content_height = content_height;
        self.detail_visible_height = visible_height;
        let m = self.detail_max_scroll();
        if self.detail_scroll > m {
            self.detail_scroll = m;
        }
    }

    /// Scrolls the detail pane back to the top when the selected task changed.
    pub fn check_scroll_reset(&mut self)
        ensures
            final(self).view() == scroll_reset(old(self).view()),
            final(self).error_message == old(self).error_message,
            final(self).base == old(self).base,
    {
        let current = self.selected_id_exec();
        let same = match (&current, &self.last_selected_id) {
            (Some(a), Some(b)) => crate::text::str_eq(a.as_str(), b.as_str()),
            (None, None) => true,
            _ => false,
        };
        if !same {
            self.detail_scroll = 0;
            self.last_selected_id = current;
        }
    }

    /// Takes new task data and re-applies the filters, keeping the selected
    /// task by ID (else the nearest row) and clamping the detail scroll.
    pub fn reload(&mut self, tasks: Vec<Task>, task_map: TaskMap)
        ensures
            ({
                let v = old(self).view();
                let w = refiltered(AppView { all: task_views(tasks@), map: task_map.view(), ..v }, selected_id(v), v.selected);
                final(self).view() == AppView {
                    scroll: if w.scroll <= max_scroll(w) { w.scroll } else { max_scroll(w) },
                    ..w
                }
            }),
            final(self).error_message == old(self).error_message,
            final(self).base == old(self).base,
    {
        let old_id = self.selected_id_exec();
        let old_idx = self.selected;
        self.all_tasks = tasks;
        self.task_map = task_map;
        match old_id {
            Some(s) => self.apply_filter_with_fallback(Some(s.as_str()), old_idx),
            None => self.apply_filter_with_fallback(None, old_idx),
        }
        let m = self.detail_max_scroll();
        if self.detail_scroll > m {
            self.detail_scroll = m;
        }
    }

    /// Takes new active and archived task data together (see `reload`).
    pub fn reload_with_archived(&mut self, tasks: Vec<Task>, task_map: TaskMap, archived: Vec<Task>)
        ensures
            ({
                let v = AppView { archived: task_views(archived@), ..old(self).view() };
                let w = refiltered(AppView { all: task_views(tasks@), map: task_map.view(), ..v }, selected_id(v), v.selected);
                final(self).view() == AppView {
                    scroll: if w.scroll <= max_scroll(w) { w.scroll } else { max_scroll(w) },
                    ..w
                }
            }),
            final(self).error_message == old(self).error_message,
            final(self).base == old(self).base,
    {
        self.archived_tasks = archived;
        self.reload(tasks, task_map);
    }

    /// The task lookup for the detail pane: the active tasks, and the
    /// archived ones whose IDs no active task has.
    pub fn detail_task_map(&self) -> (m: TaskMap)
        ensures
            forall|id: Seq<char>|
                #[trigger] has_id(m.view(), id) <==> (has_id(self.task_map.view(), id) || exists|i: int|
                    0 <= i < self.archived_tasks@.len() && #[trigger] self.archived_tasks@[i]@.id == id),
            forall|id: Seq<char>| #[trigger] has_id(self.task_map.view(), id) ==> lookup(m.view(), id) == lookup(self.task_map.view(), id),
    {
        let mut m = TaskMap::new();
        let all = self.task_map.tasks();
        let ghost base = self.task_map.view();
        for i in 0..all.len()
            invariant
                task_views(all@) == base,
                crate::taskmap::ids_distinct(base),
                m.view() == base.take(i as int),
        {
            let ghost before = m.view();
            assert(!has_id(before, all@[i as int]@.id)) by {
                if has_id(before, all@[i as int]@.id) {
                    let k = choose|k: int| 0 <= k < before.len() && #[trigger] before[k].id == all@[i as int]@.id;
                    assert(base[k].id != base[i as int].id);
                }
            }
            let _ = m.insert(all[i].clone());
            assert(m.view() =~= base.take(i + 1));
        }
        assert(base.take(all@.len() as int) =~= base);
        proof {
            assert forall|id: Seq<char>| #[trigger] has_id(base, id) implies lookup(m.view(), id) == lookup(base, id) by {}
        }
        for i in 0..self.archived_tasks.len()
            invariant
                forall|id: Seq<char>|
                    #[trigger] has_id(m.view(), id) <==> (has_id(base, id) || exists|j: int|
                        0 <= j < i && #[trigger] self.archived_tasks@[j]@.id == id),
                forall|id: Seq<char>| #[trigger] has_id(base, id) ==> lookup(m.view(), id) == lookup(base, id),
                base == self.task_map.view(),
        {
            let t = &self.archived_tasks[i];
            if !m.contains_key(t.id.as_str()) {
                let ghost before = m.view();
                let _ = m.tasks();
                let _ = m.insert(t.clone());
                proof {
                    crate::taskmap::lemma_lookup_push(before, t@);
                    assert forall|id: Seq<char>|
                        #[trigger] has_id(m.view(), id) <==> (has_id(base, id) || exists|j: int|
                            0 <= j < i + 1 && #[trigger] self.archived_tasks@[j]@.id == id) by {
                        if exists|j: int| 0 <= j < i + 1 && #[trigger] self.archived_tasks@[j]@.id == id {
                            let j = choose|j: int| 0 <= j < i + 1 && #[trigger] self.archived_tasks@[j]@.id == id;
                            if j < i {
                                assert(has_id(before, id));
                            }
                        }
                    }
                    assert forall|id: Seq<char>| #[trigger] has_id(base, id) implies lookup(m.view(), id) == lookup(base, id) by {
                        assert(has_id(before, id));
                        assert(id != t@.id);
                    }
                }
            } else {
                proof {
                    assert forall|id: Seq<char>|
                        #[trigger] has_id(m.view(), id) <==> (has_id(base, id) || exists|j: int|
                            0 <= j < i + 1 && #[trigger] self.archived_tasks@[j]@.id == id) by {
                        if exists|j: int| 0 <= j < i + 1 && #[trigger] self.archived_tasks@[j]@.id == id {
                            let j = choose|j: int| 0 <= j < i + 1 && #[trigger] self.archived_tasks@[j]@.id == id;
                            if j == i {
                                assert(has_id(m.view(), t@.id));
                            }
                        }
                    }
                }
            }
        }
        m
    }
}

impl App {
    fn select_next(&mut self)
        ensures
            final(self).view() == (AppView { selected: sel_next(old(self).view().selected, old(self).view().shown.len()), ..old(self).view() }),
            final(self).error_message == old(self).error_message,
            final(self).base == old(self).base,
    {
        let n = self.tasks.len();
        if n == 0 {
            return;
        }
        let i = match self.selected {
            Some(i) => i,
            None => 0,
        };
        let next = if i >= n - 1 { 0 } else { i + 1 };
        self.selected = Some(next);
    }

    fn select_prev(&mut self)
        ensures
            final(self).view() == (AppView { selected: sel_prev(old(self).view().selected, old(self).view().shown.len()), ..old(self).view() }),
            final(self).error_message == old(self).error_message,
            final(self).base == old(self).base,
    {
        let n = self.tasks.len();
        if n == 0 {
            return;
        }
        let i = match self.selected {
            Some(i) => i,
            None => 0,
        };
        let prev = if i == 0 { n - 1 } else { i - 1 };
        self.selected = Some(prev);
    }

    /// Handles a key in normal mode (see `normal_step`).
    pub fn handle_normal_key(&mut self, key: Key) -> (r: Action)
        ensures
            (final(self).view(), r.view()) == normal_step(old(self).view(), key),
            final(self).error_message == old(self).error_message,
            final(self).base == old(self).base,
    {
        let on_list = self.focus == FocusPane::List;
        match key {
            Key::Char('q') | Key::Esc => Action::Quit,
            Key::Tab => {
                self.focus = if on_list { FocusPane::Detail } else { FocusPane::List };
                Action::Noop
            },
            Key::Right => {
                if on_list {
                    self.focus = FocusPane::Detail;
                }
                Action::Noop
            },
            Key::Left => {
                if !on_list {
                    self.focus = FocusPane::List;
                }
                Action::Noop
            },
            Key::Char('j') | Key::Down => {
                if on_list {
                    self.select_next();
                } else {
                    let m = self.detail_max_scroll();
                    let up = if self.detail_scroll < u16::MAX { self.detail_scroll + 1 } else { u16::MAX };
                    self.detail_scroll = if up <= m { up } else { m };
                }
                Action::Noop
            },
            Key::Char('k') | Key::Up => {
                if on_list {
                    self.select_prev();
                } else {
                    self.detail_scroll = if self.detail_scroll > 0 { self.detail_scroll - 1 } else { 0 };
                }
                Action::Noop
            },
            Key::Home | Key::Char('g') => {
                if on_list {
                    if self.tasks.len() > 0 {
                        self.selected = Some(0);
                    }
                } else {
                    self.detail_scroll = 0;
                }
                Action::Noop
            },
            Key::End | Key::Char('G') => {
                if on_list {
                    if self.tasks.len() > 0 {
                        self.selected = Some(self.tasks.len() - 1);
                    }
                }
                Action::Noop
            },
            Key::Enter => {
                if on_list {
                    self.focus = FocusPane::Detail;
                }
                Action::Noop
            },
            Key::Char('e') => Action::EditSelected,
            Key::Char('c') => {
                self.mode = Mode::CreateInput { input: String::new() };
                Action::Noop
            },
            Key::Char('s') => {
                let ghost v = self.view();
                match self.selected_task() {
                    Some(t) => {
                        proof {
                            assert(v.shown[v.selected.unwrap() as int] == t@);
                        }
                        let m = Mode::StatusSelect { task_id: t.id.clone(), selected: status_position(t.status) };
                        self.mode = m;
                    },
                    None => {},
                }
                Action::Noop
            },
            Key::Char('/') => {
                self.mode = Mode::FilterInput { input: self.filter.query.clone() };
                Action::Noop
            },
            Key::Char('a') => {
                self.filter.show_all = !self.filter.show_all;
                self.apply_filter();
                Action::Noop
            },
            Key::Char('d') => {
                let ghost v = self.view();
                match self.selected_task() {
                    Some(t) => {
                        proof {
                            assert(v.shown[v.selected.unwrap() as int] == t@);
                        }
                        let m = Mode::ConfirmDelete { task_id: t.id.clone(), title: t.title.clone() };
                        self.mode = m;
                    },
                    None => {},
                }
                Action::Noop
            },
            _ => Action::Noop,
        }
    }

    /// Handles a key while picking a status (see `status_step`).
    pub fn handle_status_select_key(&mut self, key: Key) -> (r: Action)
        requires
            old(self).view().mode matches ModeView::StatusSelect { selected, .. } && selected < 5,
        ensures
            old(self).view().mode matches ModeView::StatusSelect { task_id, selected } && (final(self).view(), r.view())
                == status_step(old(self).view(), task_id, selected, key),
            final(self).error_message == old(self).error_message,
            final(self).base == old(self).base,
    {
        let (task_id, selected) = match &self.mode {
            Mode::StatusSelect { task_id, selected } => (task_id.clone(), *selected),
            _ => {
                return Action::Noop;
            },
        };
        match key {
            Key::Esc | Key::Char('q') => {
                self.mode = Mode::Normal;
                Action::Noop
            },
            Key::Char('j') | Key::Down => {
                let next = if selected >= STATUS_COUNT - 1 { 0 } else { selected + 1 };
                self.mode = Mode::StatusSelect { task_id, selected: next };
                Action::Noop
            },
            Key::Char('k') | Key::Up => {
                let prev = if selected == 0 { STATUS_COUNT - 1 } else { selected - 1 };
                self.mode = Mode::StatusSelect { task_id, selected: prev };
                Action::Noop
            },
            Key::Enter => {
                let status = status_at_exec(selected);
                self.mode = Mode::Normal;
                Action::UpdateStatus(task_id, status)
            },
            _ => Action::Noop,
        }
    }

    /// Handles a key while typing a new task's title (see `create_step`).
    pub fn handle_create_input_key(&mut self, key: Key) -> (r: Action)
        requires
            old(self).view().mode is CreateInput,
        ensures
            old(self).view().mode matches ModeView::CreateInput { input } && (final(self).view(), r.view()) == create_step(
                old(self).view(),
                input,
                key,
            ),
            final(self).error_message == old(self).error_message,
            final(self).base == old(self).base,
    {
        let input = match &self.mode {
            Mode::CreateInput { input } => input.clone(),
            _ => {
                return Action::Noop;
            },
        };
        match resolve_text_input(key, input.as_str()) {
            TextInputResult::Submit(title) => {
                self.mode = Mode::Normal;
                if title.unicode_len() == 0 {
                    Action::Noop
                } else {
                    Action::CreateTask(title)
                }
            },
            TextInputResult::Cancel => {
                self.mode = Mode::Normal;
                Action::Noop
            },
            TextInputResult::Update(s) => {
                self.mode = Mode::CreateInput { input: s };
                Action::Noop
            },
            TextInputResult::Ignored => Action::Noop,
        }
    }

    /// Handles a key while typing a filter (see `filter_step`).
    pub fn handle_filter_input_key(&mut self, key: Key) -> (r: Action)
        requires
            old(self).view().mode is FilterInput,
        ensures
            old(self).view().mode matches ModeView::FilterInput { input } && (final(self).view(), r.view()) == filter_step(
                old(self).view(),
                input,
                key,
            ),
            final(self).error_message == old(self).error_message,
            final(self).base == old(self).base,
    {
        let input = match &self.mode {
            Mode::FilterInput { input } => input.clone(),
            _ => {
                return Action::Noop;
            },
        };
        match resolve_text_input(key, input.as_str()) {
            TextInputResult::Submit(q) => {
                self.filter.query = q;
                self.mode = Mode::Normal;
                self.apply_filter();
                Action::Noop
            },
            TextInputResult::Cancel => {
                self.mode = Mode::Normal;
                Action::Noop
            },
            TextInputResult::Update(s) => {
                self.mode = Mode::FilterInput { input: s };
                Action::Noop
            },
            TextInputResult::Ignored => Action::Noop,
        }
    }

    /// Handles a key when asked to confirm a deletion (see `delete_step`).
    pub fn handle_confirm_delete_key(&mut self, key: Key) -> (r: Action)
        requires
            old(self).view().mode is ConfirmDelete,
        ensures
            old(self).view().mode matches ModeView::ConfirmDelete { task_id, .. } && (final(self).view(), r.view())
                == delete_step(old(self).view(), task_id, key),
            final(self).error_message == old(self).error_message,
            final(self).base == old(self).base,
    {
        let task_id = match &self.mode {
            Mode::ConfirmDelete { task_id, .. } => task_id.clone(),
            _ => {
                return Action::Noop;
            },
        };
        self.mode = Mode::Normal;
        match key {
            Key::Char('y') | Key::Char('Y') => Action::DeleteTask(task_id),
            _ => Action::Noop,
        }
    }

    /// Handles a key press: the current mode's handling (see `key_step`),
    /// then the detail pane scrolls back to the top if the selected task
    /// changed.
    pub fn handle_key(&mut self, key: Key) -> (r: Action)
        requires
            old(self).view().mode matches ModeView::StatusSelect { selected, .. } ==> selected < 5,
        ensures
            final(self).view() == scroll_reset(key_step(old(self).view(), key).0),
            r.view() == key_step(old(self).view(), key).1,
            final(self).error_message == old(self).error_message,
            final(self).base == old(self).base,
    {
        let action = match &self.mode {
            Mode::Normal => self.handle_normal_key(key),
            Mode::StatusSelect { .. } => self.handle_status_select_key(key),
            Mode::CreateInput { .. } => self.handle_create_input_key(key),
            Mode::FilterInput { .. } => self.handle_filter_input_key(key),
            Mode::ConfirmDelete { .. } => self.handle_confirm_delete_key(key),
        };
        self.check_scroll_reset();
        action
    }
}


/// What reaches the browser's event loop.
pub enum LoopEvent {
    /// A key press; `ctrl` when Control was held with it.
    Press { key: Key, ctrl: bool },
    /// The outside work of an action, or a reload after the files changed,
    /// is over: `Ok`, or the message of the error it ended with.
    Done(Result<(), String>),
}

/// What the event loop does next.
pub enum LoopAction {
    /// Draw and wait for the next event.
    Wait,
    /// Leave the loop.
    Quit,
    /// Do the outside work of the action (edit, create, change status,
    /// delete, then reload), and report how it ended with `LoopEvent::Done`.
    Perform(Action),
}

/// Ctrl+C: it quits whatever the mode.
pub open spec fn is_interrupt(key: Key, ctrl: bool) -> bool {
    ctrl && key == Key::Char('c')
}

/// One step of the browser's event loop. Ctrl+C quits. Any other key press
/// is handled as `handle_key` does; its action decides: nothing to do
/// waits, `Quit` quits, any other action is handed out to be performed. When
/// outside work ends, its error's message is shown, or the message shown so
/// far is cleared on success.
pub fn loop_step(app: &mut App, ev: LoopEvent) -> (a: LoopAction)
    requires
        ev matches LoopEvent::Press { key, ctrl } && !is_interrupt(key, ctrl) ==> (old(app).view().mode matches ModeView::StatusSelect { selected, .. } ==> selected < 5),
    ensures
        match ev {
            LoopEvent::Press { key, ctrl } => if is_interrupt(key, ctrl) {
                a is Quit && final(app).view() == old(app).view() && final(app).error_message == old(app).error_message
            } else {
                &&& final(app).view() == scroll_reset(key_step(old(app).view(), key).0)
                &&& final(app).error_message == old(app).error_message
                &&& match key_step(old(app).view(), key).1 {
                    ActionView::Noop => a is Wait,
                    ActionView::Quit => a is Quit,
                    other => a matches LoopAction::Perform(x) && x.view() == other,
                }
            },
            LoopEvent::Done(outcome) => {
                &&& a is Wait
                &&& final(app).view() == old(app).view()
                &&& match outcome {
                    Ok(_) => final(app).error_message is None,
                    Err(m) => final(app).error_message == Some(m),
                }
            },
        },
        final(app).base == old(app).base,
{
    match ev {
        LoopEvent::Press { key, ctrl } => {
            if ctrl && key == Key::Char('c') {
                return LoopAction::Quit;
            }
            let action = app.handle_key(key);
            match action {
                Action::Noop => LoopAction::Wait,
                Action::Quit => LoopAction::Quit,
                other => LoopAction::Perform(other),
            }
        },
        LoopEvent::Done(outcome) => {
            match outcome {
                Ok(()) => {
                    app.error_message = None;
                },
                Err(m) => {
                    app.error_message = Some(m);
                },
            }
            LoopAction::Wait
        },
    }
}

/// The browser's bounds: the detail scroll is at most its maximum, the
/// selection is a row of the list when the list has rows and there is none
/// otherwise, and a status pick points into the pick list.
pub open spec fn view_bounds(v: AppView) -> bool {
    &&& v.scroll <= max_scroll(v)
    &&& match v.selected {
        Some(i) => i < v.shown.len(),
        None => v.shown.len() == 0,
    }
    &&& v.mode matches ModeView::StatusSelect { selected, .. } ==> selected < 5
}

proof fn lemma_first_pos_in_range(s: Seq<TaskView>, id: Seq<char>)
    ensures
        first_pos(s, id) matches Some(p) ==> 0 <= p < s.len(),
    decreases s.len(),
{
    if s.len() > 0 {
        lemma_first_pos_in_range(s.drop_last(), id);
    }
}

proof fn lemma_refiltered_bounds(v: AppView, old_id: Option<Seq<char>>, old_idx: Option<usize>)
    ensures
        ({
            let w = refiltered(v, old_id, old_idx);
            match w.selected {
                Some(i) => i < w.shown.len(),
                None => w.shown.len() == 0,
            }
        }),
{
    let shown = filter_tasks(source(v), list_filter(v));
    match old_id {
        Some(id) => lemma_first_pos_in_range(shown, id),
        None => {},
    }
}

/// Every key press keeps the browser within its bounds (see
/// `view_bounds`): the detail pane never scrolls past its end and the
/// selection always names a row of the list.
pub proof fn lemma_key_keeps_bounds(v: AppView, k: Key)
    requires
        view_bounds(v),
    ensures
        view_bounds(scroll_reset(key_step(v, k).0)),
{
    lemma_refiltered_bounds(v, selected_id(v), v.selected);
    lemma_refiltered_bounds(AppView { show_all: !v.show_all, ..v }, selected_id(AppView { show_all: !v.show_all, ..v }), v.selected);
    match v.mode {
        ModeView::FilterInput { input } => {
            let q = crate::frontmatter::trim_spec(input);
            let w = AppView { query: q, mode: ModeView::Normal, ..v };
            lemma_refiltered_bounds(w, selected_id(w), w.selected);
        },
        _ => {},
    }
}

/// A reload keeps the browser within its bounds.
pub proof fn lemma_reload_keeps_bounds(v: AppView, all: Seq<TaskView>, map: Seq<TaskView>)
    requires
        view_bounds(v),
    ensures
        ({
            let w = refiltered(AppView { all, map, ..v }, selected_id(v), v.selected);
            view_bounds(AppView { scroll: if w.scroll <= max_scroll(w) { w.scroll } else { max_scroll(w) }, ..w })
        }),
{
    lemma_refiltered_bounds(AppView { all, map, ..v }, selected_id(v), v.selected);
}

} // verus!
