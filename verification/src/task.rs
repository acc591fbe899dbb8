use rand::RngExt;
use vstd::prelude::*;
use vstd::string::*;

use crate::order::{SortKey, is_stable_order, stable_order, stably_sorted};
use crate::text::{lowercase, str_eq, to_lowercase};

verus! {

/// Lifecycle state of a task.
#[derive(Debug, Clone, Copy, PartialEq, Eq, Structural)]
pub enum Status {
    Open,
    InProgress,
    Done,
    Blocked,
    Cancelled,
}

impl Status {
    /// The string form of a status, as it appears in task files and output.
    pub open spec fn label(self) -> Seq<char> {
        match self {
            Status::Open => "open"@,
            Status::InProgress => "in_progress"@,
            Status::Done => "done"@,
            Status::Blocked => "blocked"@,
            Status::Cancelled => "cancelled"@,
        }
    }

    /// The string form of this status.
    pub fn to_string(&self) -> (s: String)
        ensures
            s@ == self.label(),
    {
        match self {
            Status::Open => "open".to_owned(),
            Status::InProgress => "in_progress".to_owned(),
            Status::Done => "done".to_owned(),
            Status::Blocked => "blocked".to_owned(),
            Status::Cancelled => "cancelled".to_owned(),
        }
    }

    /// Reads a status from its string form; any other string is refused with
    /// `invalid status: <s>`.
    pub fn parse(s: &str) -> (r: Result<Status, String>)
        ensures
            match r {
                Ok(st) => st.label() == s@,
                Err(msg) => (forall|st: Status| st.label() != s@) && msg@ == "invalid status: "@
                    + s@,
            },
    {
        proof {
            reveal_strlit("open");
            reveal_strlit("in_progress");
            reveal_strlit("done");
            reveal_strlit("blocked");
            reveal_strlit("cancelled");
        }
        if str_eq(s, "open") {
            Ok(Status::Open)
        } else if str_eq(s, "in_progress") {
            Ok(Status::InProgress)
        } else if str_eq(s, "done") {
            Ok(Status::Done)
        } else if str_eq(s, "blocked") {
            Ok(Status::Blocked)
        } else if str_eq(s, "cancelled") {
            Ok(Status::Cancelled)
        } else {
            assert forall|st: Status| st.label() != s@ by {
                match st {
                    Status::Open => {},
                    Status::InProgress => {},
                    Status::Done => {},
                    Status::Blocked => {},
                    Status::Cancelled => {},
                }
            }
            Err("invalid status: ".to_owned().concat(s))
        }
    }
}

impl std::str::FromStr for Status {
    type Err = String;

    fn from_str(s: &str) -> (r: Result<Status, String>)
        ensures
            match r {
                Ok(st) => st.label() == s@,
                Err(msg) => (forall|st: Status| st.label() != s@) && msg@ == "invalid status: "@ + s@,
            },
    {
        Status::parse(s)
    }
}


/// Whether a task is a plain work item or an epic that groups child tasks.
#[derive(Debug, Clone, Copy, PartialEq, Eq, Structural)]
pub enum TaskType {
    Task,
    Epic,
}

impl TaskType {
    pub fn is_task(self) -> (r: bool)
        ensures
            r == (self == TaskType::Task),
    {
        self == TaskType::Task
    }

    pub fn is_epic(self) -> (r: bool)
        ensures
            r == (self == TaskType::Epic),
    {
        self == TaskType::Epic
    }

    /// The string form of a task type.
    pub open spec fn label(self) -> Seq<char> {
        match self {
            TaskType::Task => "task"@,
            TaskType::Epic => "epic"@,
        }
    }

    /// The string form of a task type.
    pub fn to_string(&self) -> (s: String)
        ensures
            s@ == self.label(),
    {
        match self {
            TaskType::Task => "task".to_owned(),
            TaskType::Epic => "epic".to_owned(),
        }
    }

    /// Reads a task type from its string form; any other string is refused
    /// with `invalid task type: <s>`.
    pub fn parse(s: &str) -> (r: Result<TaskType, String>)
        ensures
            match r {
                Ok(t) => t.label() == s@,
                Err(msg) => (forall|t: TaskType| t.label() != s@) && msg@ == "invalid task type: "@
                    + s@,
            },
    {
        proof {
            reveal_strlit("task");
            reveal_strlit("epic");
        }
        if str_eq(s, "task") {
            Ok(TaskType::Task)
        } else if str_eq(s, "epic") {
            Ok(TaskType::Epic)
        } else {
            assert forall|t: TaskType| t.label() != s@ by {
                match t {
                    TaskType::Task => {},
                    TaskType::Epic => {},
                }
            }
            Err("invalid task type: ".to_owned().concat(s))
        }
    }
}

impl Default for TaskType {
    fn default() -> (r: TaskType)
        ensures
            r == TaskType::Task,
    {
        TaskType::Task
    }
}

impl std::str::FromStr for TaskType {
    type Err = String;

    fn from_str(s: &str) -> (r: Result<TaskType, String>)
        ensures
            match r {
                Ok(t) => t.label() == s@,
                Err(msg) => (forall|t: TaskType| t.label() != s@) && msg@ == "invalid task type: "@ + s@,
            },
    {
        TaskType::parse(s)
    }
}

/// Urgency of a task: `P0` is the most urgent, `P3` the least.
#[derive(Debug, Clone, Copy, PartialEq, Eq, PartialOrd, Ord, Hash, Structural)]
pub enum Priority {
    P0,
    P1,
    P2,
    P3,
}

impl Priority {
    /// Position of the priority in urgency order: 0 for `P0` up to 3 for `P3`.
    pub open spec fn level(self) -> u8 {
        match self {
            Priority::P0 => 0,
            Priority::P1 => 1,
            Priority::P2 => 2,
            Priority::P3 => 3,
        }
    }

    /// The priority at a given urgency level (0 to 3).
    pub open spec fn of_level(l: u8) -> Priority {
        if l == 0 {
            Priority::P0
        } else if l == 1 {
            Priority::P1
        } else if l == 2 {
            Priority::P2
        } else {
            Priority::P3
        }
    }

    /// The urgency level of this priority (0 is most urgent).
    pub fn rank(&self) -> (r: u8)
        ensures
            r == self.level(),
            r <= 3,
    {
        match self {
            Priority::P0 => 0,
            Priority::P1 => 1,
            Priority::P2 => 2,
            Priority::P3 => 3,
        }
    }

    /// The priority at urgency level `l` (0 to 3).
    pub fn from_rank(l: u8) -> (p: Priority)
        requires
            l <= 3,
        ensures
            p.level() == l,
            p == Priority::of_level(l),
    {
        if l == 0 {
            Priority::P0
        } else if l == 1 {
            Priority::P1
        } else if l == 2 {
            Priority::P2
        } else {
            Priority::P3
        }
    }

    /// The string form of a priority.
    pub open spec fn label(self) -> Seq<char> {
        match self {
            Priority::P0 => "P0"@,
            Priority::P1 => "P1"@,
            Priority::P2 => "P2"@,
            Priority::P3 => "P3"@,
        }
    }

    /// The string form of this priority.
    pub fn to_string(&self) -> (s: String)
        ensures
            s@ == self.label(),
    {
        match self {
            Priority::P0 => "P0".to_owned(),
            Priority::P1 => "P1".to_owned(),
            Priority::P2 => "P2".to_owned(),
            Priority::P3 => "P3".to_owned(),
        }
    }

    /// Reads a priority from its string form; any other string is refused
    /// with `invalid priority: <s>`.
    pub fn parse(s: &str) -> (r: Result<Priority, String>)
        ensures
            match r {
                Ok(p) => p.label() == s@,
                Err(msg) => (forall|p: Priority| p.label() != s@) && msg@ == "invalid priority: "@
                    + s@,
            },
    {
        proof {
            reveal_strlit("P0");
            reveal_strlit("P1");
            reveal_strlit("P2");
            reveal_strlit("P3");
        }
        if str_eq(s, "P0") {
            Ok(Priority::P0)
        } else if str_eq(s, "P1") {
            Ok(Priority::P1)
        } else if str_eq(s, "P2") {
            Ok(Priority::P2)
        } else if str_eq(s, "P3") {
            Ok(Priority::P3)
        } else {
            assert forall|p: Priority| p.label() != s@ by {
                match p {
                    Priority::P0 => {},
                    Priority::P1 => {},
                    Priority::P2 => {},
                    Priority::P3 => {},
                }
            }
            Err("invalid priority: ".to_owned().concat(s))
        }
    }
}

impl std::str::FromStr for Priority {
    type Err = String;

    fn from_str(s: &str) -> (r: Result<Priority, String>)
        ensures
            match r {
                Ok(p) => p.label() == s@,
                Err(msg) => (forall|p: Priority| p.label() != s@) && msg@ == "invalid priority: "@ + s@,
            },
    {
        Priority::parse(s)
    }
}

/// A point in time in UTC: whole seconds since the Unix epoch and the
/// nanoseconds within that second.
#[derive(Debug, Clone, Copy, PartialEq, Eq, Structural)]
pub struct Timestamp {
    pub secs: i64,
    pub nanos: u32,
}

/// `std::time::UNIX_EPOCH.elapsed()`: how long after the Unix epoch the
/// system clock reads (`Ok`), or how long before it (`Err`, from the
/// error's `duration`), as whole seconds and the nanoseconds within the
/// second. It reads the clock, so only the documented range of
/// `subsec_nanos` (below one billion) is promised.
#[verifier::external_body]
fn clock_since_epoch() -> (r: Result<(u64, u32), (u64, u32)>)
    ensures
        match r {
            Ok((_, n)) => n < 1_000_000_000,
            Err((_, n)) => n < 1_000_000_000,
        },
{
    match std::time::UNIX_EPOCH.elapsed() {
        Ok(d) => Ok((d.as_secs(), d.subsec_nanos())),
        Err(e) => Err((e.duration().as_secs(), e.duration().subsec_nanos())),
    }
}

/// The time `secs` seconds and `nanos` nanoseconds after the epoch, or
/// before it when `before`, as a timestamp whose nanoseconds count forward
/// within the second; seconds beyond the range of `i64` are cut to its end.
pub open spec fn clock_time(secs: u64, nanos: u32, before: bool) -> Timestamp {
    if !before {
        Timestamp { secs: if secs <= i64::MAX { secs as i64 } else { i64::MAX }, nanos }
    } else if secs >= i64::MAX {
        Timestamp { secs: i64::MIN, nanos: 0 }
    } else if nanos == 0 {
        Timestamp { secs: -(secs as int) as i64, nanos: 0 }
    } else {
        Timestamp { secs: (-(secs as int) - 1) as i64, nanos: (1_000_000_000 - nanos) as u32 }
    }
}

/// The timestamp of a clock reading: `Ok((secs, nanos))` after the epoch,
/// `Err((secs, nanos))` before it (see `clock_time`).
pub fn timestamp_from_clock(reading: Result<(u64, u32), (u64, u32)>) -> (t: Timestamp)
    requires
        match reading {
            Ok((_, n)) => n < 1_000_000_000,
            Err((_, n)) => n < 1_000_000_000,
        },
    ensures
        t == match reading {
            Ok((s, n)) => clock_time(s, n, false),
            Err((s, n)) => clock_time(s, n, true),
        },
        t.nanos < 1_000_000_000,
{
    match reading {
        Ok((secs, nanos)) => {
            if secs <= 9_223_372_036_854_775_807u64 {
                Timestamp { secs: secs as i64, nanos }
            } else {
                Timestamp { secs: i64::MAX, nanos }
            }
        },
        Err((secs, nanos)) => {
            if secs >= 9_223_372_036_854_775_807u64 {
                Timestamp { secs: i64::MIN, nanos: 0 }
            } else if nanos == 0 {
                Timestamp { secs: -(secs as i64), nanos: 0 }
            } else {
                Timestamp { secs: -(secs as i64) - 1, nanos: 1_000_000_000 - nanos }
            }
        },
    }
}

/// The current time from the system clock. A clock set before 1970 gives
/// a time before the epoch rather than failing; which time it is, is up
/// to the clock.
pub(crate) fn now() -> (t: Timestamp)
    ensures
        t.nanos < 1_000_000_000,
{
    timestamp_from_clock(clock_since_epoch())
}

/// A task as stored in one markdown file: frontmatter fields plus the body.
#[derive(Debug)]
pub struct Task {
    pub id: String,
    pub title: String,
    pub task_type: TaskType,
    pub status: Status,
    pub priority: Priority,
    pub created: Timestamp,
    pub updated: Timestamp,
    pub tags: Vec<String>,
    pub depends_on: Vec<String>,
    pub parent: Option<String>,
    pub assignee: String,
    pub body: String,
}

/// Copies a list of strings.
pub fn clone_strings(v: &Vec<String>) -> (r: Vec<String>)
    ensures
        r@ == v@,
{
    let r = v.clone();
    assert(r@ =~= v@);
    r
}

/// Copies an optional string.
pub fn clone_opt_string(o: &Option<String>) -> (r: Option<String>)
    ensures
        r == *o,
{
    match o {
        Some(s) => Some(s.clone()),
        None => None,
    }
}

/// The mathematical content of a task: every field by its view.
pub struct TaskView {
    pub id: Seq<char>,
    pub title: Seq<char>,
    pub task_type: TaskType,
    pub status: Status,
    pub priority: Priority,
    pub created: Timestamp,
    pub updated: Timestamp,
    pub tags: Seq<Seq<char>>,
    pub depends_on: Seq<Seq<char>>,
    pub parent: Option<Seq<char>>,
    pub assignee: Seq<char>,
    pub body: Seq<char>,
}

/// The views of a list of strings.
pub open spec fn str_views(v: Seq<String>) -> Seq<Seq<char>> {
    crate::text::string_views(v)
}

/// The view of an optional string.
pub open spec fn opt_str_view(o: Option<String>) -> Option<Seq<char>> {
    match o {
        Some(s) => Some(s@),
        None => None,
    }
}

impl View for Task {
    type V = TaskView;

    open spec fn view(&self) -> TaskView {
        TaskView {
            id: self.id@,
            title: self.title@,
            task_type: self.task_type,
            status: self.status,
            priority: self.priority,
            created: self.created,
            updated: self.updated,
            tags: str_views(self.tags@),
            depends_on: str_views(self.depends_on@),
            parent: opt_str_view(self.parent),
            assignee: self.assignee@,
            body: self.body@,
        }
    }
}

/// The views of a list of tasks.
pub open spec fn task_views(v: Seq<Task>) -> Seq<TaskView> {
    v.map_values(|t: Task| t@)
}

impl Clone for Task {
    fn clone(&self) -> (r: Task)
        ensures
            r@ == self@,
    {
        let r = Task {
            id: self.id.clone(),
            title: self.title.clone(),
            task_type: self.task_type,
            status: self.status,
            priority: self.priority,
            created: self.created,
            updated: self.updated,
            tags: clone_strings(&self.tags),
            depends_on: clone_strings(&self.depends_on),
            parent: clone_opt_string(&self.parent),
            assignee: self.assignee.clone(),
            body: self.body.clone(),
        };
        assert(r@.tags =~= self@.tags);
        assert(r@.depends_on =~= self@.depends_on);
        r
    }
}

impl Task {
    /// The task as it stands right after creation at time `at`.
    pub open spec fn fresh(self, id: Seq<char>, title: Seq<char>, priority: Priority) -> bool {
        &&& self.id@ == id
        &&& self.title@ == title
        &&& self.task_type == TaskType::Task
        &&& self.status == Status::Open
        &&& self.priority == priority
        &&& self.created == self.updated
        &&& self.tags@.len() == 0
        &&& self.depends_on@.len() == 0
        &&& self.parent.is_none()
        &&& self.assignee@.len() == 0
        &&& self.body@.len() == 0
    }

    /// A new open task of type `task`, created and updated now, with no tags,
    /// dependencies, parent, assignee or body.
    pub fn new(id: String, title: String, priority: Priority) -> (t: Task)
        ensures
            t.fresh(id@, title@, priority),
    {
        let at = now();
        Task {
            id,
            title,
            task_type: TaskType::Task,
            status: Status::Open,
            priority,
            created: at,
            updated: at,
            tags: Vec::new(),
            depends_on: Vec::new(),
            parent: None,
            assignee: String::new(),
            body: String::new(),
        }
    }

    /// The effective priority shown beside a task: the given one only when it
    /// is strictly more urgent than the task's own.
    pub open spec fn shown_effective(self, effective_priority: Option<Priority>) -> Option<
        Priority,
    > {
        match effective_priority {
            Some(ep) => if ep.level() < self.priority.level() {
                Some(ep)
            } else {
                None
            },
            None => None,
        }
    }

    /// Compact projection: id, title, type, status, priority, tags, and the
    /// effective priority when it is more urgent than the own one.
    pub fn summary(&self, effective_priority: Option<&Priority>) -> (s: TaskSummary)
        ensures
            s.id@ == self.id@,
            s.title@ == self.title@,
            s.task_type == self.task_type,
            s.status == self.status,
            s.priority == self.priority,
            s.tags@ == self.tags@,
            s.effective_priority == self.shown_effective(
                match effective_priority {
                    Some(p) => Some(*p),
                    None => None,
                },
            ),
    {
        let eff = match effective_priority {
            Some(ep) => if ep.rank() < self.priority.rank() {
                Some(*ep)
            } else {
                None
            },
            None => None,
        };
        TaskSummary {
            id: self.id.clone(),
            title: self.title.clone(),
            task_type: self.task_type,
            status: self.status,
            priority: self.priority,
            tags: clone_strings(&self.tags),
            effective_priority: eff,
        }
    }

    /// Full projection: the summary plus body, dependencies, parent, assignee
    /// and timestamps.
    pub fn detail(&self, effective_priority: Option<&Priority>) -> (d: TaskDetail)
        ensures
            d.summary.id@ == self.id@,
            d.summary.title@ == self.title@,
            d.summary.task_type == self.task_type,
            d.summary.status == self.status,
            d.summary.priority == self.priority,
            d.summary.tags@ == self.tags@,
            d.summary.effective_priority == self.shown_effective(
                match effective_priority {
                    Some(p) => Some(*p),
                    None => None,
                },
            ),
            d.body@ == self.body@,
            d.depends_on@ == self.depends_on@,
            d.parent == self.parent,
            d.assignee@ == self.assignee@,
            d.created == self.created,
            d.updated == self.updated,
    {
        TaskDetail {
            summary: self.summary(effective_priority),
            body: self.body.clone(),
            depends_on: clone_strings(&self.depends_on),
            parent: clone_opt_string(&self.parent),
            assignee: self.assignee.clone(),
            created: self.created,
            updated: self.updated,
        }
    }
}

/// Compact task projection used by list, ready, create and update output.
#[derive(Debug)]
pub struct TaskSummary {
    pub id: String,
    pub title: String,
    pub task_type: TaskType,
    pub status: Status,
    pub priority: Priority,
    pub tags: Vec<String>,
    pub effective_priority: Option<Priority>,
}

/// Full task projection used by show output.
#[derive(Debug)]
pub struct TaskDetail {
    pub summary: TaskSummary,
    pub body: String,
    pub depends_on: Vec<String>,
    pub parent: Option<String>,
    pub assignee: String,
    pub created: Timestamp,
    pub updated: Timestamp,
}

/// A task counts as active unless it is done or cancelled.
pub open spec fn active(t: TaskView) -> bool {
    t.status != Status::Done && t.status != Status::Cancelled
}

/// Whether a task is in an active status (not done or cancelled).
pub fn is_active(task: &Task) -> (r: bool)
    ensures
        r == active(task@),
{
    !(task.status == Status::Done || task.status == Status::Cancelled)
}

/// No tag filter, or the task carries the tag.
pub open spec fn tag_matches(t: TaskView, tag: Option<Seq<char>>) -> bool {
    match tag {
        None => true,
        Some(g) => t.tags.contains(g),
    }
}

/// The view of an optional string slice.
pub open spec fn opt_view(o: Option<&str>) -> Option<Seq<char>> {
    match o {
        Some(s) => Some(s@),
        None => None,
    }
}

/// Whether a task matches the given tag (if any).
pub fn matches_tag(task: &Task, tag: Option<&str>) -> (r: bool)
    ensures
        r == tag_matches(task@, opt_view(tag)),
{
    match tag {
        None => true,
        Some(g) => {
            for i in 0..task.tags.len()
                invariant
                    opt_view(tag) == Some(g@),
                    forall|j: int| 0 <= j < i ==> #[trigger] task.tags@[j]@ != g@,
            {
                if str_eq(task.tags[i].as_str(), g) {
                    assert(task@.tags[i as int] == task.tags@[i as int]@);
                    assert(task@.tags[i as int] == g@);
                    assert(task@.tags.contains(g@));
                    return true;
                }
            }
            assert forall|j: int| 0 <= j < task@.tags.len() implies task@.tags[j] != g@ by {
                assert(task@.tags[j] == task.tags@[j]@);
            }
            false
        },
    }
}

/// The canonical sort key of a task: priority, then creation time.
pub open spec fn priority_key(t: TaskView) -> SortKey {
    SortKey { rank: t.priority.level(), secs: t.created.secs, nanos: t.created.nanos }
}

/// The canonical sort keys of a list of tasks.
pub open spec fn priority_keys(ts: Seq<TaskView>) -> Seq<SortKey> {
    ts.map_values(|t: TaskView| priority_key(t))
}

/// The canonical sort key of a task.
pub fn task_key(t: &Task) -> (k: SortKey)
    ensures
        k == priority_key(t@),
{
    SortKey { rank: t.priority.rank(), secs: t.created.secs, nanos: t.created.nanos }
}

/// Rearranges `tasks` by `order` (positions into `tasks`).
pub fn gather(tasks: &Vec<Task>, order: &Vec<usize>) -> (r: Vec<Task>)
    requires
        forall|i: int| 0 <= i < order@.len() ==> #[trigger] order@[i] < tasks@.len(),
    ensures
        r@.len() == order@.len(),
        forall|k: int| 0 <= k < r@.len() ==> #[trigger] r@[k]@ == tasks@[order@[k] as int]@,
{
    let mut r: Vec<Task> = Vec::new();
    for k in 0..order.len()
        invariant
            forall|i: int| 0 <= i < order@.len() ==> #[trigger] order@[i] < tasks@.len(),
            r@.len() == k,
            forall|j: int| 0 <= j < k ==> #[trigger] r@[j]@ == tasks@[order@[j] as int]@,
    {
        r.push(tasks[order[k]].clone());
    }
    r
}

/// Canonical sort: priority ascending (P0 first), then creation time
/// ascending; tasks with equal keys keep their relative order.
pub fn sort_by_priority_owned(tasks: &mut Vec<Task>)
    ensures
        stably_sorted(
            task_views(old(tasks)@),
            priority_keys(task_views(old(tasks)@)),
            task_views(final(tasks)@),
        ),
{
    let mut keys: Vec<SortKey> = Vec::new();
    for i in 0..tasks.len()
        invariant
            keys@.len() == i,
            forall|j: int| 0 <= j < i ==> #[trigger] keys@[j] == priority_key(tasks@[j]@),
    {
        keys.push(task_key(&tasks[i]));
    }
    assert(keys@ =~= priority_keys(task_views(tasks@)));
    let order = stable_order(&keys);
    let sorted = gather(tasks, &order);
    let ghost olds = task_views(old(tasks)@);
    let ghost news = task_views(sorted@);
    assert(is_stable_order(priority_keys(olds), order@));
    assert(forall|k: int| 0 <= k < news.len() ==> #[trigger] news[k] == olds[order@[k] as int]);
    *tasks = sorted;
}


/// `char::is_ascii_alphanumeric`.
pub open spec fn ascii_alnum(c: char) -> bool {
    let u = c as u32;
    (48 <= u && u <= 57) || (65 <= u && u <= 90) || (97 <= u && u <= 122)
}

/// Each character that is not an ASCII letter or digit replaced by `-`.
pub open spec fn dashify(s: Seq<char>) -> Seq<char> {
    s.map_values(|c: char| if ascii_alnum(c) { c } else { '-' })
}

/// Runs of dashes collapsed into one and leading dashes dropped.
pub open spec fn squeeze_dashes(s: Seq<char>) -> Seq<char>
    decreases s.len(),
{
    if s.len() == 0 {
        Seq::<char>::empty()
    } else {
        let r = squeeze_dashes(s.drop_last());
        if s.last() == '-' {
            if r.len() == 0 || r.last() == '-' {
                r
            } else {
                r.push('-')
            }
        } else {
            r.push(s.last())
        }
    }
}

/// Every run of characters other than ASCII letters and digits turned into
/// a single dash, with no dash at either end.
pub open spec fn slug_shape(x: Seq<char>) -> Seq<char> {
    let q = squeeze_dashes(dashify(x));
    if q.len() > 0 && q.last() == '-' {
        q.drop_last()
    } else {
        q
    }
}

/// The URL-friendly slug of a title: lowercased (Unicode lowercasing, then
/// ASCII lowercasing, which changes nothing the first left but lets the
/// letters of the slug be known), every run of characters other than ASCII
/// letters and digits turned into a single dash, with no dash at either end.
pub open spec fn slug(title: Seq<char>) -> Seq<char> {
    slug_shape(crate::text::ascii_lower(lowercase(title)))
}

/// A character a slug is made of: `a`-`z`, `0`-`9`, `-`.
pub open spec fn slug_char(c: char) -> bool {
    ('a' <= c && c <= 'z') || ('0' <= c && c <= '9') || c == '-'
}

/// Only ASCII letters, digits and dashes, no dash first or last, and no two
/// dashes in a row.
pub open spec fn dash_clean(s: Seq<char>) -> bool {
    &&& forall|i: int| 0 <= i < s.len() ==> ascii_alnum(#[trigger] s[i]) || s[i] == '-'
    &&& s.len() > 0 ==> s[0] != '-' && s.last() != '-'
    &&& forall|i: int| 0 <= i < s.len() - 1 ==> !(#[trigger] s[i] == '-' && s[i + 1] == '-')
}

proof fn lemma_squeeze_clean(d: Seq<char>)
    requires
        forall|i: int| 0 <= i < d.len() ==> ascii_alnum(#[trigger] d[i]) || d[i] == '-',
    ensures
        forall|i: int| 0 <= i < squeeze_dashes(d).len() ==> ascii_alnum(#[trigger] squeeze_dashes(d)[i]) || squeeze_dashes(d)[i] == '-',
        forall|i: int| 0 <= i < squeeze_dashes(d).len() ==> d.contains(#[trigger] squeeze_dashes(d)[i]),
        squeeze_dashes(d).len() > 0 ==> squeeze_dashes(d)[0] != '-',
        forall|i: int| 0 <= i < squeeze_dashes(d).len() - 1 ==> !(#[trigger] squeeze_dashes(d)[i] == '-' && squeeze_dashes(d)[i + 1] == '-'),
    decreases d.len(),
{
    if d.len() > 0 {
        let r = squeeze_dashes(d.drop_last());
        lemma_squeeze_clean(d.drop_last());
        let q = squeeze_dashes(d);
        assert forall|i: int| 0 <= i < q.len() implies d.contains(#[trigger] q[i]) by {
            if i < r.len() {
                assert(q[i] == r[i]);
                assert(d.drop_last().contains(r[i]));
                let k = choose|k: int| 0 <= k < d.drop_last().len() && d.drop_last()[k] == r[i];
                assert(d[k] == r[i]);
            } else {
                assert(d[d.len() - 1] == d.last());
            }
        }
        assert forall|i: int| 0 <= i < q.len() - 1 implies !(#[trigger] q[i] == '-' && q[i + 1] == '-') by {
            if i + 1 < r.len() {
                assert(q[i] == r[i] && q[i + 1] == r[i + 1]);
            }
        }
        if r.len() > 0 {
            assert(q[0] == r[0]);
        }
    }
}

proof fn lemma_squeeze_identity(s: Seq<char>)
    requires
        s.len() > 0 ==> s[0] != '-',
        forall|i: int| 0 <= i < s.len() - 1 ==> !(#[trigger] s[i] == '-' && s[i + 1] == '-'),
    ensures
        squeeze_dashes(s) == s,
    decreases s.len(),
{
    if s.len() > 0 {
        let p = s.drop_last();
        assert forall|i: int| 0 <= i < p.len() - 1 implies !(#[trigger] p[i] == '-' && p[i + 1] == '-') by {
            assert(p[i] == s[i] && p[i + 1] == s[i + 1]);
        }
        if p.len() > 0 {
            assert(p[0] == s[0]);
        }
        lemma_squeeze_identity(p);
        if s.last() == '-' {
            assert(s.len() >= 2);
            assert(p.last() == s[s.len() - 2]);
            assert(!(s[s.len() - 2] == '-' && s[s.len() - 1] == '-'));
        }
        assert(squeeze_dashes(s) =~= s);
    }
}

/// A slug holds only ASCII letters, digits and dashes, never starts or ends
/// with a dash, and never has two dashes in a row.
pub proof fn lemma_slug_shape(x: Seq<char>)
    ensures
        dash_clean(slug_shape(x)),
{
    let d = dashify(x);
    assert forall|i: int| 0 <= i < d.len() implies ascii_alnum(#[trigger] d[i]) || d[i] == '-' by {}
    lemma_squeeze_clean(d);
    let q = squeeze_dashes(d);
    let r = slug_shape(x);
    if q.len() > 0 && q.last() == '-' {
        assert forall|i: int| 0 <= i < r.len() implies ascii_alnum(#[trigger] r[i]) || r[i] == '-' by {
            assert(r[i] == q[i]);
        }
        assert forall|i: int| 0 <= i < r.len() - 1 implies !(#[trigger] r[i] == '-' && r[i + 1] == '-') by {
            assert(r[i] == q[i] && r[i + 1] == q[i + 1]);
        }
        if r.len() > 0 {
            assert(r[0] == q[0]);
            assert(r.last() == q[q.len() - 2]);
            assert(!(q[q.len() - 2] == '-' && q[q.len() - 1] == '-'));
        }
    }
}

/// Once ASCII-lowercased, any text gives a slug that holds only `a`-`z`,
/// `0`-`9` and dashes, and slugging that slug again gives it back
/// unchanged.
pub proof fn lemma_slug_lowered(t: Seq<char>)
    ensures
        forall|i: int| 0 <= i < slug_shape(crate::text::ascii_lower(t)).len() ==> slug_char(#[trigger] slug_shape(crate::text::ascii_lower(t))[i]),
        crate::text::ascii_text(slug_shape(crate::text::ascii_lower(t))),
        slug_shape(crate::text::ascii_lower(slug_shape(crate::text::ascii_lower(t)))) == slug_shape(crate::text::ascii_lower(t)),
{
    let l = crate::text::ascii_lower(t);
    assert forall|i: int| 0 <= i < l.len() implies !('A' <= #[trigger] l[i] && l[i] <= 'Z') by {
        let c = t[i];
        if 'A' <= c && c <= 'Z' {
            assert(l[i] == ((c as int) + 32) as char);
        }
    }
    let d = dashify(l);
    assert forall|i: int| 0 <= i < d.len() implies ascii_alnum(#[trigger] d[i]) || d[i] == '-' by {}
    lemma_squeeze_clean(d);
    lemma_slug_shape(l);
    let s = slug_shape(l);
    let q = squeeze_dashes(d);
    assert forall|i: int| 0 <= i < s.len() implies slug_char(#[trigger] s[i]) by {
        assert(s[i] == q[i]);
        assert(d.contains(q[i]));
        let k = choose|k: int| 0 <= k < d.len() && d[k] == q[i];
        assert(d[k] == (if ascii_alnum(l[k]) { l[k] } else { '-' }));
    }
    assert(crate::text::ascii_text(s));
    let ls = crate::text::ascii_lower(s);
    assert(ls =~= s);
    let ds = dashify(s);
    assert(ds =~= s);
    lemma_squeeze_identity(s);
}

/// Every slug holds only `a`-`z`, `0`-`9` and dashes, and is ASCII text
/// that slugs to itself once lowercased: with `slugify`'s clause for ASCII
/// titles, slugging a slug gives it back unchanged.
pub proof fn lemma_slug_idempotent(title: Seq<char>)
    ensures
        forall|i: int| 0 <= i < slug(title).len() ==> slug_char(#[trigger] slug(title)[i]),
        dash_clean(slug(title)),
        crate::text::ascii_text(slug(title)),
        slug_shape(crate::text::ascii_lower(slug(title))) == slug(title),
{
    lemma_slug_lowered(lowercase(title));
    lemma_slug_shape(crate::text::ascii_lower(lowercase(title)));
}

/// ASCII lowercasing twice is lowercasing once.
proof fn lemma_ascii_lower_twice(t: Seq<char>)
    ensures
        crate::text::ascii_lower(crate::text::ascii_lower(t)) == crate::text::ascii_lower(t),
{
    let l = crate::text::ascii_lower(t);
    assert forall|i: int| 0 <= i < l.len() implies crate::text::ascii_lower_char(#[trigger] l[i]) == l[i] by {
        let c = t[i];
        if 'A' <= c && c <= 'Z' {
            assert(l[i] == ((c as int) + 32) as char);
        }
    }
    assert(crate::text::ascii_lower(l) =~= l);
}

/// Convert a title to a URL-friendly slug.
pub fn slugify(title: &str) -> (r: String)
    ensures
        r@ == slug(title@),
        dash_clean(r@),
        forall|i: int| 0 <= i < r@.len() ==> slug_char(#[trigger] r@[i]),
        crate::text::ascii_text(title@) ==> r@ == slug_shape(crate::text::ascii_lower(title@)),
{
    proof {
        lemma_slug_idempotent(title@);
        lemma_ascii_lower_twice(title@);
    }
    let lowered = to_lowercase(title);
    let cs = crate::text::chars_of(lowered.as_str());
    let ghost d = dashify(crate::text::ascii_lower(cs@));
    let mut out: Vec<char> = Vec::new();
    let mut prev_dash = true;
    for i in 0..cs.len()
        invariant
            d == dashify(crate::text::ascii_lower(cs@)),
            out@ == squeeze_dashes(d.subrange(0, i as int)),
            prev_dash == (out@.len() == 0 || out@.last() == '-'),
    {
        let c0 = cs[i];
        let u0 = c0 as u32;
        let c = if 65 <= u0 && u0 <= 90 {
            let b = (u0 + 32) as u8;
            b as char
        } else {
            c0
        };
        assert(c == crate::text::ascii_lower_char(c0));
        let u = c as u32;
        let alnum = (48 <= u && u <= 57) || (65 <= u && u <= 90) || (97 <= u && u <= 122);
        let m = if alnum { c } else { '-' };
        assert(d[i as int] == m);
        assert(d.subrange(0, i + 1).drop_last() =~= d.subrange(0, i as int));
        if m == '-' {
            if !prev_dash {
                out.push('-');
            }
            prev_dash = true;
        } else {
            out.push(m);
            prev_dash = false;
        }
    }
    assert(d.subrange(0, cs@.len() as int) =~= d);
    if out.len() > 0 && out[out.len() - 1] == '-' {
        out.pop();
    }
    crate::text::string_of(&out)
}

/// The file name of a task: `{id}-{slug}.md`.
pub open spec fn file_name(id: Seq<char>, title: Seq<char>) -> Seq<char> {
    id + "-"@ + slug(title) + ".md"@
}

/// Build the filename for a task: `{id}-{slug}.md`.
pub fn filename(task: &Task) -> (r: String)
    ensures
        r@ == file_name(task.id@, task.title@),
{
    let s = slugify(task.title.as_str());
    task.id.clone().concat("-").concat(s.as_str()).concat(".md")
}

/// The characters IDs are made of: lowercase letters and digits without the
/// easily confused `0`/`o` and `1`/`l`/`i`.
pub open spec fn id_charset() -> Seq<char> {
    seq![
        'a', 'b', 'c', 'd', 'e', 'f', 'g', 'h', 'j', 'k', 'm', 'n', 'p', 'q', 'r', 's', 't', 'u',
        'v', 'w', 'x', 'y', 'z', '2', '3', '4', '5', '6', '7', '8', '9',
    ]
}

/// What `serde_yml` makes of `s` read as a YAML document: true when it is a
/// string scalar (and not, say, a number, a boolean or `nan`).
pub uninterp spec fn yaml_reads_as_string(s: Seq<char>) -> bool;

/// `serde_yml::from_str::<serde_yml::Value>(s)` and a test for the `String`
/// variant: true when the text parses as a YAML string scalar. The result is
/// named by `yaml_reads_as_string`, a function of the text alone.
#[verifier::external_body]
fn yaml_scalar_is_string(s: &str) -> (r: bool)
    ensures
        r == yaml_reads_as_string(s@),
{
    matches!(serde_yml::from_str::<serde_yml::Value>(s), Ok(serde_yml::Value::String(_)))
}

/// An ID is YAML-safe when its unquoted occurrence still parses as a string.
pub fn yaml_safe_id(id: &str) -> (r: bool)
    ensures
        r == yaml_reads_as_string(id@),
{
    yaml_scalar_is_string(id)
}

/// A random generator of `rand`, seeded from the operating system.
#[verifier::external_type_specification]
#[verifier::external_body]
pub struct ExStdRng(rand::rngs::StdRng);

/// `StdRng::try_from_rng(&mut SysRng)`: a generator seeded from the
/// operating system's random source, or `None` when that source fails.
/// Whether it fails is up to the system, so nothing is promised.
#[verifier::external_body]
fn seeded_rng() -> (r: Option<rand::rngs::StdRng>) {
    <rand::rngs::StdRng as rand::SeedableRng>::try_from_rng(&mut rand::rngs::SysRng).ok()
}

/// `rng.random_range(0..n)`: a random index below `n`. It depends on the
/// generator, so only its range is promised; `n > 0` keeps the range
/// non-empty, the one case in which the call panics.
#[verifier::external_body]
fn random_index(rng: &mut rand::rngs::StdRng, n: usize) -> (i: usize)
    requires
        n > 0,
    ensures
        i < n,
{
    rng.random_range(0..n)
}

/// An ID that may be given to a new task: `length` characters from the ID
/// character set, not among the existing IDs, and safe to write unquoted in YAML.
pub open spec fn acceptable_id(existing: Seq<Seq<char>>, length: nat, id: Seq<char>) -> bool {
    &&& id.len() == length
    &&& forall|i: int| 0 <= i < id.len() ==> id_charset().contains(#[trigger] id[i])
    &&& !existing.contains(id)
    &&& yaml_reads_as_string(id)
}

/// Whether `id` is one of `existing`.
pub fn contains_string(existing: &Vec<String>, id: &str) -> (r: bool)
    ensures
        r == str_views(existing@).contains(id@),
{
    for i in 0..existing.len()
        invariant
            forall|j: int| 0 <= j < i ==> #[trigger] existing@[j]@ != id@,
    {
        if str_eq(existing[i].as_str(), id) {
            assert(str_views(existing@)[i as int] == id@);
            return true;
        }
    }
    assert forall|j: int| 0 <= j < str_views(existing@).len() implies str_views(existing@)[j]
        != id@ by {
        assert(str_views(existing@)[j] == existing@[j]@);
    }
    false
}

/// A candidate ID: `length` characters from the ID character set.
pub open spec fn id_shaped(length: nat, id: Seq<char>) -> bool {
    &&& id.len() == length
    &&& forall|i: int| 0 <= i < id.len() ==> id_charset().contains(#[trigger] id[i])
}

/// Every candidate ID of this length may be given to a new task, so no
/// draw can be refused.
pub open spec fn every_id_acceptable(existing: Seq<Seq<char>>, length: nat) -> bool {
    forall|id: Seq<char>| #[trigger] id_shaped(length, id) ==> acceptable_id(existing, length, id)
}

/// Generate a short ID from the unambiguous character set, drawing again on a
/// collision with an existing ID or on an ID that YAML would not read as a
/// string. Fails with `RandomUnavailable` when the system's random source
/// cannot seed the generator, and with `IdSpaceExhausted` after `u64::MAX`
/// refused draws, so only when some candidate of the length is refused;
/// which ID is drawn is up to the random generator.
pub fn generate_id(existing: &Vec<String>, length: usize) -> (r: Result<String, crate::error::Error>)
    ensures
        r matches Ok(id) ==> acceptable_id(str_views(existing@), length as nat, id@),
        r is Err ==> (r matches Err(crate::error::Error::IdSpaceExhausted) || r matches Err(crate::error::Error::RandomUnavailable)),
        every_id_acceptable(str_views(existing@), length as nat) ==> !(r matches Err(crate::error::Error::IdSpaceExhausted)),
{
    let mut rng = match seeded_rng() {
        Some(g) => g,
        None => {
            return Err(crate::error::Error::RandomUnavailable);
        },
    };
    let charset: Vec<char> = vec![
        'a', 'b', 'c', 'd', 'e', 'f', 'g', 'h', 'j', 'k', 'm', 'n', 'p', 'q', 'r', 's', 't', 'u',
        'v', 'w', 'x', 'y', 'z', '2', '3', '4', '5', '6', '7', '8', '9',
    ];
    assert(charset@ =~= id_charset());
    let mut attempts: u64 = 0;
    while attempts < u64::MAX
        invariant
            charset@ == id_charset(),
            every_id_acceptable(str_views(existing@), length as nat) ==> attempts == 0,
        decreases u64::MAX - attempts,
    {
        let mut cs: Vec<char> = Vec::new();
        for k in 0..length
            invariant
                charset@ == id_charset(),
                cs@.len() == k,
                forall|i: int| 0 <= i < cs@.len() ==> id_charset().contains(#[trigger] cs@[i]),
        {
            let j = random_index(&mut rng, charset.len());
            let c = charset[j];
            assert(id_charset()[j as int] == c);
            cs.push(c);
        }
        let id = crate::text::string_of(&cs);
        if !contains_string(existing, id.as_str()) && yaml_safe_id(id.as_str()) {
            return Ok(id);
        }
        assert(id_shaped(length as nat, id@));
        assert(!acceptable_id(str_views(existing@), length as nat, id@));
        attempts = attempts + 1;
    }
    Err(crate::error::Error::IdSpaceExhausted)
}

/// Whether a task type is the default one (`task`), which task files leave
/// unwritten.
pub fn is_default_task_type(t: &TaskType) -> (r: bool)
    ensures
        r == (*t == TaskType::Task),
{
    t.is_task()
}

/// The effective priority worth showing beside a task's own: the effective
/// one only when it is strictly more urgent.
pub fn shown_effective_priority(own: Priority, effective: Option<Priority>) -> (r: Option<Priority>)
    ensures
        r == (match effective {
            Some(e) => if e.level() < own.level() {
                Some(e)
            } else {
                None
            },
            None => None,
        }),
{
    match effective {
        Some(e) => if e.rank() < own.rank() {
            Some(e)
        } else {
            None
        },
        None => None,
    }
}

} // verus!
