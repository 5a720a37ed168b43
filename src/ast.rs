//! The parsed form of a plan: blocks of tasks as written in the source text.
use vstd::prelude::*;
use crate::text::{decimal, lower_of, push_char, push_decimal, str_eq, to_lower, u64_of, chars_of, parse_u64};

verus! {

/// How urgent a task is, from `Low` to `Critical`.
#[derive(Clone, Copy, Debug, PartialEq, Eq, Structural)]
pub enum Priority {
    Low,
    Medium,
    High,
    Critical,
}

impl Priority {
    /// The position of the priority in the order `Low < Medium < High < Critical`.
    pub open spec fn rank(self) -> nat {
        match self {
            Priority::Low => 0,
            Priority::Medium => 1,
            Priority::High => 2,
            Priority::Critical => 3,
        }
    }

    /// Parses a priority, ignoring case: a name or its number from 1 to 4.
    pub fn from_str(s: &str) -> (r: Result<Priority, ()>)
        ensures
            r == priority_named(lower_of(s@)),
    {
        let l = to_lower(s);
        priority_from_lowered(l.as_str())
    }
}

impl Default for Priority {
    fn default() -> (r: Priority)
        ensures
            r == Priority::Medium,
    {
        Priority::Medium
    }
}

/// The priority that an already lower-cased word names.
pub open spec fn priority_named(l: Seq<char>) -> Result<Priority, ()> {
    if l == "low"@ || l == "1"@ {
        Ok(Priority::Low)
    } else if l == "medium"@ || l == "2"@ {
        Ok(Priority::Medium)
    } else if l == "high"@ || l == "3"@ {
        Ok(Priority::High)
    } else if l == "critical"@ || l == "4"@ {
        Ok(Priority::Critical)
    } else {
        Err(())
    }
}

/// Reads a priority from a word that is already in lower case.
pub fn priority_from_lowered(l: &str) -> (r: Result<Priority, ()>)
    ensures
        r == priority_named(l@),
{
    if str_eq(l, "low") || str_eq(l, "1") {
        Ok(Priority::Low)
    } else if str_eq(l, "medium") || str_eq(l, "2") {
        Ok(Priority::Medium)
    } else if str_eq(l, "high") || str_eq(l, "3") {
        Ok(Priority::High)
    } else if str_eq(l, "critical") || str_eq(l, "4") {
        Ok(Priority::Critical)
    } else {
        Err(())
    }
}

/// The numeric rank of a priority: 0 for `Low` up to 3 for `Critical`.
pub fn priority_to_value(priority: &Priority) -> (r: u8)
    ensures
        r as nat == priority.rank(),
{
    match priority {
        Priority::Low => 0,
        Priority::Medium => 1,
        Priority::High => 2,
        Priority::Critical => 3,
    }
}

/// A task length in whole minutes.
#[derive(Clone, Copy, Debug, PartialEq, Eq, Structural)]
pub struct TaskDuration {
    pub minutes: u64,
}

/// `[` or `]`, the characters that may wrap a duration.
pub open spec fn is_bracket(c: char) -> bool {
    c == '[' || c == ']'
}

pub open spec fn trim_start_brackets(s: Seq<char>) -> Seq<char>
    decreases s.len(),
{
    if s.len() > 0 && is_bracket(s[0]) {
        trim_start_brackets(s.drop_first())
    } else {
        s
    }
}

pub open spec fn trim_end_brackets(s: Seq<char>) -> Seq<char>
    decreases s.len(),
{
    if s.len() > 0 && is_bracket(s.last()) {
        trim_end_brackets(s.drop_last())
    } else {
        s
    }
}

/// The text with every leading and trailing bracket removed.
pub open spec fn trim_brackets(s: Seq<char>) -> Seq<char> {
    trim_end_brackets(trim_start_brackets(s))
}

/// The minutes that an unbracketed duration text `NNh` or `NNm` stands for.
pub open spec fn duration_value(t: Seq<char>) -> Option<u64> {
    if t.len() > 0 && t.last() == 'h' {
        match u64_of(t.drop_last()) {
            Some(h) => if h * 60 <= u64::MAX {
                Some((h * 60) as u64)
            } else {
                None
            },
            None => None,
        }
    } else if t.len() > 0 && t.last() == 'm' {
        u64_of(t.drop_last())
    } else {
        None
    }
}

/// `NNh`, `NNm`, or the hours form `NNh` when the minutes are whole hours.
pub open spec fn human_duration(m: nat) -> Seq<char> {
    if m < 60 {
        decimal(m).push('m')
    } else if m % 60 == 0 {
        decimal(m / 60).push('h')
    } else {
        (decimal(m / 60).push('h').push(' ') + decimal(m % 60)).push('m')
    }
}

/// Writes a minute count for people: `45m`, `2h` or `1h 30m`.
pub fn format_minutes(minutes: u64) -> (r: String)
    ensures
        r@ == human_duration(minutes as nat),
{
    let mut s = String::new();
    if minutes < 60 {
        push_decimal(&mut s, minutes);
        push_char(&mut s, 'm');
    } else if minutes % 60 == 0 {
        push_decimal(&mut s, minutes / 60);
        push_char(&mut s, 'h');
    } else {
        push_decimal(&mut s, minutes / 60);
        push_char(&mut s, 'h');
        push_char(&mut s, ' ');
        push_decimal(&mut s, minutes % 60);
        push_char(&mut s, 'm');
    }
    s
}

impl TaskDuration {
    pub fn from_minutes(mins: u64) -> (r: TaskDuration)
        ensures
            r.minutes == mins,
    {
        TaskDuration { minutes: mins }
    }

    /// `45m`, `2h` or `1h 30m`.
    pub fn to_human_string(&self) -> (r: String)
        ensures
            r@ == human_duration(self.minutes as nat),
    {
        format_minutes(self.minutes)
    }

    /// Parses `NNh` or `NNm` (an optional `+`, then decimal digits, then the
    /// unit). Fails on anything else and on an hour count whose minutes overflow.
    pub fn from_str(s: &str) -> (r: Result<TaskDuration, ()>)
        ensures
            r == (match duration_value(s@) {
                Some(m) => Ok::<TaskDuration, ()>(TaskDuration { minutes: m }),
                None => Err(()),
            }),
    {
        let cs = chars_of(s);
        match duration_from_chars(cs.as_slice()) {
            Some(d) => Ok(d),
            None => Err(()),
        }
    }
}

/// Reads an unbracketed duration `NNh` or `NNm`.
pub fn duration_from_chars(t: &[char]) -> (r: Option<TaskDuration>)
    ensures
        r == (match duration_value(t@) {
            Some(m) => Some(TaskDuration { minutes: m }),
            None => None,
        }),
{
    let n = t.len();
    if n == 0 {
        return None;
    }
    let body = vstd::slice::slice_subrange(t, 0, n - 1);
    assert(body@ == t@.drop_last());
    let last = t[n - 1];
    if last == 'h' {
        match parse_u64(body) {
            Some(h) => if h <= u64::MAX / 60 {
                Some(TaskDuration { minutes: h * 60 })
            } else {
                None
            },
            None => None,
        }
    } else if last == 'm' {
        match parse_u64(body) {
            Some(m) => Some(TaskDuration { minutes: m }),
            None => None,
        }
    } else {
        None
    }
}

/// A task as written: `name(params) [duration] #tag p:priority after:dep,dep`.
#[derive(Clone, Debug)]
pub struct Task {
    pub name: String,
    pub params: Vec<String>,
    pub duration: Option<TaskDuration>,
    pub tags: Vec<String>,
    pub priority: Priority,
    pub depends_on: Vec<String>,
}

/// Whether one of `tags` reads `tag`.
pub open spec fn has_tag_in(tags: Seq<String>, tag: Seq<char>) -> bool {
    exists|i: int| 0 <= i < tags.len() && (#[trigger] tags[i])@ == tag
}

/// Looks `tag` up among `tags`.
pub fn tags_contain(tags: &Vec<String>, tag: &str) -> (r: bool)
    ensures
        r == has_tag_in(tags@, tag@),
{
    let mut i: usize = 0;
    while i < tags.len()
        invariant
            i <= tags@.len(),
            forall|k: int| 0 <= k < i ==> (#[trigger] tags@[k])@ != tag@,
        decreases tags@.len() - i,
    {
        if str_eq(tags[i].as_str(), tag) {
            return true;
        }
        i = i + 1;
    }
    false
}

impl Task {
    pub fn new(name: String) -> (r: Task)
        ensures
            r.name == name,
            r.params@.len() == 0,
            r.duration is None,
            r.tags@.len() == 0,
            r.priority == Priority::Medium,
            r.depends_on@.len() == 0,
    {
        Task {
            name,
            params: Vec::new(),
            duration: None,
            tags: Vec::new(),
            priority: Priority::Medium,
            depends_on: Vec::new(),
        }
    }

    pub fn with_duration(self, duration: Option<TaskDuration>) -> (r: Task)
        ensures
            r == (Task { duration, ..self }),
    {
        Task { duration, ..self }
    }

    pub fn with_params(self, params: Vec<String>) -> (r: Task)
        ensures
            r == (Task { params, ..self }),
    {
        Task { params, ..self }
    }

    pub fn with_tags(self, tags: Vec<String>) -> (r: Task)
        ensures
            r == (Task { tags, ..self }),
    {
        Task { tags, ..self }
    }

    pub fn with_priority(self, priority: Priority) -> (r: Task)
        ensures
            r == (Task { priority, ..self }),
    {
        Task { priority, ..self }
    }

    pub fn with_dependencies(self, depends_on: Vec<String>) -> (r: Task)
        ensures
            r == (Task { depends_on, ..self }),
    {
        Task { depends_on, ..self }
    }

    pub fn has_tag(&self, tag: &str) -> (r: bool)
        ensures
            r == has_tag_in(self.tags@, tag@),
    {
        tags_contain(&self.tags, tag)
    }
}

/// A named group of tasks, in the order they were written.
#[derive(Clone, Debug)]
pub struct Block {
    pub name: String,
    pub tasks: Vec<Task>,
}

impl Block {
    pub fn new(name: String) -> (r: Block)
        ensures
            r.name == name,
            r.tasks@.len() == 0,
    {
        Block { name, tasks: Vec::new() }
    }

    pub fn with_tasks(self, tasks: Vec<Task>) -> (r: Block)
        ensures
            r.name == self.name,
            r.tasks == tasks,
    {
        Block { name: self.name, tasks }
    }

    pub fn add_task(&mut self, task: Task)
        ensures
            final(self).name == old(self).name,
            final(self).tasks@ == old(self).tasks@.push(task),
    {
        self.tasks.push(task);
    }
}

/// The contents of a parsed task, with texts as character sequences.
pub struct TaskModel {
    pub name: Seq<char>,
    pub params: Seq<Seq<char>>,
    pub duration: Option<TaskDuration>,
    pub tags: Seq<Seq<char>>,
    pub priority: Priority,
    pub depends_on: Seq<Seq<char>>,
}

impl View for Task {
    type V = TaskModel;

    open spec fn view(&self) -> TaskModel {
        TaskModel {
            name: self.name@,
            params: crate::optimizer::views(self.params@),
            duration: self.duration,
            tags: crate::optimizer::views(self.tags@),
            priority: self.priority,
            depends_on: crate::optimizer::views(self.depends_on@),
        }
    }
}

/// The contents of a parsed block.
pub struct BlockModel {
    pub name: Seq<char>,
    pub tasks: Seq<TaskModel>,
}

impl View for Block {
    type V = BlockModel;

    open spec fn view(&self) -> BlockModel {
        BlockModel { name: self.name@, tasks: self.tasks@.map_values(|t: Task| t@) }
    }
}

} // verus!
