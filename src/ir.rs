//! The lowered program: one arena of tasks addressed by id, and blocks that
//! list task ids in their current order.
use vstd::prelude::*;
use crate::ast::{has_tag_in, tags_contain, Block, Priority, Task, TaskDuration};
use crate::text::{push_char, str_eq};

verus! {

/// Minutes in one day; times of day are counted in minutes past midnight.
pub const MINUTES_PER_DAY: u64 = 1440;

/// A task of the lowered program. Its `id` is its index in the program's arena.
/// Scheduled times are minutes past midnight of the day being planned.
#[derive(Clone, Debug)]
pub struct IRTask {
    pub id: usize,
    pub name: String,
    pub params: Vec<String>,
    pub duration: Option<TaskDuration>,
    pub block: String,
    pub tags: Vec<String>,
    pub priority: Priority,
    pub depends_on: Vec<String>,
    /// Ids of the tasks of the same block that `depends_on` names.
    pub deps: Vec<usize>,
    pub scheduled_start: Option<u64>,
    pub scheduled_end: Option<u64>,
    pub completed: bool,
}

impl IRTask {
    /// The length in minutes; a task without a duration counts as zero.
    pub open spec fn minutes(self) -> nat {
        match self.duration {
            Some(d) => d.minutes as nat,
            None => 0,
        }
    }

    pub open spec fn tagged(self, tag: Seq<char>) -> bool {
        has_tag_in(self.tags@, tag)
    }

    /// Start and end are both set or both unset, and a set pair spans the duration.
    pub open spec fn schedule_consistent(self) -> bool {
        &&& (self.scheduled_start is Some) == (self.scheduled_end is Some)
        &&& self.scheduled_start is Some ==> self.scheduled_end->0 == self.scheduled_start->0
            + self.minutes()
    }

    /// The unscheduled task `id` lowered from `ast_task` of block `block_name`;
    /// its dependency names are not resolved yet.
    pub fn new(id: usize, ast_task: &Task, block_name: &str) -> (r: IRTask)
        ensures
            r.id == id,
            r.name == ast_task.name,
            r.params@ == ast_task.params@,
            r.duration == ast_task.duration,
            r.block@ == block_name@,
            r.tags@ == ast_task.tags@,
            r.priority == ast_task.priority,
            r.depends_on@ == ast_task.depends_on@,
            r.deps@.len() == 0,
            r.scheduled_start is None,
            r.scheduled_end is None,
            !r.completed,
    {
        IRTask {
            id,
            name: ast_task.name.clone(),
            params: copy_strings(&ast_task.params),
            duration: ast_task.duration,
            block: String::from_str(block_name),
            tags: copy_strings(&ast_task.tags),
            priority: ast_task.priority,
            depends_on: copy_strings(&ast_task.depends_on),
            deps: Vec::new(),
            scheduled_start: None,
            scheduled_end: None,
            completed: false,
        }
    }

    pub fn duration_minutes(&self) -> (r: u64)
        ensures
            r as nat == self.minutes(),
    {
        match &self.duration {
            Some(d) => d.minutes,
            None => 0,
        }
    }

    /// The task placed at `start`, ending `duration` minutes later.
    pub fn with_scheduled_time(self, start: u64) -> (r: IRTask)
        requires
            start + self.minutes() <= u64::MAX,
        ensures
            r == (IRTask {
                scheduled_start: Some(start),
                scheduled_end: Some((start + self.minutes()) as u64),
                ..self
            }),
    {
        let end = start + self.duration_minutes();
        IRTask { scheduled_start: Some(start), scheduled_end: Some(end), ..self }
    }

    pub fn has_tag(&self, tag: &str) -> (r: bool)
        ensures
            r == self.tagged(tag@),
    {
        tags_contain(&self.tags, tag)
    }

    /// `name`, or `name(a, b)` when the task has parameters.
    pub fn display_name(&self) -> (r: String)
        ensures
            r@ == display_of(self.name@, self.params@),
    {
        let mut s = self.name.clone();
        if self.params.len() == 0 {
            return s;
        }
        push_char(&mut s, '(');
        let mut i: usize = 0;
        while i < self.params.len()
            invariant
                0 < self.params@.len(),
                i <= self.params@.len(),
                s@ == self.name@.push('(') + joined(self.params@.take(i as int)),
            decreases self.params@.len() - i,
        {
            if i > 0 {
                push_char(&mut s, ',');
                push_char(&mut s, ' ');
            }
            append_str(&mut s, &self.params[i]);
            proof {
                let t = self.params@.take(i + 1);
                assert(t.drop_last() == self.params@.take(i as int));
                assert(t.last() == self.params@[i as int]);
                if i == 0 {
                    assert(t.len() == 1);
                    assert(joined(t) == t[0]@);
                    assert(s@ == self.name@.push('(') + joined(t));
                } else {
                    assert(joined(t) == joined(t.drop_last()) + seq![',', ' '] + t.last()@);
                    assert(s@ == self.name@.push('(') + joined(t));
                }
            }
            i = i + 1;
        }
        push_char(&mut s, ')');
        assert(self.params@.take(self.params@.len() as int) == self.params@);
        s
    }
}

/// The parameters joined by `", "`.
pub open spec fn joined(ps: Seq<String>) -> Seq<char>
    decreases ps.len(),
{
    if ps.len() == 0 {
        Seq::empty()
    } else if ps.len() == 1 {
        ps[0]@
    } else {
        joined(ps.drop_last()) + seq![',', ' '] + ps.last()@
    }
}

pub open spec fn display_of(name: Seq<char>, params: Seq<String>) -> Seq<char> {
    if params.len() == 0 {
        name
    } else {
        name.push('(') + joined(params).push(')')
    }
}

pub(crate) fn append_str(s: &mut String, t: &String)
    ensures
        final(s)@ == old(s)@ + t@,
{
    let cs = crate::text::chars_of(t.as_str());
    let mut i: usize = 0;
    let ghost start = s@;
    while i < cs.len()
        invariant
            i <= cs@.len(),
            cs@ == t@,
            s@ == start + cs@.take(i as int),
        decreases cs@.len() - i,
    {
        push_char(s, cs[i]);
        assert(cs@.take(i + 1) == cs@.take(i as int).push(cs@[i as int]));
        i = i + 1;
    }
    assert(cs@.take(cs@.len() as int) == cs@);
}

/// A block of the lowered program: its name and the ids of its tasks, in order.
#[derive(Clone, Debug)]
pub struct IRBlock {
    pub name: String,
    pub tasks: Vec<usize>,
}

/// Relies on `chrono::Local::now().offset()` and its `Display`: the local
/// UTC offset at this moment, written like `+02:00`. It depends on the machine
/// and the time, so nothing is promised of it.
#[verifier::external_body]
pub(crate) fn local_utc_offset() -> (r: String) {
    chrono::Local::now().offset().to_string()
}

/// Scheduling settings carried by a program. Workday bounds are minutes past midnight.
#[derive(Clone, Debug)]
pub struct IRMetadata {
    /// The local UTC offset when the program was built, such as `+02:00`.
    pub timezone: String,
    pub workday_start: u64,
    pub workday_end: u64,
    pub max_parallel: usize,
    pub focus_tags: Vec<String>,
    pub optimization_level: u8,
}

impl IRMetadata {
    /// Both workday bounds are times of day.
    pub open spec fn wf(self) -> bool {
        self.workday_start < MINUTES_PER_DAY && self.workday_end < MINUTES_PER_DAY
    }
}

impl Default for IRMetadata {
    /// A 09:00 to 17:00 workday, one task at a time, no focus tags, level 1.
    fn default() -> (r: IRMetadata)
        ensures
            r.workday_start == 540,
            r.workday_end == 1020,
            r.max_parallel == 1,
            r.focus_tags@.len() == 0,
            r.optimization_level == 1,
    {
        IRMetadata {
            timezone: local_utc_offset(),
            workday_start: 540,
            workday_end: 1020,
            max_parallel: 1,
            focus_tags: Vec::new(),
            optimization_level: 1,
        }
    }
}

/// The task ids of all blocks, block after block.
pub open spec fn flat(blocks: Seq<IRBlock>) -> Seq<usize>
    decreases blocks.len(),
{
    if blocks.len() == 0 {
        Seq::empty()
    } else {
        flat(blocks.drop_last()) + blocks.last().tasks@
    }
}

/// Every id below `n` is listed by exactly one block, exactly once.
pub open spec fn blocks_partition(blocks: Seq<IRBlock>, n: nat) -> bool {
    &&& forall|b: int| 0 <= b < blocks.len() ==> (#[trigger] blocks[b]).tasks@.no_duplicates()
    &&& forall|b: int, x: usize|
        0 <= b < blocks.len() && #[trigger] blocks[b].tasks@.contains(x) ==> x < n
    &&& forall|b1: int, b2: int, x: usize|
        0 <= b1 < blocks.len() && 0 <= b2 < blocks.len() && b1 != b2 && #[trigger] blocks[b1].tasks@.contains(x)
            ==> !#[trigger] blocks[b2].tasks@.contains(x)
    &&& forall|x: usize| x < n ==> #[trigger] listed(blocks, x)
}

/// Some block lists `x`.
pub open spec fn listed(blocks: Seq<IRBlock>, x: usize) -> bool {
    exists|b: int| 0 <= b < blocks.len() && #[trigger] blocks[b].tasks@.contains(x)
}

/// The summed durations of the listed tasks.
pub open spec fn total_minutes(tasks: Seq<IRTask>, ids: Seq<usize>) -> nat
    decreases ids.len(),
{
    if ids.len() == 0 {
        0
    } else {
        total_minutes(tasks, ids.drop_last()) + tasks[ids.last() as int].minutes()
    }
}

proof fn lemma_total_minutes_prefix(tasks: Seq<IRTask>, ids: Seq<usize>, i: int)
    requires
        0 <= i <= ids.len(),
    ensures
        total_minutes(tasks, ids.take(i)) <= total_minutes(tasks, ids),
    decreases ids.len() - i,
{
    if i < ids.len() {
        lemma_total_minutes_prefix(tasks, ids, i + 1);
        assert(ids.take(i + 1).drop_last() == ids.take(i));
    } else {
        assert(ids.take(i) == ids);
    }
}

/// `r` is the program lowered from `ast_blocks` with `metadata`: block `b`
/// lists the ids that follow those of the blocks before it, in order, and
/// each id holds the lowered form of the matching parsed task.
pub open spec fn lowered_from(r: IRProgram, ast_blocks: Seq<Block>, metadata: IRMetadata) -> bool {
    &&& r.wf()
    &&& r.metadata == metadata
    &&& r.blocks@.len() == ast_blocks.len()
    &&& r.task_map@.len() == task_count(ast_blocks)
    &&& forall|b: int| 0 <= b < ast_blocks.len() ==> (#[trigger] r.blocks@[b]).name == ast_blocks[b].name
        && r.blocks@[b].tasks@ == Seq::new(ast_blocks[b].tasks@.len(), |k: int| (task_count(ast_blocks.take(b)) + k) as usize)
    &&& forall|b: int, k: int| 0 <= b < ast_blocks.len() && 0 <= k < ast_blocks[b].tasks@.len() ==> lowered(
        #[trigger] r.task_map@[task_count(ast_blocks.take(b)) + k],
        ast_blocks[b].tasks@[k],
        &ast_blocks[b],
        task_count(ast_blocks.take(b)),
    )
}

/// Lowers parsed blocks into a program: tasks get ids 0, 1, 2, ... in
/// reading order, and each task's dependency names are resolved within its block.
pub fn to_ir(ast_blocks: &[Block], metadata: IRMetadata) -> (r: IRProgram)
    requires
        metadata.wf(),
        task_count(ast_blocks@) <= usize::MAX,
    ensures
        lowered_from(r, ast_blocks@, metadata),
{
    let mut p = IRProgram::new(metadata);
    let mut b: usize = 0;
    while b < ast_blocks.len()
        invariant
            p.wf(),
            p.metadata == metadata,
            b <= ast_blocks@.len(),
            task_count(ast_blocks@) <= usize::MAX,
            p.blocks@.len() == b,
            p.task_map@.len() == task_count(ast_blocks@.take(b as int)),
            forall|c: int| 0 <= c < b ==> (#[trigger] p.blocks@[c]).name == ast_blocks@[c].name
                && p.blocks@[c].tasks@ == Seq::new(ast_blocks@[c].tasks@.len(), |k: int| (task_count(ast_blocks@.take(c)) + k) as usize),
            forall|c: int, k: int| 0 <= c < b && 0 <= k < ast_blocks@[c].tasks@.len() ==> lowered(
                #[trigger] p.task_map@[task_count(ast_blocks@.take(c)) + k],
                ast_blocks@[c].tasks@[k],
                &ast_blocks@[c],
                task_count(ast_blocks@.take(c)),
            ),
        decreases ast_blocks@.len() - b,
    {
        proof {
            assert(ast_blocks@.take(b + 1).drop_last() == ast_blocks@.take(b as int));
            lemma_task_count_prefix(ast_blocks@, b + 1);
        }
        let ghost before = p;
        p.add_block(&ast_blocks[b]);
        proof {
            assert forall|c: int| 0 <= c < b + 1 implies (#[trigger] p.blocks@[c]).name == ast_blocks@[c].name
                && p.blocks@[c].tasks@ == Seq::new(ast_blocks@[c].tasks@.len(), |k: int| (task_count(ast_blocks@.take(c)) + k) as usize) by {
                if c < b {
                    assert(p.blocks@[c] == before.blocks@[c]);
                }
            }
            assert forall|c: int, k: int| 0 <= c < b + 1 && 0 <= k < ast_blocks@[c].tasks@.len() implies lowered(
                #[trigger] p.task_map@[task_count(ast_blocks@.take(c)) + k],
                ast_blocks@[c].tasks@[k],
                &ast_blocks@[c],
                task_count(ast_blocks@.take(c)),
            ) by {
                if c < b {
                    lemma_task_count_prefix(ast_blocks@.take(b as int), c + 1);
                    assert(ast_blocks@.take(b as int).take(c + 1) == ast_blocks@.take(c + 1));
                    assert(ast_blocks@.take(c + 1).drop_last() == ast_blocks@.take(c));
                    let i = task_count(ast_blocks@.take(c)) + k;
                    assert(p.task_map@.take(before.task_map@.len() as int)[i] == p.task_map@[i]);
                }
            }
        }
        b = b + 1;
    }
    assert(ast_blocks@.take(ast_blocks@.len() as int) == ast_blocks@);
    p
}

pub proof fn lemma_task_count_prefix(blocks: Seq<Block>, i: int)
    requires
        0 <= i <= blocks.len(),
    ensures
        task_count(blocks.take(i)) <= task_count(blocks),
    decreases blocks.len() - i,
{
    if i < blocks.len() {
        lemma_task_count_prefix(blocks, i + 1);
        assert(blocks.take(i + 1).drop_last() == blocks.take(i));
    } else {
        assert(blocks.take(i) == blocks);
    }
}

/// A program: the task arena `task_map` (task `i` has id `i`), the blocks that
/// order those tasks, and the scheduling settings.
#[derive(Clone, Debug)]
pub struct IRProgram {
    pub blocks: Vec<IRBlock>,
    pub metadata: IRMetadata,
    pub task_map: Vec<IRTask>,
}

/// A copy of a list of strings.
pub fn copy_strings(v: &Vec<String>) -> (r: Vec<String>)
    ensures
        r@ == v@,
{
    let mut r: Vec<String> = Vec::new();
    let mut i: usize = 0;
    while i < v.len()
        invariant
            i <= v@.len(),
            r@ == v@.take(i as int),
        decreases v@.len() - i,
    {
        r.push(v[i].clone());
        assert(v@.take(i + 1) == v@.take(i as int).push(v@[i as int]));
        i = i + 1;
    }
    assert(v@.take(v@.len() as int) == v@);
    r
}

/// The ids, in block order, of the tasks of `tasks` named `e`; the first
/// task has id `base`.
pub open spec fn name_matches(e: Seq<char>, tasks: Seq<Task>, base: nat) -> Seq<usize>
    decreases tasks.len(),
{
    if tasks.len() == 0 {
        Seq::empty()
    } else {
        let p = name_matches(e, tasks.drop_last(), base);
        if tasks.last().name@ == e {
            p.push((base + tasks.len() - 1) as usize)
        } else {
            p
        }
    }
}

/// The ids that the dependency names resolve to: for each name in turn, the
/// tasks of the block with that name, in block order.
pub open spec fn resolved_deps(names: Seq<String>, tasks: Seq<Task>, base: nat) -> Seq<usize>
    decreases names.len(),
{
    if names.len() == 0 {
        Seq::empty()
    } else {
        resolved_deps(names.drop_last(), tasks, base) + name_matches(names.last()@, tasks, base)
    }
}

/// The number of tasks in all blocks.
pub open spec fn task_count(blocks: Seq<Block>) -> nat
    decreases blocks.len(),
{
    if blocks.len() == 0 {
        0
    } else {
        task_count(blocks.drop_last()) + blocks.last().tasks@.len()
    }
}

/// The ids of the tasks of `tasks` that `t` depends on by name.
fn resolve_dependencies_of(t: &Task, tasks: &Vec<Task>, base: usize) -> (r: Vec<usize>)
    requires
        base + tasks@.len() <= usize::MAX,
    ensures
        r@ == resolved_deps(t.depends_on@, tasks@, base as nat),
{
    let mut r: Vec<usize> = Vec::new();
    let mut e: usize = 0;
    while e < t.depends_on.len()
        invariant
            base + tasks@.len() <= usize::MAX,
            e <= t.depends_on@.len(),
            r@ == resolved_deps(t.depends_on@.take(e as int), tasks@, base as nat),
        decreases t.depends_on@.len() - e,
    {
        let ghost before = r@;
        let name = &t.depends_on[e];
        let mut j: usize = 0;
        while j < tasks.len()
            invariant
                base + tasks@.len() <= usize::MAX,
                j <= tasks@.len(),
                r@ == before + name_matches(name@, tasks@.take(j as int), base as nat),
            decreases tasks@.len() - j,
        {
            assert(tasks@.take(j + 1).drop_last() == tasks@.take(j as int));
            assert(tasks@.take(j + 1).last() == tasks@[j as int]);
            if str_eq(name.as_str(), tasks[j].name.as_str()) {
                r.push(base + j);
            }
            j = j + 1;
        }
        proof {
            assert(tasks@.take(tasks@.len() as int) == tasks@);
            let d = t.depends_on@.take(e + 1);
            assert(d.drop_last() == t.depends_on@.take(e as int));
            assert(d.last() == t.depends_on@[e as int]);
        }
        e = e + 1;
    }
    assert(t.depends_on@.take(t.depends_on@.len() as int) == t.depends_on@);
    r
}

/// `t` is the lowered form of the parsed task `a` of `block`, whose tasks start at id `base`.
pub open spec fn lowered(t: IRTask, a: Task, block: &Block, base: nat) -> bool {
    &&& t.name == a.name
    &&& t.params@ == a.params@
    &&& t.duration == a.duration
    &&& t.block@ == block.name@
    &&& t.tags@ == a.tags@
    &&& t.priority == a.priority
    &&& t.depends_on@ == a.depends_on@
    &&& t.deps@ == resolved_deps(a.depends_on@, block.tasks@, base)
    &&& t.scheduled_start is None
    &&& t.scheduled_end is None
    &&& !t.completed
}

impl IRProgram {
    pub open spec fn wf(self) -> bool {
        &&& forall|i: int| 0 <= i < self.task_map@.len() ==> (#[trigger] self.task_map@[i]).id == i
        &&& forall|i: int| 0 <= i < self.task_map@.len() ==> (#[trigger] self.task_map@[i]).schedule_consistent()
        &&& self.metadata.wf()
        &&& blocks_partition(self.blocks@, self.task_map@.len())
    }

    /// All task ids in block order.
    pub open spec fn order(self) -> Seq<usize> {
        flat(self.blocks@)
    }

    /// An empty program with the given settings.
    pub fn new(metadata: IRMetadata) -> (r: IRProgram)
        requires
            metadata.wf(),
        ensures
            r.wf(),
            r.blocks@.len() == 0,
            r.task_map@.len() == 0,
            r.metadata == metadata,
    {
        IRProgram { blocks: Vec::new(), metadata, task_map: Vec::new() }
    }

    /// Lowers one parsed block: its tasks get the next free ids, in order,
    /// and their dependency names are resolved within the block.
    pub fn add_block(&mut self, block: &Block)
        requires
            old(self).wf(),
            old(self).task_map@.len() + block.tasks@.len() <= usize::MAX,
        ensures
            final(self).wf(),
            final(self).metadata == old(self).metadata,
            final(self).blocks@ == old(self).blocks@.push(IRBlock {
                name: block.name,
                tasks: final(self).blocks@.last().tasks,
            }),
            final(self).blocks@.last().tasks@ == Seq::new(
                block.tasks@.len(),
                |k: int| (old(self).task_map@.len() + k) as usize,
            ),
            final(self).task_map@.len() == old(self).task_map@.len() + block.tasks@.len(),
            final(self).task_map@.take(old(self).task_map@.len() as int) == old(self).task_map@,
            forall|k: int|
                0 <= k < block.tasks@.len() ==> lowered(
                    #[trigger] final(self).task_map@[old(self).task_map@.len() + k],
                    block.tasks@[k],
                    block,
                    old(self).task_map@.len(),
                ),
    {
        let base = self.task_map.len();
        let mut ids: Vec<usize> = Vec::new();
        let mut fresh: Vec<IRTask> = Vec::new();
        let mut k: usize = 0;
        while k < block.tasks.len()
            invariant
                base == old(self).task_map@.len(),
                k <= block.tasks@.len(),
                fresh@.len() == k,
                base + block.tasks@.len() <= usize::MAX,
                ids@ == Seq::new(k as nat, |i: int| (base + i) as usize),
                forall|i: int|
                    0 <= i < k ==> (#[trigger] fresh@[i]).id == base + i && lowered(
                        fresh@[i],
                        block.tasks@[i],
                        block,
                        base as nat,
                    ),
            decreases block.tasks@.len() - k,
        {
            let t = &block.tasks[k];
            let deps = resolve_dependencies_of(t, &block.tasks, base);
            let mut task = IRTask::new(base + k, t, block.name.as_str());
            task.deps = deps;
            fresh.push(task);
            ids.push(base + k);
            assert(ids@ =~= Seq::new((k + 1) as nat, |i: int| (base + i) as usize));
            k = k + 1;
        }
        let ghost pre = self.task_map@;
        let ghost fr = fresh@;
        self.task_map.append(&mut fresh);
        proof {
            assert(self.task_map@.take(base as int) == pre);
            assert forall|i: int| 0 <= i < self.task_map@.len() implies (#[trigger] self.task_map@[i]).id == i
                && self.task_map@[i].schedule_consistent() by {
                if i >= base {
                    assert(self.task_map@[i] == fr[i - base]);
                } else {
                    assert(self.task_map@[i] == pre[i]);
                }
            }
            assert forall|i: int| 0 <= i < block.tasks@.len() implies lowered(
                #[trigger] self.task_map@[base + i], block.tasks@[i], block, base as nat) by {
                assert(self.task_map@[base + i] == fr[i]);
            }
        }
        let ghost before = self.blocks@;
        self.blocks.push(IRBlock { name: block.name.clone(), tasks: ids });
        proof {
            let n = self.task_map@.len();
            let nb = self.blocks@;
            let last = nb.len() - 1;
            assert(nb[last].tasks@ == Seq::new(k as nat, |i: int| (base + i) as usize));
            assert forall|b: int, x: usize|
                0 <= b < nb.len() && #[trigger] nb[b].tasks@.contains(x) implies x < n by {
                if b < last {
                    assert(before[b] == nb[b]);
                }
            }
            assert forall|b: int, x: usize|
                0 <= b < nb.len() && #[trigger] nb[b].tasks@.contains(x) && b < last implies x < base by {
                assert(before[b] == nb[b]);
            }
            assert forall|b: int, x: usize|
                0 <= b < nb.len() && #[trigger] nb[b].tasks@.contains(x) && b == last implies x >= base by {
                let j = choose|j: int| 0 <= j < nb[b].tasks@.len() && nb[b].tasks@[j] == x;
            }
            assert forall|b: int| 0 <= b < nb.len() implies (#[trigger] nb[b]).tasks@.no_duplicates() by {
                if b < last {
                    assert(before[b] == nb[b]);
                }
            }
            assert forall|b1: int, b2: int, x: usize|
                0 <= b1 < nb.len() && 0 <= b2 < nb.len() && b1 != b2 && #[trigger] nb[b1].tasks@.contains(x)
                    implies !#[trigger] nb[b2].tasks@.contains(x) by {
                if b1 < last && b2 < last {
                    assert(before[b1] == nb[b1]);
                    assert(before[b2] == nb[b2]);
                }
            }
            assert forall|x: usize| x < n implies #[trigger] listed(nb, x) by {
                if x < base {
                    assert(listed(before, x));
                    let b = choose|b: int| 0 <= b < before.len() && #[trigger] before[b].tasks@.contains(x);
                    assert(nb[b] == before[b]);
                    assert(nb[b].tasks@.contains(x));
                } else {
                    assert(nb[last].tasks@[x - base] == x);
                    assert(nb[last].tasks@.contains(x));
                }
            }
        }
    }

    /// Every task, block after block, in each block's order.
    pub fn all_tasks(&self) -> (r: Vec<&IRTask>)
        requires
            self.wf(),
        ensures
            r@.len() == self.order().len(),
            forall|k: int| 0 <= k < r@.len() ==> *(#[trigger] r@[k]) == self.task_map@[self.order()[k] as int],
    {
        let ids = crate::scheduler::all_task_ids(self);
        proof {
            crate::scheduler::lemma_order_members(*self);
        }
        let mut r: Vec<&IRTask> = Vec::new();
        let mut i: usize = 0;
        while i < ids.len()
            invariant
                ids@ == self.order(),
                crate::optimizer::ids_in(ids@, self.task_map@),
                i <= ids@.len(),
                r@.len() == i,
                forall|k: int| 0 <= k < i ==> *(#[trigger] r@[k]) == self.task_map@[ids@[k] as int],
            decreases ids@.len() - i,
        {
            r.push(&self.task_map[ids[i]]);
            i = i + 1;
        }
        r
    }

    /// The tasks carrying `tag`, in block order.
    pub fn filter_by_tag(&self, tag: &str) -> (r: Vec<&IRTask>)
        requires
            self.wf(),
        ensures
            r@.len() == crate::optimizer::keep(self.order(), crate::optimizer::tagged_with(self.task_map@, tag@)).len(),
            forall|k: int| 0 <= k < r@.len() ==> *(#[trigger] r@[k]) == self.task_map@[crate::optimizer::keep(
                self.order(), crate::optimizer::tagged_with(self.task_map@, tag@))[k] as int],
    {
        let ids = crate::scheduler::all_task_ids(self);
        proof {
            crate::scheduler::lemma_order_members(*self);
        }
        let kept = crate::optimizer::keep_tagged(&self.task_map, &ids, tag, true);
        let mut r: Vec<&IRTask> = Vec::new();
        let mut i: usize = 0;
        while i < kept.len()
            invariant
                crate::optimizer::ids_in(kept@, self.task_map@),
                i <= kept@.len(),
                r@.len() == i,
                forall|k: int| 0 <= k < i ==> *(#[trigger] r@[k]) == self.task_map@[kept@[k] as int],
            decreases kept@.len() - i,
        {
            r.push(&self.task_map[kept[i]]);
            i = i + 1;
        }
        r
    }

    /// The sum of all task durations, in minutes.
    pub fn total_duration(&self) -> (r: u64)
        requires
            self.wf(),
            total_minutes(self.task_map@, self.order()) <= u64::MAX,
        ensures
            r as nat == total_minutes(self.task_map@, self.order()),
    {
        let ids = crate::scheduler::all_task_ids(self);
        proof {
            crate::scheduler::lemma_order_members(*self);
        }
        let mut sum: u64 = 0;
        let mut i: usize = 0;
        while i < ids.len()
            invariant
                ids@ == self.order(),
                crate::optimizer::ids_in(ids@, self.task_map@),
                total_minutes(self.task_map@, ids@) <= u64::MAX,
                i <= ids@.len(),
                sum as nat == total_minutes(self.task_map@, ids@.take(i as int)),
            decreases ids@.len() - i,
        {
            proof {
                assert(ids@.take(i + 1).drop_last() == ids@.take(i as int));
                lemma_total_minutes_prefix(self.task_map@, ids@, i + 1);
            }
            sum = sum + self.task_map[ids[i]].duration_minutes();
            i = i + 1;
        }
        assert(ids@.take(ids@.len() as int) == ids@);
        sum
    }

    pub fn get_task(&self, id: usize) -> (r: Option<&IRTask>)
        ensures
            r == (if id < self.task_map@.len() { Some(&self.task_map@[id as int]) } else { None }),
    {
        if id < self.task_map.len() {
            Some(&self.task_map[id])
        } else {
            None
        }
    }
}

} // verus!
