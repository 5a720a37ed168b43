//! The lowered form of the compact notation, with durations in seconds.
use vstd::prelude::*;
use crate::dsl::{BlockModel, Error, Program, TaskModel};
use crate::ir::copy_strings;
use crate::optimizer::{is_permutation, key_before, stable_order, views};

verus! {

/// A task of the lowered compact notation.
#[derive(Clone, Debug)]
pub struct Task {
    pub name: String,
    pub params: Vec<String>,
    /// Length in seconds.
    pub duration: Option<u64>,
    pub start_time: Option<u64>,
    pub end_time: Option<u64>,
    pub block: String,
    pub tags: Vec<String>,
    pub priority: u8,
}

/// The contents of a lowered task.
pub struct TaskView {
    pub name: Seq<char>,
    pub params: Seq<Seq<char>>,
    pub duration: Option<u64>,
    pub start_time: Option<u64>,
    pub end_time: Option<u64>,
    pub block: Seq<char>,
    pub tags: Seq<Seq<char>>,
    pub priority: u8,
}

impl View for Task {
    type V = TaskView;

    open spec fn view(&self) -> TaskView {
        TaskView {
            name: self.name@,
            params: views(self.params@),
            duration: self.duration,
            start_time: self.start_time,
            end_time: self.end_time,
            block: self.block@,
            tags: views(self.tags@),
            priority: self.priority,
        }
    }
}

#[derive(Clone, Debug)]
pub struct IRBlock {
    pub name: String,
    pub tasks: Vec<Task>,
    pub start_time: Option<u64>,
    pub end_time: Option<u64>,
}

/// A lowered program and the summed length of its tasks, in seconds.
#[derive(Clone, Debug)]
pub struct IRProgram {
    pub blocks: Vec<IRBlock>,
    pub total_duration: u64,
}

impl IRProgram {
    pub fn new() -> (r: IRProgram)
        ensures
            r.blocks@.len() == 0,
            r.total_duration == 0,
    {
        IRProgram { blocks: Vec::new(), total_duration: 0 }
    }

    pub fn add_block(&mut self, block: IRBlock)
        ensures
            final(self).blocks@ == old(self).blocks@.push(block),
            final(self).total_duration == old(self).total_duration,
    {
        self.blocks.push(block);
    }
}

/// The length in seconds of a parsed task, if it has one.
pub open spec fn seconds_of(t: TaskModel) -> Option<nat> {
    match t.duration {
        Some(d) => Some((d.minutes * 60) as nat),
        None => None,
    }
}

/// The summed seconds of the tasks.
pub open spec fn tasks_seconds(ts: Seq<TaskModel>) -> nat
    decreases ts.len(),
{
    if ts.len() == 0 {
        0
    } else {
        tasks_seconds(ts.drop_last()) + match seconds_of(ts.last()) {
            Some(s) => s,
            None => 0,
        }
    }
}

/// The summed seconds of all tasks of the blocks.
pub open spec fn blocks_seconds(bs: Seq<BlockModel>) -> nat
    decreases bs.len(),
{
    if bs.len() == 0 {
        0
    } else {
        blocks_seconds(bs.drop_last()) + tasks_seconds(bs.last().tasks)
    }
}

/// Every task length, and their sum, fit in 64 bits of seconds.
pub open spec fn lowerable(bs: Seq<BlockModel>) -> bool {
    blocks_seconds(bs) <= u64::MAX
}

/// `t` is the lowered form of task `m` of the block named `block`.
pub open spec fn lowered_task(t: TaskView, m: TaskModel, block: Seq<char>) -> bool {
    &&& t.name == m.name
    &&& t.params == m.params
    &&& t.duration == (match seconds_of(m) {
        Some(s) => Some(s as u64),
        None => None,
    })
    &&& t.start_time is None
    &&& t.end_time is None
    &&& t.block == block
    &&& t.tags.len() == 0
    &&& t.priority == 0
}

/// `p` is the lowered form of `program`.
pub open spec fn lowered_program(p: IRProgram, program: Program) -> bool {
    &&& p.total_duration == blocks_seconds(crate::dsl::block_models(program.blocks@))
    &&& p.blocks@.len() == program.blocks@.len()
    &&& forall|b: int| 0 <= b < p.blocks@.len() ==> (#[trigger] p.blocks@[b]).name@ == program.blocks@[b].name@
        && p.blocks@[b].start_time is None && p.blocks@[b].end_time is None
        && p.blocks@[b].tasks@.len() == program.blocks@[b].tasks@.len()
        && forall|k: int| 0 <= k < p.blocks@[b].tasks@.len() ==> lowered_task(
            (#[trigger] p.blocks@[b].tasks@[k])@, program.blocks@[b].tasks@[k]@, program.blocks@[b].name@)
}

proof fn lemma_tasks_seconds_prefix(ts: Seq<TaskModel>, i: int)
    requires
        0 <= i <= ts.len(),
    ensures
        tasks_seconds(ts.take(i)) <= tasks_seconds(ts),
    decreases ts.len() - i,
{
    if i < ts.len() {
        lemma_tasks_seconds_prefix(ts, i + 1);
        assert(ts.take(i + 1).drop_last() == ts.take(i));
    } else {
        assert(ts.take(i) == ts);
    }
}

proof fn lemma_blocks_seconds_prefix(bs: Seq<BlockModel>, i: int)
    requires
        0 <= i <= bs.len(),
    ensures
        blocks_seconds(bs.take(i)) <= blocks_seconds(bs),
    decreases bs.len() - i,
{
    if i < bs.len() {
        lemma_blocks_seconds_prefix(bs, i + 1);
        assert(bs.take(i + 1).drop_last() == bs.take(i));
    } else {
        assert(bs.take(i) == bs);
    }
}

/// Lowers a parsed program: every task keeps its name and parameters, gets
/// its length in seconds and its block's name; the program records the
/// summed length. Fails when that sum does not fit in 64 bits.
pub fn lower(program: Program) -> (r: Result<IRProgram, Error>)
    ensures
        lowerable(crate::dsl::block_models(program.blocks@)) ==> r is Ok && lowered_program(r->Ok_0, program),
        !lowerable(crate::dsl::block_models(program.blocks@)) ==> r matches Err(Error::Other(_)),
{
    let ghost bm = crate::dsl::block_models(program.blocks@);
    let mut ir = IRProgram::new();
    let mut total: u64 = 0;
    let mut b: usize = 0;
    while b < program.blocks.len()
        invariant
            b <= program.blocks@.len(),
            bm == crate::dsl::block_models(program.blocks@),
            total as nat == blocks_seconds(bm.take(b as int)),
            ir.blocks@.len() == b,
            ir.total_duration == 0,
            forall|c: int| 0 <= c < b ==> (#[trigger] ir.blocks@[c]).name@ == program.blocks@[c].name@
                && ir.blocks@[c].start_time is None && ir.blocks@[c].end_time is None
                && ir.blocks@[c].tasks@.len() == program.blocks@[c].tasks@.len()
                && forall|k: int| 0 <= k < ir.blocks@[c].tasks@.len() ==> lowered_task(
                    (#[trigger] ir.blocks@[c].tasks@[k])@, program.blocks@[c].tasks@[k]@, program.blocks@[c].name@),
        decreases program.blocks@.len() - b,
    {
        let block = &program.blocks[b];
        let ghost tm = bm[b as int].tasks;
        assert(tm == block.tasks@.map_values(|t: crate::dsl::Task| t@));
        let mut tasks: Vec<Task> = Vec::new();
        let mut k: usize = 0;
        let ghost before = total;
        while k < block.tasks.len()
            invariant
                k <= block.tasks@.len(),
                b < program.blocks@.len(),
                bm == crate::dsl::block_models(program.blocks@),
                tm == bm[b as int].tasks,
                before as nat == blocks_seconds(bm.take(b as int)),
                *block == program.blocks@[b as int],
                tm == block.tasks@.map_values(|t: crate::dsl::Task| t@),
                total as nat == before + tasks_seconds(tm.take(k as int)),
                tasks@.len() == k,
                forall|j: int| 0 <= j < k ==> lowered_task((#[trigger] tasks@[j])@, block.tasks@[j]@, block.name@),
            decreases block.tasks@.len() - k,
        {
            let t = &block.tasks[k];
            assert(tm.take(k + 1).drop_last() == tm.take(k as int));
            assert(tm.take(k + 1).last() == t@);
            let secs: Option<u64> = match t.duration {
                Some(d) => Some(d.minutes as u64 * 60),
                None => None,
            };
            let add: u64 = match secs {
                Some(s) => s,
                None => 0,
            };
            if total > u64::MAX - add {
                proof {
                    lemma_tasks_seconds_prefix(tm, k + 1);
                    lemma_blocks_seconds_prefix(bm, b + 1);
                    assert(bm.take(b + 1).drop_last() == bm.take(b as int));
                }
                return Err(Error::Other(String::from_str("total duration too long")));
            }
            total = total + add;
            let no_tags: Vec<String> = Vec::new();
            assert(views(no_tags@) == Seq::<Seq<char>>::empty());
            tasks.push(Task {
                name: t.name.clone(),
                params: copy_strings(&t.params),
                duration: secs,
                start_time: None,
                end_time: None,
                block: block.name.clone(),
                tags: no_tags,
                priority: 0,
            });
            k = k + 1;
        }
        assert(tm.take(tm.len() as int) == tm);
        ir.add_block(IRBlock { name: block.name.clone(), tasks, start_time: None, end_time: None });
        assert(bm.take(b + 1).drop_last() == bm.take(b as int));
        b = b + 1;
    }
    assert(bm.take(bm.len() as int) == bm);
    ir.total_duration = total;
    Ok(ir)
}

/// The length used for ordering: seconds, or zero without a duration.
pub open spec fn length_key(t: TaskView) -> u64 {
    match t.duration {
        Some(s) => s,
        None => 0,
    }
}

/// Position `a` goes before position `b`: longer first, ties in order.
pub open spec fn longer_before(keys: Seq<u64>, a: int, b: int) -> bool {
    keys[a] > keys[b] || (keys[a] == keys[b] && a < b)
}

/// `after` is `before` stably sorted by length, longest first.
pub open spec fn longest_first(before: Seq<TaskView>, after: Seq<TaskView>) -> bool {
    exists|perm: Seq<usize>|
        #![trigger is_permutation(perm, before.len())]
        is_permutation(perm, before.len()) && after == perm.map_values(|k: usize| before[k as int]) && (
        forall|i: int, j: int|
            0 <= i < j < perm.len() ==> longer_before(
                before.map_values(|t: TaskView| length_key(t)),
                #[trigger] perm[i] as int,
                #[trigger] perm[j] as int,
            ))
}

pub open spec fn task_views(v: Seq<Task>) -> Seq<TaskView> {
    v.map_values(|t: Task| t@)
}

fn copy_task(t: &Task) -> (r: Task)
    ensures
        r@ == t@,
{
    Task {
        name: t.name.clone(),
        params: copy_strings(&t.params),
        duration: t.duration,
        start_time: t.start_time,
        end_time: t.end_time,
        block: t.block.clone(),
        tags: copy_strings(&t.tags),
        priority: t.priority,
    }
}

/// The tasks of one block, longest first (tasks without a duration count as
/// zero), ties in their given order.
pub fn longest_first_order(tasks: &Vec<Task>) -> (r: Vec<Task>)
    ensures
        longest_first(task_views(tasks@), task_views(r@)),
{
    let mut keys: Vec<u64> = Vec::new();
    let mut i: usize = 0;
    while i < tasks.len()
        invariant
            i <= tasks@.len(),
            keys@ == task_views(tasks@).take(i as int).map_values(|t: TaskView| length_key(t)),
        decreases tasks@.len() - i,
    {
        let key: u64 = match tasks[i].duration {
            Some(s) => s,
            None => 0,
        };
        keys.push(key);
        assert(task_views(tasks@).take(i + 1) == task_views(tasks@).take(i as int).push(tasks@[i as int]@));
        i = i + 1;
    }
    assert(task_views(tasks@).take(tasks@.len() as int) == task_views(tasks@));
    let mut rkeys: Vec<(u64, u64)> = Vec::new();
    let mut i: usize = 0;
    while i < keys.len()
        invariant
            i <= keys@.len(),
            rkeys@.len() == i,
            forall|k: int| 0 <= k < i ==> #[trigger] rkeys@[k] == ((u64::MAX - keys@[k]) as u64, 0u64),
        decreases keys@.len() - i,
    {
        rkeys.push((u64::MAX - keys[i], 0));
        i = i + 1;
    }
    let perm = stable_order(&rkeys);
    assert forall|x: int, y: int| 0 <= x < y < perm@.len() implies longer_before(keys@, #[trigger] perm@[x] as int, #[trigger] perm@[y] as int) by {
        assert(key_before(rkeys@, perm@[x] as int, perm@[y] as int));
    }
    let mut out: Vec<Task> = Vec::new();
    let mut j: usize = 0;
    while j < perm.len()
        invariant
            keys@.len() == tasks@.len(),
            is_permutation(perm@, keys@.len()),
            j <= perm@.len(),
            task_views(out@) == perm@.take(j as int).map_values(|k: usize| task_views(tasks@)[k as int]),
        decreases perm@.len() - j,
    {
        let t = copy_task(&tasks[perm[j]]);
        let ghost o0 = task_views(out@);
        out.push(t);
        assert(task_views(out@) == o0.push(t@));
        assert(perm@.take(j + 1) == perm@.take(j as int).push(perm@[j as int]));
        j = j + 1;
    }
    assert(perm@.take(perm@.len() as int) == perm@);
    out
}

/// Reorders every block so that longer tasks come first.
pub fn optimize(program: &mut IRProgram)
    ensures
        final(program).total_duration == old(program).total_duration,
        final(program).blocks@.len() == old(program).blocks@.len(),
        forall|b: int| 0 <= b < final(program).blocks@.len() ==> (#[trigger] final(program).blocks@[b]).name == old(program).blocks@[b].name
            && final(program).blocks@[b].start_time == old(program).blocks@[b].start_time
            && final(program).blocks@[b].end_time == old(program).blocks@[b].end_time
            && longest_first(task_views(old(program).blocks@[b].tasks@), task_views(final(program).blocks@[b].tasks@)),
{
    let mut b: usize = 0;
    while b < program.blocks.len()
        invariant
            b <= program.blocks@.len(),
            program.blocks@.len() == old(program).blocks@.len(),
            program.total_duration == old(program).total_duration,
            forall|c: int| b <= c < program.blocks@.len() ==> #[trigger] program.blocks@[c] == old(program).blocks@[c],
            forall|c: int| 0 <= c < b ==> (#[trigger] program.blocks@[c]).name == old(program).blocks@[c].name
                && program.blocks@[c].start_time == old(program).blocks@[c].start_time
                && program.blocks@[c].end_time == old(program).blocks@[c].end_time
                && longest_first(task_views(old(program).blocks@[c].tasks@), task_views(program.blocks@[c].tasks@)),
        decreases program.blocks@.len() - b,
    {
        let sorted = longest_first_order(&program.blocks[b].tasks);
        program.blocks[b].tasks = sorted;
        b = b + 1;
    }
}

} // verus!
