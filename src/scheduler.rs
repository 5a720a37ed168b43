//! Placement of tasks into the workday window.
use vstd::prelude::*;
use crate::text::{lower_of, str_eq, to_lower};
use crate::ir::{flat, listed, IRBlock, IRTask, IRProgram, MINUTES_PER_DAY};
use crate::optimizer::{by_priority, ids_in, keep, keep_tagged, lemma_by_priority_members, lemma_concat_no_dup, lemma_keep_members, priority_first, tagged_with, untagged_with};

verus! {

/// Records the placement of task `id`.
fn set_schedule(tasks: &mut Vec<IRTask>, id: usize, start: Option<u64>, end: Option<u64>)
    requires
        id < old(tasks)@.len(),
    ensures
        final(tasks)@ == old(tasks)@.update(
            id as int,
            IRTask { scheduled_start: start, scheduled_end: end, ..old(tasks)@[id as int] },
        ),
{
    tasks[id].scheduled_start = start;
    tasks[id].scheduled_end = end;
}

/// A cursor inside the reserved window `[lo, hi)` jumps to its end.
pub open spec fn skip_reserved(c: int, lo: int, hi: int) -> int {
    if lo <= c && c < hi {
        hi
    } else {
        c
    }
}

/// The cursor of a placement pass before it considers `order[k]`. The pass
/// starts at `start`, places a task at the (possibly jumped) cursor when the
/// task ends by `end` and then moves the cursor to the task's end; a task that
/// does not fit leaves the cursor where it is.
pub open spec fn cursor_before(
    tasks: Seq<IRTask>,
    order: Seq<usize>,
    start: int,
    end: int,
    lo: int,
    hi: int,
    k: int,
) -> int
    decreases k,
{
    if k <= 0 {
        start
    } else {
        let c = skip_reserved(cursor_before(tasks, order, start, end, lo, hi, k - 1), lo, hi);
        let d = tasks[order[k - 1] as int].minutes();
        if c + d <= end {
            c + d
        } else {
            c
        }
    }
}

/// Where the pass places `order[k]`: its start time, or `None` when it does not fit.
pub open spec fn slot(
    tasks: Seq<IRTask>,
    order: Seq<usize>,
    start: int,
    end: int,
    lo: int,
    hi: int,
    k: int,
) -> Option<int> {
    let c = skip_reserved(cursor_before(tasks, order, start, end, lo, hi, k), lo, hi);
    if c + tasks[order[k] as int].minutes() <= end {
        Some(c)
    } else {
        None
    }
}

/// `t` is placed as `s` says: from `c` to `c` plus its duration, or not at all.
pub open spec fn placed_as(t: IRTask, s: Option<int>) -> bool {
    match s {
        Some(c) => t.scheduled_start == Some(c as u64) && t.scheduled_end == Some((c + t.minutes()) as u64),
        None => t.scheduled_start is None && t.scheduled_end is None,
    }
}

/// `a` is `b` with at most its scheduled times changed.
pub open spec fn same_but_schedule(a: IRTask, b: IRTask) -> bool {
    a == IRTask { scheduled_start: a.scheduled_start, scheduled_end: a.scheduled_end, ..b }
}

/// The larger of three values.
pub open spec fn max3(a: int, b: int, c: int) -> int {
    if a >= b && a >= c {
        a
    } else if b >= c {
        b
    } else {
        c
    }
}

/// The cursor never goes back and never passes the largest bound.
pub proof fn lemma_cursor_bounds(
    tasks: Seq<IRTask>,
    order: Seq<usize>,
    start: int,
    end: int,
    lo: int,
    hi: int,
    k: int,
)
    ensures
        start <= cursor_before(tasks, order, start, end, lo, hi, k) <= max3(start, hi, end),
    decreases k,
{
    if k > 0 {
        lemma_cursor_bounds(tasks, order, start, end, lo, hi, k - 1);
    }
}

/// The cursor is non-decreasing along the pass.
pub proof fn lemma_cursor_monotone(
    tasks: Seq<IRTask>,
    order: Seq<usize>,
    start: int,
    end: int,
    lo: int,
    hi: int,
    k: int,
    j: int,
)
    requires
        0 <= k <= j,
    ensures
        cursor_before(tasks, order, start, end, lo, hi, k) <= cursor_before(tasks, order, start, end, lo, hi, j),
    decreases j - k,
{
    if k < j {
        lemma_cursor_monotone(tasks, order, start, end, lo, hi, k, j - 1);
    }
}

/// One placement pass over `order`: see `cursor_before` and `slot`.
#[verifier::rlimit(60)]
fn place_tasks(tasks: &mut Vec<IRTask>, order: &Vec<usize>, start: u64, end: u64, lo: u64, hi: u64)
    requires
        ids_in(order@, old(tasks)@),
        order@.no_duplicates(),
        start < MINUTES_PER_DAY,
        end < MINUTES_PER_DAY,
        hi < MINUTES_PER_DAY,
    ensures
        final(tasks)@.len() == old(tasks)@.len(),
        forall|i: int| 0 <= i < old(tasks)@.len() ==> same_but_schedule(#[trigger] final(tasks)@[i], old(tasks)@[i]),
        forall|i: int| 0 <= i < old(tasks)@.len() && !order@.contains(i as usize) ==> #[trigger] final(tasks)@[i] == old(tasks)@[i],
        forall|k: int| 0 <= k < order@.len() ==> placed_as(
            final(tasks)@[#[trigger] order@[k] as int],
            slot(old(tasks)@, order@, start as int, end as int, lo as int, hi as int, k),
        ),
{
    let ghost t0 = tasks@;
    let mut cur: u64 = start;
    let mut k: usize = 0;
    while k < order.len()
        invariant
            ids_in(order@, t0),
            order@.no_duplicates(),
            start < MINUTES_PER_DAY,
            end < MINUTES_PER_DAY,
            hi < MINUTES_PER_DAY,
            t0 == old(tasks)@,
            k <= order@.len(),
            tasks@.len() == t0.len(),
            cur as int == cursor_before(t0, order@, start as int, end as int, lo as int, hi as int, k as int),
            forall|i: int| 0 <= i < t0.len() ==> same_but_schedule(#[trigger] tasks@[i], t0[i]),
            forall|i: int| 0 <= i < t0.len() && !order@.take(k as int).contains(i as usize) ==> #[trigger] tasks@[i] == t0[i],
            forall|j: int| 0 <= j < k ==> placed_as(
                tasks@[#[trigger] order@[j] as int],
                slot(t0, order@, start as int, end as int, lo as int, hi as int, j),
            ),
        decreases order@.len() - k,
    {
        proof {
            lemma_cursor_bounds(t0, order@, start as int, end as int, lo as int, hi as int, k as int);
        }
        let id = order[k];
        if lo <= cur && cur < hi {
            cur = hi;
        }
        let d = tasks[id].duration_minutes();
        assert(tasks@[id as int].minutes() == t0[id as int].minutes());
        let ghost before = tasks@;
        if cur <= end && d <= end - cur {
            set_schedule(tasks, id, Some(cur), Some(cur + d));
            cur = cur + d;
        } else {
            set_schedule(tasks, id, None, None);
        }
        proof {
            let ok = order@.take(k as int);
            let ok1 = order@.take(k + 1);
            assert(ok1 == ok.push(id));
            assert(ok1[k as int] == id);
            assert forall|i: int| 0 <= i < t0.len() && !ok1.contains(i as usize) implies #[trigger] tasks@[i] == t0[i] by {
                assert(i != id);
                assert(!ok.contains(i as usize)) by {
                    if ok.contains(i as usize) {
                        let m = choose|m: int| 0 <= m < ok.len() && ok[m] == i as usize;
                        assert(ok1[m] == i as usize);
                    }
                }
            }
            assert forall|j: int| 0 <= j < k + 1 implies placed_as(
                tasks@[#[trigger] order@[j] as int],
                slot(t0, order@, start as int, end as int, lo as int, hi as int, j),
            ) by {
                if j < k {
                    assert(order@[j] != id);
                    assert(tasks@[order@[j] as int] == before[order@[j] as int]);
                }
            }
        }
        k = k + 1;
    }
    proof {
        assert(order@.take(order@.len() as int) == order@);
    }
}

/// The block lists concatenate to a list of distinct ids, each below `n`.
pub proof fn lemma_flat_members(blocks: Seq<IRBlock>, n: nat)
    requires
        forall|b: int| 0 <= b < blocks.len() ==> (#[trigger] blocks[b]).tasks@.no_duplicates(),
        forall|b: int, x: usize| 0 <= b < blocks.len() && #[trigger] blocks[b].tasks@.contains(x) ==> x < n,
        forall|b1: int, b2: int, x: usize|
            0 <= b1 < blocks.len() && 0 <= b2 < blocks.len() && b1 != b2 && #[trigger] blocks[b1].tasks@.contains(x)
                ==> !#[trigger] blocks[b2].tasks@.contains(x),
    ensures
        flat(blocks).no_duplicates(),
        forall|x: usize| #[trigger] flat(blocks).contains(x) <==> listed(blocks, x),
        forall|x: usize| #[trigger] flat(blocks).contains(x) ==> x < n,
    decreases blocks.len(),
{
    if blocks.len() > 0 {
        let init = blocks.drop_last();
        let l = blocks.len() - 1;
        assert forall|b: int| 0 <= b < init.len() implies (#[trigger] init[b]).tasks@.no_duplicates() by {
            assert(init[b] == blocks[b]);
        }
        assert forall|b: int, x: usize| 0 <= b < init.len() && #[trigger] init[b].tasks@.contains(x) implies x < n by {
            assert(init[b] == blocks[b]);
        }
        assert forall|b1: int, b2: int, x: usize|
            0 <= b1 < init.len() && 0 <= b2 < init.len() && b1 != b2 && #[trigger] init[b1].tasks@.contains(x)
                implies !#[trigger] init[b2].tasks@.contains(x) by {
            assert(init[b1] == blocks[b1] && init[b2] == blocks[b2]);
        }
        lemma_flat_members(init, n);
        let a = flat(init);
        let t = blocks[l].tasks@;
        assert forall|x: usize| a.contains(x) implies !t.contains(x) by {
            assert(listed(init, x));
            let b = choose|b: int| 0 <= b < init.len() && #[trigger] init[b].tasks@.contains(x);
            assert(init[b] == blocks[b]);
            assert(blocks[b].tasks@.contains(x));
        }
        assert(blocks[l].tasks@.no_duplicates());
        lemma_concat_no_dup(a, t);
        assert forall|x: usize| #[trigger] flat(blocks).contains(x) <==> listed(blocks, x) by {
            if listed(blocks, x) {
                let b = choose|b: int| 0 <= b < blocks.len() && #[trigger] blocks[b].tasks@.contains(x);
                if b < l {
                    assert(init[b] == blocks[b]);
                    assert(init[b].tasks@.contains(x));
                    assert(listed(init, x));
                }
            }
            if a.contains(x) {
                let b = choose|b: int| 0 <= b < init.len() && #[trigger] init[b].tasks@.contains(x);
                assert(init[b] == blocks[b]);
                assert(blocks[b].tasks@.contains(x));
            }
            if t.contains(x) {
                assert(blocks[l].tasks@.contains(x));
            }
        }
        assert forall|x: usize| #[trigger] flat(blocks).contains(x) implies x < n by {
            if t.contains(x) {
                assert(blocks[l].tasks@.contains(x));
            }
        }
    }
}

/// In a well-formed program the block order lists every task exactly once.
pub proof fn lemma_order_members(p: IRProgram)
    requires
        p.wf(),
    ensures
        p.order().no_duplicates(),
        ids_in(p.order(), p.task_map@),
        forall|x: usize| #[trigger] p.order().contains(x) <==> x < p.task_map@.len(),
{
    lemma_flat_members(p.blocks@, p.task_map@.len());
    assert forall|k: int| 0 <= k < p.order().len() implies (#[trigger] p.order()[k]) < p.task_map@.len() by {
        assert(p.order().contains(p.order()[k]));
    }
}

/// All task ids of the program, block after block.
pub fn all_task_ids(program: &IRProgram) -> (r: Vec<usize>)
    ensures
        r@ == program.order(),
{
    let mut r: Vec<usize> = Vec::new();
    let mut b: usize = 0;
    while b < program.blocks.len()
        invariant
            b <= program.blocks@.len(),
            r@ == flat(program.blocks@.take(b as int)),
        decreases program.blocks@.len() - b,
    {
        let ids = &program.blocks[b].tasks;
        let mut i: usize = 0;
        let ghost base = r@;
        while i < ids.len()
            invariant
                i <= ids@.len(),
                r@ == base + ids@.take(i as int),
            decreases ids@.len() - i,
        {
            r.push(ids[i]);
            assert(ids@.take(i + 1) == ids@.take(i as int).push(ids@[i as int]));
            i = i + 1;
        }
        proof {
            let t = program.blocks@.take(b + 1);
            assert(t.drop_last() == program.blocks@.take(b as int));
            assert(ids@.take(ids@.len() as int) == ids@);
        }
        b = b + 1;
    }
    assert(program.blocks@.take(program.blocks@.len() as int) == program.blocks@);
    r
}

/// Writes one pass into the program's arena, keeping it well formed.
fn place_in_program(program: &mut IRProgram, order: &Vec<usize>, start: u64, end: u64, lo: u64, hi: u64)
    requires
        old(program).wf(),
        ids_in(order@, old(program).task_map@),
        order@.no_duplicates(),
        start < MINUTES_PER_DAY,
        end < MINUTES_PER_DAY,
        hi < MINUTES_PER_DAY,
    ensures
        final(program).wf(),
        final(program).blocks == old(program).blocks,
        final(program).metadata == old(program).metadata,
        final(program).task_map@.len() == old(program).task_map@.len(),
        forall|i: int| 0 <= i < old(program).task_map@.len() ==> same_but_schedule(#[trigger] final(program).task_map@[i], old(program).task_map@[i]),
        forall|i: int| 0 <= i < old(program).task_map@.len() && !order@.contains(i as usize) ==> #[trigger] final(program).task_map@[i] == old(program).task_map@[i],
        forall|k: int| 0 <= k < order@.len() ==> placed_as(
            final(program).task_map@[#[trigger] order@[k] as int],
            slot(old(program).task_map@, order@, start as int, end as int, lo as int, hi as int, k),
        ),
{
    place_tasks(&mut program.task_map, order, start, end, lo, hi);
    proof {
        let t0 = old(program).task_map@;
        let t1 = program.task_map@;
        assert forall|i: int| 0 <= i < t1.len() implies (#[trigger] t1[i]).id == i && t1[i].schedule_consistent() by {
            assert(same_but_schedule(t1[i], t0[i]));
            assert(t0[i].schedule_consistent());
            if order@.contains(i as usize) {
                let k = choose|k: int| 0 <= k < order@.len() && order@[k] == i as usize;
                assert(placed_as(t1[order@[k] as int], slot(t0, order@, start as int, end as int, lo as int, hi as int, k)));
                lemma_cursor_bounds(t0, order@, start as int, end as int, lo as int, hi as int, k);
            }
        }
    }
}

/// The middle half of the workday, `[start + total/4, start + 3*total/4)`,
/// with the quarters rounded toward zero.
pub open spec fn deepwork_window(start: int, end: int) -> (int, int) {
    let total = end - start;
    if total >= 0 {
        (start + total / 4, start + (3 * total) / 4)
    } else {
        (start - (-total) / 4, start - (3 * -total) / 4)
    }
}

/// The workday of the program's settings.
pub open spec fn workday(p: IRProgram) -> (int, int) {
    (p.metadata.workday_start as int, p.metadata.workday_end as int)
}

/// The new program differs from the old one in scheduled times only, and is well formed.
pub open spec fn schedule_frame(o: IRProgram, n: IRProgram) -> bool {
    &&& n.wf()
    &&& n.blocks == o.blocks
    &&& n.metadata == o.metadata
    &&& n.task_map@.len() == o.task_map@.len()
    &&& forall|i: int| 0 <= i < o.task_map@.len() ==> same_but_schedule(#[trigger] n.task_map@[i], o.task_map@[i])
}

/// Each task of `order` is placed in `new` where the pass over `order` puts it.
pub open spec fn pass_placed(
    old_tasks: Seq<IRTask>,
    new_tasks: Seq<IRTask>,
    order: Seq<usize>,
    start: int,
    end: int,
    lo: int,
    hi: int,
) -> bool {
    forall|k: int|
        0 <= k < order.len() ==> placed_as(
            new_tasks[#[trigger] order[k] as int],
            slot(old_tasks, order, start, end, lo, hi, k),
        )
}

/// Naive strategy: one pass in block order over the whole workday.
pub open spec fn naive_scheduled(o: IRProgram, n: IRProgram) -> bool {
    let (ws, we) = workday(o);
    schedule_frame(o, n) && pass_placed(o.task_map@, n.task_map@, o.order(), ws, we, ws, ws)
}

/// Early-bird strategy: one pass by priority over the whole workday.
pub open spec fn early_bird_scheduled(o: IRProgram, n: IRProgram) -> bool {
    let (ws, we) = workday(o);
    schedule_frame(o, n) && pass_placed(o.task_map@, n.task_map@, by_priority(o.task_map@, o.order()), ws, we, ws, ws)
}

/// Deepwork strategy: tagged tasks by priority inside the deepwork window,
/// the others by priority over the workday, jumping over that window.
pub open spec fn deepwork_scheduled(o: IRProgram, n: IRProgram, tag: Seq<char>) -> bool {
    let (ws, we) = workday(o);
    let (ds, de) = deepwork_window(ws, we);
    &&& schedule_frame(o, n)
    &&& pass_placed(o.task_map@, n.task_map@, deepwork_order(o, tag), ds, de, ds, ds)
    &&& pass_placed(o.task_map@, n.task_map@, other_order(o, tag), ws, we, ds, de)
}

/// Places the tasks one after another in block order from the workday
/// start; a task that would end after the workday end stays unscheduled.
pub struct NaiveScheduler;

/// Places the tasks of all blocks by priority, highest first (stable), from
/// the workday start.
pub struct EarlyBirdScheduler;

/// Places tasks carrying the deepwork tag in the middle half of the workday
/// and all other tasks around that window.
pub struct DeepworkScheduler {
    pub deepwork_tag: String,
}

impl NaiveScheduler {
    pub fn schedule(&self, program: &mut IRProgram)
        requires
            old(program).wf(),
        ensures
            naive_scheduled(*old(program), *final(program)),
    {
        let order = all_task_ids(program);
        proof {
            lemma_order_members(*program);
        }
        let start = program.metadata.workday_start;
        let end = program.metadata.workday_end;
        place_in_program(program, &order, start, end, start, start);
    }
}

impl EarlyBirdScheduler {
    pub fn schedule(&self, program: &mut IRProgram)
        requires
            old(program).wf(),
        ensures
            early_bird_scheduled(*old(program), *final(program)),
    {
        let all = all_task_ids(program);
        proof {
            lemma_order_members(*program);
            lemma_by_priority_members(program.task_map@, all@);
        }
        let order = priority_first(&program.task_map, &all);
        let start = program.metadata.workday_start;
        let end = program.metadata.workday_end;
        place_in_program(program, &order, start, end, start, start);
    }
}

/// The tasks of the program that carry `tag`, by priority.
pub open spec fn deepwork_order(p: IRProgram, tag: Seq<char>) -> Seq<usize> {
    by_priority(p.task_map@, keep(p.order(), tagged_with(p.task_map@, tag)))
}

/// The tasks of the program that do not carry `tag`, by priority.
pub open spec fn other_order(p: IRProgram, tag: Seq<char>) -> Seq<usize> {
    by_priority(p.task_map@, keep(p.order(), untagged_with(p.task_map@, tag)))
}

/// The deepwork window of a workday, as `deepwork_window` states it.
fn deepwork_bounds(start: u64, end: u64) -> (r: (u64, u64))
    requires
        start < MINUTES_PER_DAY,
        end < MINUTES_PER_DAY,
    ensures
        r.0 as int == deepwork_window(start as int, end as int).0,
        r.1 as int == deepwork_window(start as int, end as int).1,
        r.0 < MINUTES_PER_DAY,
        r.1 < MINUTES_PER_DAY,
{
    if end >= start {
        let total = end - start;
        (start + total / 4, start + (3 * total) / 4)
    } else {
        let total = start - end;
        (start - total / 4, start - (3 * total) / 4)
    }
}

impl DeepworkScheduler {
    pub fn new(deepwork_tag: String) -> (r: DeepworkScheduler)
        ensures
            r.deepwork_tag == deepwork_tag,
    {
        DeepworkScheduler { deepwork_tag }
    }

    #[verifier::rlimit(100)]
    pub fn schedule(&self, program: &mut IRProgram)
        requires
            old(program).wf(),
        ensures
            deepwork_scheduled(*old(program), *final(program), self.deepwork_tag@),
    {
        let ghost initial = *program;
        let all = all_task_ids(program);
        proof {
            lemma_order_members(*program);
        }
        let start = program.metadata.workday_start;
        let end = program.metadata.workday_end;
        let (ds, de) = deepwork_bounds(start, end);
        let tagged = keep_tagged(&program.task_map, &all, self.deepwork_tag.as_str(), true);
        let untagged = keep_tagged(&program.task_map, &all, self.deepwork_tag.as_str(), false);
        proof {
            lemma_keep_members(all@, tagged_with(initial.task_map@, self.deepwork_tag@));
            lemma_keep_members(all@, untagged_with(initial.task_map@, self.deepwork_tag@));
            lemma_by_priority_members(initial.task_map@, tagged@);
            lemma_by_priority_members(initial.task_map@, untagged@);
        }
        let deep = priority_first(&program.task_map, &tagged);
        let other = priority_first(&program.task_map, &untagged);
        place_in_program(program, &deep, ds, de, ds, ds);
        let ghost stage_one = *program;
        place_in_program(program, &other, start, end, ds, de);
        proof {
            assert forall|i: int| 0 <= i < initial.task_map@.len() implies same_but_schedule(#[trigger] program.task_map@[i], initial.task_map@[i]) by {
                assert(same_but_schedule(stage_one.task_map@[i], initial.task_map@[i]));
                assert(same_but_schedule(program.task_map@[i], stage_one.task_map@[i]));
            }
            assert forall|k: int| 0 <= k < deep@.len() implies placed_as(
                program.task_map@[#[trigger] deep@[k] as int],
                slot(initial.task_map@, deep@, ds as int, de as int, ds as int, ds as int, k),
            ) by {
                let x = deep@[k];
                assert(deep@.contains(x));
                assert(tagged@.contains(x));
                assert(!untagged@.contains(x));
                assert(!other@.contains(x));
            }
            lemma_slots_same_durations(initial.task_map@, stage_one.task_map@, other@, start as int, end as int, ds as int, de as int);
        }
    }
}

/// Placement depends on the tasks' durations only.
proof fn lemma_slots_same_durations(a: Seq<IRTask>, b: Seq<IRTask>, order: Seq<usize>, start: int, end: int, lo: int, hi: int)
    requires
        a.len() == b.len(),
        ids_in(order, a),
        forall|i: int| 0 <= i < a.len() ==> same_but_schedule(#[trigger] b[i], a[i]),
    ensures
        forall|k: int| 0 <= k < order.len() ==> #[trigger] slot(b, order, start, end, lo, hi, k) == slot(a, order, start, end, lo, hi, k),
{
    assert forall|k: int| 0 <= k < order.len() implies #[trigger] slot(b, order, start, end, lo, hi, k) == slot(a, order, start, end, lo, hi, k) by {
        lemma_cursor_same_durations(a, b, order, start, end, lo, hi, k);
        assert(same_but_schedule(b[order[k] as int], a[order[k] as int]));
    }
}

proof fn lemma_cursor_same_durations(a: Seq<IRTask>, b: Seq<IRTask>, order: Seq<usize>, start: int, end: int, lo: int, hi: int, k: int)
    requires
        a.len() == b.len(),
        ids_in(order, a),
        forall|i: int| 0 <= i < a.len() ==> same_but_schedule(#[trigger] b[i], a[i]),
        k <= order.len(),
    ensures
        cursor_before(b, order, start, end, lo, hi, k) == cursor_before(a, order, start, end, lo, hi, k),
    decreases k,
{
    if k > 0 {
        lemma_cursor_same_durations(a, b, order, start, end, lo, hi, k - 1);
        assert(same_but_schedule(b[order[k - 1] as int], a[order[k - 1] as int]));
    }
}

/// The scheduling strategies, chosen by name.
#[derive(Clone, Copy, Debug, PartialEq, Eq, Structural)]
pub enum ScheduleMode {
    Naive,
    EarlyBird,
    DeepworkFirst,
}

/// The mode that an already lower-cased name selects.
pub open spec fn mode_named(l: Seq<char>) -> Option<ScheduleMode> {
    if l == "naive"@ {
        Some(ScheduleMode::Naive)
    } else if l == "early-bird"@ || l == "earlybird"@ {
        Some(ScheduleMode::EarlyBird)
    } else if l == "deepwork"@ || l == "deepwork-first"@ || l == "deepworkfirst"@ {
        Some(ScheduleMode::DeepworkFirst)
    } else {
        None
    }
}

/// Reads a mode from a name that is already in lower case.
pub fn mode_from_lowered(l: &str) -> (r: Option<ScheduleMode>)
    ensures
        r == mode_named(l@),
{
    if str_eq(l, "naive") {
        Some(ScheduleMode::Naive)
    } else if str_eq(l, "early-bird") || str_eq(l, "earlybird") {
        Some(ScheduleMode::EarlyBird)
    } else if str_eq(l, "deepwork") || str_eq(l, "deepwork-first") || str_eq(l, "deepworkfirst") {
        Some(ScheduleMode::DeepworkFirst)
    } else {
        None
    }
}

impl ScheduleMode {
    /// Parses a mode name, ignoring case.
    pub fn from_str(s: &str) -> (r: Option<ScheduleMode>)
        ensures
            r == mode_named(lower_of(s@)),
    {
        let l = to_lower(s);
        mode_from_lowered(l.as_str())
    }
}

/// One of the strategies, behind the single `schedule` operation.
pub enum Scheduler {
    Naive(NaiveScheduler),
    EarlyBird(EarlyBirdScheduler),
    Deepwork(DeepworkScheduler),
}

impl Scheduler {
    pub fn schedule(&self, program: &mut IRProgram)
        requires
            old(program).wf(),
        ensures
            match self {
                Scheduler::Naive(_) => naive_scheduled(*old(program), *final(program)),
                Scheduler::EarlyBird(_) => early_bird_scheduled(*old(program), *final(program)),
                Scheduler::Deepwork(d) => deepwork_scheduled(*old(program), *final(program), d.deepwork_tag@),
            },
    {
        match self {
            Scheduler::Naive(s) => s.schedule(program),
            Scheduler::EarlyBird(s) => s.schedule(program),
            Scheduler::Deepwork(s) => s.schedule(program),
        }
    }
}

/// The tag that deepwork scheduling uses when none is configured.
pub open spec fn default_deepwork_tag() -> Seq<char> {
    "deepwork"@
}

/// `n` is `o` scheduled by the strategy of `mode`, with `tag` as the deepwork tag.
pub open spec fn scheduled_by_mode(o: IRProgram, n: IRProgram, mode: ScheduleMode, tag: Seq<char>) -> bool {
    match mode {
        ScheduleMode::Naive => naive_scheduled(o, n),
        ScheduleMode::EarlyBird => early_bird_scheduled(o, n),
        ScheduleMode::DeepworkFirst => deepwork_scheduled(o, n, tag),
    }
}

/// The strategy for a mode; deepwork scheduling uses the given tag, or
/// `deepwork` when there is none.
pub fn create_scheduler(mode: ScheduleMode, deepwork_tag: Option<String>) -> (r: Scheduler)
    ensures
        match mode {
            ScheduleMode::Naive => r is Naive,
            ScheduleMode::EarlyBird => r is EarlyBird,
            ScheduleMode::DeepworkFirst => r is Deepwork && r->Deepwork_0.deepwork_tag@ == (match deepwork_tag {
                Some(t) => t@,
                None => default_deepwork_tag(),
            }),
        },
{
    match mode {
        ScheduleMode::Naive => Scheduler::Naive(NaiveScheduler),
        ScheduleMode::EarlyBird => Scheduler::EarlyBird(EarlyBirdScheduler),
        ScheduleMode::DeepworkFirst => {
            let tag = match deepwork_tag {
                Some(t) => t,
                None => String::from_str("deepwork"),
            };
            Scheduler::Deepwork(DeepworkScheduler::new(tag))
        },
    }
}

/// In a well-formed program, every task is either unscheduled or scheduled
/// with both times set, ending exactly its duration after it starts.
pub proof fn law_duration_consistency(p: IRProgram)
    requires
        p.wf(),
    ensures
        forall|i: int|
            0 <= i < p.task_map@.len() && (#[trigger] p.task_map@[i]).scheduled_start is Some ==> p.task_map@[i].scheduled_end is Some
                && p.task_map@[i].scheduled_end->0 - p.task_map@[i].scheduled_start->0 == p.task_map@[i].minutes(),
        forall|i: int|
            0 <= i < p.task_map@.len() && (#[trigger] p.task_map@[i]).scheduled_start is None ==> p.task_map@[i].scheduled_end is None,
{
}

/// A task that does not fit leaves the cursor where it is (past any reserved
/// window), so every later task of the same pass that is at least as long
/// does not fit either.
pub proof fn law_no_advance_on_miss(
    tasks: Seq<IRTask>,
    order: Seq<usize>,
    start: int,
    end: int,
    lo: int,
    hi: int,
    k: int,
    j: int,
)
    requires
        0 <= k < j < order.len(),
        slot(tasks, order, start, end, lo, hi, k) is None,
        tasks[order[j] as int].minutes() >= tasks[order[k] as int].minutes(),
    ensures
        cursor_before(tasks, order, start, end, lo, hi, k + 1) == skip_reserved(
            cursor_before(tasks, order, start, end, lo, hi, k),
            lo,
            hi,
        ),
        slot(tasks, order, start, end, lo, hi, j) is None,
{
    lemma_cursor_monotone(tasks, order, start, end, lo, hi, k + 1, j);
}

/// Under the deepwork strategy, a task carrying the deepwork tag that ends up
/// scheduled lies inside the deepwork window.
pub proof fn law_deepwork_containment(o: IRProgram, n: IRProgram, tag: Seq<char>, x: usize)
    requires
        o.wf(),
        deepwork_scheduled(o, n, tag),
        x < o.task_map@.len(),
        o.task_map@[x as int].tagged(tag),
        n.task_map@[x as int].scheduled_start is Some,
    ensures
        deepwork_window(workday(o).0, workday(o).1).0 <= n.task_map@[x as int].scheduled_start->0,
        n.task_map@[x as int].scheduled_end->0 <= deepwork_window(workday(o).0, workday(o).1).1,
{
    let (ws, we) = workday(o);
    let (ds, de) = deepwork_window(ws, we);
    let tasks = o.task_map@;
    lemma_order_members(o);
    let kept = keep(o.order(), tagged_with(tasks, tag));
    lemma_keep_members(o.order(), tagged_with(tasks, tag));
    assert(kept.contains(x));
    lemma_by_priority_members(tasks, kept);
    let deep = deepwork_order(o, tag);
    assert(deep.contains(x));
    let k = choose|k: int| 0 <= k < deep.len() && deep[k] == x;
    assert(placed_as(n.task_map@[deep[k] as int], slot(tasks, deep, ds, de, ds, ds, k)));
    lemma_cursor_bounds(tasks, deep, ds, de, ds, ds, k);
    assert(same_but_schedule(n.task_map@[x as int], tasks[x as int]));
}

/// Tasks live in one arena: the entry a block lists at any position is the
/// arena's task with that id, so its scheduled times read the same through
/// the block as by id.
pub proof fn law_single_copy(p: IRProgram, b: int, k: int)
    requires
        p.wf(),
        0 <= b < p.blocks@.len(),
        0 <= k < p.blocks@[b].tasks@.len(),
    ensures
        p.blocks@[b].tasks@[k] < p.task_map@.len(),
        p.task_map@[p.blocks@[b].tasks@[k] as int].id == p.blocks@[b].tasks@[k],
{
    assert(p.blocks@[b].tasks@.contains(p.blocks@[b].tasks@[k]));
}

} // verus!
