//! The decisions of running a plan: which tasks run in which order, and
//! what each answer of the person running it means.
use vstd::prelude::*;
use crate::ir::{IRProgram, IRTask};
use crate::lexer::trim_bounds;
use crate::optimizer::{ids_in, is_permutation, keep, key_before, rearranges, stable_order};
use crate::text::chars_of;

verus! {

/// Every listed task has a scheduled start.
pub open spec fn all_scheduled(tasks: Seq<IRTask>, ids: Seq<usize>) -> bool {
    forall|k: int| 0 <= k < ids.len() ==> (#[trigger] tasks[ids[k] as int]).scheduled_start is Some
}

/// The task at position `a` of `ids` starts before the one at `b`, or at the
/// same time and earlier in the list.
pub open spec fn start_before(tasks: Seq<IRTask>, ids: Seq<usize>, a: int, b: int) -> bool {
    let x = tasks[ids[a] as int].scheduled_start->0;
    let y = tasks[ids[b] as int].scheduled_start->0;
    x < y || (x == y && a < b)
}

/// `out` is `ids` stably sorted by scheduled start.
pub open spec fn start_sorted(tasks: Seq<IRTask>, ids: Seq<usize>, out: Seq<usize>) -> bool {
    exists|perm: Seq<usize>|
        #![trigger is_permutation(perm, ids.len())]
        is_permutation(perm, ids.len()) && out == perm.map_values(|k: usize| ids[k as int]) && (
        forall|i: int, j: int|
            0 <= i < j < perm.len() ==> start_before(tasks, ids, #[trigger] perm[i] as int, #[trigger] perm[j] as int))
}

/// The tasks in order of their scheduled start, ties kept in their given order.
pub fn start_order(tasks: &Vec<IRTask>, ids: &Vec<usize>) -> (out: Vec<usize>)
    requires
        ids_in(ids@, tasks@),
        ids@.no_duplicates(),
        all_scheduled(tasks@, ids@),
    ensures
        start_sorted(tasks@, ids@, out@),
        rearranges(out@, ids@),
{
    let n = ids.len();
    let mut keys: Vec<(u64, u64)> = Vec::new();
    let mut i: usize = 0;
    while i < n
        invariant
            n == ids@.len(),
            ids_in(ids@, tasks@),
            all_scheduled(tasks@, ids@),
            i <= n,
            keys@.len() == i,
            forall|k: int| 0 <= k < i ==> #[trigger] keys@[k] == (tasks@[ids@[k] as int].scheduled_start->0, 0u64),
        decreases n - i,
    {
        let start = match tasks[ids[i]].scheduled_start {
            Some(s) => s,
            None => 0,
        };
        keys.push((start, 0));
        i = i + 1;
    }
    let sorted = stable_order(&keys);
    assert forall|a: int, b: int| 0 <= a < n && 0 <= b < n implies key_before(keys@, a, b) == start_before(
        tasks@, ids@, a, b) by {
        assert(keys@[a] == (tasks@[ids@[a] as int].scheduled_start->0, 0u64));
        assert(keys@[b] == (tasks@[ids@[b] as int].scheduled_start->0, 0u64));
    }
    assert forall|x: int, y: int| 0 <= x < y < sorted@.len() implies start_before(tasks@, ids@, #[trigger] sorted@[x] as int, #[trigger] sorted@[y] as int) by {
        assert(key_before(keys@, sorted@[x] as int, sorted@[y] as int));
    }
    let mut out: Vec<usize> = Vec::new();
    let mut i: usize = 0;
    while i < n
        invariant
            n == ids@.len(),
            is_permutation(sorted@, n as nat),
            i <= n,
            out@ == sorted@.take(i as int).map_values(|k: usize| ids@[k as int]),
        decreases n - i,
    {
        out.push(ids[sorted[i]]);
        assert(sorted@.take(i + 1) == sorted@.take(i as int).push(sorted@[i as int]));
        i = i + 1;
    }
    assert(sorted@.take(n as int) == sorted@);
    proof {
        crate::optimizer::lemma_permuted_rearranges(sorted@, ids@);
    }
    out
}

/// The task with this id has a scheduled start.
pub open spec fn is_scheduled(tasks: Seq<IRTask>) -> spec_fn(usize) -> bool {
    |x: usize| tasks[x as int].scheduled_start is Some
}

/// The scheduled tasks of a program in the order they are to be run: by
/// scheduled start, ties in block order.
pub fn run_order(program: &IRProgram) -> (r: Vec<usize>)
    requires
        program.wf(),
    ensures
        start_sorted(program.task_map@, keep(program.order(), is_scheduled(program.task_map@)), r@),
{
    let all = crate::scheduler::all_task_ids(program);
    proof {
        crate::scheduler::lemma_order_members(*program);
    }
    let ghost f = is_scheduled(program.task_map@);
    let mut picked: Vec<usize> = Vec::new();
    let mut i: usize = 0;
    while i < all.len()
        invariant
            all@ == program.order(),
            ids_in(all@, program.task_map@),
            f == is_scheduled(program.task_map@),
            i <= all@.len(),
            picked@ == keep(all@.take(i as int), f),
            ids_in(picked@, program.task_map@),
        decreases all@.len() - i,
    {
        let x = all[i];
        assert(all@.take(i + 1).drop_last() == all@.take(i as int));
        assert(all@.take(i + 1).last() == x);
        if program.task_map[x].scheduled_start.is_some() {
            picked.push(x);
        }
        i = i + 1;
    }
    assert(all@.take(all@.len() as int) == all@);
    proof {
        crate::optimizer::lemma_keep_members(all@, f);
        assert forall|k: int| 0 <= k < picked@.len() implies (#[trigger] program.task_map@[picked@[k] as int]).scheduled_start is Some by {
            assert(picked@.contains(picked@[k]));
        }
    }
    start_order(&program.task_map, &picked)
}

/// What an answer of the person running the plan asks for.
#[derive(Clone, Copy, Debug, PartialEq, Eq, Structural)]
pub enum StepAction {
    Start,
    Skip,
    Quit,
}

/// `q` quits and `s` skips (surrounding whitespace ignored); anything else,
/// an empty line included, starts the task.
pub open spec fn action_of(answer: Seq<char>) -> StepAction {
    let t = crate::lexer::trim_ws(answer);
    if t == seq!['q'] {
        StepAction::Quit
    } else if t == seq!['s'] {
        StepAction::Skip
    } else {
        StepAction::Start
    }
}

pub fn answer_action(input: &str) -> (r: StepAction)
    ensures
        r == action_of(input@),
{
    let cs = chars_of(input);
    let (a, b) = trim_bounds(cs.as_slice());
    let ghost t = cs@.subrange(a as int, b as int);
    assert(t == crate::lexer::trim_ws(input@));
    let one = b - a == 1;
    if one {
        assert(t[0] == cs@[a as int]);
        assert(t == seq![cs@[a as int]]);
    } else {
        assert(t.len() != 1);
    }
    if one && cs[a] == 'q' {
        StepAction::Quit
    } else if one && cs[a] == 's' {
        StepAction::Skip
    } else {
        StepAction::Start
    }
}

/// Records that task `id` has been done.
pub fn mark_completed(program: &mut IRProgram, id: usize)
    requires
        old(program).wf(),
        id < old(program).task_map@.len(),
    ensures
        final(program).wf(),
        final(program).blocks == old(program).blocks,
        final(program).metadata == old(program).metadata,
        final(program).task_map@ == old(program).task_map@.update(
            id as int,
            IRTask { completed: true, ..old(program).task_map@[id as int] },
        ),
{
    program.task_map[id].completed = true;
    proof {
        assert forall|i: int| 0 <= i < program.task_map@.len() implies (#[trigger] program.task_map@[i]).id == i
            && program.task_map@[i].schedule_consistent() by {
            assert(old(program).task_map@[i].id == i);
        }
    }
}

} // verus!
