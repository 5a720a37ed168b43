//! Block-local reordering of tasks: by priority, by dependencies, by tags.
use vstd::prelude::*;
use crate::ast::priority_to_value;
use crate::ir::{blocks_partition, listed, IRBlock, IRProgram, IRTask};

verus! {

/// `out` lists the same tasks as `ids`, each once: the same set, the same size.
pub open spec fn rearranges(out: Seq<usize>, ids: Seq<usize>) -> bool {
    &&& out.len() == ids.len()
    &&& out.no_duplicates()
    &&& forall|x: usize| #[trigger] out.contains(x) <==> ids.contains(x)
}

/// Every listed id names a task of the arena.
pub open spec fn ids_in(ids: Seq<usize>, tasks: Seq<IRTask>) -> bool {
    forall|k: int| 0 <= k < ids.len() ==> (#[trigger] ids[k]) < tasks.len()
}

/// In the level-1 order, the task at position `a` of `ids` comes before the
/// one at position `b`: higher priority first, then the shorter one, then the
/// one that came first.
pub open spec fn level1_before(tasks: Seq<IRTask>, ids: Seq<usize>, a: int, b: int) -> bool {
    let x = tasks[ids[a] as int];
    let y = tasks[ids[b] as int];
    x.priority.rank() > y.priority.rank() || (x.priority.rank() == y.priority.rank() && (x.minutes()
        < y.minutes() || (x.minutes() == y.minutes() && a < b)))
}

/// `perm` lists each position below `n` exactly once.
pub open spec fn is_permutation(perm: Seq<usize>, n: nat) -> bool {
    &&& perm.len() == n
    &&& perm.no_duplicates()
    &&& forall|i: int| 0 <= i < perm.len() ==> (#[trigger] perm[i]) < n
    &&& forall|p: usize| p < n ==> #[trigger] perm.contains(p)
}

/// `out` is `ids` stably sorted by priority, highest first, ties broken by
/// shorter duration first.
pub open spec fn priority_sorted(tasks: Seq<IRTask>, ids: Seq<usize>, out: Seq<usize>) -> bool {
    exists|perm: Seq<usize>|
        #![trigger is_permutation(perm, ids.len())]
        is_permutation(perm, ids.len()) && out == perm.map_values(|k: usize| ids[k as int]) && (
        forall|i: int, j: int|
            0 <= i < j < perm.len() ==> level1_before(tasks, ids, #[trigger] perm[i] as int, #[trigger] perm[j] as int))
}

/// Position `a` of `keys` goes before position `b`: smaller key first,
/// keys compared as pairs, then the earlier position.
pub open spec fn key_before(keys: Seq<(u64, u64)>, a: int, b: int) -> bool {
    keys[a].0 < keys[b].0 || (keys[a].0 == keys[b].0 && (keys[a].1 < keys[b].1 || (keys[a].1 == keys[b].1
        && a < b)))
}

fn key_precedes(keys: &Vec<(u64, u64)>, a: usize, b: usize) -> (r: bool)
    requires
        a < keys@.len(),
        b < keys@.len(),
    ensures
        r == key_before(keys@, a as int, b as int),
{
    let (x0, x1) = keys[a];
    let (y0, y1) = keys[b];
    x0 < y0 || (x0 == y0 && (x1 < y1 || (x1 == y1 && a < b)))
}

/// The positions of `keys` in stable sorted order: by key, equal keys in
/// their given order.
pub fn stable_order(keys: &Vec<(u64, u64)>) -> (sorted: Vec<usize>)
    ensures
        is_permutation(sorted@, keys@.len()),
        forall|i: int, j: int|
            0 <= i < j < sorted@.len() ==> key_before(keys@, #[trigger] sorted@[i] as int, #[trigger] sorted@[j] as int),
{
    let n = keys.len();
    let mut sorted: Vec<usize> = Vec::new();
    let mut k: usize = 0;
    while k < n
        invariant
            n == keys@.len(),
            k <= n,
            is_permutation(sorted@, k as nat),
            forall|i: int, j: int|
                0 <= i < j < sorted@.len() ==> key_before(keys@, #[trigger] sorted@[i] as int, #[trigger] sorted@[j] as int),
        decreases n - k,
    {
        let mut j: usize = 0;
        while j < sorted.len() && !key_precedes(keys, k, sorted[j])
            invariant
                n == keys@.len(),
                    k < n,
                j <= sorted@.len(),
                is_permutation(sorted@, k as nat),
                forall|i: int| 0 <= i < j ==> !key_before(keys@, k as int, #[trigger] sorted@[i] as int),
            decreases sorted@.len() - j,
        {
            j = j + 1;
        }
        let ghost s = sorted@;
        sorted.insert(j, k);
        proof {
            let t = sorted@;
            assert(t == s.insert(j as int, k));
            assert forall|i: int| 0 <= i < j implies key_before(keys@, #[trigger] s[i] as int, k as int) by {
                assert(s[i] < k);
            }
            if j < s.len() {
                assert(key_before(keys@, k as int, s[j as int] as int));
            }
            assert forall|a: int, b: int| 0 <= a < b < t.len() implies key_before(keys@, #[trigger] t[a] as int, #[trigger] t[b] as int) by {
                if b < j {
                    assert(t[a] == s[a] && t[b] == s[b]);
                } else if b == j {
                    assert(t[a] == s[a]);
                } else if a < j {
                    assert(t[a] == s[a] && t[b] == s[b - 1]);
                    assert(key_before(keys@, s[a] as int, k as int));
                    if j < b - 1 {
                        assert(key_before(keys@, s[j as int] as int, s[b - 1] as int));
                    }
                } else if a == j {
                    assert(t[b] == s[b - 1]);
                    if j < b - 1 {
                        assert(key_before(keys@, s[j as int] as int, s[b - 1] as int));
                    }
                } else {
                    assert(t[a] == s[a - 1] && t[b] == s[b - 1]);
                }
            }
            assert forall|p: usize| p < k + 1 implies #[trigger] t.contains(p) by {
                if p == k {
                    assert(t[j as int] == k);
                } else {
                    assert(s.contains(p));
                    let i = choose|i: int| 0 <= i < s.len() && s[i] == p;
                    if i < j {
                        assert(t[i] == p);
                    } else {
                        assert(t[i + 1] == p);
                    }
                }
            }
            assert forall|i: int| 0 <= i < t.len() implies (#[trigger] t[i]) < k + 1 by {
                if i < j {
                    assert(t[i] == s[i]);
                } else if i > j {
                    assert(t[i] == s[i - 1]);
                }
            }
            assert forall|a: int, b: int| 0 <= a < b < t.len() implies t[a] != t[b] by {
                if a != j && b != j {
                    let a1 = if a < j { a } else { a - 1 };
                    let b1 = if b < j { b } else { b - 1 };
                    assert(t[a] == s[a1] && t[b] == s[b1]);
                } else if a == j {
                    let b1 = if b < j { b } else { b - 1 };
                    assert(t[b] == s[b1]);
                } else {
                    assert(t[a] == s[a]);
                }
            }
        }
        k = k + 1;
    }
    sorted
}

/// The tasks of one block in level-1 order.
pub fn priority_order(tasks: &Vec<IRTask>, ids: &Vec<usize>) -> (out: Vec<usize>)
    requires
        ids_in(ids@, tasks@),
        ids@.no_duplicates(),
    ensures
        priority_sorted(tasks@, ids@, out@),
        rearranges(out@, ids@),
{
    let n = ids.len();
    let mut keys: Vec<(u64, u64)> = Vec::new();
    let mut i: usize = 0;
    while i < n
        invariant
            n == ids@.len(),
            ids_in(ids@, tasks@),
            i <= n,
            keys@.len() == i,
            forall|k: int| 0 <= k < i ==> #[trigger] keys@[k] == ((3 - tasks@[ids@[k] as int].priority.rank()) as u64,
                tasks@[ids@[k] as int].minutes() as u64),
        decreases n - i,
    {
        let t = &tasks[ids[i]];
        keys.push(((3 - priority_to_value(&t.priority)) as u64, t.duration_minutes()));
        i = i + 1;
    }
    let sorted = stable_order(&keys);
    assert forall|a: int, b: int| 0 <= a < n && 0 <= b < n implies key_before(keys@, a, b) == level1_before(
        tasks@, ids@, a, b) by {
        assert(keys@[a] == ((3 - tasks@[ids@[a] as int].priority.rank()) as u64, tasks@[ids@[a] as int].minutes() as u64));
        assert(keys@[b] == ((3 - tasks@[ids@[b] as int].priority.rank()) as u64, tasks@[ids@[b] as int].minutes() as u64));
    }
    assert forall|x: int, y: int| 0 <= x < y < sorted@.len() implies level1_before(tasks@, ids@, #[trigger] sorted@[x] as int, #[trigger] sorted@[y] as int) by {
        assert(key_before(keys@, sorted@[x] as int, sorted@[y] as int));
    }
    let mut out: Vec<usize> = Vec::new();
    let mut i: usize = 0;
    while i < n
        invariant
            n == ids@.len(),
            ids_in(ids@, tasks@),
            is_permutation(sorted@, n as nat),
            i <= n,
            out@ == sorted@.take(i as int).map_values(|k: usize| ids@[k as int]),
        decreases n - i,
    {
        out.push(ids[sorted[i]]);
        assert(sorted@.take(i + 1) == sorted@.take(i as int).push(sorted@[i as int]));
        i = i + 1;
    }
    assert(sorted@.take(n as int) == sorted@);
    proof {
        lemma_permuted_rearranges(sorted@, ids@);
    }
    out
}

/// Reading `ids` through a permutation of its positions rearranges it.
pub proof fn lemma_permuted_rearranges(perm: Seq<usize>, ids: Seq<usize>)
    requires
        is_permutation(perm, ids.len()),
        ids.no_duplicates(),
        ids.len() <= usize::MAX,
    ensures
        rearranges(perm.map_values(|k: usize| ids[k as int]), ids),
{
    let out = perm.map_values(|k: usize| ids[k as int]);
    assert forall|a: int, b: int| 0 <= a < b < out.len() implies out[a] != out[b] by {
        assert(perm[a] != perm[b]);
    }
    assert forall|x: usize| #[trigger] out.contains(x) <==> ids.contains(x) by {
        if out.contains(x) {
            let i = choose|i: int| 0 <= i < out.len() && out[i] == x;
            assert(ids[perm[i] as int] == x);
        }
        if ids.contains(x) {
            let p = choose|p: int| 0 <= p < ids.len() && ids[p] == x;
            assert(perm.contains(p as usize));
            let i = choose|i: int| 0 <= i < perm.len() && perm[i] == p as usize;
            assert(out[i] == ids[perm[i] as int]);
            assert(perm[i] as int == p);
            assert(out[i] == x);
        }
    }
}

/// Marks of the depth-first traversal: not reached, in progress, finished.
pub const WHITE: u8 = 0;
pub const GRAY: u8 = 1;
pub const BLACK: u8 = 2;

/// Within the block `block`, task `a` depends on task `b`.
pub open spec fn dep_edge(tasks: Seq<IRTask>, block: Set<usize>, a: usize, b: usize) -> bool {
    block.contains(a) && block.contains(b) && tasks[a as int].deps@.contains(b)
}

/// `p` follows dependency edges of the block, from `p[0]` to its last task.
pub open spec fn is_dep_path(tasks: Seq<IRTask>, block: Set<usize>, p: Seq<usize>) -> bool {
    p.len() >= 1 && forall|i: int| 0 <= i < p.len() - 1 ==> dep_edge(tasks, block, #[trigger] p[i], p[i + 1])
}

/// Following dependencies from `a` within the block leads to `b`.
pub open spec fn reaches(tasks: Seq<IRTask>, block: Set<usize>, a: usize, b: usize) -> bool {
    exists|p: Seq<usize>| #[trigger] is_dep_path(tasks, block, p) && p[0] == a && p.last() == b
}

/// No dependency chain of the block leads from a task back to itself.
pub open spec fn acyclic(tasks: Seq<IRTask>, block: Set<usize>) -> bool {
    forall|a: usize, b: usize| #[trigger] dep_edge(tasks, block, a, b) ==> !reaches(tasks, block, b, a)
}

/// Each task of `out` comes after its dependencies, except a dependency
/// from which the task itself can be reached again (one closing a cycle).
pub open spec fn dependencies_first(tasks: Seq<IRTask>, block: Set<usize>, out: Seq<usize>) -> bool {
    forall|k: int, w: usize|
        0 <= k < out.len() && #[trigger] dep_edge(tasks, block, out[k], w) ==> (exists|m: int|
            0 <= m < k && out[m] == w) || reaches(tasks, block, w, out[k])
}

proof fn lemma_reaches_self(tasks: Seq<IRTask>, block: Set<usize>, a: usize)
    ensures
        reaches(tasks, block, a, a),
{
    let p = seq![a];
    assert(is_dep_path(tasks, block, p));
}

proof fn lemma_reaches_step(tasks: Seq<IRTask>, block: Set<usize>, a: usize, b: usize, c: usize)
    requires
        reaches(tasks, block, a, b),
        dep_edge(tasks, block, b, c),
    ensures
        reaches(tasks, block, a, c),
{
    let p = choose|p: Seq<usize>| #[trigger] is_dep_path(tasks, block, p) && p[0] == a && p.last() == b;
    let q = p.push(c);
    assert forall|i: int| 0 <= i < q.len() - 1 implies dep_edge(tasks, block, #[trigger] q[i], q[i + 1]) by {
        if i < p.len() - 1 {
            assert(q[i] == p[i] && q[i + 1] == p[i + 1]);
        } else {
            assert(q[i] == b && q[i + 1] == c);
        }
    }
    assert(is_dep_path(tasks, block, q));
}

/// The number of unreached marks.
pub open spec fn whites(s: Seq<u8>) -> nat
    decreases s.len(),
{
    if s.len() == 0 {
        0
    } else {
        whites(s.drop_last()) + (if s.last() == WHITE { 1nat } else { 0nat })
    }
}

proof fn lemma_whites_mono(a: Seq<u8>, b: Seq<u8>)
    requires
        a.len() == b.len(),
        forall|i: int| 0 <= i < b.len() && b[i] == WHITE ==> a[i] == WHITE,
    ensures
        whites(b) <= whites(a),
    decreases a.len(),
{
    if a.len() > 0 {
        lemma_whites_mono(a.drop_last(), b.drop_last());
    }
}

proof fn lemma_whites_update(s: Seq<u8>, i: int, c: u8)
    requires
        0 <= i < s.len(),
        s[i] == WHITE,
        c != WHITE,
    ensures
        whites(s.update(i, c)) + 1 == whites(s),
    decreases s.len(),
{
    let t = s.update(i, c);
    if i == s.len() - 1 {
        assert(t.drop_last() == s.drop_last());
    } else {
        assert(t.drop_last() == s.drop_last().update(i, c));
        lemma_whites_update(s.drop_last(), i, c);
    }
}

/// Depth-first visit of `v` from the marks `color` and finished list `out`:
/// mark `v` in progress, visit its unreached dependencies within the block in
/// the order they are listed, then mark it finished and append it. `fuel`
/// bounds the depth; a visit with more fuel than unreached tasks is complete.
pub open spec fn visit_spec(
    tasks: Seq<IRTask>,
    block: Set<usize>,
    v: usize,
    color: Seq<u8>,
    out: Seq<usize>,
    fuel: nat,
) -> (Seq<u8>, Seq<usize>)
    decreases fuel, 0nat,
{
    if fuel == 0 {
        (color, out)
    } else {
        let (c, o) = visit_deps_spec(tasks, block, v, 0, color.update(v as int, GRAY), out, (fuel - 1) as nat);
        (c.update(v as int, BLACK), o.push(v))
    }
}

/// The visits of the dependencies of `v` from its `j`-th on.
pub open spec fn visit_deps_spec(
    tasks: Seq<IRTask>,
    block: Set<usize>,
    v: usize,
    j: nat,
    color: Seq<u8>,
    out: Seq<usize>,
    fuel: nat,
) -> (Seq<u8>, Seq<usize>)
    decreases fuel, (tasks[v as int].deps@.len() - j) as nat,
{
    let deps = tasks[v as int].deps@;
    if j >= deps.len() {
        (color, out)
    } else {
        let w = deps[j as int];
        let (c, o) = if w < color.len() && block.contains(w) && color[w as int] == WHITE {
            visit_spec(tasks, block, w, color, out, fuel)
        } else {
            (color, out)
        };
        visit_deps_spec(tasks, block, v, j + 1, c, o, fuel)
    }
}

/// The traversal started from each of `roots` in turn that is still unreached.
pub open spec fn visit_roots(
    tasks: Seq<IRTask>,
    block: Set<usize>,
    roots: Seq<usize>,
    color: Seq<u8>,
    out: Seq<usize>,
) -> (Seq<u8>, Seq<usize>)
    decreases roots.len(),
{
    if roots.len() == 0 {
        (color, out)
    } else {
        let (c, o) = visit_roots(tasks, block, roots.drop_last(), color, out);
        let r = roots.last();
        if r < c.len() && c[r as int] == WHITE {
            visit_spec(tasks, block, r, c, o, (tasks.len() + 1) as nat)
        } else {
            (c, o)
        }
    }
}

/// The dependency order of a block: the finished list of a depth-first
/// traversal from each task of `ids` in turn.
pub open spec fn dependency_order_of(tasks: Seq<IRTask>, ids: Seq<usize>) -> Seq<usize> {
    visit_roots(tasks, ids.to_set(), ids, Seq::new(tasks.len(), |i: int| WHITE), Seq::empty()).1
}

proof fn lemma_whites_len(s: Seq<u8>)
    ensures
        whites(s) <= s.len(),
    decreases s.len(),
{
    if s.len() > 0 {
        lemma_whites_len(s.drop_last());
    }
}

/// The state of the traversal: marks are consistent with the finished list,
/// which holds block tasks only, each once, dependencies first.
pub open spec fn traversal_inv(
    tasks: Seq<IRTask>,
    block: Set<usize>,
    in_block: Seq<bool>,
    color: Seq<u8>,
    out: Seq<usize>,
) -> bool {
    &&& color.len() == tasks.len()
    &&& in_block.len() == tasks.len()
    &&& tasks.len() <= usize::MAX
    &&& forall|x: usize| #[trigger] block.contains(x) ==> x < tasks.len()
    &&& forall|x: int| 0 <= x < tasks.len() ==> #[trigger] in_block[x] == block.contains(x as usize)
    &&& forall|x: int| 0 <= x < color.len() ==> #[trigger] color[x] <= BLACK
    &&& out.no_duplicates()
    &&& forall|k: int| 0 <= k < out.len() ==> (#[trigger] out[k]) < tasks.len() && block.contains(out[k])
    &&& forall|x: int| 0 <= x < color.len() ==> (#[trigger] color[x] == BLACK <==> out.contains(x as usize))
    &&& dependencies_first(tasks, block, out)
}

/// Depth-first visit of task `v`: its unreached dependencies first, then `v`
/// itself is appended to `out`. A dependency that is still in progress closes
/// a cycle and is not followed.
pub fn topological_sort(
    tasks: &Vec<IRTask>,
    block: &Vec<usize>,
    in_block: &Vec<bool>,
    v: usize,
    color: &mut Vec<u8>,
    out: &mut Vec<usize>,
    Ghost(fuel): Ghost<nat>,
)
    requires
        traversal_inv(tasks@, block@.to_set(), in_block@, old(color)@, old(out)@),
        fuel > whites(old(color)@),
        v < tasks@.len(),
        block@.to_set().contains(v),
        old(color)@[v as int] == WHITE,
        forall|g: int|
            0 <= g < old(color)@.len() && #[trigger] old(color)@[g] == GRAY ==> reaches(tasks@, block@.to_set(), g as usize, v),
    ensures
        traversal_inv(tasks@, block@.to_set(), in_block@, final(color)@, final(out)@),
        final(color)@[v as int] == BLACK,
        forall|x: int| 0 <= x < final(color)@.len() ==> (#[trigger] final(color)@[x] == GRAY <==> old(color)@[x] == GRAY),
        forall|x: int| 0 <= x < final(color)@.len() && #[trigger] old(color)@[x] == BLACK ==> final(color)@[x] == BLACK,
        forall|x: int| 0 <= x < final(color)@.len() && #[trigger] final(color)@[x] == WHITE ==> old(color)@[x] == WHITE,
        old(out)@.len() <= final(out)@.len(),
        final(out)@.take(old(out)@.len() as int) == old(out)@,
        (final(color)@, final(out)@) == visit_spec(tasks@, block@.to_set(), v, old(color)@, old(out)@, fuel),
    decreases whites(old(color)@),
{
    let ghost c0 = color@;
    let ghost o0 = out@;
    color.set(v, GRAY);
    proof {
        lemma_whites_update(c0, v as int, GRAY);
        lemma_reaches_self(tasks@, block@.to_set(), v);
    }
    let n_deps = tasks[v].deps.len();
    let mut i: usize = 0;
    while i < n_deps
        invariant
            traversal_inv(tasks@, block@.to_set(), in_block@, color@, out@),
            v < tasks@.len(),
            block@.to_set().contains(v),
            n_deps == tasks@[v as int].deps@.len(),
            i <= n_deps,
            fuel > whites(c0),
            visit_deps_spec(tasks@, block@.to_set(), v, 0, c0.update(v as int, GRAY), o0, (fuel - 1) as nat)
                == visit_deps_spec(tasks@, block@.to_set(), v, i as nat, color@, out@, (fuel - 1) as nat),
            color@.len() == c0.len(),
            c0 == old(color)@,
            reaches(tasks@, block@.to_set(), v, v),
            color@[v as int] == GRAY,
            forall|x: int| 0 <= x < color@.len() && x != v ==> (#[trigger] color@[x] == GRAY <==> c0[x] == GRAY),
            forall|x: int| 0 <= x < color@.len() && #[trigger] c0[x] == BLACK ==> color@[x] == BLACK,
            forall|x: int| 0 <= x < color@.len() && #[trigger] color@[x] == WHITE ==> c0[x] == WHITE,
            whites(color@) < whites(c0),
            forall|g: int|
                0 <= g < c0.len() && #[trigger] c0[g] == GRAY ==> reaches(tasks@, block@.to_set(), g as usize, v),
            o0.len() <= out@.len(),
            out@.take(o0.len() as int) == o0,
            forall|j: int|
                0 <= j < i && block@.to_set().contains(#[trigger] tasks@[v as int].deps@[j]) ==> out@.contains(
                    tasks@[v as int].deps@[j],
                ) || reaches(tasks@, block@.to_set(), tasks@[v as int].deps@[j], v),
        decreases n_deps - i,
    {
        let w = tasks[v].deps[i];
        let ghost dv = tasks@[v as int].deps@;
        assert(dv[i as int] == w);
        if w < tasks.len() && in_block[w] {
            assert(dep_edge(tasks@, block@.to_set(), v, w));
            if color[w] == WHITE {
                let ghost c1 = color@;
                let ghost o1 = out@;
                proof {
                    assert forall|g: int|
                        0 <= g < c1.len() && #[trigger] c1[g] == GRAY implies reaches(tasks@, block@.to_set(), g as usize, w) by {
                        if g != v {
                            assert(c0[g] == GRAY);
                        }
                        lemma_reaches_step(tasks@, block@.to_set(), g as usize, v, w);
                    }
                }
                topological_sort(tasks, block, in_block, w, color, out, Ghost((fuel - 1) as nat));
                proof {
                    lemma_whites_mono(c1, color@);
                    assert(out@.contains(w)) by {
                        assert(color@[w as int] == BLACK);
                    }
                    assert forall|j: int|
                        0 <= j < i && block@.to_set().contains(#[trigger] dv[j]) implies out@.contains(dv[j]) || reaches(
                            tasks@, block@.to_set(), dv[j], v) by {
                        if o1.contains(dv[j]) {
                            let m = choose|m: int| 0 <= m < o1.len() && o1[m] == dv[j];
                            assert(out@.take(o1.len() as int)[m] == out@[m]);
                        }
                    }
                    assert(out@.take(o0.len() as int) == o0) by {
                        assert(out@.take(o1.len() as int).take(o0.len() as int) == out@.take(o0.len() as int));
                    }
                }
            } else if color[w] == GRAY {
                proof {
                    if w != v {
                        assert(c0[w as int] == GRAY);
                    }
                }
            } else {
                assert(color@[w as int] == BLACK);
            }
        } else {
            proof {
                if block@.to_set().contains(w) {
                    assert(in_block@[w as int]);
                }
            }
        }
        i = i + 1;
    }
    let ghost c2 = color@;
    let ghost o2 = out@;
    proof {
        assert(!o2.contains(v)) by {
            assert(c2[v as int] != BLACK);
        }
    }
    color.set(v, BLACK);
    out.push(v);
    proof {
        let o = out@;
        let l = o2.len() as int;
        assert(o[l] == v);
        assert forall|k: int| 0 <= k < l implies o[k] == o2[k] by {}
        assert forall|x: usize| #[trigger] o.contains(x) <==> (o2.contains(x) || x == v) by {
            if o2.contains(x) {
                let m = choose|m: int| 0 <= m < o2.len() && o2[m] == x;
                assert(o[m] == x);
            }
            if o.contains(x) {
                let m = choose|m: int| 0 <= m < o.len() && o[m] == x;
                if m < l {
                    assert(o2[m] == x);
                }
            }
        }
        assert forall|k: int, w: usize|
            0 <= k < o.len() && #[trigger] dep_edge(tasks@, block@.to_set(), o[k], w) implies (exists|m: int|
                0 <= m < k && o[m] == w) || reaches(tasks@, block@.to_set(), w, o[k]) by {
            if k < l {
                assert(o[k] == o2[k]);
                if exists|m: int| 0 <= m < k && o2[m] == w {
                    let m = choose|m: int| 0 <= m < k && o2[m] == w;
                    assert(o[m] == w);
                }
            } else {
                let dv = tasks@[v as int].deps@;
                let j = choose|j: int| 0 <= j < dv.len() && dv[j] == w;
                assert(block@.to_set().contains(dv[j]));
                if o2.contains(w) {
                    let m = choose|m: int| 0 <= m < o2.len() && o2[m] == w;
                    assert(o[m] == w);
                }
            }
        }
        assert(o.take(o0.len() as int) == o0) by {
            assert(o.take(l).take(o0.len() as int) == o.take(o0.len() as int));
            assert(o.take(l) == o2);
        }
    }
}

/// The tasks of one block in dependency order: a depth-first post-order
/// traversal that starts from each task in the current order and follows
/// dependencies in the order they are listed.
pub fn dependency_order(tasks: &Vec<IRTask>, ids: &Vec<usize>) -> (out: Vec<usize>)
    requires
        ids_in(ids@, tasks@),
        ids@.no_duplicates(),
    ensures
        rearranges(out@, ids@),
        dependencies_first(tasks@, ids@.to_set(), out@),
        out@ == dependency_order_of(tasks@, ids@),
{
    let n = tasks.len();
    let mut in_block: Vec<bool> = vec![false; n];
    let mut r: usize = 0;
    while r < ids.len()
        invariant
            n == tasks@.len(),
            ids_in(ids@, tasks@),
            r <= ids@.len(),
            in_block@.len() == n,
            forall|x: int| 0 <= x < n ==> #[trigger] in_block@[x] == ids@.take(r as int).contains(x as usize),
        decreases ids@.len() - r,
    {
        let ghost before = in_block@;
        let id = ids[r];
        in_block.set(id, true);
        proof {
            let t = ids@.take(r + 1);
            assert(t == ids@.take(r as int).push(id));
            assert forall|x: int| 0 <= x < n implies #[trigger] in_block@[x] == t.contains(x as usize) by {
                if x == id {
                    assert(t[r as int] == id);
                } else {
                    assert(in_block@[x] == before[x]);
                    if t.contains(x as usize) {
                        let k = choose|k: int| 0 <= k < t.len() && t[k] == x as usize;
                        assert(ids@.take(r as int)[k] == x as usize);
                    }
                    if ids@.take(r as int).contains(x as usize) {
                        let k = choose|k: int| 0 <= k < r && ids@.take(r as int)[k] == x as usize;
                        assert(t[k] == x as usize);
                    }
                }
            }
        }
        r = r + 1;
    }
    assert(ids@.take(ids@.len() as int) == ids@);
    let mut color: Vec<u8> = vec![WHITE; n];
    let mut out: Vec<usize> = Vec::new();
    let mut r: usize = 0;
    let ghost c_init = color@;
    assert(c_init == Seq::new(tasks@.len(), |i: int| WHITE));
    assert(ids@.take(0) == Seq::<usize>::empty());
    proof {
        assert forall|x: int| 0 <= x < color@.len() implies (#[trigger] color@[x] == BLACK <==> out@.contains(x as usize)) by {}
    }
    while r < ids.len()
        invariant
            traversal_inv(tasks@, ids@.to_set(), in_block@, color@, out@),
            ids_in(ids@, tasks@),
            r <= ids@.len(),
            forall|x: int| 0 <= x < color@.len() ==> #[trigger] color@[x] != GRAY,
            forall|j: int| 0 <= j < r ==> color@[#[trigger] ids@[j] as int] == BLACK,
            c_init == Seq::new(tasks@.len(), |i: int| WHITE),
            (color@, out@) == visit_roots(tasks@, ids@.to_set(), ids@.take(r as int), c_init, Seq::empty()),
        decreases ids@.len() - r,
    {
        let id = ids[r];
        proof {
            assert(ids@.take(r + 1).drop_last() == ids@.take(r as int));
            assert(ids@.take(r + 1).last() == id);
        }
        if color[id] == WHITE {
            proof {
                lemma_whites_len(color@);
            }
            topological_sort(tasks, ids, &in_block, id, &mut color, &mut out, Ghost((tasks@.len() + 1) as nat));
        }
        r = r + 1;
    }
    assert(ids@.take(ids@.len() as int) == ids@);
    proof {
        assert forall|x: usize| #[trigger] out@.contains(x) <==> ids@.contains(x) by {
            if ids@.contains(x) {
                let j = choose|j: int| 0 <= j < ids@.len() && ids@[j] == x;
                assert(color@[ids@[j] as int] == BLACK);
            }
        }
        assert(out@.to_set() == ids@.to_set());
        out@.unique_seq_to_set();
        ids@.unique_seq_to_set();
    }
    out
}

/// The items of `ids` that satisfy `f`, in order.
pub open spec fn keep(ids: Seq<usize>, f: spec_fn(usize) -> bool) -> Seq<usize>
    decreases ids.len(),
{
    if ids.len() == 0 {
        Seq::empty()
    } else {
        let p = keep(ids.drop_last(), f);
        if f(ids.last()) {
            p.push(ids.last())
        } else {
            p
        }
    }
}

/// The task with this id has priority rank `r`.
pub open spec fn rank_is(tasks: Seq<IRTask>, r: nat) -> spec_fn(usize) -> bool {
    |x: usize| tasks[x as int].priority.rank() == r
}

/// The task with this id carries `tag`.
pub open spec fn tagged_with(tasks: Seq<IRTask>, tag: Seq<char>) -> spec_fn(usize) -> bool {
    |x: usize| tasks[x as int].tagged(tag)
}

/// The task with this id does not carry `tag`.
pub open spec fn untagged_with(tasks: Seq<IRTask>, tag: Seq<char>) -> spec_fn(usize) -> bool {
    |x: usize| !tasks[x as int].tagged(tag)
}

/// `ids` stably sorted by priority, highest first.
pub open spec fn by_priority(tasks: Seq<IRTask>, ids: Seq<usize>) -> Seq<usize> {
    keep(ids, rank_is(tasks, 3)) + keep(ids, rank_is(tasks, 2)) + keep(ids, rank_is(tasks, 1)) + keep(
        ids,
        rank_is(tasks, 0),
    )
}

/// `s` with every repeated item dropped, keeping first occurrences.
pub open spec fn dedup<A>(s: Seq<A>) -> Seq<A>
    decreases s.len(),
{
    if s.len() == 0 {
        s
    } else {
        let d = dedup(s.drop_last());
        if d.contains(s.last()) {
            d
        } else {
            d.push(s.last())
        }
    }
}

/// For each tag in turn, the tasks carrying it, by priority.
pub open spec fn tag_groups(tasks: Seq<IRTask>, ids: Seq<usize>, tags: Seq<Seq<char>>) -> Seq<usize>
    decreases tags.len(),
{
    if tags.len() == 0 {
        Seq::empty()
    } else {
        tag_groups(tasks, ids, tags.drop_last()) + by_priority(
            tasks,
            keep(ids, tagged_with(tasks, tags.last())),
        )
    }
}

/// The level-3 order of a block: the tag groups, then the remaining tasks in
/// their current order, each task at its first place.
pub open spec fn grouped_order(tasks: Seq<IRTask>, ids: Seq<usize>, tags: Seq<Seq<char>>) -> Seq<usize> {
    dedup(tag_groups(tasks, ids, tags) + ids)
}

/// The text of each string.
pub open spec fn views(v: Seq<String>) -> Seq<Seq<char>> {
    v.map_values(|s: String| s@)
}

/// All tags of the block's tasks, task by task, with repeats.
pub open spec fn tags_in_order(tasks: Seq<IRTask>, ids: Seq<usize>) -> Seq<Seq<char>>
    decreases ids.len(),
{
    if ids.len() == 0 {
        Seq::empty()
    } else {
        tags_in_order(tasks, ids.drop_last()) + views(tasks[ids.last() as int].tags@)
    }
}

/// The tags that grouping uses: the focus tags if there are any, else every
/// tag of the block in first-seen order.
pub open spec fn grouping_tags(tasks: Seq<IRTask>, ids: Seq<usize>, focus: Seq<String>) -> Seq<Seq<char>> {
    if focus.len() > 0 {
        views(focus)
    } else {
        dedup(tags_in_order(tasks, ids))
    }
}

pub proof fn lemma_keep_subset(ids: Seq<usize>, f: spec_fn(usize) -> bool, x: usize)
    ensures
        keep(ids, f).contains(x) ==> ids.contains(x) && f(x),
    decreases ids.len(),
{
    if ids.len() > 0 {
        lemma_keep_subset(ids.drop_last(), f, x);
        let p = keep(ids.drop_last(), f);
        if keep(ids, f).contains(x) {
            if p.contains(x) {
                let k = choose|k: int| 0 <= k < ids.drop_last().len() && ids.drop_last()[k] == x;
                assert(ids[k] == x);
            } else {
                assert(ids[ids.len() - 1] == x);
            }
        }
    }
}

proof fn lemma_tag_groups_subset(tasks: Seq<IRTask>, ids: Seq<usize>, tags: Seq<Seq<char>>, x: usize)
    ensures
        tag_groups(tasks, ids, tags).contains(x) ==> ids.contains(x),
    decreases tags.len(),
{
    if tags.len() > 0 {
        lemma_tag_groups_subset(tasks, ids, tags.drop_last(), x);
        let k = keep(ids, tagged_with(tasks, tags.last()));
        lemma_keep_subset(ids, tagged_with(tasks, tags.last()), x);
        lemma_keep_subset(k, rank_is(tasks, 3), x);
        lemma_keep_subset(k, rank_is(tasks, 2), x);
        lemma_keep_subset(k, rank_is(tasks, 1), x);
        lemma_keep_subset(k, rank_is(tasks, 0), x);
    }
}

proof fn lemma_dedup(s: Seq<usize>)
    ensures
        dedup(s).no_duplicates(),
        forall|x: usize| #[trigger] dedup(s).contains(x) <==> s.contains(x),
    decreases s.len(),
{
    if s.len() > 0 {
        let t = s.drop_last();
        let l = s.last();
        lemma_dedup(t);
        assert(s == t.push(l));
        let d = dedup(t);
        assert forall|x: usize| s.contains(x) <==> (t.contains(x) || x == l) by {
            if t.contains(x) {
                let k = choose|k: int| 0 <= k < t.len() && t[k] == x;
                assert(s[k] == x);
            }
            if x == l {
                assert(s[s.len() - 1] == x);
            }
            if s.contains(x) {
                let k = choose|k: int| 0 <= k < s.len() && s[k] == x;
                if k < t.len() {
                    assert(t[k] == x);
                }
            }
        }
        if d.contains(l) {
            assert(dedup(s) == d);
            assert(t.contains(l));
            assert forall|x: usize| #[trigger] dedup(s).contains(x) <==> s.contains(x) by {
                assert(d.contains(x) <==> t.contains(x));
            }
        } else {
            assert(dedup(s) == d.push(l));
            assert forall|x: usize| d.push(l).contains(x) <==> (d.contains(x) || x == l) by {
                if d.contains(x) {
                    let k = choose|k: int| 0 <= k < d.len() && d[k] == x;
                    assert(d.push(l)[k] == x);
                }
                if x == l {
                    assert(d.push(l)[d.len() as int] == x);
                }
                if d.push(l).contains(x) {
                    let k = choose|k: int| 0 <= k < d.len() + 1 && d.push(l)[k] == x;
                    if k < d.len() {
                        assert(d[k] == x);
                    }
                }
            }
            assert forall|x: usize| #[trigger] dedup(s).contains(x) <==> s.contains(x) by {
                assert(d.contains(x) <==> t.contains(x));
                assert(d.push(l).contains(x) <==> (d.contains(x) || x == l));
            }
        }
    }
}

/// A grouped order lists every task of the block exactly once.
pub proof fn lemma_grouped_rearranges(tasks: Seq<IRTask>, ids: Seq<usize>, tags: Seq<Seq<char>>)
    requires
        ids.no_duplicates(),
    ensures
        rearranges(grouped_order(tasks, ids, tags), ids),
{
    let g = tag_groups(tasks, ids, tags);
    let s = g + ids;
    let out = grouped_order(tasks, ids, tags);
    lemma_dedup(s);
    assert forall|x: usize| #[trigger] out.contains(x) <==> ids.contains(x) by {
        lemma_tag_groups_subset(tasks, ids, tags, x);
        if s.contains(x) {
            let k = choose|k: int| 0 <= k < s.len() && s[k] == x;
            if k < g.len() {
                assert(g[k] == x);
            } else {
                assert(ids[k - g.len()] == x);
            }
        }
        if ids.contains(x) {
            let k = choose|k: int| 0 <= k < ids.len() && ids[k] == x;
            assert(s[g.len() + k] == x);
        }
    }
    assert(out.to_set() == ids.to_set());
    out.unique_seq_to_set();
    ids.unique_seq_to_set();
}

/// The ids of `ids` whose task satisfies a predicate given by an exec test.
fn keep_rank(tasks: &Vec<IRTask>, ids: &Vec<usize>, r: u8) -> (out: Vec<usize>)
    requires
        ids_in(ids@, tasks@),
    ensures
        out@ == keep(ids@, rank_is(tasks@, r as nat)),
        ids_in(out@, tasks@),
{
    let mut out: Vec<usize> = Vec::new();
    let mut i: usize = 0;
    while i < ids.len()
        invariant
            ids_in(ids@, tasks@),
            i <= ids@.len(),
            out@ == keep(ids@.take(i as int), rank_is(tasks@, r as nat)),
            ids_in(out@, tasks@),
        decreases ids@.len() - i,
    {
        let x = ids[i];
        assert(ids@.take(i + 1).drop_last() == ids@.take(i as int));
        assert(ids@.take(i + 1).last() == x);
        if priority_to_value(&tasks[x].priority) == r {
            out.push(x);
        }
        i = i + 1;
    }
    assert(ids@.take(ids@.len() as int) == ids@);
    out
}

/// The ids of `ids` whose task carries `tag` (or, with `want` false, does not).
pub(crate) fn keep_tagged(tasks: &Vec<IRTask>, ids: &Vec<usize>, tag: &str, want: bool) -> (out: Vec<usize>)
    requires
        ids_in(ids@, tasks@),
    ensures
        want ==> out@ == keep(ids@, tagged_with(tasks@, tag@)),
        !want ==> out@ == keep(ids@, untagged_with(tasks@, tag@)),
        ids_in(out@, tasks@),
{
    let mut out: Vec<usize> = Vec::new();
    let mut i: usize = 0;
    while i < ids.len()
        invariant
            ids_in(ids@, tasks@),
            i <= ids@.len(),
            want ==> out@ == keep(ids@.take(i as int), tagged_with(tasks@, tag@)),
            !want ==> out@ == keep(ids@.take(i as int), untagged_with(tasks@, tag@)),
            ids_in(out@, tasks@),
        decreases ids@.len() - i,
    {
        let x = ids[i];
        assert(ids@.take(i + 1).drop_last() == ids@.take(i as int));
        assert(ids@.take(i + 1).last() == x);
        if tasks[x].has_tag(tag) == want {
            out.push(x);
        }
        i = i + 1;
    }
    assert(ids@.take(ids@.len() as int) == ids@);
    out
}

/// `ids` stably sorted by priority, highest first.
pub fn priority_first(tasks: &Vec<IRTask>, ids: &Vec<usize>) -> (out: Vec<usize>)
    requires
        ids_in(ids@, tasks@),
    ensures
        out@ == by_priority(tasks@, ids@),
        ids_in(out@, tasks@),
{
    let mut out = keep_rank(tasks, ids, 3);
    let mut b = keep_rank(tasks, ids, 2);
    out.append(&mut b);
    let mut c = keep_rank(tasks, ids, 1);
    out.append(&mut c);
    let mut d = keep_rank(tasks, ids, 0);
    out.append(&mut d);
    out
}

/// Appends to `out` the items of `g` not yet placed.
fn append_unplaced(out: &mut Vec<usize>, placed: &mut Vec<bool>, g: &Vec<usize>, Ghost(seen): Ghost<Seq<usize>>)
    requires
        old(out)@ == dedup(seen),
        forall|k: int| 0 <= k < g@.len() ==> (#[trigger] g@[k]) < old(placed)@.len(),
        forall|x: usize| (x as int) < old(placed)@.len() ==> #[trigger] old(placed)@[x as int] == old(out)@.contains(x),
    ensures
        final(out)@ == dedup(seen + g@),
        final(placed)@.len() == old(placed)@.len(),
        forall|x: usize| (x as int) < final(placed)@.len() ==> #[trigger] final(placed)@[x as int] == final(out)@.contains(x),
{
    let mut j: usize = 0;
    while j < g.len()
        invariant
            j <= g@.len(),
            placed@.len() == old(placed)@.len(),
            forall|k: int| 0 <= k < g@.len() ==> (#[trigger] g@[k]) < placed@.len(),
            out@ == dedup(seen + g@.take(j as int)),
            forall|x: usize| (x as int) < placed@.len() ==> #[trigger] placed@[x as int] == out@.contains(x),
        decreases g@.len() - j,
    {
        let x = g[j];
        let ghost s1 = seen + g@.take(j as int);
        let ghost s2 = seen + g@.take(j + 1);
        assert(s2.drop_last() == s1);
        assert(s2.last() == x);
        if !placed[x] {
            let ghost o = out@;
            out.push(x);
            placed.set(x, true);
            proof {
                assert forall|y: usize| (y as int) < placed@.len() implies #[trigger] placed@[y as int] == out@.contains(y) by {
                    if o.contains(y) {
                        let k = choose|k: int| 0 <= k < o.len() && o[k] == y;
                        assert(out@[k] == y);
                    }
                    if y == x {
                        assert(out@[o.len() as int] == x);
                    }
                    if out@.contains(y) {
                        let k = choose|k: int| 0 <= k < out@.len() && out@[k] == y;
                        if k < o.len() {
                            assert(o[k] == y);
                        }
                    }
                }
            }
        }
        j = j + 1;
    }
    assert(g@.take(g@.len() as int) == g@);
}

/// The level-3 order of one block, grouping by `tags` in order.
pub fn group_block(tasks: &Vec<IRTask>, ids: &Vec<usize>, tags: &Vec<String>) -> (out: Vec<usize>)
    requires
        ids_in(ids@, tasks@),
    ensures
        out@ == grouped_order(tasks@, ids@, views(tags@)),
{
    let mut out: Vec<usize> = Vec::new();
    let mut placed: Vec<bool> = vec![false; tasks.len()];
    let mut t: usize = 0;
    let ghost tv = views(tags@);
    assert forall|x: usize| (x as int) < placed@.len() implies #[trigger] placed@[x as int] == out@.contains(x) by {}
    while t < tags.len()
        invariant
            ids_in(ids@, tasks@),
            t <= tags@.len(),
            tv == views(tags@),
            placed@.len() == tasks@.len(),
            out@ == dedup(tag_groups(tasks@, ids@, tv.take(t as int))),
            forall|x: usize| (x as int) < placed@.len() ==> #[trigger] placed@[x as int] == out@.contains(x),
        decreases tags@.len() - t,
    {
        let with_tag = keep_tagged(tasks, ids, tags[t].as_str(), true);
        let g = priority_first(tasks, &with_tag);
        let ghost seen = tag_groups(tasks@, ids@, tv.take(t as int));
        append_unplaced(&mut out, &mut placed, &g, Ghost(seen));
        proof {
            let tk = tv.take(t + 1);
            assert(tk.drop_last() == tv.take(t as int));
            assert(tk.last() == tags@[t as int]@);
        }
        t = t + 1;
    }
    assert(tv.take(tags@.len() as int) == tv);
    let ghost seen = tag_groups(tasks@, ids@, tv);
    append_unplaced(&mut out, &mut placed, ids, Ghost(seen));
    out
}

/// Whether `s` is among `v`.
fn contains_string(v: &Vec<String>, s: &String) -> (r: bool)
    ensures
        r == views(v@).contains(s@),
{
    let mut i: usize = 0;
    while i < v.len()
        invariant
            i <= v@.len(),
            forall|k: int| 0 <= k < i ==> (#[trigger] v@[k])@ != s@,
        decreases v@.len() - i,
    {
        if v[i] == *s {
            assert(views(v@)[i as int] == s@);
            return true;
        }
        i = i + 1;
    }
    proof {
        if views(v@).contains(s@) {
            let k = choose|k: int| 0 <= k < views(v@).len() && views(v@)[k] == s@;
            assert(v@[k]@ == s@);
        }
    }
    false
}

/// The tags of a block's tasks in first-seen order, each once.
pub fn block_tags(tasks: &Vec<IRTask>, ids: &Vec<usize>) -> (r: Vec<String>)
    requires
        ids_in(ids@, tasks@),
    ensures
        views(r@) == dedup(tags_in_order(tasks@, ids@)),
{
    let mut r: Vec<String> = Vec::new();
    let mut i: usize = 0;
    while i < ids.len()
        invariant
            ids_in(ids@, tasks@),
            i <= ids@.len(),
            views(r@) == dedup(tags_in_order(tasks@, ids@.take(i as int))),
        decreases ids@.len() - i,
    {
        let x = ids[i];
        let tt = &tasks[x].tags;
        let ghost base = tags_in_order(tasks@, ids@.take(i as int));
        let mut j: usize = 0;
        while j < tt.len()
            invariant
                j <= tt@.len(),
                views(r@) == dedup(base + views(tt@).take(j as int)),
            decreases tt@.len() - j,
        {
            let ghost s1 = base + views(tt@).take(j as int);
            let ghost s2 = base + views(tt@).take(j + 1);
            assert(s2.drop_last() == s1);
            assert(s2.last() == tt@[j as int]@);
            if !contains_string(&r, &tt[j]) {
                r.push(tt[j].clone());
                assert(views(r@) == views(r@).drop_last().push(tt@[j as int]@));
            }
            j = j + 1;
        }
        proof {
            assert(views(tt@).take(tt@.len() as int) == views(tt@));
            let t = ids@.take(i + 1);
            assert(t.drop_last() == ids@.take(i as int));
            assert(t.last() == x);
        }
        i = i + 1;
    }
    assert(ids@.take(ids@.len() as int) == ids@);
    r
}

/// Replacing each block's list by a rearrangement of it keeps every task in
/// exactly one block.
pub proof fn lemma_rearranged_partition(old_blocks: Seq<IRBlock>, new_blocks: Seq<IRBlock>, n: nat)
    requires
        blocks_partition(old_blocks, n),
        new_blocks.len() == old_blocks.len(),
        forall|b: int| 0 <= b < new_blocks.len() ==> rearranges(#[trigger] new_blocks[b].tasks@, old_blocks[b].tasks@),
    ensures
        blocks_partition(new_blocks, n),
{
    assert forall|b: int| 0 <= b < new_blocks.len() implies (#[trigger] new_blocks[b]).tasks@.no_duplicates() by {
        assert(rearranges(new_blocks[b].tasks@, old_blocks[b].tasks@));
    }
    assert forall|b: int, x: usize|
        0 <= b < new_blocks.len() && #[trigger] new_blocks[b].tasks@.contains(x) implies x < n by {
        assert(rearranges(new_blocks[b].tasks@, old_blocks[b].tasks@));
        assert(old_blocks[b].tasks@.contains(x));
    }
    assert forall|b1: int, b2: int, x: usize|
        0 <= b1 < new_blocks.len() && 0 <= b2 < new_blocks.len() && b1 != b2 && #[trigger] new_blocks[b1].tasks@.contains(x)
            implies !#[trigger] new_blocks[b2].tasks@.contains(x) by {
        assert(rearranges(new_blocks[b1].tasks@, old_blocks[b1].tasks@));
        assert(rearranges(new_blocks[b2].tasks@, old_blocks[b2].tasks@));
        assert(old_blocks[b1].tasks@.contains(x));
    }
    assert forall|x: usize| x < n implies #[trigger] listed(new_blocks, x) by {
        assert(listed(old_blocks, x));
        let b = choose|b: int| 0 <= b < old_blocks.len() && #[trigger] old_blocks[b].tasks@.contains(x);
        assert(rearranges(new_blocks[b].tasks@, old_blocks[b].tasks@));
        assert(new_blocks[b].tasks@.contains(x));
    }
}

/// The ids of every block of a well-formed program name tasks of its arena.
pub proof fn lemma_block_ids_in(p: IRProgram, b: int)
    requires
        p.wf(),
        0 <= b < p.blocks@.len(),
    ensures
        ids_in(p.blocks@[b].tasks@, p.task_map@),
        p.blocks@[b].tasks@.no_duplicates(),
{
    assert forall|k: int| 0 <= k < p.blocks@[b].tasks@.len() implies (#[trigger] p.blocks@[b].tasks@[k]) < p.task_map@.len() by {
        assert(p.blocks@[b].tasks@.contains(p.blocks@[b].tasks@[k]));
    }
}

/// Gives every block the new order in `lists`, which rearranges its tasks.
fn set_block_orders(program: &mut IRProgram, lists: Vec<Vec<usize>>)
    requires
        old(program).wf(),
        lists@.len() == old(program).blocks@.len(),
        forall|b: int| 0 <= b < lists@.len() ==> rearranges(#[trigger] lists@[b]@, old(program).blocks@[b].tasks@),
    ensures
        final(program).wf(),
        final(program).task_map == old(program).task_map,
        final(program).metadata == old(program).metadata,
        final(program).blocks@.len() == old(program).blocks@.len(),
        forall|b: int| 0 <= b < lists@.len() ==> (#[trigger] final(program).blocks@[b]).name == old(program).blocks@[b].name
            && final(program).blocks@[b].tasks@ == lists@[b]@,
{
    let ghost all = lists@;
    let mut lists = lists;
    while lists.len() > 0
        invariant
            lists@ == all.take(lists@.len() as int),
            lists@.len() <= all.len(),
            all.len() == old(program).blocks@.len(),
            program.blocks@.len() == old(program).blocks@.len(),
            program.task_map == old(program).task_map,
            program.metadata == old(program).metadata,
            forall|b: int| 0 <= b < lists@.len() ==> #[trigger] program.blocks@[b] == old(program).blocks@[b],
            forall|b: int| lists@.len() <= b < all.len() ==> (#[trigger] program.blocks@[b]).name == old(program).blocks@[b].name
                && program.blocks@[b].tasks@ == all[b]@,
        decreases lists@.len(),
    {
        let b = lists.len() - 1;
        let ghost before = lists@;
        let l = lists.pop().unwrap();
        assert(l == before[b as int]);
        assert(before[b as int] == all[b as int]);
        let name = program.blocks[b].name.clone();
        program.blocks.set(b, IRBlock { name, tasks: l });
        assert(lists@ == all.take(b as int));
    }
    proof {
        lemma_rearranged_partition(old(program).blocks@, program.blocks@, program.task_map@.len());
    }
}

/// Level 1: each block stably sorted by priority, highest first, then by
/// duration, shortest first.
pub fn sort_by_priority(program: &mut IRProgram)
    requires
        old(program).wf(),
    ensures
        final(program).wf(),
        final(program).task_map == old(program).task_map,
        final(program).metadata == old(program).metadata,
        final(program).blocks@.len() == old(program).blocks@.len(),
        forall|b: int| 0 <= b < final(program).blocks@.len() ==> (#[trigger] final(program).blocks@[b]).name == old(program).blocks@[b].name
            && priority_sorted(old(program).task_map@, old(program).blocks@[b].tasks@, final(program).blocks@[b].tasks@)
            && rearranges(final(program).blocks@[b].tasks@, old(program).blocks@[b].tasks@),
{
    let mut lists: Vec<Vec<usize>> = Vec::new();
    let mut b: usize = 0;
    while b < program.blocks.len()
        invariant
            program.wf(),
            b <= program.blocks@.len(),
            lists@.len() == b,
            forall|k: int| 0 <= k < b ==> rearranges(#[trigger] lists@[k]@, program.blocks@[k].tasks@) && priority_sorted(
                program.task_map@, program.blocks@[k].tasks@, lists@[k]@),
        decreases program.blocks@.len() - b,
    {
        proof {
            lemma_block_ids_in(*program, b as int);
        }
        let l = priority_order(&program.task_map, &program.blocks[b].tasks);
        lists.push(l);
        b = b + 1;
    }
    set_block_orders(program, lists);
}

/// Level 2 step: each block re-ordered so that dependencies come first.
pub fn resolve_dependencies(program: &mut IRProgram)
    requires
        old(program).wf(),
    ensures
        final(program).wf(),
        final(program).task_map == old(program).task_map,
        final(program).metadata == old(program).metadata,
        final(program).blocks@.len() == old(program).blocks@.len(),
        forall|b: int| 0 <= b < final(program).blocks@.len() ==> (#[trigger] final(program).blocks@[b]).name == old(program).blocks@[b].name
            && rearranges(final(program).blocks@[b].tasks@, old(program).blocks@[b].tasks@)
            && dependencies_first(old(program).task_map@, old(program).blocks@[b].tasks@.to_set(), final(program).blocks@[b].tasks@)
            && final(program).blocks@[b].tasks@ == dependency_order_of(old(program).task_map@, old(program).blocks@[b].tasks@),
{
    let mut lists: Vec<Vec<usize>> = Vec::new();
    let mut b: usize = 0;
    while b < program.blocks.len()
        invariant
            program.wf(),
            b <= program.blocks@.len(),
            lists@.len() == b,
            forall|k: int| 0 <= k < b ==> rearranges(#[trigger] lists@[k]@, program.blocks@[k].tasks@) && dependencies_first(
                program.task_map@, program.blocks@[k].tasks@.to_set(), lists@[k]@)
                && lists@[k]@ == dependency_order_of(program.task_map@, program.blocks@[k].tasks@),
        decreases program.blocks@.len() - b,
    {
        proof {
            lemma_block_ids_in(*program, b as int);
        }
        let l = dependency_order(&program.task_map, &program.blocks[b].tasks);
        lists.push(l);
        b = b + 1;
    }
    set_block_orders(program, lists);
}

/// Level 3 step: each block grouped by tag, using the focus tags if any are
/// set, else the block's own tags in first-seen order.
pub fn group_by_tags(program: &mut IRProgram)
    requires
        old(program).wf(),
    ensures
        final(program).wf(),
        final(program).task_map == old(program).task_map,
        final(program).metadata == old(program).metadata,
        final(program).blocks@.len() == old(program).blocks@.len(),
        forall|b: int| 0 <= b < final(program).blocks@.len() ==> (#[trigger] final(program).blocks@[b]).name == old(program).blocks@[b].name
            && final(program).blocks@[b].tasks@ == grouped_order(
                old(program).task_map@,
                old(program).blocks@[b].tasks@,
                grouping_tags(old(program).task_map@, old(program).blocks@[b].tasks@, old(program).metadata.focus_tags@),
            ),
{
    let mut lists: Vec<Vec<usize>> = Vec::new();
    let mut b: usize = 0;
    while b < program.blocks.len()
        invariant
            program.wf(),
            b <= program.blocks@.len(),
            lists@.len() == b,
            forall|k: int| 0 <= k < b ==> rearranges(#[trigger] lists@[k]@, program.blocks@[k].tasks@) && lists@[k]@ == grouped_order(
                program.task_map@,
                program.blocks@[k].tasks@,
                grouping_tags(program.task_map@, program.blocks@[k].tasks@, program.metadata.focus_tags@),
            ),
        decreases program.blocks@.len() - b,
    {
        proof {
            lemma_block_ids_in(*program, b as int);
        }
        let ids = &program.blocks[b].tasks;
        let l = if program.metadata.focus_tags.len() > 0 {
            group_block(&program.task_map, ids, &program.metadata.focus_tags)
        } else {
            let tags = block_tags(&program.task_map, ids);
            group_block(&program.task_map, ids, &tags)
        };
        proof {
            lemma_grouped_rearranges(
                program.task_map@,
                ids@,
                grouping_tags(program.task_map@, ids@, program.metadata.focus_tags@),
            );
        }
        lists.push(l);
        b = b + 1;
    }
    set_block_orders(program, lists);
}

/// The level-2 guarantee for one block: the same tasks, dependencies first.
pub open spec fn dependency_ordered(tasks: Seq<IRTask>, before: Seq<usize>, after: Seq<usize>) -> bool {
    rearranges(after, before) && dependencies_first(tasks, before.to_set(), after)
}

/// The level-3 order of one block: the level-1 order, then dependencies
/// first, then grouped by tag.
pub open spec fn grouped_after_dependencies(
    tasks: Seq<IRTask>,
    before: Seq<usize>,
    after: Seq<usize>,
    focus: Seq<String>,
) -> bool {
    exists|mid: Seq<usize>|
        #![trigger priority_sorted(tasks, before, mid)]
        priority_sorted(tasks, before, mid) && after == grouped_order(
            tasks,
            dependency_order_of(tasks, mid),
            grouping_tags(tasks, dependency_order_of(tasks, mid), focus),
        )
}

/// The level-2 order of one block: the level-1 order, then dependencies first.
pub open spec fn sorted_then_dependency_ordered(tasks: Seq<IRTask>, before: Seq<usize>, after: Seq<usize>) -> bool {
    exists|mid: Seq<usize>|
        #![trigger priority_sorted(tasks, before, mid)]
        priority_sorted(tasks, before, mid) && after == dependency_order_of(tasks, mid)
}

/// `n` is `o` with the tasks of each block reordered as its optimization
/// level asks; the task store, the settings and the block names stay.
pub open spec fn optimized(o: IRProgram, n: IRProgram) -> bool {
    &&& n.wf()
    &&& n.task_map == o.task_map
    &&& n.metadata == o.metadata
    &&& n.blocks@.len() == o.blocks@.len()
    &&& forall|b: int| 0 <= b < n.blocks@.len() ==> (#[trigger] n.blocks@[b]).name == o.blocks@[b].name
        && rearranges(n.blocks@[b].tasks@, o.blocks@[b].tasks@)
    &&& o.metadata.optimization_level == 0 ==> n == o
    &&& o.metadata.optimization_level == 1 ==> forall|b: int| 0 <= b < n.blocks@.len() ==> priority_sorted(
        o.task_map@, o.blocks@[b].tasks@, (#[trigger] n.blocks@[b]).tasks@)
    &&& o.metadata.optimization_level == 2 ==> forall|b: int| 0 <= b < n.blocks@.len() ==> dependency_ordered(
        o.task_map@, o.blocks@[b].tasks@, (#[trigger] n.blocks@[b]).tasks@)
        && sorted_then_dependency_ordered(o.task_map@, o.blocks@[b].tasks@, n.blocks@[b].tasks@)
    &&& o.metadata.optimization_level >= 3 ==> forall|b: int| 0 <= b < n.blocks@.len() ==> grouped_after_dependencies(
        o.task_map@, o.blocks@[b].tasks@, (#[trigger] n.blocks@[b]).tasks@, o.metadata.focus_tags@)
}

/// Reorders the tasks within each block according to the program's
/// optimization level: 0 leaves the program as it is; 1 sorts by priority
/// and duration; 2 then puts dependencies first; 3 and above then group by tag.
pub fn optimize(program: &mut IRProgram)
    requires
        old(program).wf(),
    ensures
        optimized(*old(program), *final(program)),
{
    let level = program.metadata.optimization_level;
    if level == 0 {
        return;
    }
    let ghost initial = *program;
    sort_by_priority(program);
    if level == 1 {
        return;
    }
    let ghost stage_one = *program;
    resolve_dependencies(program);
    let ghost stage_two = *program;
    proof {
        assert forall|b: int| 0 <= b < stage_two.blocks@.len() implies dependency_ordered(
            initial.task_map@, initial.blocks@[b].tasks@, (#[trigger] stage_two.blocks@[b]).tasks@) by {
            let s0 = initial.blocks@[b].tasks@;
            let s1 = stage_one.blocks@[b].tasks@;
            let s2 = stage_two.blocks@[b].tasks@;
            assert(rearranges(s1, s0));
            assert(rearranges(s2, s1));
            assert(s1.to_set() == s0.to_set());
            assert forall|x: usize| #[trigger] s2.contains(x) <==> s0.contains(x) by {
                assert(s2.contains(x) <==> s1.contains(x));
                assert(s1.contains(x) <==> s0.contains(x));
            }
        }
        assert forall|b: int| 0 <= b < stage_two.blocks@.len() implies sorted_then_dependency_ordered(
            initial.task_map@, initial.blocks@[b].tasks@, (#[trigger] stage_two.blocks@[b]).tasks@) by {
            assert(priority_sorted(initial.task_map@, initial.blocks@[b].tasks@, stage_one.blocks@[b].tasks@));
        }
    }
    if level == 2 {
        return;
    }
    group_by_tags(program);
    proof {
        assert forall|b: int| 0 <= b < program.blocks@.len() implies grouped_after_dependencies(
            initial.task_map@, initial.blocks@[b].tasks@, (#[trigger] program.blocks@[b]).tasks@, initial.metadata.focus_tags@) by {
            let mid = stage_one.blocks@[b].tasks@;
            assert(priority_sorted(initial.task_map@, initial.blocks@[b].tasks@, mid));
            assert(stage_two.blocks@[b].tasks@ == dependency_order_of(initial.task_map@, mid));
        }
        assert forall|b: int| 0 <= b < program.blocks@.len() implies rearranges(
            (#[trigger] program.blocks@[b]).tasks@, initial.blocks@[b].tasks@) by {
            let s0 = initial.blocks@[b].tasks@;
            let s2 = stage_two.blocks@[b].tasks@;
            let s3 = program.blocks@[b].tasks@;
            assert(dependency_ordered(initial.task_map@, s0, s2));
            lemma_block_ids_in(stage_two, b);
            lemma_grouped_rearranges(initial.task_map@, s2, grouping_tags(initial.task_map@, s2, initial.metadata.focus_tags@));
            assert forall|x: usize| #[trigger] s3.contains(x) <==> s0.contains(x) by {
                assert(s3.contains(x) <==> s2.contains(x));
                assert(s2.contains(x) <==> s0.contains(x));
            }
        }
    }
}

/// Filtering keeps the items that satisfy the predicate, and only those, once each.
pub proof fn lemma_keep_members(ids: Seq<usize>, f: spec_fn(usize) -> bool)
    requires
        ids.no_duplicates(),
    ensures
        keep(ids, f).no_duplicates(),
        forall|x: usize| #[trigger] keep(ids, f).contains(x) <==> (ids.contains(x) && f(x)),
    decreases ids.len(),
{
    if ids.len() > 0 {
        let t = ids.drop_last();
        let l = ids.last();
        assert(ids == t.push(l));
        assert(t.no_duplicates());
        lemma_keep_members(t, f);
        assert(!t.contains(l)) by {
            if t.contains(l) {
                let m = choose|m: int| 0 <= m < t.len() && t[m] == l;
                assert(ids[m] == ids[ids.len() - 1]);
            }
        }
        let p = keep(t, f);
        if f(l) {
            assert(!p.contains(l));
            let q = p.push(l);
            assert(keep(ids, f) == q);
            assert forall|i: int, j: int| 0 <= i < j < q.len() implies q[i] != q[j] by {
                if j == p.len() {
                    assert(q[i] == p[i]);
                    assert(p.contains(p[i]));
                } else {
                    assert(q[i] == p[i] && q[j] == p[j]);
                }
            }
        }
        assert forall|x: usize| #[trigger] keep(ids, f).contains(x) <==> (ids.contains(x) && f(x)) by {
            assert(ids.contains(x) <==> (t.contains(x) || x == l)) by {
                if t.contains(x) {
                    let m = choose|m: int| 0 <= m < t.len() && t[m] == x;
                    assert(ids[m] == x);
                }
                if x == l {
                    assert(ids[ids.len() - 1] == x);
                }
                if ids.contains(x) {
                    let m = choose|m: int| 0 <= m < ids.len() && ids[m] == x;
                    if m < t.len() {
                        assert(t[m] == x);
                    }
                }
            }
            if f(l) {
                assert(p.push(l).contains(x) <==> (p.contains(x) || x == l)) by {
                    if p.contains(x) {
                        let m = choose|m: int| 0 <= m < p.len() && p[m] == x;
                        assert(p.push(l)[m] == x);
                    }
                    if x == l {
                        assert(p.push(l)[p.len() as int] == x);
                    }
                    if p.push(l).contains(x) {
                        let m = choose|m: int| 0 <= m < p.len() + 1 && p.push(l)[m] == x;
                        if m < p.len() {
                            assert(p[m] == x);
                        }
                    }
                }
            }
        }
    }
}

/// Two duplicate-free sequences with no common item concatenate without duplicates.
pub proof fn lemma_concat_no_dup(a: Seq<usize>, b: Seq<usize>)
    requires
        a.no_duplicates(),
        b.no_duplicates(),
        forall|x: usize| a.contains(x) ==> !b.contains(x),
    ensures
        (a + b).no_duplicates(),
        forall|x: usize| #[trigger] (a + b).contains(x) <==> (a.contains(x) || b.contains(x)),
{
    let c = a + b;
    assert forall|i: int, j: int| 0 <= i < j < c.len() implies c[i] != c[j] by {
        if i < a.len() && j >= a.len() {
            assert(a.contains(c[i]));
            assert(b[j - a.len()] == c[j]);
            assert(b.contains(c[j]));
        } else if i >= a.len() {
            assert(c[i] == b[i - a.len()] && c[j] == b[j - a.len()]);
        }
    }
    assert forall|x: usize| #[trigger] c.contains(x) <==> (a.contains(x) || b.contains(x)) by {
        if c.contains(x) {
            let m = choose|m: int| 0 <= m < c.len() && c[m] == x;
            if m < a.len() {
                assert(a[m] == x);
            } else {
                assert(b[m - a.len()] == x);
            }
        }
        if a.contains(x) {
            let m = choose|m: int| 0 <= m < a.len() && a[m] == x;
            assert(c[m] == x);
        }
        if b.contains(x) {
            let m = choose|m: int| 0 <= m < b.len() && b[m] == x;
            assert(c[a.len() + m] == x);
        }
    }
}

/// Sorting by priority keeps the same items, once each.
pub proof fn lemma_by_priority_members(tasks: Seq<IRTask>, ids: Seq<usize>)
    requires
        ids.no_duplicates(),
    ensures
        by_priority(tasks, ids).no_duplicates(),
        forall|x: usize| #[trigger] by_priority(tasks, ids).contains(x) <==> ids.contains(x),
{
    let k3 = keep(ids, rank_is(tasks, 3));
    let k2 = keep(ids, rank_is(tasks, 2));
    let k1 = keep(ids, rank_is(tasks, 1));
    let k0 = keep(ids, rank_is(tasks, 0));
    lemma_keep_members(ids, rank_is(tasks, 3));
    lemma_keep_members(ids, rank_is(tasks, 2));
    lemma_keep_members(ids, rank_is(tasks, 1));
    lemma_keep_members(ids, rank_is(tasks, 0));
    lemma_concat_no_dup(k3, k2);
    lemma_concat_no_dup(k3 + k2, k1);
    lemma_concat_no_dup(k3 + k2 + k1, k0);
    assert forall|x: usize| #[trigger] by_priority(tasks, ids).contains(x) <==> ids.contains(x) by {
        let r = tasks[x as int].priority.rank();
        assert(r == 0 || r == 1 || r == 2 || r == 3);
    }
}

/// On a block whose dependencies form no cycle, the dependency order puts
/// every dependency at an earlier index than the task that depends on it.
pub proof fn law_topological_on_acyclic(tasks: Seq<IRTask>, before: Seq<usize>, after: Seq<usize>, i: int, j: int)
    requires
        acyclic(tasks, before.to_set()),
        dependency_ordered(tasks, before, after),
        0 <= i < after.len(),
        0 <= j < after.len(),
        tasks[after[i] as int].deps@.contains(after[j]),
    ensures
        j < i,
{
    let bs = before.to_set();
    assert(after.contains(after[i]) && after.contains(after[j]));
    assert(dep_edge(tasks, bs, after[i], after[j]));
    assert(!reaches(tasks, bs, after[j], after[i]));
    let m = choose|m: int| 0 <= m < i && after[m] == after[j];
    assert(m == j);
}

} // verus!
