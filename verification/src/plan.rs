//! From the dependencies that plugins declare to the stages in which they run.

use vstd::prelude::*;
use crate::graph::depths_of;
use crate::graph::is_cycle;
use crate::graph::is_depth;
use crate::graph::on_cycle;
use crate::resolve::edge_of;
use crate::resolve::has_ends;
use crate::resolve::Resolved;

verus! {

/// What a plugin declares of itself: its name, and the names it must run after.
pub struct PluginDecl {
    pub name: String,
    pub dependencies: Vec<String>,
}

/// Why no dispatcher could be made.
#[derive(Debug)]
pub enum PlanError {
    /// The declared dependencies hold a cycle; the name is that of a node on it.
    CyclicDependency(String),
    /// The worker pool could not be started.
    WorkerPool,
}

/// The plugin at place `i` is named `a`.
pub open spec fn is_named(decls: Seq<PluginDecl>, i: int, a: Seq<char>) -> bool {
    0 <= i < decls.len() && decls[i].name@ == a
}

/// The plugin at place `i` lists a `j`-th dependency.
pub open spec fn is_slot(decls: Seq<PluginDecl>, i: int, j: int) -> bool {
    0 <= i < decls.len() && 0 <= j < decls[i].dependencies@.len()
}

/// The plugin at place `i` is named `a`, and its `j`-th dependency is `b`.
pub open spec fn declares(decls: Seq<PluginDecl>, i: int, j: int, a: Seq<char>, b: Seq<char>) -> bool {
    is_slot(decls, i, j) && decls[i].name@ == a && decls[i].dependencies@[j]@ == b
}

/// Some plugin named `a` lists `b` among its dependencies.
pub open spec fn depends_on(decls: Seq<PluginDecl>, a: Seq<char>, b: Seq<char>) -> bool {
    exists|i: int, j: int| #[trigger] declares(decls, i, j, a, b)
}

/// `s` is a node of the dependency graph: the name of a plugin, or a name that one lists.
pub open spec fn is_mentioned(decls: Seq<PluginDecl>, s: Seq<char>) -> bool {
    (exists|i: int| #[trigger] is_named(decls, i, s)) || (exists|i: int, j: int|
        #[trigger] is_slot(decls, i, j) && decls[i].dependencies@[j]@ == s)
}

/// No later plugin has the name of the plugin at place `i`: under its name, it is the one that runs.
pub open spec fn is_live(decls: Seq<PluginDecl>, i: int) -> bool {
    forall|l: int| i < l < decls.len() ==> (#[trigger] decls[l]).name@ != decls[i].name@
}

/// `p` is a chain of names, each a dependency of the next, that ends where it starts.
pub open spec fn is_dependency_cycle(decls: Seq<PluginDecl>, p: Seq<Seq<char>>) -> bool {
    &&& p.len() >= 2
    &&& p[0] == p[p.len() - 1]
    &&& forall|k: int| 0 <= k < p.len() - 1 ==> depends_on(decls, p[k + 1], #[trigger] p[k])
}

/// The declared dependencies hold a cycle.
pub open spec fn has_dependency_cycle(decls: Seq<PluginDecl>) -> bool {
    exists|p: Seq<Seq<char>>| is_dependency_cycle(decls, p)
}

/// A dependency cycle passes through `s`.
pub open spec fn on_dependency_cycle(decls: Seq<PluginDecl>, s: Seq<char>) -> bool {
    exists|p: Seq<Seq<char>>| is_dependency_cycle(decls, p) && p[0] == s
}

/// `rank` gives every node its stage: zero for a name without dependencies, else one more
/// than the highest stage among its dependencies.
pub open spec fn is_stage_rank(decls: Seq<PluginDecl>, rank: Map<Seq<char>, nat>) -> bool {
    &&& forall|s: Seq<char>| #[trigger] rank.contains_key(s) <==> is_mentioned(decls, s)
    &&& forall|i: int, j: int, a: Seq<char>, b: Seq<char>| #[trigger]
        declares(decls, i, j, a, b) ==> rank[b] < rank[a]
    &&& forall|a: Seq<char>| #[trigger]
        rank.contains_key(a) ==> rank[a] == 0 || exists|i: int, j: int, b: Seq<char>| #[trigger]
            declares(decls, i, j, a, b) && rank[b] + 1 == rank[a]
}

/// `stages` holds, at each stage, the places of the live plugins of that rank, in rising
/// order, and there are as many stages as the ranks of the nodes need.
pub open spec fn is_plan(decls: Seq<PluginDecl>, rank: Map<Seq<char>, nat>, stages: Seq<Vec<usize>>) -> bool {
    &&& forall|k: int, m: int|
        0 <= k < stages.len() && 0 <= m < stages[k]@.len() ==> {
            let i = #[trigger] stages[k]@[m];
            i < decls.len() && is_live(decls, i as int) && rank[decls[i as int].name@] == k
        }
    &&& forall|i: int|
        0 <= i < decls.len() && is_live(decls, i) ==> rank[(#[trigger] decls[i]).name@] < stages.len()
            && stages[rank[decls[i].name@] as int]@.contains(i as usize)
    &&& forall|k: int, m1: int, m2: int|
        0 <= k < stages.len() && 0 <= m1 < m2 < stages[k]@.len() ==> (#[trigger] stages[k]@[m1])
            < (#[trigger] stages[k]@[m2])
    &&& forall|s: Seq<char>| #[trigger] rank.contains_key(s) ==> rank[s] < stages.len()
    &&& stages.len() == 0 || exists|s: Seq<char>| #[trigger]
        rank.contains_key(s) && rank[s] + 1 == stages.len()
}

/// `stages` is the plan of `decls`: the live plugins, each at the stage of its name.
pub open spec fn is_stage_plan(decls: Seq<PluginDecl>, stages: Seq<Vec<usize>>) -> bool {
    exists|rank: Map<Seq<char>, nat>| is_stage_rank(decls, rank) && #[trigger] is_plan(decls, rank, stages)
}

/// Along a chain of dependencies the stage rises strictly.
pub proof fn lemma_rank_rises(decls: Seq<PluginDecl>, rank: Map<Seq<char>, nat>, p: Seq<Seq<char>>, k: int)
    requires
        is_stage_rank(decls, rank),
        p.len() >= 2,
        forall|x: int| 0 <= x < p.len() - 1 ==> depends_on(decls, p[x + 1], #[trigger] p[x]),
        1 <= k < p.len(),
    ensures
        rank[p[0]] < rank[p[k]],
    decreases k,
{
    let x = k - 1;
    assert(depends_on(decls, p[x + 1], p[x]));
    let (i, j) = choose|i: int, j: int| #[trigger] declares(decls, i, j, p[k], p[k - 1]);
    assert(declares(decls, i, j, p[k], p[k - 1]));
    if k > 1 {
        lemma_rank_rises(decls, rank, p, k - 1);
    }
}

/// Declarations that can be given stages hold no dependency cycle.
pub proof fn lemma_ranked_is_acyclic(decls: Seq<PluginDecl>, rank: Map<Seq<char>, nat>)
    requires
        is_stage_rank(decls, rank),
    ensures
        !has_dependency_cycle(decls),
{
    assert forall|p: Seq<Seq<char>>| !is_dependency_cycle(decls, p) by {
        if is_dependency_cycle(decls, p) {
            lemma_rank_rises(decls, rank, p, p.len() - 1);
        }
    }
}

/// In a plan, a plugin runs in a strictly later stage than every plugin that it depends on,
/// directly or through a chain of dependencies: where `chain` leads from the name of the
/// plugin at place `j` to the name of the plugin at place `i`, each name a dependency of
/// the next, the stage that holds `j` comes before the stage that holds `i`.
pub proof fn lemma_dependency_runs_earlier(
    decls: Seq<PluginDecl>,
    stages: Seq<Vec<usize>>,
    chain: Seq<Seq<char>>,
    i: usize,
    j: usize,
    ki: int,
    kj: int,
)
    requires
        is_stage_plan(decls, stages),
        0 <= ki < stages.len() && stages[ki]@.contains(i),
        0 <= kj < stages.len() && stages[kj]@.contains(j),
        chain.len() >= 2,
        chain[0] == decls[j as int].name@,
        chain[chain.len() - 1] == decls[i as int].name@,
        forall|x: int| 0 <= x < chain.len() - 1 ==> depends_on(decls, chain[x + 1], #[trigger] chain[x]),
    ensures
        kj < ki,
{
    let rank = choose|rank: Map<Seq<char>, nat>| is_stage_rank(decls, rank) && #[trigger] is_plan(decls, rank, stages);
    let mi = choose|m: int| 0 <= m < stages[ki]@.len() && stages[ki]@[m] == i;
    let mj = choose|m: int| 0 <= m < stages[kj]@.len() && stages[kj]@[m] == j;
    assert(stages[ki]@[mi] == i);
    assert(stages[kj]@[mj] == j);
    lemma_rank_rises(decls, rank, chain, chain.len() - 1);
}

/// No plugin stands in two stages of a plan, nor twice in one.
pub proof fn lemma_one_stage(decls: Seq<PluginDecl>, stages: Seq<Vec<usize>>, k1: int, m1: int, k2: int, m2: int)
    requires
        is_stage_plan(decls, stages),
        0 <= k1 < stages.len() && 0 <= m1 < stages[k1]@.len(),
        0 <= k2 < stages.len() && 0 <= m2 < stages[k2]@.len(),
        stages[k1]@[m1] == stages[k2]@[m2],
    ensures
        k1 == k2,
        m1 == m2,
{
    let rank = choose|rank: Map<Seq<char>, nat>| is_stage_rank(decls, rank) && #[trigger] is_plan(decls, rank, stages);
    let i = stages[k1]@[m1];
    assert(rank[decls[i as int].name@] == k1);
    assert(rank[decls[i as int].name@] == k2);
    if m1 < m2 {
        assert(stages[k1]@[m1] < stages[k1]@[m2]);
    }
    if m2 < m1 {
        assert(stages[k1]@[m2] < stages[k1]@[m1]);
    }
}

/// The stages of the names are determined by the declarations: two rankings of the same
/// declarations give every name the same stage.
pub proof fn lemma_rank_is_unique(decls: Seq<PluginDecl>, r1: Map<Seq<char>, nat>, r2: Map<Seq<char>, nat>, s: Seq<char>)
    requires
        is_stage_rank(decls, r1),
        is_stage_rank(decls, r2),
        r1.contains_key(s),
    ensures
        r1[s] == r2[s],
    decreases r1[s],
{
    assert(r2.contains_key(s));
    assert forall|i: int, j: int, b: Seq<char>| #[trigger] declares(decls, i, j, s, b) implies r1[b] == r2[b] by {
        assert(is_slot(decls, i, j) && decls[i].dependencies@[j]@ == b);
        assert(is_mentioned(decls, b));
        assert(r1.contains_key(b));
        lemma_rank_is_unique(decls, r1, r2, b);
    }
    if r1[s] != 0 {
        let (i, j, b) = choose|i: int, j: int, b: Seq<char>| #[trigger] declares(decls, i, j, s, b) && r1[b] + 1 == r1[s];
        assert(declares(decls, i, j, s, b));
    }
    if r2[s] != 0 {
        let (i, j, b) = choose|i: int, j: int, b: Seq<char>| #[trigger] declares(decls, i, j, s, b) && r2[b] + 1 == r2[s];
        assert(declares(decls, i, j, s, b));
    }
}

/// `a` rises strictly.
pub open spec fn is_rising(a: Seq<usize>) -> bool {
    forall|m1: int, m2: int| 0 <= m1 < m2 < a.len() ==> (#[trigger] a[m1]) < (#[trigger] a[m2])
}

/// Two strictly rising sequences with the same members are the same sequence.
pub proof fn lemma_rising_is_unique(a: Seq<usize>, b: Seq<usize>)
    requires
        is_rising(a),
        is_rising(b),
        forall|x: usize| a.contains(x) <==> b.contains(x),
    ensures
        a == b,
    decreases a.len(),
{
    if a.len() == 0 {
        if b.len() > 0 {
            assert(b.contains(b[0]));
        }
        assert(a =~= b);
    } else {
        let top = a[a.len() - 1];
        assert(a.contains(top));
        assert(b.contains(top));
        let other = b[b.len() - 1];
        assert(b.contains(other));
        assert(a.contains(other));
        let at = choose|m: int| 0 <= m < b.len() && b[m] == top;
        let back = choose|m: int| 0 <= m < a.len() && a[m] == other;
        assert(top == other) by {
            if at < b.len() - 1 {
                assert(b[at] < b[b.len() - 1]);
            }
            if back < a.len() - 1 {
                assert(a[back] < a[a.len() - 1]);
            }
        }
        let a0 = a.drop_last();
        let b0 = b.drop_last();
        assert forall|x: usize| a0.contains(x) <==> b0.contains(x) by {
            if a0.contains(x) {
                let m = choose|m: int| 0 <= m < a0.len() && a0[m] == x;
                assert(a[m] < a[a.len() - 1]);
                assert(a.contains(x));
                let w = choose|w: int| 0 <= w < b.len() && b[w] == x;
                assert(b0[w] == x);
            }
            if b0.contains(x) {
                let m = choose|m: int| 0 <= m < b0.len() && b0[m] == x;
                assert(b[m] < b[b.len() - 1]);
                assert(b.contains(x));
                let w = choose|w: int| 0 <= w < a.len() && a[w] == x;
                assert(a0[w] == x);
            }
        }
        assert(is_rising(a0)) by {
            assert forall|m1: int, m2: int| 0 <= m1 < m2 < a0.len() implies (#[trigger] a0[m1]) < (#[trigger] a0[m2]) by {
                assert(a[m1] < a[m2]);
            }
        }
        assert(is_rising(b0)) by {
            assert forall|m1: int, m2: int| 0 <= m1 < m2 < b0.len() implies (#[trigger] b0[m1]) < (#[trigger] b0[m2]) by {
                assert(b[m1] < b[m2]);
            }
        }
        lemma_rising_is_unique(a0, b0);
        assert(a =~= a0.push(top));
        assert(b =~= b0.push(other));
    }
}

/// The declarations determine their plan: two plans of the same declarations have the
/// same number of stages, and stage by stage the same places in the same order.
pub proof fn lemma_plan_is_unique(decls: Seq<PluginDecl>, s1: Seq<Vec<usize>>, s2: Seq<Vec<usize>>)
    requires
        is_stage_plan(decls, s1),
        is_stage_plan(decls, s2),
    ensures
        s1.len() == s2.len(),
        forall|k: int| 0 <= k < s1.len() ==> (#[trigger] s1[k])@ == s2[k]@,
{
    let r1 = choose|rank: Map<Seq<char>, nat>| is_stage_rank(decls, rank) && #[trigger] is_plan(decls, rank, s1);
    let r2 = choose|rank: Map<Seq<char>, nat>| is_stage_rank(decls, rank) && #[trigger] is_plan(decls, rank, s2);
    assert forall|s: Seq<char>| #[trigger] r1.contains_key(s) implies r2.contains_key(s) && r1[s] == r2[s] by {
        lemma_rank_is_unique(decls, r1, r2, s);
    }
    assert forall|s: Seq<char>| #[trigger] r2.contains_key(s) implies r1.contains_key(s) by {
        assert(is_mentioned(decls, s));
    }
    if s1.len() > 0 {
        let s = choose|s: Seq<char>| #[trigger] r1.contains_key(s) && r1[s] + 1 == s1.len();
        assert(r2.contains_key(s));
    }
    if s2.len() > 0 {
        let s = choose|s: Seq<char>| #[trigger] r2.contains_key(s) && r2[s] + 1 == s2.len();
        assert(r1.contains_key(s));
    }
    assert forall|k: int| 0 <= k < s1.len() implies (#[trigger] s1[k])@ == s2[k]@ by {
        let a = s1[k]@;
        let b = s2[k]@;
        assert forall|x: usize| a.contains(x) <==> b.contains(x) by {
            if a.contains(x) {
                let m = choose|m: int| 0 <= m < a.len() && a[m] == x;
                assert(s1[k]@[m] == x);
                assert(is_named(decls, x as int, decls[x as int].name@));
                assert(r1.contains_key(decls[x as int].name@));
            }
            if b.contains(x) {
                let m = choose|m: int| 0 <= m < b.len() && b[m] == x;
                assert(s2[k]@[m] == x);
                assert(is_named(decls, x as int, decls[x as int].name@));
                assert(r1.contains_key(decls[x as int].name@));
            }
        }
        assert(is_rising(a)) by {
            assert forall|m1: int, m2: int| 0 <= m1 < m2 < a.len() implies (#[trigger] a[m1]) < (#[trigger] a[m2]) by {
                assert(s1[k]@[m1] < s1[k]@[m2]);
            }
        }
        assert(is_rising(b)) by {
            assert forall|m1: int, m2: int| 0 <= m1 < m2 < b.len() implies (#[trigger] b[m1]) < (#[trigger] b[m2]) by {
                assert(s2[k]@[m1] < s2[k]@[m2]);
            }
        }
        lemma_rising_is_unique(a, b);
    }
}

/// The stage of each numbered name: the depth of its node.
pub open spec fn rank_of(numbers: Map<Seq<char>, usize>, depth: Seq<usize>) -> Map<Seq<char>, nat> {
    Map::new(|s: Seq<char>| numbers.contains_key(s), |s: Seq<char>| depth[numbers[s] as int] as nat)
}

/// The depths of the nodes are the stages of their names.
proof fn lemma_depth_is_rank(decls: Seq<PluginDecl>, resolved: &Resolved, depth: Seq<usize>)
    requires
        resolved.complete(decls),
        is_depth(depth, resolved.names.len() as nat, resolved.edges@),
    ensures
        is_stage_rank(decls, rank_of(resolved.numbers(), depth)),
{
    let numbers = resolved.numbers();
    let rank = rank_of(numbers, depth);
    let edges = resolved.edges@;
    resolved.lemma_complete(decls);
    assert forall|i: int, j: int, a: Seq<char>, b: Seq<char>| #[trigger]
        declares(decls, i, j, a, b) implies rank[b] < rank[a] by {
        assert(is_slot(decls, i, j));
        assert(has_ends(numbers, decls, i, j));
        let e = choose|e: int| 0 <= e < edges.len() && edges[e] == edge_of(numbers, decls, i, j);
        assert(depth[edges[e].0 as int] < depth[edges[e].1 as int]);
    }
    assert forall|a: Seq<char>| #[trigger] rank.contains_key(a) implies rank[a] == 0 || exists|
        i: int,
        j: int,
        b: Seq<char>,
    | #[trigger] declares(decls, i, j, a, b) && rank[b] + 1 == rank[a] by {
        assert(numbers.contains_key(a));
        let v = numbers[a] as int;
        assert(resolved.names[v]@ == a);
        if depth[v] != 0 {
            let e = choose|e: int|
                0 <= e < edges.len() && (#[trigger] edges[e]).1 == v && depth[edges[e].0 as int] + 1
                    == depth[v];
            assert(resolved.stands_for(decls, e));
            let (x, y) = resolved.origin@[e];
            assert(has_ends(numbers, decls, x, y));
            assert(resolved.names[numbers[decls[x].name@] as int]@ == decls[x].name@);
            let b = decls[x].dependencies@[y]@;
            assert(declares(decls, x, y, a, b) && rank[b] + 1 == rank[a]);
        }
    }
}

/// A cycle among the nodes is a cycle among their names.
proof fn lemma_cycle_of_names(decls: Seq<PluginDecl>, resolved: &Resolved, v: usize)
    requires
        resolved.complete(decls),
        on_cycle(resolved.edges@, v),
    ensures
        on_dependency_cycle(decls, resolved.names[v as int]@),
{
    let numbers = resolved.numbers();
    let edges = resolved.edges@;
    let p = choose|p: Seq<usize>| is_cycle(edges, p) && p[0] == v;
    let q = Seq::new(p.len(), |k: int| resolved.names[p[k] as int]@);
    assert forall|k: int| 0 <= k < q.len() - 1 implies depends_on(decls, q[k + 1], #[trigger] q[k]) by {
        assert(edges.contains((p[k], p[k + 1])));
        let e = choose|e: int| 0 <= e < edges.len() && edges[e] == (p[k], p[k + 1]);
        assert(resolved.stands_for(decls, e));
        let (x, y) = resolved.origin@[e];
        assert(has_ends(numbers, decls, x, y));
        assert(resolved.names[numbers[decls[x].name@] as int]@ == decls[x].name@);
        assert(resolved.names[numbers[decls[x].dependencies@[y]@] as int]@ == decls[x].dependencies@[y]@);
        assert(declares(decls, x, y, q[k + 1], q[k]));
    }
    assert(is_dependency_cycle(decls, q) && q[0] == resolved.names[v as int]@);
}

/// The plugin at place `i` is live, and its node has depth `k`.
pub open spec fn runs_at(resolved: &Resolved, depth: Seq<usize>, i: int, k: int) -> bool {
    resolved.backs(i) && depth[resolved.owner[i] as int] == k
}

/// The places of the live plugins whose node has depth `k`, in rising order.
fn fill_stage(decls: &Vec<PluginDecl>, resolved: &Resolved, depth: &Vec<usize>, k: usize) -> (stage: Vec<usize>)
    requires
        resolved.complete(decls@),
        depth.len() == resolved.names.len(),
    ensures
        forall|m: int| 0 <= m < stage.len() ==> (#[trigger] stage[m]) < decls.len(),
        forall|m: int| 0 <= m < stage.len() ==> runs_at(resolved, depth@, (#[trigger] stage[m]) as int, k as int),
        forall|i: int| 0 <= i < decls.len() && #[trigger] runs_at(resolved, depth@, i, k as int) ==> stage@.contains(i as usize),
        forall|m1: int, m2: int| 0 <= m1 < m2 < stage.len() ==> (#[trigger] stage[m1]) < (#[trigger] stage[m2]),
{
    let mut stage: Vec<usize> = Vec::new();
    let mut i: usize = 0;
    proof {
        resolved.lemma_complete(decls@);
    }
    while i < decls.len()
        invariant
            i <= decls.len(),
            resolved.complete(decls@),
            depth.len() == resolved.names.len(),
            forall|x: int| 0 <= x < decls.len() ==> #[trigger] resolved.owns(decls@, x),
            forall|m: int| 0 <= m < stage.len() ==> (#[trigger] stage[m]) < i,
            forall|m: int| 0 <= m < stage.len() ==> runs_at(resolved, depth@, (#[trigger] stage[m]) as int, k as int),
            forall|x: int| 0 <= x < i && #[trigger] runs_at(resolved, depth@, x, k as int) ==> stage@.contains(x as usize),
            forall|m1: int, m2: int| 0 <= m1 < m2 < stage.len() ==> (#[trigger] stage[m1]) < (#[trigger] stage[m2]),
        decreases decls.len() - i,
    {
        assert(resolved.owns(decls@, i as int));
        let node: usize = resolved.owner[i];
        let backs: bool = match resolved.backing[node] {
            Some(b) => b == i,
            None => false,
        };
        if backs && depth[node] == k {
            let ghost before = stage@;
            stage.push(i);
            proof {
                assert forall|x: int| 0 <= x < i + 1 && #[trigger] runs_at(resolved, depth@, x, k as int) implies stage@.contains(x as usize) by {
                    if x < i {
                        let m = choose|m: int| 0 <= m < before.len() && before[m] == x as usize;
                        assert(stage@[m] == x as usize);
                    } else {
                        assert(stage@[before.len() as int] == x as usize);
                    }
                }
            }
        }
        i = i + 1;
    }
    stage
}

/// The greatest depth among the nodes, of which there is at least one.
fn greatest_depth(depth: &Vec<usize>) -> (top: usize)
    requires
        depth.len() > 0,
    ensures
        forall|v: int| 0 <= v < depth.len() ==> (#[trigger] depth[v]) <= top,
        exists|v: int| 0 <= v < depth.len() && (#[trigger] depth[v]) == top,
{
    let mut top: usize = depth[0];
    let mut v: usize = 1;
    while v < depth.len()
        invariant
            1 <= v <= depth.len(),
            forall|w: int| 0 <= w < v ==> (#[trigger] depth[w]) <= top,
            exists|w: int| 0 <= w < v && (#[trigger] depth[w]) == top,
        decreases depth.len() - v,
    {
        if depth[v] > top {
            top = depth[v];
        }
        v = v + 1;
    }
    top
}

/// The stages hold what `runs_at` says, stage by stage and in rising order.
pub open spec fn is_filled(decls: Seq<PluginDecl>, resolved: &Resolved, depth: Seq<usize>, stages: Seq<Vec<usize>>) -> bool {
    &&& forall|k: int, m: int|
        0 <= k < stages.len() && 0 <= m < stages[k]@.len() ==> (#[trigger] stages[k]@[m]) < decls.len()
            && runs_at(resolved, depth, stages[k]@[m] as int, k)
    &&& forall|k: int, i: int|
        0 <= k < stages.len() && 0 <= i < decls.len() && #[trigger] runs_at(resolved, depth, i, k)
            ==> stages[k]@.contains(i as usize)
    &&& forall|k: int, m1: int, m2: int|
        0 <= k < stages.len() && 0 <= m1 < m2 < stages[k]@.len() ==> (#[trigger] stages[k]@[m1])
            < (#[trigger] stages[k]@[m2])
}

/// Stages filled by depth, one for each depth that occurs, are the plan.
proof fn lemma_filled_is_plan(decls: Seq<PluginDecl>, resolved: &Resolved, depth: Seq<usize>, stages: Seq<Vec<usize>>)
    requires
        resolved.complete(decls),
        depth.len() == resolved.names.len(),
        is_filled(decls, resolved, depth, stages),
        forall|v: int| 0 <= v < depth.len() ==> (#[trigger] depth[v]) < stages.len(),
        stages.len() == 0 || exists|v: int| 0 <= v < depth.len() && (#[trigger] depth[v]) + 1 == stages.len(),
    ensures
        is_plan(decls, rank_of(resolved.numbers(), depth), stages),
{
    let rank = rank_of(resolved.numbers(), depth);
    resolved.lemma_complete(decls);
    assert forall|k: int, m: int| 0 <= k < stages.len() && 0 <= m < stages[k]@.len() implies {
        let i = #[trigger] stages[k]@[m];
        i < decls.len() && is_live(decls, i as int) && rank[decls[i as int].name@] == k
    } by {
        let i = stages[k]@[m] as int;
        assert(runs_at(resolved, depth, i, k));
        assert(resolved.backs(i));
        assert(resolved.owns(decls, i));
    }
    assert forall|i: int| 0 <= i < decls.len() && is_live(decls, i) implies rank[(#[trigger] decls[i]).name@]
        < stages.len() && stages[rank[decls[i].name@] as int]@.contains(i as usize) by {
        assert(resolved.backs(i));
        assert(resolved.owns(decls, i));
        assert(runs_at(resolved, depth, i, depth[resolved.owner[i] as int] as int));
    }
    assert forall|s: Seq<char>| #[trigger] rank.contains_key(s) implies rank[s] < stages.len() by {
        assert(resolved.numbers().contains_key(s));
    }
    if stages.len() > 0 {
        let v = choose|v: int| 0 <= v < depth.len() && (#[trigger] depth[v]) + 1 == stages.len();
        let s = resolved.names[v]@;
        assert(rank.contains_key(s) && rank[s] + 1 == stages.len());
    }
}

/// The stages of the plan, from the depth of each node.
fn fill_stages(decls: &Vec<PluginDecl>, resolved: &Resolved, depth: &Vec<usize>) -> (stages: Vec<Vec<usize>>)
    requires
        resolved.complete(decls@),
        depth.len() == resolved.names.len(),
        forall|v: int| 0 <= v < depth.len() ==> (#[trigger] depth[v]) < depth.len(),
    ensures
        is_plan(decls@, rank_of(resolved.numbers(), depth@), stages@),
{
    let count: usize = if depth.len() == 0 {
        0
    } else {
        greatest_depth(depth) + 1
    };
    let mut stages: Vec<Vec<usize>> = Vec::new();
    while stages.len() < count
        invariant
            stages.len() <= count,
            resolved.complete(decls@),
            depth.len() == resolved.names.len(),
            is_filled(decls@, resolved, depth@, stages@),
        decreases count - stages.len(),
    {
        let stage = fill_stage(decls, resolved, depth, stages.len());
        stages.push(stage);
    }
    proof {
        lemma_filled_is_plan(decls@, resolved, depth@, stages@);
    }
    stages
}

/// The stages in which the declared plugins run, or the name of a node on a dependency cycle.
///
/// A node's stage is one more than the highest stage among its dependencies, and zero
/// where it has none. A name that is listed as a dependency but that no plugin has takes
/// its stage without anything to run in it. Of several plugins with one name only the
/// last is given a stage; the dependencies of the others still count.
pub fn plan_stages(decls: &Vec<PluginDecl>) -> (r: Result<Vec<Vec<usize>>, PlanError>)
    ensures
        r is Ok <==> !has_dependency_cycle(decls@),
        r matches Ok(stages) ==> is_stage_plan(decls@, stages@),
        r matches Err(e) ==> (e matches PlanError::CyclicDependency(name) && on_dependency_cycle(
            decls@,
            name@,
        )),
{
    let resolved = Resolved::read_all(decls);
    let n: usize = resolved.names.len();
    match depths_of(n, &resolved.edges) {
        Err(v) => {
            proof {
                lemma_cycle_of_names(decls@, &resolved, v);
            }
            Err(PlanError::CyclicDependency(resolved.names[v].clone()))
        },
        Ok(depth) => {
            proof {
                lemma_depth_is_rank(decls@, &resolved, depth@);
                lemma_ranked_is_acyclic(decls@, rank_of(resolved.numbers(), depth@));
            }
            let stages = fill_stages(decls, &resolved, &depth);
            proof {
                let rank = rank_of(resolved.numbers(), depth@);
                assert(is_stage_rank(decls@, rank));
                assert(is_plan(decls@, rank, stages@));
                assert(is_stage_plan(decls@, stages@));
            }
            Ok(stages)
        },
    }
}

} // verus!
