//! Level-by-level topological ordering of a dependency graph on indices.
//!
//! A graph on the nodes `0..n` is given by one list per node: the nodes it
//! depends on. A node may name a dependency more than once. The functions
//! here group the nodes into levels by Kahn's algorithm: each node has an
//! in-degree, the number of its edges to nodes that are not placed yet; a
//! level takes all nodes of in-degree zero at once, and placing a node
//! lowers the in-degree of the nodes that depend on it. The levels one after
//! another are a linear order.

use vstd::prelude::*;

verus! {

/// The dependency lists of a graph, as plain sequences.
pub open spec fn rows(g: Seq<Vec<usize>>) -> Seq<Seq<usize>> {
    Seq::new(g.len(), |i: int| g[i]@)
}

/// Every dependency is a node of the graph.
pub open spec fn graph_wf(g: Seq<Seq<usize>>) -> bool {
    forall|i: int, k: int|
        0 <= i < g.len() && 0 <= k < g[i].len() ==> (#[trigger] g[i][k]) < g.len()
}

/// `v` stands in one of the levels before level `l`.
pub open spec fn placed_before<A>(levels: Seq<Seq<A>>, l: int, v: A) -> bool {
    exists|a: int| 0 <= a < l && a < levels.len() && #[trigger] levels[a].contains(v)
}

/// Every dependency of `v` stands in a level before level `l`.
pub open spec fn ready_at(g: Seq<Seq<usize>>, levels: Seq<Seq<usize>>, l: int, v: usize) -> bool {
    forall|k: int|
        0 <= k < g[v as int].len() ==> placed_before(levels, l, #[trigger] g[v as int][k])
}

/// `levels` is the level plan of `g`: level `l` holds, once each, exactly the
/// nodes that are ready at `l` and stand in no earlier level; no level is
/// empty; and every node stands in some level.
pub open spec fn is_level_plan(g: Seq<Seq<usize>>, levels: Seq<Seq<usize>>) -> bool {
    &&& forall|l: int|
        0 <= l < levels.len() ==> (#[trigger] levels[l]).len() > 0 && levels[l].no_duplicates()
    &&& forall|l: int, b: int|
        0 <= l < levels.len() && 0 <= b < levels[l].len() ==> (#[trigger] levels[l][b]) < g.len()
    &&& forall|l: int, v: usize|
        0 <= l < levels.len() && v < g.len() ==> (#[trigger] levels[l].contains(v) <==> !placed_before(
            levels,
            l,
            v,
        ) && ready_at(g, levels, l, v))
    &&& forall|v: usize| v < g.len() ==> placed_before(levels, levels.len() as int, v)
}

/// `x` stands in `order` at a position before `i`.
pub open spec fn stands_before<A>(order: Seq<A>, i: int, x: A) -> bool {
    exists|j: int| 0 <= j < i && j < order.len() && order[j] == x
}

/// `order` lists every node of `g` once, each after all its dependencies.
pub open spec fn is_index_order(g: Seq<Seq<usize>>, order: Seq<usize>) -> bool {
    &&& order.len() == g.len()
    &&& order.no_duplicates()
    &&& forall|i: int| 0 <= i < order.len() ==> (#[trigger] order[i]) < g.len()
    &&& forall|v: usize| v < g.len() ==> order.contains(v)
    &&& forall|i: int, k: int|
        0 <= i < order.len() && 0 <= k < g[order[i] as int].len() ==> stands_before(
            order,
            i,
            #[trigger] g[order[i] as int][k],
        )
}

/// The levels one after another, as one sequence.
pub open spec fn concat<A>(levels: Seq<Seq<A>>) -> Seq<A>
    decreases levels.len(),
{
    if levels.len() == 0 {
        Seq::empty()
    } else {
        concat(levels.drop_last()) + levels.last()
    }
}

/// The concatenation holds exactly what the levels hold.
pub proof fn lemma_concat_contains<A>(levels: Seq<Seq<A>>, x: A)
    ensures
        concat(levels).contains(x) <==> exists|l: int|
            0 <= l < levels.len() && #[trigger] levels[l].contains(x),
    decreases levels.len(),
{
    if levels.len() > 0 {
        let head = levels.drop_last();
        let tail = levels.last();
        lemma_concat_contains(head, x);
        let c = concat(levels);
        if c.contains(x) {
            let i = c.index_of(x);
            if i < concat(head).len() {
                assert(concat(head)[i] == x);
                let l = choose|l: int| 0 <= l < head.len() && #[trigger] head[l].contains(x);
                assert(levels[l].contains(x));
            } else {
                assert(tail[i - concat(head).len()] == x);
                assert(levels[levels.len() - 1].contains(x));
            }
        }
        if exists|l: int| 0 <= l < levels.len() && #[trigger] levels[l].contains(x) {
            let l = choose|l: int| 0 <= l < levels.len() && #[trigger] levels[l].contains(x);
            if l < levels.len() - 1 {
                assert(head[l].contains(x));
                let i = concat(head).index_of(x);
                assert(c[i] == x);
            } else {
                let b = tail.index_of(x);
                assert(c[concat(head).len() + b] == x);
            }
        }
    }
}

/// Each position of the concatenation belongs to a level, and whatever an
/// earlier level holds stands at an earlier position.
pub proof fn lemma_concat_positions<A>(levels: Seq<Seq<A>>, i: int) -> (l: int)
    requires
        0 <= i < concat(levels).len(),
    ensures
        0 <= l < levels.len(),
        levels[l].contains(concat(levels)[i]),
        forall|a: int, x: A|
            0 <= a < l && #[trigger] levels[a].contains(x) ==> stands_before(concat(levels), i, x),
    decreases levels.len(),
{
    let head = levels.drop_last();
    let tail = levels.last();
    let c = concat(levels);
    if i < concat(head).len() {
        let l = lemma_concat_positions(head, i);
        assert(levels[l] == head[l]);
        assert forall|a: int, x: A| 0 <= a < l && #[trigger] levels[a].contains(
            x,
        ) implies stands_before(c, i, x) by {
            assert(head[a].contains(x));
            assert(stands_before(concat(head), i, x));
            let j = choose|j: int| 0 <= j < i && j < concat(head).len() && concat(head)[j] == x;
            assert(c[j] == x);
        }
        l
    } else {
        let l = levels.len() - 1;
        assert(tail[i - concat(head).len()] == c[i]);
        assert forall|a: int, x: A| 0 <= a < l && #[trigger] levels[a].contains(
            x,
        ) implies stands_before(c, i, x) by {
            assert(head[a].contains(x));
            lemma_concat_contains(head, x);
            let j = concat(head).index_of(x);
            assert(c[j] == x);
        }
        l
    }
}

/// Levels without repetition, no two of which share an item, concatenate
/// to a sequence without repetition.
pub proof fn lemma_concat_no_duplicates<A>(levels: Seq<Seq<A>>)
    requires
        forall|l: int| 0 <= l < levels.len() ==> (#[trigger] levels[l]).no_duplicates(),
        forall|a: int, b: int, x: A|
            0 <= a < b < levels.len() && #[trigger] levels[a].contains(x) ==> !(
            #[trigger] levels[b].contains(x)),
    ensures
        concat(levels).no_duplicates(),
    decreases levels.len(),
{
    if levels.len() > 0 {
        let head = levels.drop_last();
        let tail = levels.last();
        let last = levels.len() - 1;
        assert forall|l: int| 0 <= l < head.len() implies (#[trigger] head[l]).no_duplicates() by {
            assert(head[l] == levels[l]);
        }
        assert forall|a: int, b: int, x: A|
            0 <= a < b < head.len() && #[trigger] head[a].contains(x) implies !(
        #[trigger] head[b].contains(x)) by {
            assert(levels[a].contains(x));
            assert(head[b] == levels[b]);
        }
        lemma_concat_no_duplicates(head);
        let c = concat(levels);
        let h = concat(head).len();
        assert forall|i: int, j: int| 0 <= i < c.len() && 0 <= j < c.len() && i != j implies c[i]
            != c[j] by {
            if i < h && j < h {
                assert(concat(head)[i] != concat(head)[j]);
            } else if i >= h && j >= h {
                assert(levels[last] == tail);
                assert(tail[i - h] != tail[j - h]);
            } else {
                let (lo, hi) = if i < h {
                    (i, j)
                } else {
                    (j, i)
                };
                let x = c[lo];
                assert(concat(head)[lo] == x);
                lemma_concat_contains(head, x);
                let a = choose|a: int| 0 <= a < head.len() && #[trigger] head[a].contains(x);
                assert(levels[a].contains(x));
                if c[hi] == x {
                    assert(tail[hi - h] == x);
                    assert(levels[last].contains(x));
                }
            }
        }
    }
}

/// The concatenated levels of a level plan list every node once, each after
/// all its dependencies.
pub proof fn lemma_plan_gives_order(g: Seq<Seq<usize>>, levels: Seq<Seq<usize>>)
    requires
        is_level_plan(g, levels),
        concat(levels).len() == g.len(),
    ensures
        is_index_order(g, concat(levels)),
{
    let order = concat(levels);
    assert forall|a: int, b: int, x: usize|
        0 <= a < b < levels.len() && #[trigger] levels[a].contains(x) implies !(
    #[trigger] levels[b].contains(x)) by {
        let i = levels[a].index_of(x);
        assert(levels[a][i] < g.len());
        assert(placed_before(levels, b, x));
    }
    lemma_concat_no_duplicates(levels);
    assert forall|i: int| 0 <= i < order.len() implies (#[trigger] order[i]) < g.len() by {
        let l = lemma_concat_positions(levels, i);
        let b = levels[l].index_of(order[i]);
        assert(levels[l][b] < g.len());
    }
    assert forall|v: usize| v < g.len() implies order.contains(v) by {
        assert(placed_before(levels, levels.len() as int, v));
        lemma_concat_contains(levels, v);
    }
    assert forall|i: int, k: int|
        0 <= i < order.len() && 0 <= k < g[order[i] as int].len() implies stands_before(
        order,
        i,
        #[trigger] g[order[i] as int][k],
    ) by {
        let l = lemma_concat_positions(levels, i);
        let v = order[i];
        let b = levels[l].index_of(v);
        assert(levels[l][b] < g.len());
        assert(ready_at(g, levels, l, v));
        let d = g[v as int][k];
        assert(placed_before(levels, l, d));
        let a = choose|a: int| 0 <= a < l && a < levels.len() && #[trigger] levels[a].contains(d);
        assert(levels[a].contains(d));
    }
}

/// The number of entries of `deps` that `placed` does not mark: the
/// in-degree that is left to a node with these dependencies.
pub open spec fn pending(deps: Seq<usize>, placed: Seq<bool>) -> nat
    decreases deps.len(),
{
    if deps.len() == 0 {
        0
    } else {
        pending(deps.drop_last(), placed) + if placed[deps.last() as int] {
            0nat
        } else {
            1nat
        }
    }
}

/// The in-degree left is zero exactly when every dependency is placed.
pub proof fn lemma_pending_zero(deps: Seq<usize>, placed: Seq<bool>)
    ensures
        pending(deps, placed) == 0 <==> forall|k: int|
            0 <= k < deps.len() ==> placed[#[trigger] deps[k] as int],
    decreases deps.len(),
{
    if deps.len() > 0 {
        let head = deps.drop_last();
        lemma_pending_zero(head, placed);
        if pending(deps, placed) == 0 {
            assert forall|k: int| 0 <= k < deps.len() implies placed[#[trigger] deps[k] as int] by {
                if k < deps.len() - 1 {
                    assert(head[k] == deps[k]);
                }
            }
        }
        if forall|k: int| 0 <= k < deps.len() ==> placed[#[trigger] deps[k] as int] {
            assert forall|k: int| 0 <= k < head.len() implies placed[#[trigger] head[k] as int] by {
                assert(head[k] == deps[k]);
            }
            assert(placed[deps[deps.len() - 1] as int]);
        }
    }
}

/// The in-degree that is left to a node whose dependencies are `deps`.
pub fn remaining_in_degree(deps: &Vec<usize>, placed: &Vec<bool>) -> (count: usize)
    requires
        forall|k: int| 0 <= k < deps@.len() ==> (#[trigger] deps@[k]) < placed@.len(),
    ensures
        count == pending(deps@, placed@),
{
    let mut count: usize = 0;
    let mut k: usize = 0;
    while k < deps.len()
        invariant
            k <= deps@.len(),
            count <= k,
            count == pending(deps@.subrange(0, k as int), placed@),
            forall|j: int| 0 <= j < deps@.len() ==> (#[trigger] deps@[j]) < placed@.len(),
        decreases deps.len() - k,
    {
        proof {
            let next = deps@.subrange(0, k + 1);
            assert(next.drop_last() =~= deps@.subrange(0, k as int));
            assert(next.last() == deps@[k as int]);
        }
        if !placed[deps[k]] {
            count += 1;
        }
        k += 1;
    }
    assert(deps@.subrange(0, deps@.len() as int) =~= deps@);
    count
}

/// How often `x` stands in `s`.
pub open spec fn occurrences(s: Seq<usize>, x: usize) -> nat
    decreases s.len(),
{
    if s.len() == 0 {
        0
    } else {
        occurrences(s.drop_last(), x) + if s.last() == x {
            1nat
        } else {
            0nat
        }
    }
}

/// A part of a list holds an item no more often than the whole list.
pub proof fn lemma_occurrences_prefix(s: Seq<usize>, t: int, x: usize)
    requires
        0 <= t <= s.len(),
    ensures
        occurrences(s.subrange(0, t), x) <= occurrences(s, x),
    decreases s.len() - t,
{
    if t < s.len() {
        lemma_occurrences_prefix(s, t + 1, x);
        assert(s.subrange(0, t + 1).drop_last() =~= s.subrange(0, t));
    } else {
        assert(s.subrange(0, t) =~= s);
    }
}

/// Placing a node that was not placed takes from the in-degree of a node
/// as many edges as the node has to it.
pub proof fn lemma_pending_mark(deps: Seq<usize>, placed: Seq<bool>, x: usize)
    requires
        x < placed.len(),
        !placed[x as int],
        forall|k: int| 0 <= k < deps.len() ==> (#[trigger] deps[k]) < placed.len(),
    ensures
        pending(deps, placed.update(x as int, true)) + occurrences(deps, x) == pending(
            deps,
            placed,
        ),
    decreases deps.len(),
{
    if deps.len() > 0 {
        let head = deps.drop_last();
        assert forall|k: int| 0 <= k < head.len() implies (#[trigger] head[k]) < placed.len() by {
            assert(head[k] == deps[k]);
        }
        lemma_pending_mark(head, placed, x);
        assert(deps.last() == deps[deps.len() - 1]);
    }
}

/// `rev` lists, for each node, the nodes that depend on it: each as often
/// as it names the node as a dependency.
pub open spec fn is_reverse(g: Seq<Seq<usize>>, rev: Seq<Seq<usize>>) -> bool {
    &&& rev.len() == g.len()
    &&& forall|d: int, t: int|
        0 <= d < rev.len() && 0 <= t < rev[d].len() ==> (#[trigger] rev[d][t]) < g.len()
    &&& forall|d: usize, u: usize|
        d < g.len() && u < g.len() ==> occurrences(#[trigger] rev[d as int], u) == occurrences(
            #[trigger] g[u as int],
            d,
        )
}

/// For each node, the nodes that depend on it.
pub fn dependents_of(g: &Vec<Vec<usize>>) -> (rev: Vec<Vec<usize>>)
    requires
        graph_wf(rows(g@)),
    ensures
        is_reverse(rows(g@), rows(rev@)),
{
    let n: usize = g.len();
    let ghost gr = rows(g@);
    let mut rev: Vec<Vec<usize>> = Vec::new();
    let mut i: usize = 0;
    while i < n
        invariant
            i <= n,
            rev@.len() == i,
            forall|d: int| 0 <= d < i ==> (#[trigger] rev@[d])@.len() == 0,
        decreases n - i,
    {
        rev.push(Vec::new());
        i += 1;
    }
    let mut v: usize = 0;
    while v < n
        invariant
            v <= n,
            n == g@.len(),
            gr == rows(g@),
            graph_wf(gr),
            rev@.len() == n,
            forall|d: int, t: int|
                0 <= d < n && 0 <= t < rev@[d]@.len() ==> (#[trigger] rev@[d]@[t]) < v,
            forall|d: usize, u: usize|
                d < n && u < v ==> occurrences(#[trigger] rev@[d as int]@, u) == occurrences(
                    #[trigger] gr[u as int],
                    d,
                ),
        decreases n - v,
    {
        let mut k: usize = 0;
        assert(gr[v as int].subrange(0, 0) =~= Seq::<usize>::empty());
        assert forall|d: usize| d < n implies occurrences(#[trigger] rev@[d as int]@, v) == 0 by {
            lemma_absent(rev@[d as int]@, v);
        }
        while k < g[v].len()
            invariant
                k <= g@[v as int]@.len(),
                v < n,
                n == g@.len(),
                gr == rows(g@),
                graph_wf(gr),
                rev@.len() == n,
                forall|d: int, t: int|
                    0 <= d < n && 0 <= t < rev@[d]@.len() ==> (#[trigger] rev@[d]@[t]) <= v,
                forall|d: usize, u: usize|
                    d < n && u < v ==> occurrences(#[trigger] rev@[d as int]@, u) == occurrences(
                        #[trigger] gr[u as int],
                        d,
                    ),
                forall|d: usize|
                    d < n ==> occurrences(#[trigger] rev@[d as int]@, v) == occurrences(
                        gr[v as int].subrange(0, k as int),
                        d,
                    ),
            decreases g@[v as int]@.len() - k,
        {
            let d0 = g[v][k];
            assert(gr[v as int][k as int] == d0);
            assert(d0 < n);
            let ghost before = rev@;
            let mut row = Vec::new();
            std::mem::swap(&mut row, &mut rev[d0]);
            row.push(v);
            rev.set(d0, row);
            proof {
                let prefix = gr[v as int].subrange(0, k as int);
                let next = gr[v as int].subrange(0, k + 1);
                assert(next.drop_last() =~= prefix);
                assert(next.last() == d0);
                assert(rev@[d0 as int]@ =~= before[d0 as int]@.push(v));
                assert(rev@[d0 as int]@.drop_last() =~= before[d0 as int]@);
                assert forall|d: int| 0 <= d < n && d != d0 implies rev@[d] == before[d] by {}
                assert forall|d: usize, u: usize| d < n && u < v implies occurrences(
                    #[trigger] rev@[d as int]@,
                    u,
                ) == occurrences(#[trigger] gr[u as int], d) by {
                    assert(occurrences(before[d as int]@, u) == occurrences(gr[u as int], d));
                }
                assert forall|d: usize| d < n implies occurrences(#[trigger] rev@[d as int]@, v)
                    == occurrences(next, d) by {
                    assert(occurrences(before[d as int]@, v) == occurrences(prefix, d));
                }
                assert forall|d: int, t: int|
                    0 <= d < n && 0 <= t < rev@[d]@.len() implies (#[trigger] rev@[d]@[t])
                    <= v by {
                    if d == d0 && t < before[d]@.len() {
                        assert(rev@[d]@[t] == before[d]@[t]);
                    } else if d != d0 {
                        assert(rev@[d]@[t] == before[d]@[t]);
                    }
                }
            }
            k += 1;
        }
        assert(gr[v as int].subrange(0, gr[v as int].len() as int) =~= gr[v as int]);
        v += 1;
    }
    proof {
        let rr = rows(rev@);
        assert forall|d: int, t: int| 0 <= d < rr.len() && 0 <= t < rr[d].len() implies (
        #[trigger] rr[d][t]) < gr.len() by {
            assert(rev@[d]@[t] < n);
        }
        assert forall|d: usize, u: usize| d < gr.len() && u < gr.len() implies occurrences(
            #[trigger] rr[d as int],
            u,
        ) == occurrences(#[trigger] gr[u as int], d) by {
            assert(occurrences(rev@[d as int]@, u) == occurrences(gr[u as int], d));
        }
    }
    rev
}

/// A list that holds only smaller items does not hold `x`.
proof fn lemma_absent(s: Seq<usize>, x: usize)
    requires
        forall|t: int| 0 <= t < s.len() ==> (#[trigger] s[t]) < x,
    ensures
        occurrences(s, x) == 0,
    decreases s.len(),
{
    if s.len() > 0 {
        let head = s.drop_last();
        assert forall|t: int| 0 <= t < head.len() implies (#[trigger] head[t]) < x by {
            assert(head[t] == s[t]);
        }
        lemma_absent(head, x);
        assert(s.last() == s[s.len() - 1]);
    }
}

/// `v` has a dependency that `placed` does not mark.
pub open spec fn blocked(g: Seq<Seq<usize>>, placed: Seq<bool>, v: usize) -> bool {
    exists|k: int| 0 <= k < g[v as int].len() && !placed[#[trigger] g[v as int][k] as int]
}

/// In the walk `w`, the node at `i` names the node at `i + 1` as a
/// dependency.
pub open spec fn index_link(g: Seq<Seq<usize>>, w: Seq<usize>, i: int) -> bool {
    g[w[i] as int].contains(w[i + 1])
}

/// `w` is a circle of dependencies: a walk along dependency edges, of at
/// least one edge, that ends where it began.
pub open spec fn is_index_cycle(g: Seq<Seq<usize>>, w: Seq<usize>) -> bool {
    &&& w.len() >= 2
    &&& w[0] == w.last()
    &&& forall|i: int| 0 <= i < w.len() ==> (#[trigger] w[i]) < g.len()
    &&& forall|i: int| 0 <= i < w.len() - 1 ==> #[trigger] index_link(g, w, i)
}

/// Some nodes of `g` depend on each other in a circle.
pub open spec fn has_index_cycle(g: Seq<Seq<usize>>) -> bool {
    exists|w: Seq<usize>| is_index_cycle(g, w)
}

/// Nodes are left, and each of them has a dependency that is left.
pub open spec fn is_stuck(g: Seq<Seq<usize>>, placed: Seq<bool>) -> bool {
    &&& placed.len() == g.len()
    &&& exists|u: usize| u < g.len() && !#[trigger] placed[u as int]
    &&& forall|u: usize| u < g.len() && !placed[u as int] ==> #[trigger] blocked(g, placed, u)
}

/// A dependency of `v` that is left.
pub open spec fn blocked_dep(g: Seq<Seq<usize>>, placed: Seq<bool>, v: usize) -> usize {
    let k = choose|k: int| 0 <= k < g[v as int].len() && !placed[#[trigger] g[v as int][k] as int];
    g[v as int][k]
}

/// The node reached from `start` after `k` steps, each to a dependency
/// that is left.
pub open spec fn walk(g: Seq<Seq<usize>>, placed: Seq<bool>, start: usize, k: nat) -> usize
    decreases k,
{
    if k == 0 {
        start
    } else {
        blocked_dep(g, placed, walk(g, placed, start, (k - 1) as nat))
    }
}

/// A walk among the nodes that are left stays among them, along dependency
/// edges.
proof fn lemma_walk(g: Seq<Seq<usize>>, placed: Seq<bool>, start: usize, k: nat)
    requires
        graph_wf(g),
        is_stuck(g, placed),
        start < g.len(),
        !placed[start as int],
    ensures
        walk(g, placed, start, k) < g.len(),
        !placed[walk(g, placed, start, k) as int],
        k > 0 ==> g[walk(g, placed, start, (k - 1) as nat) as int].contains(
            walk(g, placed, start, k),
        ),
    decreases k,
{
    if k > 0 {
        lemma_walk(g, placed, start, (k - 1) as nat);
        let v = walk(g, placed, start, (k - 1) as nat);
        assert(blocked(g, placed, v));
        let c = choose|c: int| 0 <= c < g[v as int].len() && !placed[#[trigger] g[v as int][c] as int];
        assert(g[v as int][c] < g.len());
        assert(g[v as int].contains(g[v as int][c]));
    }
}

/// More items than values: one value stands twice.
proof fn lemma_repeats(w: Seq<int>, n: nat)
    requires
        w.len() > n,
        forall|i: int| 0 <= i < w.len() ==> 0 <= #[trigger] w[i] < n,
    ensures
        exists|i: int, j: int| 0 <= i < j < w.len() && w[i] == w[j],
{
    if w.no_duplicates() {
        w.unique_seq_to_set();
        vstd::set_lib::lemma_int_range(0, n as int);
        let range = vstd::set_lib::set_int_range(0, n as int);
        assert forall|x: int| w.to_set().contains(x) implies range.contains(x) by {
            let i = w.index_of(x);
            assert(w[i] == x);
        }
        vstd::set_lib::lemma_len_subset(w.to_set(), range);
        assert(false);
    } else {
        let (a, b) = choose|a: int, b: int|
            0 <= a < w.len() && 0 <= b < w.len() && a != b && w[a] == w[b];
        if a < b {
            assert(0 <= a < b < w.len() && w[a] == w[b]);
        } else {
            assert(0 <= b < a < w.len() && w[b] == w[a]);
        }
    }
}

/// Where nodes are left and each of them has a dependency that is left,
/// some of them depend on each other in a circle.
pub proof fn lemma_stuck_has_cycle(g: Seq<Seq<usize>>, placed: Seq<bool>)
    requires
        graph_wf(g),
        is_stuck(g, placed),
    ensures
        has_index_cycle(g),
{
    let n = g.len();
    let start = choose|u: usize| u < g.len() && !#[trigger] placed[u as int];
    let steps = Seq::new(n + 1, |k: int| walk(g, placed, start, k as nat) as int);
    assert forall|i: int| 0 <= i < steps.len() implies 0 <= #[trigger] steps[i] < n by {
        lemma_walk(g, placed, start, i as nat);
    }
    lemma_repeats(steps, n);
    let (a, b) = choose|a: int, b: int| 0 <= a < b < steps.len() && steps[a] == steps[b];
    let w = Seq::new((b - a + 1) as nat, |t: int| walk(g, placed, start, (a + t) as nat));
    assert(w[0] == walk(g, placed, start, a as nat));
    assert(w.last() == walk(g, placed, start, b as nat));
    assert forall|i: int| 0 <= i < w.len() implies (#[trigger] w[i]) < g.len() by {
        lemma_walk(g, placed, start, (a + i) as nat);
    }
    assert forall|i: int| 0 <= i < w.len() - 1 implies #[trigger] index_link(g, w, i) by {
        lemma_walk(g, placed, start, (a + i + 1) as nat);
        assert((a + i + 1 - 1) as nat == (a + i) as nat);
    }
    assert(is_index_cycle(g, w));
}

/// Along a circle of dependencies every node would have to stand before
/// the node before it: no order has room for a circle.
proof fn lemma_cycle_descends(g: Seq<Seq<usize>>, w: Seq<usize>, order: Seq<usize>, t: int)
    requires
        is_index_cycle(g, w),
        is_index_order(g, order),
        0 <= t < w.len(),
    ensures
        order.contains(w[t]),
        order.index_of(w[t]) + t <= order.index_of(w[0]),
    decreases t,
{
    assert(order.contains(w[t]));
    if t > 0 {
        lemma_cycle_descends(g, w, order, t - 1);
        let v = w[t - 1];
        let at = order.index_of(v);
        assert(order[at] == v);
        assert(index_link(g, w, t - 1));
        let k = g[v as int].index_of(w[t]);
        assert(g[v as int][k] == w[t]);
        assert(stands_before(order, at, g[order[at] as int][k]));
        let j = choose|j: int| 0 <= j < at && j < order.len() && order[j] == w[t];
        let found = order.index_of(w[t]);
        assert(order[found] == w[t]);
        assert(found == j);
    }
}

/// A graph with a circle of dependencies has no order.
pub proof fn lemma_cycle_no_order(g: Seq<Seq<usize>>, w: Seq<usize>, order: Seq<usize>)
    requires
        is_index_cycle(g, w),
    ensures
        !is_index_order(g, order),
{
    if is_index_order(g, order) {
        lemma_cycle_descends(g, w, order, w.len() - 1);
    }
}

/// Groups the nodes of `g` into levels: first the nodes with no
/// dependencies, then those whose dependencies all stand in earlier levels,
/// and so on. Returns `None` exactly when the nodes cannot be ordered, which
/// is when some of them depend on each other in a circle.
pub fn level_plan(g: &Vec<Vec<usize>>) -> (r: Option<Vec<Vec<usize>>>)
    requires
        graph_wf(rows(g@)),
    ensures
        match r {
            Some(levels) => is_level_plan(rows(g@), rows(levels@)) && concat(rows(levels@)).len()
                == g@.len(),
            None => has_index_cycle(rows(g@)) && !exists|order: Seq<usize>|
                is_index_order(rows(g@), order),
        },
{
    let n: usize = g.len();
    let ghost gr = rows(g@);
    let mut placed: Vec<bool> = Vec::new();
    let mut i: usize = 0;
    while i < n
        invariant
            i <= n,
            placed@.len() == i,
            forall|j: int| 0 <= j < i ==> !placed@[j],
        decreases n - i,
    {
        placed.push(false);
        i += 1;
    }
    // The nodes that depend on each node, and the in-degree of each node.
    let dependents = dependents_of(g);
    let mut indeg: Vec<usize> = Vec::new();
    let mut w: usize = 0;
    while w < n
        invariant
            w <= n,
            n == g@.len(),
            gr == rows(g@),
            graph_wf(gr),
            placed@.len() == n,
            indeg@.len() == w,
            forall|u: int| 0 <= u < w ==> indeg@[u] == pending(gr[u], placed@),
        decreases n - w,
    {
        assert forall|k: int| 0 <= k < g@[w as int]@.len() implies (#[trigger] g@[w as int]@[k])
            < placed@.len() by {
            assert(gr[w as int][k] < n);
        }
        indeg.push(remaining_in_degree(&g[w], &placed));
        w += 1;
    }
    let mut levels: Vec<Vec<usize>> = Vec::new();
    let mut count: usize = 0;
    let ghost mut unplaced: Set<int> = Set::new(|v: int| 0 <= v < n);
    proof {
        vstd::set_lib::lemma_int_range(0, n as int);
        assert(unplaced =~= vstd::set_lib::set_int_range(0, n as int));
    }
    while count < n
        invariant
            n == g@.len(),
            gr == rows(g@),
            graph_wf(gr),
            placed@.len() == n,
            count <= n,
            unplaced.finite(),
            unplaced.len() == n - count,
            concat(rows(levels@)).len() == count,
            is_reverse(gr, rows(dependents@)),
            indeg@.len() == n,
            forall|u: int| 0 <= u < n ==> indeg@[u] == pending(gr[u], placed@),
            forall|v: int| unplaced.contains(v) <==> 0 <= v < n && !placed@[v],
            forall|v: usize|
                v < n ==> (placed@[v as int] <==> placed_before(
                    rows(levels@),
                    levels@.len() as int,
                    v,
                )),
            forall|l: int|
                0 <= l < levels@.len() ==> (#[trigger] rows(levels@)[l]).len() > 0 && rows(
                    levels@,
                )[l].no_duplicates(),
            forall|l: int, b: int|
                0 <= l < levels@.len() && 0 <= b < rows(levels@)[l].len() ==> (#[trigger] rows(
                    levels@,
                )[l][b]) < n,
            forall|l: int, v: usize|
                0 <= l < levels@.len() && v < n ==> (#[trigger] rows(levels@)[l].contains(v)
                    <==> !placed_before(rows(levels@), l, v) && ready_at(gr, rows(levels@), l, v)),
        decreases n - count,
    {
        let ghost before = rows(levels@);
        let ghost depth = levels@.len() as int;
        // Collect every node that is left and has in-degree zero.
        let mut level: Vec<usize> = Vec::new();
        let mut v: usize = 0;
        while v < n
            invariant
                v <= n,
                n == g@.len(),
                gr == rows(g@),
                graph_wf(gr),
                placed@.len() == n,
                indeg@.len() == n,
                forall|u: int| 0 <= u < n ==> indeg@[u] == pending(gr[u], placed@),
                forall|b: int| 0 <= b < level@.len() ==> (#[trigger] level@[b]) < v,
                forall|a: int, b: int| 0 <= a < b < level@.len() ==> level@[a] < level@[b],
                forall|u: usize|
                    u < v ==> (level@.contains(u) <==> !placed@[u as int] && pending(
                        gr[u as int],
                        placed@,
                    ) == 0),
            decreases n - v,
        {
            let ghost old_level = level@;
            let take = !placed[v] && indeg[v] == 0;
            if take {
                level.push(v);
                proof {
                    assert(level@[old_level.len() as int] == v);
                    assert forall|u: usize| u < v + 1 implies (level@.contains(u)
                        <==> !placed@[u as int] && pending(gr[u as int], placed@) == 0) by {
                        if u < v {
                            if old_level.contains(u) {
                                let b = old_level.index_of(u);
                                assert(level@[b] == u);
                            }
                            if level@.contains(u) {
                                let b = level@.index_of(u);
                                assert(old_level[b] == u);
                            }
                        }
                    }
                }
            } else {
                proof {
                    assert forall|u: usize| u < v + 1 implies (level@.contains(u)
                        <==> !placed@[u as int] && pending(gr[u as int], placed@) == 0) by {
                        if u == v && level@.contains(u) {
                            let b = level@.index_of(u);
                            assert(level@[b] < v);
                        }
                    }
                }
            }
            v += 1;
        }
        proof {
            assert forall|u: usize| u < n implies (pending(gr[u as int], placed@) == 0 <==> ready_at(
                gr,
                before,
                depth,
                u,
            )) by {
                lemma_pending_zero(gr[u as int], placed@);
                if pending(gr[u as int], placed@) == 0 {
                    assert forall|k: int| 0 <= k < gr[u as int].len() implies placed_before(
                        before,
                        depth,
                        #[trigger] gr[u as int][k],
                    ) by {
                        assert(placed@[gr[u as int][k] as int]);
                    }
                }
                if ready_at(gr, before, depth, u) {
                    assert forall|k: int| 0 <= k < gr[u as int].len() implies placed@[#[trigger] gr[u as int][k] as int] by {
                        assert(placed_before(before, depth, gr[u as int][k]));
                    }
                }
            }
        }
        if level.len() == 0 {
            proof {
                assert forall|u: usize| u < n && !placed@[u as int] implies #[trigger] blocked(
                    gr,
                    placed@,
                    u,
                ) by {
                    assert(!level@.contains(u));
                    lemma_pending_zero(gr[u as int], placed@);
                }
                assert(unplaced.len() > 0);
                let left = unplaced.choose();
                assert(unplaced.contains(left));
                assert(!placed@[left as usize as int]);
                assert(is_stuck(gr, placed@));
                lemma_stuck_has_cycle(gr, placed@);
                if exists|order: Seq<usize>| is_index_order(gr, order) {
                    let order = choose|order: Seq<usize>| is_index_order(gr, order);
                    let cycle = choose|w: Seq<usize>| is_index_cycle(gr, w);
                    lemma_cycle_no_order(gr, cycle, order);
                }
            }
            return None;
        }
        // Place the nodes of the level, and take the edges to each of them
        // from the in-degrees of the nodes that depend on it.
        let ghost placed_at_start = placed@;
        let ghost count_at_start = count;
        let mut b: usize = 0;
        while b < level.len()
            invariant
                b <= level@.len(),
                n == g@.len(),
                gr == rows(g@),
                graph_wf(gr),
                placed@.len() == n,
                is_reverse(gr, rows(dependents@)),
                indeg@.len() == n,
                forall|u: int| 0 <= u < n ==> indeg@[u] == pending(gr[u], placed@),
                count == count_at_start + b,
                count <= n,
                unplaced.finite(),
                unplaced.len() == n - count,
                forall|v: int| unplaced.contains(v) <==> 0 <= v < n && !placed@[v],
                forall|a: int| 0 <= a < level@.len() ==> (#[trigger] level@[a]) < n,
                forall|a: int, c: int| 0 <= a < c < level@.len() ==> level@[a] < level@[c],
                forall|a: int| 0 <= a < level@.len() ==> !placed_at_start[#[trigger] level@[a] as int],
                placed_at_start.len() == n,
                forall|u: int|
                    0 <= u < n ==> (placed@[u] <==> placed_at_start[u] || exists|a: int|
                        0 <= a < b && #[trigger] level@[a] == u),
            decreases level.len() - b,
        {
            let node = level[b];
            proof {
                assert(!placed@[node as int]) by {
                    if placed@[node as int] {
                        let a = choose|a: int| 0 <= a < b && #[trigger] level@[a] == node as int;
                        assert(level@[a] < level@[b as int]);
                    }
                }
                assert(unplaced.contains(node as int));
                unplaced = unplaced.remove(node as int);
            }
            let ghost placed_prev = placed@;
            let list = &dependents[node];
            let mut t: usize = 0;
            proof {
                assert(list@.subrange(0, 0) =~= Seq::<usize>::empty());
                assert(list@ == rows(dependents@)[node as int]);
            }
            while t < list.len()
                invariant
                    t <= list@.len(),
                    node < n,
                    n == g@.len(),
                    gr == rows(g@),
                    graph_wf(gr),
                    placed@.len() == n,
                    !placed@[node as int],
                    is_reverse(gr, rows(dependents@)),
                    list@ == rows(dependents@)[node as int],
                    indeg@.len() == n,
                    forall|u: int|
                        0 <= u < n ==> indeg@[u] + occurrences(
                            list@.subrange(0, t as int),
                            u as usize,
                        ) == pending(gr[u], placed@),
                decreases list.len() - t,
            {
                let user = list[t];
                let ghost prefix = list@.subrange(0, t as int);
                let ghost next = list@.subrange(0, t + 1);
                proof {
                    assert(rows(dependents@)[node as int][t as int] < gr.len());
                    assert(next.drop_last() =~= prefix);
                    assert(next.last() == user);
                    lemma_occurrences_prefix(list@, t + 1, user);
                    assert(occurrences(rows(dependents@)[node as int], user) == occurrences(
                        gr[user as int],
                        node,
                    ));
                    assert forall|k: int| 0 <= k < gr[user as int].len() implies (
                    #[trigger] gr[user as int][k]) < placed@.len() by {}
                    lemma_pending_mark(gr[user as int], placed@, node);
                }
                let degree = indeg[user];
                let ghost indeg_prev = indeg@;
                indeg.set(user, degree - 1);
                proof {
                    assert forall|u: int| 0 <= u < n implies indeg@[u] + occurrences(
                        next,
                        u as usize,
                    ) == pending(gr[u], placed@) by {
                        assert(indeg_prev[u] + occurrences(prefix, u as usize) == pending(
                            gr[u],
                            placed@,
                        ));
                    }
                }
                t += 1;
            }
            proof {
                assert(list@.subrange(0, list@.len() as int) =~= list@);
                assert forall|u: int| 0 <= u < n implies indeg@[u] == pending(
                    gr[u],
                    placed@.update(node as int, true),
                ) by {
                    assert(indeg@[u] + occurrences(list@, u as usize) == pending(gr[u], placed@));
                    assert(occurrences(rows(dependents@)[node as int], u as usize) == occurrences(
                        gr[u],
                        node,
                    ));
                    assert forall|k: int| 0 <= k < gr[u].len() implies (#[trigger] gr[u][k])
                        < placed@.len() by {}
                    lemma_pending_mark(gr[u], placed@, node);
                }
            }
            placed.set(node, true);
            count += 1;
            proof {
                assert forall|u: int| 0 <= u < n implies (placed@[u] <==> placed_at_start[u]
                    || exists|a: int| 0 <= a < b + 1 && #[trigger] level@[a] == u) by {
                    if u == node {
                        assert(level@[b as int] == u);
                    } else {
                        assert(placed@[u] == placed_prev[u]);
                        if placed_prev[u] && !placed_at_start[u] {
                            let a = choose|a: int| 0 <= a < b && #[trigger] level@[a] == u;
                            assert(0 <= a < b + 1 && level@[a] == u);
                        }
                        if exists|a: int| 0 <= a < b + 1 && #[trigger] level@[a] == u {
                            let a = choose|a: int| 0 <= a < b + 1 && #[trigger] level@[a] == u;
                            assert(a < b);
                        }
                    }
                }
            }
            b += 1;
        }
        let ghost this_level = level@;
        levels.push(level);
        proof {
            let after = rows(levels@);
            assert(after.len() == depth + 1);
            assert(after[depth] == this_level);
            assert(after.drop_last() =~= before);
            assert(concat(after) == concat(before) + this_level);
            assert forall|l: int| 0 <= l < depth implies after[l] == before[l] by {}
            assert(this_level.no_duplicates());
            // Membership in earlier levels is untouched by the new level.
            assert forall|l: int, u: usize| 0 <= l <= depth implies (placed_before(after, l, u)
                <==> placed_before(before, l, u)) by {
                if placed_before(after, l, u) {
                    let a = choose|a: int| 0 <= a < l && a < after.len() && #[trigger] after[a].contains(u);
                    assert(before[a].contains(u));
                }
                if placed_before(before, l, u) {
                    let a = choose|a: int| 0 <= a < l && a < before.len() && #[trigger] before[a].contains(u);
                    assert(after[a].contains(u));
                }
            }
            assert forall|l: int, u: usize| 0 <= l <= depth && u < n implies (ready_at(gr, after, l, u)
                <==> ready_at(gr, before, l, u)) by {
                if ready_at(gr, after, l, u) {
                    assert forall|k: int| 0 <= k < gr[u as int].len() implies placed_before(
                        before,
                        l,
                        #[trigger] gr[u as int][k],
                    ) by {
                        assert(placed_before(after, l, gr[u as int][k]));
                    }
                }
                if ready_at(gr, before, l, u) {
                    assert forall|k: int| 0 <= k < gr[u as int].len() implies placed_before(
                        after,
                        l,
                        #[trigger] gr[u as int][k],
                    ) by {
                        assert(placed_before(before, l, gr[u as int][k]));
                    }
                }
            }
            assert forall|u: usize| u < n implies (placed@[u as int] <==> placed_before(
                after,
                depth + 1,
                u,
            )) by {
                if placed@[u as int] {
                    if placed_at_start[u as int] {
                        assert(placed_before(before, depth, u));
                        let a = choose|a: int| 0 <= a < depth && a < before.len() && #[trigger] before[a].contains(u);
                        assert(after[a].contains(u));
                        assert(placed_before(after, depth + 1, u));
                    } else {
                        let a = choose|a: int| 0 <= a < this_level.len() && #[trigger] this_level[a] == u as int;
                        assert(this_level[a] == u);
                        assert(this_level.contains(u));
                        assert(after[depth].contains(u));
                        assert(placed_before(after, depth + 1, u));
                    }
                }
                if placed_before(after, depth + 1, u) {
                    let a = choose|a: int| 0 <= a < depth + 1 && a < after.len() && #[trigger] after[a].contains(u);
                    if a < depth {
                        assert(before[a].contains(u));
                        assert(placed_before(before, depth, u));
                        assert(placed_at_start[u as int]);
                        assert(placed@[u as int]);
                    } else {
                        assert(this_level.contains(u));
                        let c = this_level.index_of(u);
                        assert(this_level[c] == u as int);
                        assert(placed@[u as int]);
                    }
                }
            }
            assert forall|l: int, u: usize| 0 <= l < after.len() && u < n implies (
            #[trigger] after[l].contains(u) <==> !placed_before(after, l, u) && ready_at(
                gr,
                after,
                l,
                u,
            )) by {
                if l < depth {
                    assert(after[l] == before[l]);
                    assert(before[l].contains(u) <==> !placed_before(before, l, u) && ready_at(
                        gr,
                        before,
                        l,
                        u,
                    ));
                } else {
                    assert(this_level.contains(u) <==> !placed_at_start[u as int] && pending(
                        gr[u as int],
                        placed_at_start,
                    ) == 0);
                }
            }
            assert forall|l: int| 0 <= l < after.len() implies (#[trigger] after[l]).len() > 0
                && after[l].no_duplicates() by {
                if l < depth {
                    assert(after[l] == before[l]);
                }
            }
            assert forall|l: int, c: int| 0 <= l < after.len() && 0 <= c < after[l].len() implies (
            #[trigger] after[l][c]) < n by {
                if l < depth {
                    assert(after[l] == before[l]);
                    assert(before[l][c] < n);
                } else {
                    assert(this_level[c] < n);
                }
            }
        }
    }
    proof {
        assert(unplaced.len() == 0);
        assert forall|v: usize| v < n implies placed_before(
            rows(levels@),
            levels@.len() as int,
            v,
        ) by {
            if !placed@[v as int] {
                assert(unplaced.contains(v as int));
            }
        }
    }
    Some(levels)
}

/// The levels one after another, as one list.
pub fn flatten(levels: &Vec<Vec<usize>>) -> (order: Vec<usize>)
    ensures
        order@ == concat(rows(levels@)),
{
    let mut order: Vec<usize> = Vec::new();
    let mut l: usize = 0;
    while l < levels.len()
        invariant
            l <= levels@.len(),
            order@ == concat(rows(levels@).subrange(0, l as int)),
        decreases levels.len() - l,
    {
        let ghost done = order@;
        let level = &levels[l];
        let mut b: usize = 0;
        while b < level.len()
            invariant
                b <= level@.len(),
                order@ == done + level@.subrange(0, b as int),
            decreases level.len() - b,
        {
            order.push(level[b]);
            assert(level@.subrange(0, b + 1) =~= level@.subrange(0, b as int).push(level@[b as int]));
            b += 1;
        }
        proof {
            assert(level@.subrange(0, level@.len() as int) =~= level@);
            let next = rows(levels@).subrange(0, l + 1);
            assert(next.drop_last() =~= rows(levels@).subrange(0, l as int));
            assert(next.last() == level@);
        }
        l += 1;
    }
    assert(rows(levels@).subrange(0, levels@.len() as int) =~= rows(levels@));
    order
}

} // verus!
