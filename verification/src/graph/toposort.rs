//! The tasks a run requires, and the order in which they can run.

use vstd::prelude::*;
use crate::config::Config;
use crate::graph::kahn::{
    concat, flatten, graph_wf, has_index_cycle, index_link, is_index_cycle, is_index_order,
    is_level_plan, lemma_concat_contains, lemma_concat_no_duplicates, lemma_plan_gives_order,
    level_plan, placed_before, ready_at, rows, stands_before,
};
use crate::text::{strings_contain, strs};

verus! {

/// Why a run cannot be planned.
#[derive(Debug, Clone)]
pub enum GraphError {
    /// A requested task, or a dependency of a required task, does not exist.
    TaskNotFound(String),
    /// Required tasks depend on each other in a circle.
    CircularDependency,
}

/// A chain of names in which each is a task that names the next as a
/// dependency.
pub open spec fn is_dep_path(cfg: &Config, p: Seq<Seq<char>>) -> bool {
    &&& p.len() > 0
    &&& forall|i: int| 0 <= i < p.len() - 1 ==> #[trigger] dep_link(cfg, p, i)
}

/// In the chain `p`, the name at `i` is a task that names the one at
/// `i + 1` as a dependency.
pub open spec fn dep_link(cfg: &Config, p: Seq<Seq<char>>, i: int) -> bool {
    cfg.deps(p[i]).contains(p[i + 1])
}

/// `name` is requested, or is a dependency, direct or not, of a requested
/// task.
pub open spec fn is_required(cfg: &Config, roots: Seq<Seq<char>>, name: Seq<char>) -> bool {
    exists|p: Seq<Seq<char>>| #[trigger] is_dep_path(cfg, p) && roots.contains(p[0]) && p.last() == name
}

/// The names that a run of `roots` requires: the requested names and all
/// their dependencies.
pub open spec fn required_set(cfg: &Config, roots: Seq<Seq<char>>) -> Set<Seq<char>> {
    Set::new(|name: Seq<char>| is_required(cfg, roots, name))
}

/// Every required name is a task.
pub open spec fn required_exist(cfg: &Config, roots: Seq<Seq<char>>) -> bool {
    forall|name: Seq<char>| #[trigger] is_required(cfg, roots, name) ==> cfg.has_task(name)
}

/// What is reported of a run that requires a name that is no task: such a
/// name; and where a requested name is no task, the first of these.
pub open spec fn reports_missing(cfg: &Config, roots: Seq<Seq<char>>, name: Seq<char>) -> bool {
    &&& is_required(cfg, roots, name)
    &&& !cfg.has_task(name)
    &&& forall|i: int|
        0 <= i < roots.len() && !cfg.has_task(#[trigger] roots[i]) && (forall|k: int|
            0 <= k < i ==> cfg.has_task(#[trigger] roots[k])) ==> roots[i] == name
}

/// A requested name is required.
pub proof fn lemma_root_is_required(cfg: &Config, roots: Seq<Seq<char>>, name: Seq<char>)
    requires
        roots.contains(name),
    ensures
        is_required(cfg, roots, name),
{
    let p = seq![name];
    assert(is_dep_path(cfg, p));
    assert(p[0] == name && p.last() == name);
}

/// A dependency of a required task is required.
pub proof fn lemma_dep_is_required(
    cfg: &Config,
    roots: Seq<Seq<char>>,
    name: Seq<char>,
    dep: Seq<char>,
)
    requires
        is_required(cfg, roots, name),
        cfg.deps(name).contains(dep),
    ensures
        is_required(cfg, roots, dep),
{
    let p = choose|p: Seq<Seq<char>>| #[trigger]
        is_dep_path(cfg, p) && roots.contains(p[0]) && p.last() == name;
    let q = p.push(dep);
    assert forall|i: int| 0 <= i < q.len() - 1 implies #[trigger] dep_link(cfg, q, i) by {
        if i < p.len() - 1 {
            assert(dep_link(cfg, p, i));
            assert(q[i] == p[i] && q[i + 1] == p[i + 1]);
        }
    }
    assert(is_dep_path(cfg, q));
    assert(q[0] == p[0] && q.last() == dep);
}

/// A set of names that holds the requested names and, with each task, its
/// dependencies, holds every name along a path from a requested name.
proof fn lemma_closed_holds_path(
    cfg: &Config,
    roots: Seq<Seq<char>>,
    held: Set<Seq<char>>,
    p: Seq<Seq<char>>,
    i: int,
)
    requires
        is_dep_path(cfg, p),
        roots.contains(p[0]),
        forall|r: Seq<char>| roots.contains(r) ==> held.contains(r),
        forall|n: Seq<char>, d: Seq<char>|
            held.contains(n) && #[trigger] cfg.deps(n).contains(d) ==> held.contains(d),
        0 <= i < p.len(),
    ensures
        held.contains(p[i]),
    decreases i,
{
    if i > 0 {
        lemma_closed_holds_path(cfg, roots, held, p, i - 1);
        assert(dep_link(cfg, p, i - 1));
    }
}

/// What a closed set of names holds: every required name.
pub proof fn lemma_closed_holds_required(
    cfg: &Config,
    roots: Seq<Seq<char>>,
    held: Set<Seq<char>>,
)
    requires
        forall|r: Seq<char>| roots.contains(r) ==> held.contains(r),
        forall|n: Seq<char>, d: Seq<char>|
            held.contains(n) && #[trigger] cfg.deps(n).contains(d) ==> held.contains(d),
    ensures
        forall|n: Seq<char>| is_required(cfg, roots, n) ==> held.contains(n),
{
    assert forall|n: Seq<char>| is_required(cfg, roots, n) implies held.contains(n) by {
        let p = choose|p: Seq<Seq<char>>| #[trigger]
            is_dep_path(cfg, p) && roots.contains(p[0]) && p.last() == n;
        lemma_closed_holds_path(cfg, roots, held, p, p.len() - 1);
    }
}

/// The positions in the task list of the tasks that a run of `roots`
/// requires, in the order in which a breadth-first walk from `roots` finds
/// them.
pub open spec fn is_closure(cfg: &Config, roots: Seq<Seq<char>>, req: Seq<usize>) -> bool {
    &&& req.len() <= usize::MAX
    &&& req.no_duplicates()
    &&& forall|a: int| 0 <= a < req.len() ==> (#[trigger] req[a]) < cfg.tasks@.len()
    &&& forall|a: int| 0 <= a < req.len() ==> is_required(cfg, roots, cfg.names()[#[trigger] req[a] as int])
    &&& forall|name: Seq<char>| #[trigger]
        is_required(cfg, roots, name) ==> cfg.has_task(name) && is_labelled(cfg, req, name)
}

/// The name of the required task at position `a` of `req`.
pub open spec fn label(cfg: &Config, req: Seq<usize>, a: usize) -> Seq<char> {
    cfg.names()[req[a as int] as int]
}

/// `name` is the name of some position of `req`.
pub open spec fn is_labelled(cfg: &Config, req: Seq<usize>, name: Seq<char>) -> bool {
    exists|a: usize| a < req.len() && #[trigger] label(cfg, req, a) == name
}

/// Appending to a list of strings keeps what it held and adds the new one.
proof fn lemma_push_keeps(q: Seq<String>, s: String)
    ensures
        strs(q.push(s)).contains(s@),
        forall|x: Seq<char>| strs(q).contains(x) ==> strs(q.push(s)).contains(x),
{
    assert(strs(q.push(s))[q.len() as int] == s@);
    assert forall|x: Seq<char>| strs(q).contains(x) implies strs(q.push(s)).contains(x) by {
        let j = strs(q).index_of(x);
        assert(strs(q.push(s))[j] == x);
    }
}

/// Walks the dependency lists breadth-first from `roots` and returns the
/// positions of the tasks found, or a name met on the way that is no task.
pub fn closure_indices(config: &Config, roots: &Vec<String>) -> (r: Result<Vec<usize>, GraphError>)
    requires
        config.wf(),
    ensures
        match r {
            Ok(req) => is_closure(config, strs(roots@), req@),
            Err(GraphError::TaskNotFound(name)) => reports_missing(config, strs(roots@), name@),
            Err(GraphError::CircularDependency) => false,
        },
{
    let n: usize = config.tasks.len();
    let ghost names = config.names();
    let ghost rs = strs(roots@);
    let mut visited: Vec<bool> = Vec::new();
    let mut i: usize = 0;
    while i < n
        invariant
            i <= n,
            visited@.len() == i,
            forall|j: int| 0 <= j < i ==> !visited@[j],
        decreases n - i,
    {
        visited.push(false);
        i += 1;
    }
    let mut queue: Vec<String> = Vec::new();
    let mut r: usize = 0;
    while r < roots.len()
        invariant
            r <= roots@.len(),
            queue@.len() == r,
            forall|j: int| 0 <= j < r ==> queue@[j]@ == roots@[j]@,
        decreases roots.len() - r,
    {
        queue.push(roots[r].clone());
        r += 1;
    }
    let mut req: Vec<usize> = Vec::new();
    let mut head: usize = 0;
    let ghost mut unvisited: Set<int> = Set::new(|v: int| 0 <= v < n);
    proof {
        vstd::set_lib::lemma_int_range(0, n as int);
        assert(unvisited =~= vstd::set_lib::set_int_range(0, n as int));
        assert(strs(queue@) =~= rs);
        assert forall|q: int| 0 <= q < queue@.len() implies is_required(
            config,
            rs,
            #[trigger] queue@[q]@,
        ) by {
            assert(rs[q] == queue@[q]@);
            lemma_root_is_required(config, rs, queue@[q]@);
        }
    }
    while head < queue.len()
        invariant
            n == config.tasks@.len(),
            names == config.names(),
            rs == strs(roots@),
            config.wf(),
            visited@.len() == n,
            head <= queue@.len(),
            unvisited.finite(),
            forall|v: int| unvisited.contains(v) <==> 0 <= v < n && !visited@[v],
            forall|q: int| 0 <= q < queue@.len() ==> is_required(config, rs, #[trigger] queue@[q]@),
            forall|x: Seq<char>| rs.contains(x) ==> strs(queue@).contains(x),
            rs.len() <= queue@.len(),
            forall|q: int| 0 <= q < rs.len() ==> (#[trigger] queue@[q])@ == rs[q],
            forall|q: int|
                0 <= q < head ==> config.has_task(#[trigger] queue@[q]@) && visited@[config.index_of(
                    queue@[q]@,
                )],
            req@.no_duplicates(),
            forall|a: int| 0 <= a < req@.len() ==> (#[trigger] req@[a]) < n && visited@[req@[a] as int],
            forall|v: int| 0 <= v < n && visited@[v] ==> req@.contains(v as usize),
            forall|v: int| 0 <= v < n && visited@[v] ==> is_required(config, rs, #[trigger] names[v]),
            forall|v: int| 0 <= v < n && visited@[v] ==> strs(queue@).contains(#[trigger] names[v]),
            forall|v: int, k: int|
                0 <= v < n && visited@[v] && 0 <= k < config.tasks@[v].task.depends_on@.len()
                    ==> strs(queue@).contains(#[trigger] config.tasks@[v].task.depends_on@[k]@),
        decreases unvisited.len(), queue@.len() - head,
    {
        let found = config.find_task(queue[head].as_str());
        match found {
            None => {
                proof {
                    let name = queue@[head as int]@;
                    assert forall|i: int|
                        0 <= i < rs.len() && !config.has_task(#[trigger] rs[i]) && (forall|k: int|
                            0 <= k < i ==> config.has_task(#[trigger] rs[k])) implies rs[i]
                        == name by {
                        assert(queue@[i]@ == rs[i]);
                        if i < head {
                            assert(config.has_task(queue@[i]@));
                        } else if head < i {
                            assert(queue@[head as int]@ == rs[head as int]);
                            assert(config.has_task(rs[head as int]));
                        }
                    }
                }
                return Err(GraphError::TaskNotFound(queue[head].clone()));
            },
            Some(t) => {
                assert(names[t as int] == queue@[head as int]@);
                assert(config.index_of(queue@[head as int]@) == t);
                if !visited[t] {
                    let ghost queue_before = queue@;
                    let ghost visited_before = visited@;
                    proof {
                        assert(unvisited.contains(t as int));
                        unvisited = unvisited.remove(t as int);
                    }
                    visited.set(t, true);
                    let ghost req_before = req@;
                    req.push(t);
                    proof {
                        assert(req@[req_before.len() as int] == t);
                        assert forall|a: int, b: int|
                            0 <= a < req@.len() && 0 <= b < req@.len() && a != b implies req@[a]
                            != req@[b] by {
                            if a < req_before.len() {
                                assert(req_before[a] == req@[a]);
                                assert(visited_before[req_before[a] as int]);
                            }
                            if b < req_before.len() {
                                assert(req_before[b] == req@[b]);
                                assert(visited_before[req_before[b] as int]);
                            }
                        }
                        assert forall|a: int| 0 <= a < req@.len() implies (#[trigger] req@[a]) < n
                            && visited@[req@[a] as int] by {
                            if a < req_before.len() {
                                assert(req_before[a] == req@[a]);
                            }
                        }
                        assert forall|v: int| 0 <= v < n && visited@[v] implies req@.contains(
                            v as usize,
                        ) by {
                            if v == t {
                                assert(req@[req_before.len() as int] == v as usize);
                            } else {
                                assert(visited_before[v]);
                                let a = req_before.index_of(v as usize);
                                assert(req@[a] == v as usize);
                            }
                        }
                        assert forall|v: int| 0 <= v < n && visited@[v] implies strs(
                            queue_before,
                        ).contains(#[trigger] names[v]) by {
                            if v == t {
                                assert(strs(queue_before)[head as int] == names[v]);
                            } else {
                                assert(visited_before[v]);
                            }
                        }
                        assert forall|v: int| 0 <= v < n && visited@[v] implies is_required(
                            config,
                            rs,
                            #[trigger] names[v],
                        ) by {
                            if v != t {
                                assert(visited_before[v]);
                            }
                        }
                        assert(config.has_task(names[t as int]));
                        assert(config.deps(names[t as int]) == strs(
                            config.tasks@[t as int].task.depends_on@,
                        ));
                    }
                    let deps = &config.tasks[t].task.depends_on;
                    let mut k: usize = 0;
                    while k < deps.len()
                        invariant
                            k <= deps@.len(),
                            *deps == config.tasks@[t as int].task.depends_on,
                            t < n,
                            n == config.tasks@.len(),
                            names == config.names(),
                            config.wf(),
                            visited@.len() == n,
                            head < queue@.len(),
                            queue_before.len() <= queue@.len(),
                            forall|q: int|
                                0 <= q < queue_before.len() ==> queue@[q] == queue_before[q],
                            forall|x: Seq<char>|
                                strs(queue_before).contains(x) ==> strs(queue@).contains(x),
                            is_required(config, rs, names[t as int]),
                            config.deps(names[t as int]) == strs(deps@),
                            forall|v: int|
                                0 <= v < n && visited@[v] ==> strs(queue_before).contains(
                                    #[trigger] names[v],
                                ),
                            forall|q: int|
                                0 <= q < queue@.len() ==> is_required(
                                    config,
                                    rs,
                                    #[trigger] queue@[q]@,
                                ),
                            forall|j: int| 0 <= j < k ==> strs(queue@).contains(#[trigger] deps@[j]@),
                        decreases deps.len() - k,
                    {
                        let dep = &deps[k];
                        let seen = match config.find_task(dep.as_str()) {
                            Some(j) => visited[j],
                            None => false,
                        };
                        if !seen {
                            let ghost q_prev = queue@;
                            queue.push(dep.clone());
                            proof {
                                lemma_push_keeps(q_prev, queue@[q_prev.len() as int]);
                                assert(queue@ =~= q_prev.push(queue@[q_prev.len() as int]));
                                assert(strs(deps@)[k as int] == dep@);
                                lemma_dep_is_required(config, rs, names[t as int], dep@);
                            }
                        } else {
                            proof {
                                let j = config.index_of(dep@);
                                assert(names[j] == dep@);
                                assert(strs(queue_before).contains(names[j]));
                            }
                        }
                        k += 1;
                    }
                    proof {
                        assert forall|q: int| 0 <= q < rs.len() implies (#[trigger] queue@[q])@
                            == rs[q] by {
                            assert(queue@[q] == queue_before[q]);
                        }
                        assert forall|q: int| 0 <= q < head + 1 implies config.has_task(
                            #[trigger] queue@[q]@,
                        ) && visited@[config.index_of(queue@[q]@)] by {
                            assert(queue@[q] == queue_before[q]);
                            if q < head {
                                assert(visited_before[config.index_of(queue_before[q]@)]);
                            }
                        }
                        assert forall|v: int, k: int|
                            0 <= v < n && visited@[v] && 0 <= k
                                < config.tasks@[v].task.depends_on@.len() implies strs(
                            queue@,
                        ).contains(#[trigger] config.tasks@[v].task.depends_on@[k]@) by {
                            let d = config.tasks@[v].task.depends_on@[k]@;
                            if v == t {
                                assert(deps@[k]@ == d);
                            } else {
                                assert(visited_before[v]);
                                assert(strs(queue_before).contains(d));
                            }
                        }
                    }
                }
                head += 1;
            },
        }
    }
    let m = req.len();
    proof {
        let held = Set::new(|x: Seq<char>| config.has_task(x) && visited@[config.index_of(x)]);
        assert forall|x: Seq<char>| strs(queue@).contains(x) implies held.contains(x) by {
            let q = strs(queue@).index_of(x);
            assert(queue@[q]@ == x);
        }
        assert forall|x: Seq<char>, d: Seq<char>|
            held.contains(x) && #[trigger] config.deps(x).contains(d) implies held.contains(d) by {
            let v = config.index_of(x);
            assert(config.names()[v] == x);
            let k = config.deps(x).index_of(d);
            assert(config.tasks@[v].task.depends_on@[k]@ == d);
        }
        lemma_closed_holds_required(config, rs, held);
        assert forall|name: Seq<char>| is_required(config, rs, name) implies config.has_task(name)
            && is_labelled(config, req@, name) by {
            assert(held.contains(name));
            let v = config.index_of(name);
            assert(config.names()[v] == name);
            assert(req@.contains(v as usize));
            let a = req@.index_of(v as usize);
            assert(label(config, req@, a as usize) == name);
        }
        assert forall|a: int| 0 <= a < req@.len() implies is_required(
            config,
            rs,
            config.names()[#[trigger] req@[a] as int],
        ) by {
            let v = req@[a] as int;
            assert(visited@[v]);
            assert(is_required(config, rs, names[v]));
        }
        assert(is_closure(config, rs, req@));
    }
    Ok(req)
}

/// `order` lists the required names once each, every task after all its
/// dependencies.
pub open spec fn is_topological_order(
    cfg: &Config,
    roots: Seq<Seq<char>>,
    order: Seq<Seq<char>>,
) -> bool {
    &&& order.no_duplicates()
    &&& forall|name: Seq<char>| order.contains(name) <==> is_required(cfg, roots, name)
    &&& forall|i: int, k: int|
        0 <= i < order.len() && 0 <= k < cfg.deps(order[i]).len() ==> stands_before(
            order,
            i,
            #[trigger] cfg.deps(order[i])[k],
        )
}

/// Every dependency of `name` stands in a level before level `l`.
pub open spec fn deps_before(
    cfg: &Config,
    levels: Seq<Seq<Seq<char>>>,
    l: int,
    name: Seq<char>,
) -> bool {
    forall|k: int|
        0 <= k < cfg.deps(name).len() ==> placed_before(levels, l, #[trigger] cfg.deps(name)[k])
}

/// `levels` is the execution plan of a run of `roots`: level `l` holds, once
/// each, exactly the required names that stand in no earlier level and whose
/// dependencies all stand in earlier levels; no level is empty; and every
/// required name stands in some level.
pub open spec fn is_execution_plan(
    cfg: &Config,
    roots: Seq<Seq<char>>,
    levels: Seq<Seq<Seq<char>>>,
) -> bool {
    &&& forall|l: int|
        0 <= l < levels.len() ==> (#[trigger] levels[l]).len() > 0 && levels[l].no_duplicates()
    &&& forall|l: int, name: Seq<char>|
        0 <= l < levels.len() ==> (#[trigger] levels[l].contains(name) <==> is_required(
            cfg,
            roots,
            name,
        ) && !placed_before(levels, l, name) && deps_before(cfg, levels, l, name))
    &&& forall|name: Seq<char>|
        is_required(cfg, roots, name) ==> placed_before(levels, levels.len() as int, name)
}

/// The names of the required tasks at the positions `xs`.
pub open spec fn labels(cfg: &Config, req: Seq<usize>, xs: Seq<usize>) -> Seq<Seq<char>> {
    Seq::new(xs.len(), |i: int| label(cfg, req, xs[i]))
}

/// The names of the required tasks in each level.
pub open spec fn level_labels(
    cfg: &Config,
    req: Seq<usize>,
    levels: Seq<Seq<usize>>,
) -> Seq<Seq<Seq<char>>> {
    Seq::new(levels.len(), |l: int| labels(cfg, req, levels[l]))
}

/// `g` is the dependency graph of the required tasks `req`: node `a` is the
/// task at `req[a]`, and its row names, in order, the nodes of that task's
/// dependencies.
pub open spec fn is_dependency_graph(cfg: &Config, req: Seq<usize>, g: Seq<Seq<usize>>) -> bool {
    &&& g.len() == req.len()
    &&& graph_wf(g)
    &&& forall|a: int|
        0 <= a < g.len() ==> (#[trigger] g[a]).len()
            == cfg.tasks@[req[a] as int].task.depends_on@.len()
    &&& forall|a: int, k: int|
        0 <= a < g.len() && 0 <= k < g[a].len() ==> label(cfg, req, #[trigger] g[a][k])
            == cfg.tasks@[req[a] as int].task.depends_on@[k]@
}

/// The position of `x` in `xs`, if it is there.
fn position_of(xs: &Vec<usize>, x: usize) -> (r: Option<usize>)
    ensures
        match r {
            Some(a) => a < xs@.len() && xs@[a as int] == x,
            None => !xs@.contains(x),
        },
{
    let mut a: usize = 0;
    while a < xs.len()
        invariant
            a <= xs@.len(),
            forall|j: int| 0 <= j < a ==> xs@[j] != x,
        decreases xs.len() - a,
    {
        if xs[a] == x {
            return Some(a);
        }
        a += 1;
    }
    None
}

/// The dependency graph of the required tasks.
fn dependency_rows(config: &Config, req: &Vec<usize>, Ghost(roots): Ghost<Seq<Seq<char>>>) -> (g:
    Vec<Vec<usize>>)
    requires
        config.wf(),
        is_closure(config, roots, req@),
    ensures
        is_dependency_graph(config, req@, rows(g@)),
{
    let mut g: Vec<Vec<usize>> = Vec::new();
    let mut a: usize = 0;
    while a < req.len()
        invariant
            a <= req@.len(),
            config.wf(),
            is_closure(config, roots, req@),
            g@.len() == a,
            forall|b: int, k: int|
                0 <= b < a && 0 <= k < g@[b]@.len() ==> (#[trigger] g@[b]@[k]) < req@.len(),
            forall|b: int|
                0 <= b < a ==> (#[trigger] g@[b])@.len()
                    == config.tasks@[req@[b] as int].task.depends_on@.len(),
            forall|b: int, k: int|
                0 <= b < a && 0 <= k < g@[b]@.len() ==> label(config, req@, #[trigger] g@[b]@[k])
                    == config.tasks@[req@[b] as int].task.depends_on@[k]@,
        decreases req.len() - a,
    {
        let t = req[a];
        let deps = &config.tasks[t].task.depends_on;
        let ghost name = config.names()[t as int];
        proof {
            assert(is_required(config, roots, config.names()[req@[a as int] as int]));
            assert(config.has_task(name));
            let x = config.index_of(name);
            assert(config.names()[x] == name);
            assert(config.deps(name) == strs(deps@));
        }
        let mut row: Vec<usize> = Vec::new();
        let mut k: usize = 0;
        while k < deps.len()
            invariant
                k <= deps@.len(),
                config.wf(),
                is_closure(config, roots, req@),
                is_required(config, roots, name),
                config.deps(name) == strs(deps@),
                row@.len() == k,
                forall|j: int| 0 <= j < k ==> (#[trigger] row@[j]) < req@.len(),
                forall|j: int|
                    0 <= j < k ==> label(config, req@, #[trigger] row@[j]) == deps@[j]@,
            decreases deps.len() - k,
        {
            proof {
                let d = deps@[k as int]@;
                assert(strs(deps@)[k as int] == d);
                lemma_dep_is_required(config, roots, name, d);
                assert(is_labelled(config, req@, d));
                let b = choose|b: usize| b < req@.len() && #[trigger] label(config, req@, b) == d;
                let x = config.index_of(d);
                assert(config.names()[x] == d);
                assert(req@[b as int] < config.tasks@.len());
                assert(req@[b as int] == x);
            }
            let node = match config.find_task(deps[k].as_str()) {
                Some(j) => match position_of(req, j) {
                    Some(b) => b,
                    None => {
                        proof {
                            assert(false);
                        }
                        0
                    },
                },
                None => {
                    proof {
                        assert(false);
                    }
                    0
                },
            };
            row.push(node);
            k += 1;
        }
        g.push(row);
        a += 1;
    }
    proof {
        let gr = rows(g@);
        assert forall|b: int, k: int| 0 <= b < gr.len() && 0 <= k < gr[b].len() implies (
        #[trigger] gr[b][k]) < gr.len() by {
            assert(g@[b]@[k] < req@.len());
        }
        assert forall|b: int| 0 <= b < gr.len() implies (#[trigger] gr[b]).len()
            == config.tasks@[req@[b] as int].task.depends_on@.len() by {
            assert(g@[b]@.len() == config.tasks@[req@[b] as int].task.depends_on@.len());
        }
        assert forall|b: int, k: int| 0 <= b < gr.len() && 0 <= k < gr[b].len() implies label(
            config,
            req@,
            #[trigger] gr[b][k],
        ) == config.tasks@[req@[b] as int].task.depends_on@[k]@ by {
            assert(label(config, req@, g@[b]@[k]) == config.tasks@[req@[b] as int].task.depends_on@[k]@);
        }
    }
    g
}

/// The names of the required tasks at the positions `xs`, in order.
fn names_at(config: &Config, req: &Vec<usize>, xs: &Vec<usize>) -> (out: Vec<String>)
    requires
        forall|a: int| 0 <= a < req@.len() ==> (#[trigger] req@[a]) < config.tasks@.len(),
        forall|i: int| 0 <= i < xs@.len() ==> (#[trigger] xs@[i]) < req@.len(),
    ensures
        strs(out@) == labels(config, req@, xs@),
{
    let mut out: Vec<String> = Vec::new();
    let mut i: usize = 0;
    while i < xs.len()
        invariant
            i <= xs@.len(),
            out@.len() == i,
            forall|a: int| 0 <= a < req@.len() ==> (#[trigger] req@[a]) < config.tasks@.len(),
            forall|j: int| 0 <= j < xs@.len() ==> (#[trigger] xs@[j]) < req@.len(),
            forall|j: int| 0 <= j < i ==> out@[j]@ == label(config, req@, xs@[j]),
        decreases xs.len() - i,
    {
        let a = xs[i];
        let t = req[a];
        out.push(config.tasks[t].name.clone());
        i += 1;
    }
    assert(strs(out@) =~= labels(config, req@, xs@));
    out
}

/// What the lemmas below assume: a well-formed configuration, its required
/// tasks, and their dependency graph.
pub open spec fn is_graph_of(
    cfg: &Config,
    roots: Seq<Seq<char>>,
    req: Seq<usize>,
    g: Seq<Seq<usize>>,
) -> bool {
    &&& cfg.wf()
    &&& is_closure(cfg, roots, req)
    &&& is_dependency_graph(cfg, req, g)
}

/// Two positions of `req` with the same name are the same position.
proof fn lemma_label_injective(cfg: &Config, roots: Seq<Seq<char>>, req: Seq<usize>, a: usize, b: usize)
    requires
        cfg.wf(),
        is_closure(cfg, roots, req),
        a < req.len(),
        b < req.len(),
        label(cfg, req, a) == label(cfg, req, b),
    ensures
        a == b,
{
    assert(req[a as int] < cfg.tasks@.len());
    assert(req[b as int] < cfg.tasks@.len());
    assert(cfg.names()[req[a as int] as int] == cfg.names()[req[b as int] as int]);
    assert(req[a as int] == req[b as int]);
}

/// A required name is the name of a position of `req`.
proof fn lemma_label_of_required(cfg: &Config, roots: Seq<Seq<char>>, req: Seq<usize>, name: Seq<char>) -> (a:
    usize)
    requires
        cfg.wf(),
        is_closure(cfg, roots, req),
        is_required(cfg, roots, name),
    ensures
        a < req.len(),
        label(cfg, req, a) == name,
        req[a as int] == cfg.index_of(name),
{
    let t = cfg.index_of(name);
    assert(cfg.has_task(name));
    assert(cfg.names()[t] == name);
    assert(is_labelled(cfg, req, name));
    let a = choose|a: usize| a < req.len() && #[trigger] label(cfg, req, a) == name;
    assert(req[a as int] < cfg.tasks@.len());
    a
}

/// The name of a position of `req` is required, and is the name of the task
/// at that position.
proof fn lemma_label_is_required(cfg: &Config, roots: Seq<Seq<char>>, req: Seq<usize>, a: usize)
    requires
        cfg.wf(),
        is_closure(cfg, roots, req),
        a < req.len(),
    ensures
        is_required(cfg, roots, label(cfg, req, a)),
        cfg.has_task(label(cfg, req, a)),
        cfg.index_of(label(cfg, req, a)) == req[a as int],
{
    let name = label(cfg, req, a);
    assert(req[a as int] < cfg.tasks@.len());
    assert(is_required(cfg, roots, cfg.names()[req[a as int] as int]));
    assert(cfg.has_task(name));
    let t = cfg.index_of(name);
    assert(cfg.names()[t] == name);
}

/// The names at `xs` hold the name of `a` exactly when `xs` holds `a`.
proof fn lemma_labels_contains(
    cfg: &Config,
    roots: Seq<Seq<char>>,
    req: Seq<usize>,
    xs: Seq<usize>,
    a: usize,
)
    requires
        cfg.wf(),
        is_closure(cfg, roots, req),
        forall|i: int| 0 <= i < xs.len() ==> (#[trigger] xs[i]) < req.len(),
        a < req.len(),
    ensures
        labels(cfg, req, xs).contains(label(cfg, req, a)) <==> xs.contains(a),
{
    let ls = labels(cfg, req, xs);
    if ls.contains(label(cfg, req, a)) {
        let i = ls.index_of(label(cfg, req, a));
        assert(xs[i] < req.len());
        lemma_label_injective(cfg, roots, req, xs[i], a);
    }
    if xs.contains(a) {
        let i = xs.index_of(a);
        assert(ls[i] == label(cfg, req, a));
    }
}

/// The dependencies of the task at position `a` are the names of its row.
proof fn lemma_deps_are_row_labels(
    cfg: &Config,
    roots: Seq<Seq<char>>,
    req: Seq<usize>,
    g: Seq<Seq<usize>>,
    a: usize,
)
    requires
        is_graph_of(cfg, roots, req, g),
        a < req.len(),
    ensures
        cfg.deps(label(cfg, req, a)) == labels(cfg, req, g[a as int]),
{
    lemma_label_is_required(cfg, roots, req, a);
    let deps = cfg.tasks@[req[a as int] as int].task.depends_on@;
    assert(cfg.deps(label(cfg, req, a)) == strs(deps));
    assert(g[a as int].len() == deps.len());
    assert forall|k: int| 0 <= k < deps.len() implies strs(deps)[k] == labels(
        cfg,
        req,
        g[a as int],
    )[k] by {
        assert(label(cfg, req, g[a as int][k]) == deps[k]@);
    }
    assert(strs(deps) =~= labels(cfg, req, g[a as int]));
}

/// A name stands in an earlier level exactly when its position does.
proof fn lemma_placed_labels(
    cfg: &Config,
    roots: Seq<Seq<char>>,
    req: Seq<usize>,
    levels: Seq<Seq<usize>>,
    l: int,
    a: usize,
)
    requires
        cfg.wf(),
        is_closure(cfg, roots, req),
        forall|x: int, b: int|
            0 <= x < levels.len() && 0 <= b < levels[x].len() ==> (#[trigger] levels[x][b])
                < req.len(),
        a < req.len(),
    ensures
        placed_before(level_labels(cfg, req, levels), l, label(cfg, req, a)) <==> placed_before(
            levels,
            l,
            a,
        ),
{
    let named = level_labels(cfg, req, levels);
    let name = label(cfg, req, a);
    if placed_before(named, l, name) {
        let x = choose|x: int| 0 <= x < l && x < named.len() && #[trigger] named[x].contains(name);
        assert forall|i: int| 0 <= i < levels[x].len() implies (#[trigger] levels[x][i])
            < req.len() by {}
        lemma_labels_contains(cfg, roots, req, levels[x], a);
        assert(levels[x].contains(a));
    }
    if placed_before(levels, l, a) {
        let x = choose|x: int| 0 <= x < l && x < levels.len() && #[trigger] levels[x].contains(a);
        assert forall|i: int| 0 <= i < levels[x].len() implies (#[trigger] levels[x][i])
            < req.len() by {}
        lemma_labels_contains(cfg, roots, req, levels[x], a);
        assert(named[x].contains(name));
    }
}

/// The dependencies of a name stand in earlier levels exactly when the
/// position of the name is ready.
proof fn lemma_ready_labels(
    cfg: &Config,
    roots: Seq<Seq<char>>,
    req: Seq<usize>,
    g: Seq<Seq<usize>>,
    levels: Seq<Seq<usize>>,
    l: int,
    a: usize,
)
    requires
        is_graph_of(cfg, roots, req, g),
        forall|x: int, b: int|
            0 <= x < levels.len() && 0 <= b < levels[x].len() ==> (#[trigger] levels[x][b])
                < req.len(),
        a < req.len(),
    ensures
        deps_before(cfg, level_labels(cfg, req, levels), l, label(cfg, req, a)) <==> ready_at(
            g,
            levels,
            l,
            a,
        ),
{
    let named = level_labels(cfg, req, levels);
    let name = label(cfg, req, a);
    lemma_deps_are_row_labels(cfg, roots, req, g, a);
    let row = g[a as int];
    if deps_before(cfg, named, l, name) {
        assert forall|k: int| 0 <= k < row.len() implies placed_before(
            levels,
            l,
            #[trigger] row[k],
        ) by {
            assert(cfg.deps(name)[k] == label(cfg, req, row[k]));
            assert(placed_before(named, l, cfg.deps(name)[k]));
            lemma_placed_labels(cfg, roots, req, levels, l, row[k]);
        }
    }
    if ready_at(g, levels, l, a) {
        assert forall|k: int| 0 <= k < cfg.deps(name).len() implies placed_before(
            named,
            l,
            #[trigger] cfg.deps(name)[k],
        ) by {
            assert(cfg.deps(name)[k] == label(cfg, req, row[k]));
            assert(placed_before(levels, l, row[k]));
            lemma_placed_labels(cfg, roots, req, levels, l, row[k]);
        }
    }
}

/// The names of a level plan of the dependency graph form the execution
/// plan.
proof fn lemma_plan_to_names(
    cfg: &Config,
    roots: Seq<Seq<char>>,
    req: Seq<usize>,
    g: Seq<Seq<usize>>,
    levels: Seq<Seq<usize>>,
)
    requires
        is_graph_of(cfg, roots, req, g),
        is_level_plan(g, levels),
    ensures
        is_execution_plan(cfg, roots, level_labels(cfg, req, levels)),
{
    let named = level_labels(cfg, req, levels);
    assert forall|l: int| 0 <= l < named.len() implies (#[trigger] named[l]).len() > 0
        && named[l].no_duplicates() by {
        assert(levels[l].len() > 0 && levels[l].no_duplicates());
        assert forall|i: int, j: int|
            0 <= i < named[l].len() && 0 <= j < named[l].len() && i != j implies named[l][i]
            != named[l][j] by {
            assert(levels[l][i] < g.len());
            assert(levels[l][j] < g.len());
            if named[l][i] == named[l][j] {
                lemma_label_injective(cfg, roots, req, levels[l][i], levels[l][j]);
            }
        }
    }
    assert forall|l: int, name: Seq<char>| 0 <= l < named.len() implies (
    #[trigger] named[l].contains(name) <==> is_required(cfg, roots, name) && !placed_before(
        named,
        l,
        name,
    ) && deps_before(cfg, named, l, name)) by {
        assert forall|i: int| 0 <= i < levels[l].len() implies (#[trigger] levels[l][i])
            < req.len() by {
            assert(levels[l][i] < g.len());
        }
        if named[l].contains(name) {
            let i = named[l].index_of(name);
            let a = levels[l][i];
            assert(a < g.len());
            assert(label(cfg, req, a) == name);
            lemma_label_is_required(cfg, roots, req, a);
            assert(levels[l].contains(a));
            lemma_placed_labels(cfg, roots, req, levels, l, a);
            lemma_ready_labels(cfg, roots, req, g, levels, l, a);
        }
        if is_required(cfg, roots, name) && !placed_before(named, l, name) && deps_before(
            cfg,
            named,
            l,
            name,
        ) {
            let a = lemma_label_of_required(cfg, roots, req, name);
            lemma_placed_labels(cfg, roots, req, levels, l, a);
            lemma_ready_labels(cfg, roots, req, g, levels, l, a);
            assert(levels[l].contains(a));
            lemma_labels_contains(cfg, roots, req, levels[l], a);
        }
    }
    assert forall|name: Seq<char>| is_required(cfg, roots, name) implies placed_before(
        named,
        named.len() as int,
        name,
    ) by {
        let a = lemma_label_of_required(cfg, roots, req, name);
        assert(placed_before(levels, levels.len() as int, a));
        lemma_placed_labels(cfg, roots, req, levels, levels.len() as int, a);
    }
}

/// The names of an order of the dependency graph form a topological order
/// of the required tasks.
proof fn lemma_order_to_names(
    cfg: &Config,
    roots: Seq<Seq<char>>,
    req: Seq<usize>,
    g: Seq<Seq<usize>>,
    order: Seq<usize>,
)
    requires
        is_graph_of(cfg, roots, req, g),
        is_index_order(g, order),
    ensures
        is_topological_order(cfg, roots, labels(cfg, req, order)),
{
    let named = labels(cfg, req, order);
    assert forall|i: int, j: int|
        0 <= i < named.len() && 0 <= j < named.len() && i != j implies named[i] != named[j] by {
        assert(order[i] < g.len() && order[j] < g.len());
        if named[i] == named[j] {
            lemma_label_injective(cfg, roots, req, order[i], order[j]);
        }
    }
    assert forall|name: Seq<char>| named.contains(name) <==> is_required(cfg, roots, name) by {
        if named.contains(name) {
            let i = named.index_of(name);
            assert(order[i] < g.len());
            lemma_label_is_required(cfg, roots, req, order[i]);
        }
        if is_required(cfg, roots, name) {
            let a = lemma_label_of_required(cfg, roots, req, name);
            assert(order.contains(a));
            let i = order.index_of(a);
            assert(named[i] == name);
        }
    }
    assert forall|i: int, k: int|
        0 <= i < named.len() && 0 <= k < cfg.deps(named[i]).len() implies stands_before(
        named,
        i,
        #[trigger] cfg.deps(named[i])[k],
    ) by {
        let a = order[i];
        assert(a < g.len());
        lemma_deps_are_row_labels(cfg, roots, req, g, a);
        let d = g[a as int][k];
        assert(cfg.deps(named[i])[k] == label(cfg, req, d));
        assert(stands_before(order, i, g[order[i] as int][k]));
        let j = choose|j: int| 0 <= j < i && j < order.len() && order[j] == d;
        assert(named[j] == label(cfg, req, d));
    }
}

/// Where the dependency graph has no order, the required tasks have no
/// topological order.
proof fn lemma_no_order_no_names(
    cfg: &Config,
    roots: Seq<Seq<char>>,
    req: Seq<usize>,
    g: Seq<Seq<usize>>,
)
    requires
        is_graph_of(cfg, roots, req, g),
        !exists|order: Seq<usize>| is_index_order(g, order),
    ensures
        !exists|named: Seq<Seq<char>>| is_topological_order(cfg, roots, named),
{
    if exists|named: Seq<Seq<char>>| is_topological_order(cfg, roots, named) {
        let named = choose|named: Seq<Seq<char>>| is_topological_order(cfg, roots, named);
        let m = req.len();
        let all = Seq::new(m, |a: int| label(cfg, req, a as usize));
        assert forall|a: int, b: int| 0 <= a < m && 0 <= b < m && a != b implies all[a]
            != all[b] by {
            if all[a] == all[b] {
                lemma_label_injective(cfg, roots, req, a as usize, b as usize);
            }
        }
        assert(all.to_set() =~= named.to_set()) by {
            assert forall|name: Seq<char>| all.to_set().contains(name) <==> named.to_set().contains(
                name,
            ) by {
                if all.contains(name) {
                    let a = all.index_of(name);
                    lemma_label_is_required(cfg, roots, req, a as usize);
                }
                if named.contains(name) {
                    let a = lemma_label_of_required(cfg, roots, req, name);
                    assert(all[a as int] == name);
                }
            }
        }
        all.unique_seq_to_set();
        named.unique_seq_to_set();
        assert(named.len() == m);
        let order = Seq::new(
            m,
            |i: int| choose|a: usize| a < req.len() && #[trigger] label(cfg, req, a) == named[i],
        );
        assert forall|i: int| 0 <= i < m implies (#[trigger] order[i]) < m && label(
            cfg,
            req,
            order[i],
        ) == named[i] by {
            assert(named.contains(named[i]));
            assert(is_labelled(cfg, req, named[i]));
        }
        assert forall|i: int, j: int| 0 <= i < m && 0 <= j < m && i != j implies order[i]
            != order[j] by {
            assert(label(cfg, req, order[i]) == named[i]);
            assert(label(cfg, req, order[j]) == named[j]);
        }
        assert forall|v: usize| v < g.len() implies order.contains(v) by {
            lemma_label_is_required(cfg, roots, req, v);
            let name = label(cfg, req, v);
            assert(named.contains(name));
            let i = named.index_of(name);
            assert(label(cfg, req, order[i]) == named[i]);
            lemma_label_injective(cfg, roots, req, order[i], v);
        }
        assert forall|i: int, k: int|
            0 <= i < order.len() && 0 <= k < g[order[i] as int].len() implies stands_before(
            order,
            i,
            #[trigger] g[order[i] as int][k],
        ) by {
            let a = order[i];
            assert(a < m && label(cfg, req, a) == named[i]);
            lemma_deps_are_row_labels(cfg, roots, req, g, a);
            let d = g[a as int][k];
            assert(d < g.len());
            assert(cfg.deps(named[i])[k] == label(cfg, req, d));
            assert(stands_before(named, i, cfg.deps(named[i])[k]));
            let j = choose|j: int| 0 <= j < i && j < named.len() && named[j] == label(cfg, req, d);
            assert(label(cfg, req, order[j]) == named[j]);
            lemma_label_injective(cfg, roots, req, order[j], d);
        }
        assert(is_index_order(g, order));
        assert(false);
    }
}

/// `p` is a circle of dependencies among the required tasks: a chain of at
/// least one dependency that begins with a required name and ends where it
/// began.
pub open spec fn is_cycle(cfg: &Config, roots: Seq<Seq<char>>, p: Seq<Seq<char>>) -> bool {
    &&& is_dep_path(cfg, p)
    &&& p.len() >= 2
    &&& p[0] == p.last()
    &&& is_required(cfg, roots, p[0])
}

/// Required tasks depend on each other in a circle.
pub open spec fn has_cycle(cfg: &Config, roots: Seq<Seq<char>>) -> bool {
    exists|p: Seq<Seq<char>>| is_cycle(cfg, roots, p)
}

/// Along a chain that begins with a required name, every name is required
/// and, in a topological order, stands before the name before it.
proof fn lemma_chain_descends(
    cfg: &Config,
    roots: Seq<Seq<char>>,
    p: Seq<Seq<char>>,
    order: Seq<Seq<char>>,
    t: int,
)
    requires
        is_dep_path(cfg, p),
        is_required(cfg, roots, p[0]),
        is_topological_order(cfg, roots, order),
        0 <= t < p.len(),
    ensures
        is_required(cfg, roots, p[t]),
        order.contains(p[t]),
        order.index_of(p[t]) + t <= order.index_of(p[0]),
    decreases t,
{
    if t > 0 {
        lemma_chain_descends(cfg, roots, p, order, t - 1);
        let name = p[t - 1];
        assert(dep_link(cfg, p, t - 1));
        lemma_dep_is_required(cfg, roots, name, p[t]);
        assert(order.contains(p[t]));
        let at = order.index_of(name);
        assert(order[at] == name);
        let k = cfg.deps(name).index_of(p[t]);
        assert(cfg.deps(name)[k] == p[t]);
        assert(stands_before(order, at, cfg.deps(order[at])[k]));
        let j = choose|j: int| 0 <= j < at && j < order.len() && order[j] == p[t];
        let found = order.index_of(p[t]);
        assert(order[found] == p[t]);
        assert(found == j);
    } else {
        assert(order.contains(p[0]));
    }
}

/// Required tasks that depend on each other in a circle cannot be put in
/// any topological order.
pub proof fn lemma_cycle_excludes_order(
    cfg: &Config,
    roots: Seq<Seq<char>>,
    p: Seq<Seq<char>>,
    order: Seq<Seq<char>>,
)
    requires
        is_cycle(cfg, roots, p),
    ensures
        !is_topological_order(cfg, roots, order),
{
    if is_topological_order(cfg, roots, order) {
        lemma_chain_descends(cfg, roots, p, order, p.len() - 1);
    }
}

/// Required tasks that can be put in a topological order do not depend on
/// each other in a circle.
pub proof fn lemma_order_excludes_cycle(cfg: &Config, roots: Seq<Seq<char>>, order: Seq<Seq<char>>)
    requires
        is_topological_order(cfg, roots, order),
    ensures
        !has_cycle(cfg, roots),
{
    if has_cycle(cfg, roots) {
        let p = choose|p: Seq<Seq<char>>| is_cycle(cfg, roots, p);
        lemma_cycle_excludes_order(cfg, roots, p, order);
    }
}

/// A circle in the dependency graph is a circle among the required tasks.
proof fn lemma_cycle_to_names(
    cfg: &Config,
    roots: Seq<Seq<char>>,
    req: Seq<usize>,
    g: Seq<Seq<usize>>,
    w: Seq<usize>,
)
    requires
        is_graph_of(cfg, roots, req, g),
        is_index_cycle(g, w),
    ensures
        is_cycle(cfg, roots, labels(cfg, req, w)),
{
    let p = labels(cfg, req, w);
    assert forall|i: int| 0 <= i < p.len() - 1 implies #[trigger] dep_link(cfg, p, i) by {
        let a = w[i];
        assert(a < g.len());
        lemma_deps_are_row_labels(cfg, roots, req, g, a);
        assert(index_link(g, w, i));
        let k = g[a as int].index_of(w[i + 1]);
        assert(g[a as int][k] == w[i + 1]);
        assert(labels(cfg, req, g[a as int])[k] == label(cfg, req, w[i + 1]));
        assert(cfg.deps(p[i]).contains(p[i + 1]));
    }
    assert(w[0] < g.len());
    lemma_label_is_required(cfg, roots, req, w[0]);
    assert(p[0] == label(cfg, req, w[0]));
    assert(p.last() == label(cfg, req, w[w.len() - 1]));
}

/// The required tasks of a run, their dependency graph and its level plan,
/// all by position.
struct IndexPlan {
    req: Vec<usize>,
    graph: Vec<Vec<usize>>,
    levels: Vec<Vec<usize>>,
}

/// Finds the required tasks and groups them into levels.
fn plan_indices(config: &Config, roots: &Vec<String>) -> (r: Result<IndexPlan, GraphError>)
    requires
        config.wf(),
    ensures
        match r {
            Ok(plan) => is_graph_of(config, strs(roots@), plan.req@, rows(plan.graph@))
                && is_level_plan(rows(plan.graph@), rows(plan.levels@)) && concat(
                rows(plan.levels@),
            ).len() == plan.req@.len(),
            Err(GraphError::TaskNotFound(name)) => reports_missing(config, strs(roots@), name@),
            Err(GraphError::CircularDependency) => required_exist(config, strs(roots@))
                && has_cycle(config, strs(roots@)) && !exists|order: Seq<Seq<char>>|
                is_topological_order(config, strs(roots@), order),
        },
{
    let req = match closure_indices(config, roots) {
        Ok(req) => req,
        Err(e) => {
            return Err(e);
        },
    };
    let graph = dependency_rows(config, &req, Ghost(strs(roots@)));
    match level_plan(&graph) {
        Some(levels) => Ok(IndexPlan { req, graph, levels }),
        None => {
            proof {
                lemma_no_order_no_names(config, strs(roots@), req@, rows(graph@));
                let w = choose|w: Seq<usize>| is_index_cycle(rows(graph@), w);
                lemma_cycle_to_names(config, strs(roots@), req@, rows(graph@), w);
            }
            Err(GraphError::CircularDependency)
        },
    }
}

/// The views of a sequence of string slices, in order.
pub open spec fn str_refs(v: Seq<&str>) -> Seq<Seq<char>> {
    Seq::new(v.len(), |i: int| v[i]@)
}

/// The views of the strings of each level.
pub open spec fn level_names(levels: Seq<Vec<String>>) -> Seq<Seq<Seq<char>>> {
    Seq::new(levels.len(), |l: int| strs(levels[l]@))
}

/// Owned copies of the given names.
fn owned_names(names: &[&str]) -> (out: Vec<String>)
    ensures
        strs(out@) == str_refs(names@),
{
    let mut out: Vec<String> = Vec::new();
    let mut i: usize = 0;
    while i < names.len()
        invariant
            i <= names@.len(),
            out@.len() == i,
            forall|j: int| 0 <= j < i ==> out@[j]@ == names@[j]@,
        decreases names.len() - i,
    {
        out.push(names[i].to_owned());
        i += 1;
    }
    assert(strs(out@) =~= str_refs(names@));
    out
}

/// A topological order lists as many names as the run requires.
pub proof fn lemma_order_length(cfg: &Config, roots: Seq<Seq<char>>, order: Seq<Seq<char>>)
    requires
        is_topological_order(cfg, roots, order),
    ensures
        required_set(cfg, roots).finite(),
        order.len() == required_set(cfg, roots).len(),
{
    assert(order.to_set() =~= required_set(cfg, roots));
    order.unique_seq_to_set();
}

/// The tasks that a run of `task_names` requires: the requested tasks and
/// all their dependencies, each once, in the order in which a breadth-first
/// walk finds them. Fails with the name of a missing task where a requested
/// name or a dependency of a required task does not exist.
pub fn collect_required_tasks(config: &Config, task_names: &[&str]) -> (r: Result<
    Vec<String>,
    GraphError,
>)
    requires
        config.wf(),
    ensures
        match r {
            Ok(required) => {
                &&& required_exist(config, str_refs(task_names@))
                &&& strs(required@).no_duplicates()
                &&& forall|name: Seq<char>|
                    strs(required@).contains(name) <==> is_required(
                        config,
                        str_refs(task_names@),
                        name,
                    )
            },
            Err(GraphError::TaskNotFound(name)) => reports_missing(
                config,
                str_refs(task_names@),
                name@,
            ),
            Err(GraphError::CircularDependency) => false,
        },
{
    let roots = owned_names(task_names);
    let ghost rs = strs(roots@);
    let req = match closure_indices(config, &roots) {
        Ok(req) => req,
        Err(e) => {
            return Err(e);
        },
    };
    let mut all: Vec<usize> = Vec::new();
    let mut a: usize = 0;
    while a < req.len()
        invariant
            a <= req@.len(),
            all@.len() == a,
            forall|j: int| 0 <= j < a ==> all@[j] == j,
        decreases req.len() - a,
    {
        all.push(a);
        a += 1;
    }
    let out = names_at(config, &req, &all);
    proof {
        let named = strs(out@);
        assert forall|i: int, j: int|
            0 <= i < named.len() && 0 <= j < named.len() && i != j implies named[i]
            != named[j] by {
            if named[i] == named[j] {
                lemma_label_injective(config, rs, req@, all@[i], all@[j]);
            }
        }
        assert forall|name: Seq<char>| named.contains(name) <==> is_required(config, rs, name) by {
            if named.contains(name) {
                let i = named.index_of(name);
                lemma_label_is_required(config, rs, req@, all@[i]);
            }
            if is_required(config, rs, name) {
                let b = lemma_label_of_required(config, rs, req@, name);
                assert(named[b as int] == name);
            }
        }
    }
    Ok(out)
}

/// The names of concatenated levels are the concatenated names of the
/// levels.
proof fn lemma_labels_of_concat(cfg: &Config, req: Seq<usize>, levels: Seq<Seq<usize>>)
    ensures
        labels(cfg, req, concat(levels)) == concat(level_labels(cfg, req, levels)),
    decreases levels.len(),
{
    let named = level_labels(cfg, req, levels);
    if levels.len() == 0 {
        assert(labels(cfg, req, concat(levels)) =~= concat(named));
    } else {
        let head = levels.drop_last();
        lemma_labels_of_concat(cfg, req, head);
        assert(named.drop_last() =~= level_labels(cfg, req, head));
        assert(named.last() == labels(cfg, req, levels.last()));
        assert(labels(cfg, req, concat(levels)) =~= labels(cfg, req, concat(head)) + labels(
            cfg,
            req,
            levels.last(),
        ));
    }
}

/// `order` runs through the execution plan level by level.
pub open spec fn is_level_order(cfg: &Config, roots: Seq<Seq<char>>, order: Seq<Seq<char>>) -> bool {
    exists|levels: Seq<Seq<Seq<char>>>| #[trigger]
        is_execution_plan(cfg, roots, levels) && order == concat(levels)
}

/// An order in which the tasks that a run of `task_names` requires can run:
/// each required task once, after all its dependencies. The order is that of
/// Kahn's algorithm with a first-in, first-out queue: level by level.
///
/// Fails with `TaskNotFound` exactly when a required name is no task, and
/// with `CircularDependency` exactly when all exist and some of them depend
/// on each other in a circle, which is when no such order exists.
pub fn topological_sort(config: &Config, task_names: &[&str]) -> (r: Result<Vec<String>, GraphError>)
    requires
        config.wf(),
    ensures
        match r {
            Ok(order) => {
                &&& required_exist(config, str_refs(task_names@))
                &&& is_topological_order(config, str_refs(task_names@), strs(order@))
                &&& is_level_order(config, str_refs(task_names@), strs(order@))
                &&& order@.len() == required_set(config, str_refs(task_names@)).len()
                &&& !has_cycle(config, str_refs(task_names@))
            },
            Err(GraphError::TaskNotFound(name)) => reports_missing(
                config,
                str_refs(task_names@),
                name@,
            ),
            Err(GraphError::CircularDependency) => required_exist(config, str_refs(task_names@))
                && has_cycle(config, str_refs(task_names@)) && !exists|order: Seq<Seq<char>>|
                is_topological_order(config, str_refs(task_names@), order),
        },
{
    let roots = owned_names(task_names);
    let ghost rs = strs(roots@);
    let plan = match plan_indices(config, &roots) {
        Ok(plan) => plan,
        Err(e) => {
            return Err(e);
        },
    };
    let order = flatten(&plan.levels);
    proof {
        lemma_plan_gives_order(rows(plan.graph@), rows(plan.levels@));
        lemma_order_to_names(config, rs, plan.req@, rows(plan.graph@), order@);
        lemma_order_length(config, rs, labels(config, plan.req@, order@));
        lemma_order_excludes_cycle(config, rs, labels(config, plan.req@, order@));
        lemma_plan_to_names(config, rs, plan.req@, rows(plan.graph@), rows(plan.levels@));
        lemma_labels_of_concat(config, plan.req@, rows(plan.levels@));
        assert(is_execution_plan(
            config,
            rs,
            level_labels(config, plan.req@, rows(plan.levels@)),
        ));
    }
    let out = names_at(config, &plan.req, &order);
    Ok(out)
}

/// The concatenated levels of an execution plan hold every required name
/// once, and nothing else.
pub proof fn lemma_levels_cover_required(
    cfg: &Config,
    roots: Seq<Seq<char>>,
    levels: Seq<Seq<Seq<char>>>,
)
    requires
        is_execution_plan(cfg, roots, levels),
    ensures
        concat(levels).no_duplicates(),
        forall|name: Seq<char>| concat(levels).contains(name) <==> is_required(cfg, roots, name),
        required_set(cfg, roots).finite(),
        concat(levels).len() == required_set(cfg, roots).len(),
{
    assert forall|a: int, b: int, x: Seq<char>|
        0 <= a < b < levels.len() && #[trigger] levels[a].contains(x) implies !(
    #[trigger] levels[b].contains(x)) by {
        assert(placed_before(levels, b, x));
    }
    lemma_concat_no_duplicates(levels);
    assert forall|name: Seq<char>| concat(levels).contains(name) <==> is_required(
        cfg,
        roots,
        name,
    ) by {
        lemma_concat_contains(levels, name);
        if is_required(cfg, roots, name) {
            assert(placed_before(levels, levels.len() as int, name));
        }
    }
    assert(concat(levels).to_set() =~= required_set(cfg, roots));
    concat(levels).unique_seq_to_set();
}

/// In an execution plan every dependency of a task stands in an earlier
/// level than the task.
pub proof fn lemma_levels_respect_dependencies(
    cfg: &Config,
    roots: Seq<Seq<char>>,
    levels: Seq<Seq<Seq<char>>>,
    l: int,
    name: Seq<char>,
    dep: Seq<char>,
)
    requires
        is_execution_plan(cfg, roots, levels),
        0 <= l < levels.len(),
        levels[l].contains(name),
        cfg.deps(name).contains(dep),
    ensures
        placed_before(levels, l, dep),
        !levels[l].contains(dep),
{
    assert(deps_before(cfg, levels, l, name));
    let k = cfg.deps(name).index_of(dep);
    assert(placed_before(levels, l, cfg.deps(name)[k]));
}

/// The execution plan of a run of `task_names`: the required tasks grouped
/// into levels. Level 0 holds the required tasks without dependencies; each
/// later level holds the tasks whose dependencies all stand in earlier
/// levels. Within a level tasks stand in the order in which the required
/// closure found them.
///
/// Fails as [`topological_sort`] does.
pub fn calculate_execution_levels(config: &Config, task_names: &[String]) -> (r: Result<
    Vec<Vec<String>>,
    GraphError,
>)
    requires
        config.wf(),
    ensures
        match r {
            Ok(levels) => {
                &&& required_exist(config, strs(task_names@))
                &&& is_execution_plan(config, strs(task_names@), level_names(levels@))
                &&& concat(level_names(levels@)).no_duplicates()
                &&& forall|name: Seq<char>|
                    concat(level_names(levels@)).contains(name) <==> is_required(
                        config,
                        strs(task_names@),
                        name,
                    )
                &&& !has_cycle(config, strs(task_names@))
            },
            Err(GraphError::TaskNotFound(name)) => reports_missing(
                config,
                strs(task_names@),
                name@,
            ),
            Err(GraphError::CircularDependency) => required_exist(config, strs(task_names@))
                && has_cycle(config, strs(task_names@)) && !exists|order: Seq<Seq<char>>|
                is_topological_order(config, strs(task_names@), order),
        },
{
    let roots = crate::text::clone_strings_slice(task_names);
    let ghost rs = strs(task_names@);
    let plan = match plan_indices(config, &roots) {
        Ok(plan) => plan,
        Err(e) => {
            return Err(e);
        },
    };
    let ghost g = rows(plan.graph@);
    let ghost lv = rows(plan.levels@);
    let mut out: Vec<Vec<String>> = Vec::new();
    let mut l: usize = 0;
    while l < plan.levels.len()
        invariant
            l <= plan.levels@.len(),
            lv == rows(plan.levels@),
            g == rows(plan.graph@),
            is_graph_of(config, rs, plan.req@, g),
            is_level_plan(g, lv),
            out@.len() == l,
            forall|j: int|
                0 <= j < l ==> strs((#[trigger] out@[j])@) == labels(config, plan.req@, lv[j]),
        decreases plan.levels.len() - l,
    {
        proof {
            assert forall|i: int| 0 <= i < plan.levels@[l as int]@.len() implies (
            #[trigger] plan.levels@[l as int]@[i]) < plan.req@.len() by {
                assert(lv[l as int][i] < g.len());
            }
        }
        let names = names_at(config, &plan.req, &plan.levels[l]);
        out.push(names);
        l += 1;
    }
    proof {
        assert(level_names(out@) =~= level_labels(config, plan.req@, lv));
        lemma_plan_to_names(config, rs, plan.req@, g, lv);
        lemma_levels_cover_required(config, rs, level_names(out@));
        lemma_plan_gives_order(g, lv);
        lemma_order_to_names(config, rs, plan.req@, g, concat(lv));
        lemma_order_excludes_cycle(config, rs, labels(config, plan.req@, concat(lv)));
    }
    Ok(out)
}

/// The task `name` depends on `target`, directly or through other tasks.
pub open spec fn depends_on_transitively(cfg: &Config, name: Seq<char>, target: Seq<char>) -> bool {
    exists|p: Seq<Seq<char>>| #[trigger]
        is_dep_path(cfg, p) && p.len() >= 2 && p[0] == name && p.last() == target
}

/// A task that names `target` as a dependency depends on it.
proof fn lemma_direct_dependent(cfg: &Config, name: Seq<char>, target: Seq<char>)
    requires
        cfg.deps(name).contains(target),
    ensures
        depends_on_transitively(cfg, name, target),
{
    let p = seq![name, target];
    assert forall|i: int| 0 <= i < p.len() - 1 implies #[trigger] dep_link(cfg, p, i) by {
        assert(p[0] == name && p[1] == target);
    }
    assert(is_dep_path(cfg, p));
    assert(p[0] == name && p.last() == target);
}

/// A task that names a dependent of `target` as a dependency depends on
/// `target` too.
proof fn lemma_indirect_dependent(cfg: &Config, name: Seq<char>, via: Seq<char>, target: Seq<char>)
    requires
        cfg.deps(name).contains(via),
        depends_on_transitively(cfg, via, target),
    ensures
        depends_on_transitively(cfg, name, target),
{
    let p = choose|p: Seq<Seq<char>>| #[trigger]
        is_dep_path(cfg, p) && p.len() >= 2 && p[0] == via && p.last() == target;
    let q = seq![name] + p;
    assert forall|i: int| 0 <= i < q.len() - 1 implies #[trigger] dep_link(cfg, q, i) by {
        if i == 0 {
            assert(q[0] == name && q[1] == p[0]);
        } else {
            assert(dep_link(cfg, p, i - 1));
            assert(q[i] == p[i - 1] && q[i + 1] == p[i - 1 + 1]);
        }
    }
    assert(is_dep_path(cfg, q));
    assert(q[0] == name && q.last() == target);
}

/// A set that holds the last name of a chain and, with each name, every
/// task that names it as a dependency, holds the whole chain.
proof fn lemma_reverse_closed_holds_path(
    cfg: &Config,
    held: Set<Seq<char>>,
    p: Seq<Seq<char>>,
    i: int,
)
    requires
        is_dep_path(cfg, p),
        held.contains(p.last()),
        forall|x: Seq<char>, d: Seq<char>|
            held.contains(d) && #[trigger] cfg.deps(x).contains(d) ==> held.contains(x),
        0 <= i < p.len(),
    ensures
        held.contains(p[i]),
    decreases p.len() - i,
{
    if i < p.len() - 1 {
        lemma_reverse_closed_holds_path(cfg, held, p, i + 1);
        assert(dep_link(cfg, p, i));
    }
}

/// The tasks that depend on `task_name`, directly or through other tasks:
/// each once, in the order in which a breadth-first walk against the
/// dependency edges finds them.
pub fn get_dependent_tasks(config: &Config, task_name: &str) -> (out: Vec<String>)
    requires
        config.wf(),
    ensures
        strs(out@).no_duplicates(),
        forall|name: Seq<char>|
            strs(out@).contains(name) <==> depends_on_transitively(config, name, task_name@),
{
    let n: usize = config.tasks.len();
    let ghost names = config.names();
    let ghost target = task_name@;
    let mut marks: Vec<bool> = Vec::new();
    let mut i: usize = 0;
    while i < n
        invariant
            i <= n,
            marks@.len() == i,
            forall|j: int| 0 <= j < i ==> !marks@[j],
        decreases n - i,
    {
        marks.push(false);
        i += 1;
    }
    let mut queue: Vec<String> = Vec::new();
    queue.push(task_name.to_owned());
    let mut found: Vec<usize> = Vec::new();
    let mut head: usize = 0;
    let ghost mut unmarked: Set<int> = Set::new(|v: int| 0 <= v < n);
    proof {
        vstd::set_lib::lemma_int_range(0, n as int);
        assert(unmarked =~= vstd::set_lib::set_int_range(0, n as int));
    }
    while head < queue.len()
        invariant
            n == config.tasks@.len(),
            names == config.names(),
            target == task_name@,
            config.wf(),
            marks@.len() == n,
            head <= queue@.len(),
            unmarked.finite(),
            forall|v: int| unmarked.contains(v) <==> 0 <= v < n && !marks@[v],
            queue@.len() == found@.len() + 1,
            queue@[0]@ == target,
            forall|q: int|
                0 <= q < found@.len() ==> (#[trigger] found@[q]) < n && marks@[found@[q] as int]
                    && queue@[q + 1]@ == names[found@[q] as int],
            found@.no_duplicates(),
            forall|v: int| 0 <= v < n && marks@[v] ==> found@.contains(v as usize),
            forall|v: int|
                0 <= v < n && marks@[v] ==> depends_on_transitively(
                    config,
                    #[trigger] names[v],
                    target,
                ),
            forall|q: int, v: int|
                0 <= q < head && 0 <= v < n && strs(
                    config.tasks@[v].task.depends_on@,
                ).contains(#[trigger] queue@[q]@) ==> #[trigger] marks@[v],
        decreases unmarked.len() + queue@.len() - head,
    {
        let ghost queue_before = queue@;
        let ghost marks_before = marks@;
        let ghost current = queue@[head as int]@;
        let ghost measure_before = unmarked.len() + queue@.len();
        proof {
            if head > 0 {
                let v = found@[head - 1];
                assert(queue@[head - 1 + 1]@ == names[v as int]);
                assert(depends_on_transitively(config, names[v as int], target));
            }
        }
        let mut v: usize = 0;
        while v < n
            invariant
                v <= n,
                n == config.tasks@.len(),
                names == config.names(),
                config.wf(),
                marks@.len() == n,
                head < queue@.len(),
                current == queue@[head as int]@,
                head == 0 ==> current == target,
                head > 0 ==> depends_on_transitively(config, current, target),
                unmarked.finite(),
                unmarked.len() + queue@.len() == measure_before,
                forall|u: int| unmarked.contains(u) <==> 0 <= u < n && !marks@[u],
                queue_before.len() <= queue@.len(),
                forall|q: int| 0 <= q < queue_before.len() ==> queue@[q] == queue_before[q],
                forall|u: int| 0 <= u < n && marks_before[u] ==> marks@[u],
                marks_before.len() == n,
                queue@.len() == found@.len() + 1,
                forall|q: int|
                    0 <= q < found@.len() ==> (#[trigger] found@[q]) < n
                        && marks@[found@[q] as int] && queue@[q + 1]@ == names[found@[q] as int],
                found@.no_duplicates(),
                forall|u: int| 0 <= u < n && marks@[u] ==> found@.contains(u as usize),
                forall|u: int|
                    0 <= u < n && marks@[u] ==> depends_on_transitively(
                        config,
                        #[trigger] names[u],
                        target,
                    ),
                forall|u: int|
                    0 <= u < v && strs(config.tasks@[u].task.depends_on@).contains(current)
                        ==> #[trigger] marks@[u],
            decreases n - v,
        {
            if !marks[v] && strings_contain(&config.tasks[v].task.depends_on, queue[head].as_str()) {
                let ghost marks_prev = marks@;
                let ghost found_prev = found@;
                let ghost queue_prev = queue@;
                proof {
                    assert(unmarked.contains(v as int));
                    unmarked = unmarked.remove(v as int);
                    config.lemma_task_at(v as int);
                    if head == 0 {
                        lemma_direct_dependent(config, names[v as int], target);
                    } else {
                        lemma_indirect_dependent(config, names[v as int], current, target);
                    }
                }
                marks.set(v, true);
                found.push(v);
                queue.push(config.tasks[v].name.clone());
                proof {
                    assert(found@[found_prev.len() as int] == v);
                    assert forall|a: int, b: int|
                        0 <= a < found@.len() && 0 <= b < found@.len() && a != b implies found@[a]
                        != found@[b] by {
                        if a < found_prev.len() {
                            assert(found_prev[a] == found@[a]);
                            assert(marks_prev[found_prev[a] as int]);
                        }
                        if b < found_prev.len() {
                            assert(found_prev[b] == found@[b]);
                            assert(marks_prev[found_prev[b] as int]);
                        }
                    }
                    assert forall|q: int| 0 <= q < found@.len() implies (#[trigger] found@[q]) < n
                        && marks@[found@[q] as int] && queue@[q + 1]@ == names[found@[q] as int] by {
                        if q < found_prev.len() {
                            assert(found_prev[q] == found@[q]);
                            assert(queue_prev[q + 1] == queue@[q + 1]);
                        }
                    }
                    assert forall|u: int| 0 <= u < n && marks@[u] implies found@.contains(
                        u as usize,
                    ) by {
                        if u == v {
                            assert(found@[found_prev.len() as int] == u as usize);
                        } else {
                            assert(marks_prev[u]);
                            let a = found_prev.index_of(u as usize);
                            assert(found@[a] == u as usize);
                        }
                    }
                    assert forall|u: int| 0 <= u < n && marks@[u] implies depends_on_transitively(
                        config,
                        #[trigger] names[u],
                        target,
                    ) by {
                        if u != v {
                            assert(marks_prev[u]);
                        }
                    }
                }
            }
            v += 1;
        }
        proof {
            assert forall|q: int, u: int|
                0 <= q < head + 1 && 0 <= u < n && strs(
                    config.tasks@[u].task.depends_on@,
                ).contains(#[trigger] queue@[q]@) implies #[trigger] marks@[u] by {
                assert(queue@[q] == queue_before[q]);
                if q < head {
                    assert(marks_before[u]);
                }
            }
        }
        head += 1;
    }
    let mut out: Vec<String> = Vec::new();
    let mut q: usize = 0;
    while q < found.len()
        invariant
            q <= found@.len(),
            n == config.tasks@.len(),
            names == config.names(),
            forall|j: int| 0 <= j < found@.len() ==> (#[trigger] found@[j]) < n,
            out@.len() == q,
            forall|j: int| 0 <= j < q ==> out@[j]@ == names[found@[j] as int],
        decreases found.len() - q,
    {
        out.push(config.tasks[found[q]].name.clone());
        q += 1;
    }
    proof {
        let named = strs(out@);
        assert forall|a: int, b: int|
            0 <= a < named.len() && 0 <= b < named.len() && a != b implies named[a]
            != named[b] by {
            assert(found@[a] != found@[b]);
            assert(named[a] == names[found@[a] as int]);
            assert(named[b] == names[found@[b] as int]);
        }
        let held = Set::new(
            |x: Seq<char>| x == target || (config.has_task(x) && marks@[config.index_of(x)]),
        );
        assert forall|x: Seq<char>, d: Seq<char>|
            held.contains(d) && #[trigger] config.deps(x).contains(d) implies held.contains(x) by {
            let u = config.index_of(x);
            assert(config.names()[u] == x);
            // `d` was taken from the queue at some point.
            let at: int = if d == target {
                0
            } else {
                let w = config.index_of(d);
                assert(config.names()[w] == d);
                assert(found@.contains(w as usize));
                found@.index_of(w as usize) + 1
            };
            assert(queue@[at]@ == d);
            assert(marks@[u]);
        }
        assert forall|name: Seq<char>| named.contains(name) <==> depends_on_transitively(
            config,
            name,
            target,
        ) by {
            if named.contains(name) {
                let a = named.index_of(name);
                assert(named[a] == names[found@[a] as int]);
                assert(marks@[found@[a] as int]);
            }
            if depends_on_transitively(config, name, target) {
                let p = choose|p: Seq<Seq<char>>| #[trigger]
                    is_dep_path(config, p) && p.len() >= 2 && p[0] == name && p.last() == target;
                lemma_reverse_closed_holds_path(config, held, p, 0);
                assert(dep_link(config, p, 0));
                assert(config.has_task(name));
                let u = config.index_of(name);
                assert(config.names()[u] == name);
                // A chain of one link from `target` to itself also marks it.
                assert(marks@[u]) by {
                    let d = p[1];
                    lemma_reverse_closed_holds_path(config, held, p, 1);
                    assert(held.contains(d));
                    assert(config.deps(name).contains(d));
                }
                let a = found@.index_of(u as usize);
                assert(named[a] == name);
            }
        }
    }
    out
}

} // verus!

pub use crate::graph::affected::find_tasks_watching_file;
