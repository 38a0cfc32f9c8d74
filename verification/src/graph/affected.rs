//! The tasks that a set of changed files affects.
//!
//! A task is affected directly when one of its watch or input patterns
//! matches a changed file, and indirectly when it depends, through any
//! number of tasks, on a task that is affected directly.

use vstd::prelude::*;
use crate::config::Config;
use crate::graph::toposort::{depends_on_transitively, get_dependent_tasks};
use crate::order::{sorted_unique, strictly_sorted};
use crate::pattern::{any_path_hit, any_path_matches, any_pattern_hits, any_pattern_matches, glob_match, match_pattern};
use crate::text::{has_substring, lemma_push_contains, str_contains, strs};

verus! {

/// The task called `name` exists and one of its watch patterns matches
/// `path`.
pub open spec fn watches(cfg: &Config, name: Seq<char>, path: Seq<char>) -> bool {
    cfg.has_task(name) && any_pattern_hits(cfg.task(name)@.watch, path)
}

/// The task called `name` exists and one of its watch or input patterns
/// matches one of `files`.
pub open spec fn is_directly_affected(cfg: &Config, files: Seq<Seq<char>>, name: Seq<char>) -> bool {
    cfg.has_task(name) && (any_path_hit(cfg.task(name)@.watch, files) || any_path_hit(
        cfg.task(name)@.inputs,
        files,
    ))
}

/// `name` is one of `direct`, or depends on one of them.
pub open spec fn is_reached(cfg: &Config, direct: Seq<Seq<char>>, name: Seq<char>) -> bool {
    exists|k: int|
        0 <= k < direct.len() && (name == #[trigger] direct[k] || depends_on_transitively(
            cfg,
            name,
            direct[k],
        ))
}

/// The names of the tasks that watch `file_path`, in declaration order.
pub fn find_tasks_watching_file(config: &Config, file_path: &str) -> (out: Vec<String>)
    requires
        config.wf(),
    ensures
        strs(out@) == config.names().filter(|name: Seq<char>| watches(config, name, file_path@)),
{
    let ghost keep = |name: Seq<char>| watches(config, name, file_path@);
    let mut out: Vec<String> = Vec::new();
    let mut v: usize = 0;
    proof {
        reveal(Seq::filter);
        assert(config.names().subrange(0, 0) =~= Seq::<Seq<char>>::empty());
    }
    while v < config.tasks.len()
        invariant
            v <= config.tasks@.len(),
            config.wf(),
            keep == |name: Seq<char>| watches(config, name, file_path@),
            strs(out@) == config.names().subrange(0, v as int).filter(keep),
        decreases config.tasks.len() - v,
    {
        let ghost head = config.names().subrange(0, v as int);
        let ghost name = config.names()[v as int];
        proof {
            config.lemma_task_at(v as int);
            assert(config.names().subrange(0, v + 1) =~= head.push(name));
            head.lemma_filter_push(name, keep);
        }
        let ghost prev = strs(out@);
        if any_pattern_matches(&config.tasks[v].task.watch, file_path) {
            out.push(config.tasks[v].name.clone());
            assert(strs(out@) =~= prev.push(name));
        }
        v += 1;
    }
    assert(config.names().subrange(0, config.tasks@.len() as int) =~= config.names());
    out
}

/// The names of the tasks that `changed_files` affect directly, in
/// declaration order.
pub fn directly_affected_tasks(config: &Config, changed_files: &[String]) -> (out: Vec<String>)
    requires
        config.wf(),
    ensures
        strs(out@) == config.names().filter(
            |name: Seq<char>| is_directly_affected(config, strs(changed_files@), name),
        ),
{
    let ghost keep = |name: Seq<char>| is_directly_affected(config, strs(changed_files@), name);
    let mut out: Vec<String> = Vec::new();
    let mut v: usize = 0;
    proof {
        reveal(Seq::filter);
        assert(config.names().subrange(0, 0) =~= Seq::<Seq<char>>::empty());
    }
    while v < config.tasks.len()
        invariant
            v <= config.tasks@.len(),
            config.wf(),
            keep == |name: Seq<char>| is_directly_affected(config, strs(changed_files@), name),
            strs(out@) == config.names().subrange(0, v as int).filter(keep),
        decreases config.tasks.len() - v,
    {
        let ghost head = config.names().subrange(0, v as int);
        let ghost name = config.names()[v as int];
        proof {
            config.lemma_task_at(v as int);
            assert(config.names().subrange(0, v + 1) =~= head.push(name));
            head.lemma_filter_push(name, keep);
        }
        let ghost prev = strs(out@);
        let task = &config.tasks[v].task;
        if any_path_matches(&task.watch, changed_files) || any_path_matches(
            &task.inputs,
            changed_files,
        ) {
            out.push(config.tasks[v].name.clone());
            assert(strs(out@) =~= prev.push(name));
        }
        v += 1;
    }
    assert(config.names().subrange(0, config.tasks@.len() as int) =~= config.names());
    out
}

/// The names `direct` and every task that depends on one of them, each
/// once, in ascending order.
pub fn expand_affected(config: &Config, direct: &Vec<String>) -> (out: Vec<String>)
    requires
        config.wf(),
    ensures
        strictly_sorted(strs(out@)),
        forall|name: Seq<char>|
            strs(out@).contains(name) <==> is_reached(config, strs(direct@), name),
{
    let mut all: Vec<String> = Vec::new();
    let mut i: usize = 0;
    while i < direct.len()
        invariant
            i <= direct@.len(),
            config.wf(),
            forall|name: Seq<char>|
                strs(all@).contains(name) <==> is_reached(
                    config,
                    strs(direct@).subrange(0, i as int),
                    name,
                ),
        decreases direct.len() - i,
    {
        let ghost before = strs(all@);
        let ghost seen = strs(direct@).subrange(0, i as int);
        let ghost next = strs(direct@).subrange(0, i + 1);
        let ghost d = direct@[i as int]@;
        all.push(direct[i].clone());
        let ghost with_d = strs(all@);
        let dependents = get_dependent_tasks(config, direct[i].as_str());
        let mut k: usize = 0;
        while k < dependents.len()
            invariant
                k <= dependents@.len(),
                forall|x: Seq<char>|
                    strs(all@).contains(x) <==> with_d.contains(x) || strs(dependents@).subrange(
                        0,
                        k as int,
                    ).contains(x),
            decreases dependents.len() - k,
        {
            let ghost prev = strs(all@);
            let ghost taken = strs(dependents@).subrange(0, k as int);
            all.push(dependents[k].clone());
            proof {
                let cur = strs(all@);
                let taken_next = strs(dependents@).subrange(0, k + 1);
                let y = dependents@[k as int]@;
                assert(cur =~= prev.push(y));
                assert(taken_next =~= taken.push(y));
                lemma_push_contains(prev, y);
                lemma_push_contains(taken, y);
                assert forall|x: Seq<char>| cur.contains(x) <==> with_d.contains(x)
                    || taken_next.contains(x) by {
                    assert(prev.contains(x) <==> with_d.contains(x) || taken.contains(x));
                    assert(cur.contains(x) <==> prev.contains(x) || x == y);
                    assert(taken_next.contains(x) <==> taken.contains(x) || x == y);
                }
            }
            k += 1;
        }
        proof {
            assert(strs(dependents@).subrange(0, dependents@.len() as int) =~= strs(dependents@));
            assert(with_d =~= before.push(d));
            assert(next =~= seen.push(d));
            lemma_push_contains(before, d);
            lemma_push_contains(seen, d);
            assert forall|name: Seq<char>| strs(all@).contains(name) <==> is_reached(
                config,
                next,
                name,
            ) by {
                if is_reached(config, seen, name) {
                    let w = choose|w: int|
                        0 <= w < seen.len() && (name == #[trigger] seen[w]
                            || depends_on_transitively(config, name, seen[w]));
                    assert(next[w] == seen[w]);
                    assert(is_reached(config, next, name));
                }
                if name == d || depends_on_transitively(config, name, d) {
                    assert(next[i as int] == d);
                    assert(is_reached(config, next, name));
                }
                if is_reached(config, next, name) {
                    let w = choose|w: int|
                        0 <= w < next.len() && (name == #[trigger] next[w]
                            || depends_on_transitively(config, name, next[w]));
                    if w < i {
                        assert(seen[w] == next[w]);
                        assert(is_reached(config, seen, name));
                    } else {
                        assert(next[w] == d);
                    }
                }
                assert(before.contains(name) <==> is_reached(config, seen, name));
                assert(strs(dependents@).contains(name) <==> depends_on_transitively(
                    config,
                    name,
                    d,
                ));
            }
        }
        i += 1;
    }
    assert(strs(direct@).subrange(0, direct@.len() as int) =~= strs(direct@));
    sorted_unique(&all)
}

/// The tasks that must run again after `changed_files` changed: every task
/// with a watch or input pattern that matches a changed file, and every task
/// that depends on such a task; each once, in ascending order.
pub fn find_affected_tasks_from_files(config: &Config, changed_files: &[String]) -> (out: Vec<
    String,
>)
    requires
        config.wf(),
    ensures
        strictly_sorted(strs(out@)),
        forall|name: Seq<char>|
            strs(out@).contains(name) <==> is_reached(
                config,
                config.names().filter(
                    |d: Seq<char>| is_directly_affected(config, strs(changed_files@), d),
                ),
                name,
            ),
{
    let direct = directly_affected_tasks(config, changed_files);
    expand_affected(config, &direct)
}

/// Whether [`filter_tasks_by_pattern`] keeps `task`: by the pattern where it
/// compiles, else where `task` contains the pattern's text.
pub open spec fn pattern_keeps(pattern: Seq<char>, task: Seq<char>) -> bool {
    match glob_match(pattern, task) {
        Some(hit) => hit,
        None => has_substring(task, pattern),
    }
}

/// What [`filter_tasks_by_pattern`] decides for one task, given what the
/// matcher says of the pattern and the task's name.
pub fn keeps_task(outcome: Option<bool>, task: &str, pattern: &str) -> (r: bool)
    ensures
        r == match outcome {
            Some(hit) => hit,
            None => has_substring(task@, pattern@),
        },
{
    match outcome {
        Some(hit) => hit,
        None => str_contains(task, pattern),
    }
}

/// The tasks whose names `pattern` matches, in the order given. A pattern
/// that does not compile keeps the names that contain it.
pub fn filter_tasks_by_pattern(tasks: &[String], pattern: &str) -> (out: Vec<String>)
    ensures
        strs(out@) == strs(tasks@).filter(|task: Seq<char>| pattern_keeps(pattern@, task)),
{
    let ghost keep = |task: Seq<char>| pattern_keeps(pattern@, task);
    let mut out: Vec<String> = Vec::new();
    let mut i: usize = 0;
    proof {
        reveal(Seq::filter);
        assert(strs(tasks@).subrange(0, 0) =~= Seq::<Seq<char>>::empty());
    }
    while i < tasks.len()
        invariant
            i <= tasks@.len(),
            keep == |task: Seq<char>| pattern_keeps(pattern@, task),
            strs(out@) == strs(tasks@).subrange(0, i as int).filter(keep),
        decreases tasks.len() - i,
    {
        let ghost head = strs(tasks@).subrange(0, i as int);
        let ghost name = tasks@[i as int]@;
        proof {
            assert(strs(tasks@).subrange(0, i + 1) =~= head.push(name));
            head.lemma_filter_push(name, keep);
        }
        let ghost prev = strs(out@);
        let outcome = match_pattern(pattern, tasks[i].as_str());
        if keeps_task(outcome, tasks[i].as_str(), pattern) {
            out.push(tasks[i].clone());
            assert(strs(out@) =~= prev.push(name));
        }
        i += 1;
    }
    assert(strs(tasks@).subrange(0, tasks@.len() as int) =~= strs(tasks@));
    out
}

/// The tasks that a change to one file affects.
#[derive(Debug, Clone)]
pub struct AffectedPreview {
    pub file: String,
    pub directly_affected: Vec<String>,
    pub transitively_affected: Vec<String>,
}

/// For each of `files`, the tasks that watch it and the tasks that a change
/// to it affects.
pub fn preview_affected(config: &Config, files: &[&str]) -> (out: Vec<AffectedPreview>)
    requires
        config.wf(),
    ensures
        out@.len() == files@.len(),
        forall|i: int|
            0 <= i < out@.len() ==> {
                &&& (#[trigger] out@[i]).file@ == files@[i]@
                &&& strs(out@[i].directly_affected@) == config.names().filter(
                    |name: Seq<char>| watches(config, name, files@[i]@),
                )
                &&& strictly_sorted(strs(out@[i].transitively_affected@))
                &&& forall|name: Seq<char>|
                    strs(out@[i].transitively_affected@).contains(name) <==> is_reached(
                        config,
                        strs(out@[i].directly_affected@),
                        name,
                    )
            },
{
    let mut out: Vec<AffectedPreview> = Vec::new();
    let mut i: usize = 0;
    while i < files.len()
        invariant
            i <= files@.len(),
            config.wf(),
            out@.len() == i,
            forall|j: int|
                0 <= j < i ==> {
                    &&& (#[trigger] out@[j]).file@ == files@[j]@
                    &&& strs(out@[j].directly_affected@) == config.names().filter(
                        |name: Seq<char>| watches(config, name, files@[j]@),
                    )
                    &&& strictly_sorted(strs(out@[j].transitively_affected@))
                    &&& forall|name: Seq<char>|
                        strs(out@[j].transitively_affected@).contains(name) <==> is_reached(
                            config,
                            strs(out@[j].directly_affected@),
                            name,
                        )
                },
        decreases files.len() - i,
    {
        let watching = find_tasks_watching_file(config, files[i]);
        let all = expand_affected(config, &watching);
        out.push(
            AffectedPreview {
                file: files[i].to_owned(),
                directly_affected: watching,
                transitively_affected: all,
            },
        );
        i += 1;
    }
    out
}

} // verus!
