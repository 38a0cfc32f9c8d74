//! Task definitions and the project configuration that holds them.
//!
//! The configuration keeps its tasks in declaration order. Task names are
//! unique, so the list is a finite map from names to tasks; graph functions
//! speak of it through [`Config::names`], [`Config::has_task`] and
//! [`Config::deps`].

use vstd::prelude::*;
use crate::text::{
    clone_opt_string, clone_string_pairs, clone_strings, opt_str, str_eq, str_pairs, strs,
};

verus! {

/// Settings for test annotation.
#[derive(Debug, Clone)]
pub struct AiConfigFile {
    pub provider: String,
    pub api_key: Option<String>,
    pub model: Option<String>,
    pub auto_annotate: bool,
    pub language: String,
}

/// The provider used when none is configured.
pub fn default_ai_provider() -> (s: String)
    ensures
        s@ == "anthropic"@,
{
    "anthropic".to_owned()
}

/// The annotation language used when none is configured.
pub fn default_ai_language() -> (s: String)
    ensures
        s@ == "en"@,
{
    "en".to_owned()
}

#[derive(Debug, Clone)]
pub struct Project {
    pub name: String,
    pub default_profile: Option<String>,
}

/// Per-task settings that a profile overrides.
#[derive(Debug, Clone, Copy, PartialEq, Eq)]
pub struct TaskOverride {
    pub parallel: Option<bool>,
    pub workers: Option<usize>,
    pub retry: Option<u32>,
    pub timeout_seconds: Option<u64>,
}

/// A profile's override for the task called `task`.
#[derive(Debug, Clone)]
pub struct OverrideEntry {
    pub task: String,
    pub overrides: TaskOverride,
}

/// Run settings for one environment (dev, ci, ...).
#[derive(Debug, Clone)]
pub struct Profile {
    pub parallel: bool,
    pub workers: Option<usize>,
    pub cache: bool,
    pub verbose: bool,
    pub notifications: bool,
    pub fail_fast: bool,
    pub task_overrides: Vec<OverrideEntry>,
}

impl Default for Profile {
    fn default() -> (p: Profile)
        ensures
            !p.parallel,
            p.workers is None,
            !p.cache,
            !p.verbose,
            !p.notifications,
            !p.fail_fast,
            p.task_overrides@.len() == 0,
    {
        Profile {
            parallel: false,
            workers: None,
            cache: false,
            verbose: false,
            notifications: false,
            fail_fast: false,
            task_overrides: Vec::new(),
        }
    }
}

/// The overrides of a profile, as (task name, override) pairs.
pub open spec fn override_pairs(v: Seq<OverrideEntry>) -> Seq<(Seq<char>, TaskOverride)> {
    Seq::new(v.len(), |i: int| (v[i].task@, v[i].overrides))
}

impl Profile {
    /// The two profiles ask for the same.
    pub open spec fn same_as(&self, other: &Profile) -> bool {
        &&& self.parallel == other.parallel
        &&& self.workers == other.workers
        &&& self.cache == other.cache
        &&& self.verbose == other.verbose
        &&& self.notifications == other.notifications
        &&& self.fail_fast == other.fail_fast
        &&& override_pairs(self.task_overrides@) == override_pairs(other.task_overrides@)
    }

    /// A profile that asks for the same as the given one.
    pub fn duplicate(&self) -> (p: Profile)
        ensures
            p.same_as(self),
    {
        let mut overrides: Vec<OverrideEntry> = Vec::new();
        let mut i: usize = 0;
        while i < self.task_overrides.len()
            invariant
                i <= self.task_overrides@.len(),
                overrides@.len() == i,
                forall|j: int|
                    0 <= j < i ==> overrides@[j].task@ == self.task_overrides@[j].task@
                        && overrides@[j].overrides == self.task_overrides@[j].overrides,
            decreases self.task_overrides.len() - i,
        {
            let entry = &self.task_overrides[i];
            overrides.push(
                OverrideEntry {
                    task: entry.task.clone(),
                    overrides: TaskOverride {
                        parallel: entry.overrides.parallel,
                        workers: entry.overrides.workers,
                        retry: entry.overrides.retry,
                        timeout_seconds: entry.overrides.timeout_seconds,
                    },
                },
            );
            i += 1;
        }
        assert(override_pairs(overrides@) =~= override_pairs(self.task_overrides@));
        Profile {
            parallel: self.parallel,
            workers: self.workers,
            cache: self.cache,
            verbose: self.verbose,
            notifications: self.notifications,
            fail_fast: self.fail_fast,
            task_overrides: overrides,
        }
    }

    /// The position of the first override for the task called `task`.
    pub fn find_override(&self, task: &str) -> (r: Option<usize>)
        ensures
            match r {
                Some(i) => is_first_override(self.task_overrides@, task@, i as int),
                None => forall|j: int|
                    0 <= j < self.task_overrides@.len() ==> self.task_overrides@[j].task@
                        != task@,
            },
    {
        let mut i: usize = 0;
        while i < self.task_overrides.len()
            invariant
                i <= self.task_overrides@.len(),
                forall|j: int| 0 <= j < i ==> self.task_overrides@[j].task@ != task@,
            decreases self.task_overrides.len() - i,
        {
            if str_eq(self.task_overrides[i].task.as_str(), task) {
                return Some(i);
            }
            i += 1;
        }
        None
    }
}

/// The entry at `i` is the first override for `task`.
pub open spec fn is_first_override(v: Seq<OverrideEntry>, task: Seq<char>, i: int) -> bool {
    &&& 0 <= i < v.len()
    &&& v[i].task@ == task
    &&& forall|j: int| 0 <= j < i ==> v[j].task@ != task
}

/// The task `task` with the overrides `o` applied: each setting that the
/// override names takes the place of the task's own.
pub open spec fn overridden(task: TaskView, o: TaskOverride) -> TaskView {
    TaskView {
        parallel: match o.parallel {
            Some(p) => p,
            None => task.parallel,
        },
        workers: match o.workers {
            Some(w) => Some(w),
            None => task.workers,
        },
        retry: match o.retry {
            Some(r) => r,
            None => task.retry,
        },
        timeout_seconds: match o.timeout_seconds {
            Some(t) => Some(t),
            None => task.timeout_seconds,
        },
        ..task
    }
}

/// Whether caching is on when the configuration does not say.
pub fn default_cache_enabled() -> (b: bool)
    ensures
        b,
{
    true
}

#[derive(Debug, Clone)]
pub struct WorkspaceConfig {
    pub packages: Vec<String>,
}

#[derive(Debug, Clone)]
pub struct SlackConfig {
    pub webhook_url: String,
    pub channel: Option<String>,
}

#[derive(Debug, Clone)]
pub struct DiscordConfig {
    pub webhook_url: String,
}

#[derive(Debug, Clone)]
pub struct GithubConfig {
    pub enabled: bool,
    pub token: Option<String>,
}

#[derive(Debug, Clone)]
pub struct NotificationsConfig {
    pub enabled: bool,
    pub on_failure: bool,
    pub slack: Option<SlackConfig>,
    pub discord: Option<DiscordConfig>,
    pub github: Option<GithubConfig>,
}

/// Global cache settings.
#[derive(Debug, Clone)]
pub struct CacheConfig {
    pub enabled: bool,
    pub ttl_hours: u32,
}

/// The cache lifetime, in hours, when the configuration does not say.
pub fn default_cache_ttl() -> (h: u32)
    ensures
        h == 24,
{
    24
}

#[derive(Debug, Clone)]
pub struct ArtifactConfig {
    pub pattern: String,
    pub artifact_type: String,
}

/// A named unit of work: a shell command with its metadata.
#[derive(Debug, Clone)]
pub struct Task {
    pub cmd: String,
    pub cwd: Option<String>,
    pub watch: Vec<String>,
    pub depends_on: Vec<String>,
    pub background: bool,
    pub ready_when: Option<String>,
    pub ready_timeout: u64,
    pub category: Option<String>,
    pub results: Option<String>,
    pub parallel: bool,
    pub workers: Option<usize>,
    pub retry: u32,
    pub retry_delay_ms: u64,
    pub timeout_seconds: Option<u64>,
    pub coverage: bool,
    pub coverage_format: Option<String>,
    pub coverage_path: Option<String>,
    pub artifacts: Vec<ArtifactConfig>,
    /// Environment entries, as (key, value) pairs.
    pub env: Vec<(String, String)>,
    pub inputs: Vec<String>,
    pub outputs: Vec<String>,
}

/// What a task is, as plain values.
pub struct TaskView {
    pub cmd: Seq<char>,
    pub cwd: Option<Seq<char>>,
    pub watch: Seq<Seq<char>>,
    pub depends_on: Seq<Seq<char>>,
    pub background: bool,
    pub ready_when: Option<Seq<char>>,
    pub ready_timeout: u64,
    pub category: Option<Seq<char>>,
    pub results: Option<Seq<char>>,
    pub parallel: bool,
    pub workers: Option<usize>,
    pub retry: u32,
    pub retry_delay_ms: u64,
    pub timeout_seconds: Option<u64>,
    pub coverage: bool,
    pub coverage_format: Option<Seq<char>>,
    pub coverage_path: Option<Seq<char>>,
    pub artifacts: Seq<(Seq<char>, Seq<char>)>,
    pub env: Seq<(Seq<char>, Seq<char>)>,
    pub inputs: Seq<Seq<char>>,
    pub outputs: Seq<Seq<char>>,
}

/// The views of a list of artifact settings, as (pattern, type) pairs.
pub open spec fn artifact_pairs(v: Seq<ArtifactConfig>) -> Seq<(Seq<char>, Seq<char>)> {
    Seq::new(v.len(), |i: int| (v[i].pattern@, v[i].artifact_type@))
}

/// The seconds a background task gets to become ready, by default.
pub fn default_ready_timeout() -> (s: u64)
    ensures
        s == 30,
{
    30
}

/// The milliseconds between two attempts, by default.
pub fn default_retry_delay() -> (ms: u64)
    ensures
        ms == 1000,
{
    1000
}

impl View for Task {
    type V = TaskView;

    open spec fn view(&self) -> TaskView {
        TaskView {
            cmd: self.cmd@,
            cwd: opt_str(self.cwd),
            watch: strs(self.watch@),
            depends_on: strs(self.depends_on@),
            background: self.background,
            ready_when: opt_str(self.ready_when),
            ready_timeout: self.ready_timeout,
            category: opt_str(self.category),
            results: opt_str(self.results),
            parallel: self.parallel,
            workers: self.workers,
            retry: self.retry,
            retry_delay_ms: self.retry_delay_ms,
            timeout_seconds: self.timeout_seconds,
            coverage: self.coverage,
            coverage_format: opt_str(self.coverage_format),
            coverage_path: opt_str(self.coverage_path),
            artifacts: artifact_pairs(self.artifacts@),
            env: str_pairs(self.env@),
            inputs: strs(self.inputs@),
            outputs: strs(self.outputs@),
        }
    }
}

/// A copy of a list of artifact settings.
fn clone_artifacts(v: &Vec<ArtifactConfig>) -> (out: Vec<ArtifactConfig>)
    ensures
        artifact_pairs(out@) == artifact_pairs(v@),
{
    let mut out: Vec<ArtifactConfig> = Vec::new();
    let mut i: usize = 0;
    while i < v.len()
        invariant
            i <= v.len(),
            out@.len() == i,
            forall|j: int|
                0 <= j < i ==> out@[j].pattern@ == v@[j].pattern@ && out@[j].artifact_type@
                    == v@[j].artifact_type@,
        decreases v.len() - i,
    {
        out.push(
            ArtifactConfig {
                pattern: v[i].pattern.clone(),
                artifact_type: v[i].artifact_type.clone(),
            },
        );
        i += 1;
    }
    assert(artifact_pairs(out@) =~= artifact_pairs(v@));
    out
}

impl Task {
    /// A foreground task that runs `cmd`, with every other setting at its
    /// default.
    pub fn new(cmd: &str) -> (t: Task)
        ensures
            t@.cmd == cmd@,
            t@.cwd is None,
            t@.watch.len() == 0,
            t@.depends_on.len() == 0,
            !t@.background,
            t@.ready_when is None,
            t@.ready_timeout == 30,
            t@.category is None,
            t@.results is None,
            !t@.parallel,
            t@.workers is None,
            t@.retry == 0,
            t@.retry_delay_ms == 1000,
            t@.timeout_seconds is None,
            !t@.coverage,
            t@.coverage_format is None,
            t@.coverage_path is None,
            t@.artifacts.len() == 0,
            t@.env.len() == 0,
            t@.inputs.len() == 0,
            t@.outputs.len() == 0,
    {
        Task {
            cmd: cmd.to_owned(),
            cwd: None,
            watch: Vec::new(),
            depends_on: Vec::new(),
            background: false,
            ready_when: None,
            ready_timeout: default_ready_timeout(),
            category: None,
            results: None,
            parallel: false,
            workers: None,
            retry: 0,
            retry_delay_ms: default_retry_delay(),
            timeout_seconds: None,
            coverage: false,
            coverage_format: None,
            coverage_path: None,
            artifacts: Vec::new(),
            env: Vec::new(),
            inputs: Vec::new(),
            outputs: Vec::new(),
        }
    }

    /// A task equal to the given one, field by field.
    pub fn duplicate(&self) -> (t: Task)
        ensures
            t@ == self@,
    {
        Task {
            cmd: self.cmd.clone(),
            cwd: clone_opt_string(&self.cwd),
            watch: clone_strings(&self.watch),
            depends_on: clone_strings(&self.depends_on),
            background: self.background,
            ready_when: clone_opt_string(&self.ready_when),
            ready_timeout: self.ready_timeout,
            category: clone_opt_string(&self.category),
            results: clone_opt_string(&self.results),
            parallel: self.parallel,
            workers: self.workers,
            retry: self.retry,
            retry_delay_ms: self.retry_delay_ms,
            timeout_seconds: self.timeout_seconds,
            coverage: self.coverage,
            coverage_format: clone_opt_string(&self.coverage_format),
            coverage_path: clone_opt_string(&self.coverage_path),
            artifacts: clone_artifacts(&self.artifacts),
            env: clone_string_pairs(&self.env),
            inputs: clone_strings(&self.inputs),
            outputs: clone_strings(&self.outputs),
        }
    }
}

/// The task collects no coverage, names no format, or names `lcov` or
/// `cobertura`.
pub open spec fn coverage_format_known(task: TaskView) -> bool {
    task.coverage ==> match task.coverage_format {
        Some(format) => format == "lcov"@ || format == "cobertura"@,
        None => true,
    }
}

/// The profile asks for nothing: it is the default profile.
pub open spec fn is_default_profile(p: Profile) -> bool {
    &&& !p.parallel
    &&& p.workers is None
    &&& !p.cache
    &&& !p.verbose
    &&& !p.notifications
    &&& !p.fail_fast
    &&& p.task_overrides@.len() == 0
}

/// A task under its name.
#[derive(Debug, Clone)]
pub struct TaskEntry {
    pub name: String,
    pub task: Task,
}

/// A profile under its name.
#[derive(Debug, Clone)]
pub struct ProfileEntry {
    pub name: String,
    pub profile: Profile,
}

/// A project's configuration: its tasks by name, its profiles and its
/// global settings.
#[derive(Debug, Clone)]
pub struct Config {
    pub project: Project,
    pub profiles: Vec<ProfileEntry>,
    pub workspaces: Option<WorkspaceConfig>,
    pub notifications: Option<NotificationsConfig>,
    pub cache: Option<CacheConfig>,
    pub ai: Option<AiConfigFile>,
    pub tasks: Vec<TaskEntry>,
}

/// What makes a configuration unusable.
#[derive(Debug, Clone)]
pub enum ConfigError {
    /// `task` names `dependency` in its `depends_on`, and no task has that
    /// name.
    MissingDependency { task: String, dependency: String },
    /// `task` collects coverage in a format that is neither `lcov` nor
    /// `cobertura`.
    InvalidCoverageFormat { task: String, format: String },
}

impl Config {
    /// The task names, in declaration order.
    pub open spec fn names(&self) -> Seq<Seq<char>> {
        Seq::new(self.tasks@.len(), |i: int| self.tasks@[i].name@)
    }

    /// No two tasks share a name.
    pub open spec fn wf(&self) -> bool {
        self.names().no_duplicates()
    }

    /// A task called `name` exists.
    pub open spec fn has_task(&self, name: Seq<char>) -> bool {
        self.names().contains(name)
    }

    /// The position of the task called `name`.
    pub open spec fn index_of(&self, name: Seq<char>) -> int {
        self.names().index_of(name)
    }

    /// The task called `name`.
    pub open spec fn task(&self, name: Seq<char>) -> Task {
        self.tasks@[self.index_of(name)].task
    }

    /// The names that the task called `name` depends on; none where no such
    /// task exists.
    pub open spec fn deps(&self, name: Seq<char>) -> Seq<Seq<char>> {
        if self.has_task(name) {
            self.task(name)@.depends_on
        } else {
            Seq::empty()
        }
    }

    /// Every dependency that a task names is itself a task.
    pub open spec fn deps_exist(&self) -> bool {
        forall|i: int, k: int|
            0 <= i < self.tasks@.len() && 0 <= k < self.tasks@[i].task.depends_on@.len()
                ==> self.has_task(#[trigger] self.tasks@[i].task.depends_on@[k]@)
    }

    /// The task at position `v` is the task called by its name, and its
    /// dependencies are those of that name.
    pub proof fn lemma_task_at(&self, v: int)
        requires
            self.wf(),
            0 <= v < self.tasks@.len(),
        ensures
            self.has_task(self.names()[v]),
            self.index_of(self.names()[v]) == v,
            self.task(self.names()[v]) == self.tasks@[v].task,
            self.deps(self.names()[v]) == strs(self.tasks@[v].task.depends_on@),
    {
        let name = self.names()[v];
        assert(self.names().contains(name));
        let x = self.index_of(name);
        assert(self.names()[x] == name);
    }

    /// A configuration for `project` with no tasks, no profiles and no
    /// global settings.
    pub fn new(project: Project) -> (c: Config)
        ensures
            c.wf(),
            c.tasks@.len() == 0,
            c.profiles@.len() == 0,
            c.project == project,
            c.workspaces is None,
            c.notifications is None,
            c.cache is None,
            c.ai is None,
    {
        Config {
            project,
            profiles: Vec::new(),
            workspaces: None,
            notifications: None,
            cache: None,
            ai: None,
            tasks: Vec::new(),
        }
    }

    /// The position of the task called `name`, if there is one.
    pub fn find_task(&self, name: &str) -> (r: Option<usize>)
        ensures
            match r {
                Some(i) => i < self.tasks@.len() && self.tasks@[i as int].name@ == name@
                    && forall|j: int| 0 <= j < i ==> self.tasks@[j].name@ != name@,
                None => !self.has_task(name@),
            },
            self.wf() && r is Some ==> r->0 == self.index_of(name@),
            r is Some <==> self.has_task(name@),
    {
        let mut i: usize = 0;
        while i < self.tasks.len()
            invariant
                i <= self.tasks@.len(),
                forall|j: int| 0 <= j < i ==> self.tasks@[j].name@ != name@,
            decreases self.tasks.len() - i,
        {
            if str_eq(self.tasks[i].name.as_str(), name) {
                proof {
                    assert(self.names()[i as int] == name@);
                    if self.wf() {
                        let k = self.index_of(name@);
                        assert(self.names()[k] == name@);
                    }
                }
                return Some(i);
            }
            i += 1;
        }
        proof {
            if self.has_task(name@) {
                let k = self.names().index_of(name@);
                assert(self.names()[k] == name@);
            }
        }
        None
    }

    /// The task called `name`, if there is one.
    pub fn get_task(&self, name: &str) -> (r: Option<&Task>)
        ensures
            r is Some <==> self.has_task(name@),
            self.wf() && r is Some ==> *r->0 == self.task(name@),
    {
        match self.find_task(name) {
            Some(i) => Some(&self.tasks[i].task),
            None => None,
        }
    }

    /// Puts `task` under `name`: in place of the task of that name where one
    /// exists, after the last task otherwise.
    pub fn insert_task(&mut self, name: &str, task: Task)
        requires
            old(self).wf(),
        ensures
            final(self).wf(),
            final(self).has_task(name@),
            final(self).task(name@) == task,
            forall|n: Seq<char>|
                n != name@ ==> final(self).has_task(n) == old(self).has_task(n),
            forall|n: Seq<char>|
                n != name@ && old(self).has_task(n) ==> final(self).task(n) == old(self).task(n),
            old(self).has_task(name@) ==> final(self).names() == old(self).names(),
            !old(self).has_task(name@) ==> final(self).names() == old(self).names().push(name@),
            final(self).project == old(self).project,
            final(self).profiles == old(self).profiles,
            final(self).cache == old(self).cache,
    {
        let ghost before = *self;
        match self.find_task(name) {
            Some(i) => {
                let entry = TaskEntry { name: name.to_owned(), task };
                self.tasks.set(i, entry);
                proof {
                    assert(self.names() =~= before.names());
                    assert(self.names()[i as int] == name@);
                    assert forall|n: Seq<char>| n != name@ && before.has_task(n) implies self.task(
                        n,
                    ) == before.task(n) by {
                        let k = before.names().index_of(n);
                        assert(before.names()[k] == n);
                    }
                }
            },
            None => {
                let entry = TaskEntry { name: name.to_owned(), task };
                self.tasks.push(entry);
                proof {
                    let last = before.tasks@.len() as int;
                    assert(self.names() =~= before.names().push(name@));
                    assert(self.names()[last] == name@);
                    assert forall|a: int, b: int|
                        0 <= a < self.names().len() && 0 <= b < self.names().len() && a
                            != b implies self.names()[a] != self.names()[b] by {
                        if a < last && b < last {
                            assert(before.names()[a] != before.names()[b]);
                        } else if a < last {
                            assert(before.names()[a] == self.names()[a]);
                        } else {
                            assert(before.names()[b] == self.names()[b]);
                        }
                    }
                    let k = self.names().index_of(name@);
                    assert(self.names()[k] == name@);
                    assert forall|n: Seq<char>| n != name@ implies self.has_task(n)
                        == before.has_task(n) by {
                        if before.has_task(n) {
                            let j = before.names().index_of(n);
                            assert(self.names()[j] == n);
                        }
                        if self.has_task(n) {
                            let j = self.names().index_of(n);
                            assert(before.names()[j] == n);
                        }
                    }
                    assert forall|n: Seq<char>| n != name@ && before.has_task(n) implies self.task(
                        n,
                    ) == before.task(n) by {
                        let j = before.names().index_of(n);
                        assert(before.names()[j] == n);
                        assert(self.names()[j] == n);
                        let j2 = self.names().index_of(n);
                        assert(self.names()[j2] == n);
                    }
                }
            },
        }
    }

    /// The task names, in declaration order.
    pub fn task_names(&self) -> (out: Vec<String>)
        ensures
            strs(out@) == self.names(),
    {
        let mut out: Vec<String> = Vec::new();
        let mut i: usize = 0;
        while i < self.tasks.len()
            invariant
                i <= self.tasks@.len(),
                out@.len() == i,
                forall|j: int| 0 <= j < i ==> out@[j]@ == self.tasks@[j].name@,
            decreases self.tasks.len() - i,
        {
            out.push(self.tasks[i].name.clone());
            i += 1;
        }
        assert(strs(out@) =~= self.names());
        out
    }

    /// The position of the first profile called `name`.
    pub fn find_profile(&self, name: &str) -> (r: Option<usize>)
        ensures
            match r {
                Some(i) => i < self.profiles@.len() && self.profiles@[i as int].name@ == name@
                    && forall|j: int| 0 <= j < i ==> self.profiles@[j].name@ != name@,
                None => forall|j: int|
                    0 <= j < self.profiles@.len() ==> self.profiles@[j].name@ != name@,
            },
    {
        let mut i: usize = 0;
        while i < self.profiles.len()
            invariant
                i <= self.profiles@.len(),
                forall|j: int| 0 <= j < i ==> self.profiles@[j].name@ != name@,
            decreases self.profiles.len() - i,
        {
            if str_eq(self.profiles[i].name.as_str(), name) {
                return Some(i);
            }
            i += 1;
        }
        None
    }

    /// The name of the profile that a run uses: the one asked for, else the
    /// project's default profile, if it has one.
    pub open spec fn profile_name(&self, name: Option<&str>) -> Option<Seq<char>> {
        match name {
            Some(n) => Some(n@),
            None => opt_str(self.project.default_profile),
        }
    }

    /// The profile that a run uses: the first profile of the name that the
    /// run uses; the default profile where no name is to be used or no
    /// profile has it.
    pub fn get_profile(&self, name: Option<&str>) -> (p: Profile)
        ensures
            match self.profile_name(name) {
                Some(n) => (exists|i: int|
                    0 <= i < self.profiles@.len() && self.profiles@[i].name@ == n && (forall|
                        j: int,
                    |
                        0 <= j < i ==> self.profiles@[j].name@ != n) && p.same_as(
                        &self.profiles@[i].profile,
                    )) || ((forall|j: int|
                    0 <= j < self.profiles@.len() ==> self.profiles@[j].name@ != n)
                    && is_default_profile(p)),
                None => is_default_profile(p),
            },
    {
        let found = match name {
            Some(n) => self.find_profile(n),
            None => match &self.project.default_profile {
                Some(d) => self.find_profile(d.as_str()),
                None => None,
            },
        };
        match found {
            Some(i) => self.profiles[i].profile.duplicate(),
            None => Profile::default(),
        }
    }

    /// The task called `task_name` as `profile` wants it: with the first
    /// override that the profile has for the task applied.
    pub fn get_task_with_profile(&self, task_name: &str, profile: &Profile) -> (r: Option<Task>)
        requires
            self.wf(),
        ensures
            r is Some <==> self.has_task(task_name@),
            r is Some ==> (exists|i: int|
                is_first_override(profile.task_overrides@, task_name@, i) && r->0@ == overridden(
                    self.task(task_name@)@,
                    profile.task_overrides@[i].overrides,
                )) || ((forall|j: int|
                0 <= j < profile.task_overrides@.len() ==> profile.task_overrides@[j].task@
                    != task_name@) && r->0@ == self.task(task_name@)@),
    {
        let mut task = match self.get_task(task_name) {
            Some(t) => t.duplicate(),
            None => {
                return None;
            },
        };
        match profile.find_override(task_name) {
            Some(i) => {
                let o = &profile.task_overrides[i].overrides;
                match o.parallel {
                    Some(p) => {
                        task.parallel = p;
                    },
                    None => {},
                }
                match o.workers {
                    Some(w) => {
                        task.workers = Some(w);
                    },
                    None => {},
                }
                match o.retry {
                    Some(r) => {
                        task.retry = r;
                    },
                    None => {},
                }
                match o.timeout_seconds {
                    Some(t) => {
                        task.timeout_seconds = Some(t);
                    },
                    None => {},
                }
                assert(task@ == overridden(self.task(task_name@)@, *o));
                Some(task)
            },
            None => Some(task),
        }
    }

    /// Every task that collects coverage in a named format names `lcov` or
    /// `cobertura`.
    pub open spec fn coverage_formats_known(&self) -> bool {
        forall|i: int|
            0 <= i < self.tasks@.len() ==> coverage_format_known((#[trigger] self.tasks@[i]).task@)
    }

    /// Checks the configuration: every dependency has to be a task, and
    /// every coverage format a known one. Dependencies are checked first.
    pub fn validate(&self) -> (r: Result<(), ConfigError>)
        ensures
            match r {
                Ok(_) => self.deps_exist() && self.coverage_formats_known(),
                Err(ConfigError::MissingDependency { task, dependency }) => exists|i: int, k: int|
                    0 <= i < self.tasks@.len() && 0 <= k < self.tasks@[i].task.depends_on@.len()
                        && self.tasks@[i].name@ == task@ && #[trigger] self.tasks@[i].task.depends_on@[k]@
                        == dependency@ && !self.has_task(dependency@),
                Err(ConfigError::InvalidCoverageFormat { task, format }) => self.deps_exist()
                    && exists|i: int|
                    0 <= i < self.tasks@.len() && (#[trigger] self.tasks@[i]).name@ == task@
                        && !coverage_format_known(self.tasks@[i].task@)
                        && self.tasks@[i].task@.coverage_format == Some(format@),
            },
    {
        let mut i: usize = 0;
        while i < self.tasks.len()
            invariant
                i <= self.tasks@.len(),
                forall|a: int, k: int|
                    0 <= a < i && 0 <= k < self.tasks@[a].task.depends_on@.len()
                        ==> self.has_task(#[trigger] self.tasks@[a].task.depends_on@[k]@),
            decreases self.tasks.len() - i,
        {
            let deps = &self.tasks[i].task.depends_on;
            let mut k: usize = 0;
            while k < deps.len()
                invariant
                    k <= deps@.len(),
                    i < self.tasks@.len(),
                    *deps == self.tasks@[i as int].task.depends_on,
                    forall|b: int| 0 <= b < k ==> self.has_task(#[trigger] deps@[b]@),
                decreases deps.len() - k,
            {
                if self.find_task(deps[k].as_str()).is_none() {
                    return Err(
                        ConfigError::MissingDependency {
                            task: self.tasks[i].name.clone(),
                            dependency: deps[k].clone(),
                        },
                    );
                }
                k += 1;
            }
            i += 1;
        }
        let mut j: usize = 0;
        while j < self.tasks.len()
            invariant
                j <= self.tasks@.len(),
                self.deps_exist(),
                forall|a: int|
                    0 <= a < j ==> coverage_format_known((#[trigger] self.tasks@[a]).task@),
            decreases self.tasks.len() - j,
        {
            let task = &self.tasks[j].task;
            if task.coverage {
                match &task.coverage_format {
                    Some(format) => {
                        if !str_eq(format.as_str(), "lcov") && !str_eq(format.as_str(), "cobertura") {
                            return Err(
                                ConfigError::InvalidCoverageFormat {
                                    task: self.tasks[j].name.clone(),
                                    format: format.clone(),
                                },
                            );
                        }
                    },
                    None => {},
                }
            }
            j += 1;
        }
        Ok(())
    }

    /// The global cache lifetime in hours: the configured one, or 24.
    pub fn get_cache_ttl(&self) -> (h: u32)
        ensures
            h == match self.cache {
                Some(c) => c.ttl_hours,
                None => 24u32,
            },
    {
        match &self.cache {
            Some(c) => c.ttl_hours,
            None => 24,
        }
    }

    /// Whether caching is on globally: as configured, or on.
    pub fn is_cache_enabled(&self) -> (b: bool)
        ensures
            b == match self.cache {
                Some(c) => c.enabled,
                None => true,
            },
    {
        match &self.cache {
            Some(c) => c.enabled,
            None => true,
        }
    }
}

} // verus!
