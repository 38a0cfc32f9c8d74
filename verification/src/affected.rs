//! The tests that a change to a source file affects.
//!
//! Tests are tied to source files by where their modules live: the tests of
//! the module `config` belong to `src/config.rs` and `src/config/mod.rs`.

use vstd::prelude::*;
use crate::order::{sorted_unique, strictly_sorted};
use crate::text::{
    after_last, chars_after_last, chars_contain_str, chars_contains,
    chars_end_with_str, chars_starts_with, clone_strings, concat3, from_chars, has_prefix,
    has_substring, has_suffix, join, joined, replace_char, replaced_char, str_eq, strip_leading,
    strip_prefix, strip_suffix, strs, to_chars, without_leading, without_prefix, without_suffix,
};

verus! {

/// `path` with forward slashes for backslashes and without `./` at its
/// start, however often it stands there.
pub open spec fn normalized(path: Seq<char>) -> Seq<char> {
    without_leading(replaced_char(path, '\\', '/'), "./"@)
}

/// Writes a path with forward slashes and without `./` at its start.
pub fn normalize_path(path: &str) -> (out: String)
    ensures
        out@ == normalized(path@),
{
    let slashed = replace_char(&to_chars(path), '\\', '/');
    let dot_slash = to_chars("./");
    from_chars(&strip_leading(&slashed, &dot_slash))
}

/// A path that looks like that of a test file.
pub open spec fn looks_like_test_file(path: Seq<char>) -> bool {
    has_substring(path, "/tests/"@) || has_suffix(path, "_test.rs"@) || has_suffix(
        path,
        "_tests.rs"@,
    ) || has_substring(path, "test_"@)
}

/// Whether a path looks like that of a test file.
pub fn is_test_file(path: &str) -> (r: bool)
    ensures
        r == looks_like_test_file(path@),
{
    let p = to_chars(path);
    chars_contain_str(&p, "/tests/") || chars_end_with_str(&p, "_test.rs") || chars_end_with_str(
        &p,
        "_tests.rs",
    ) || chars_contain_str(&p, "test_")
}

/// `name` without `suffix` where it ends with it, else `name`.
pub open spec fn drop_suffix(name: Seq<char>, suffix: Seq<char>) -> Seq<char> {
    match without_suffix(name, suffix) {
        Some(rest) => rest,
        None => name,
    }
}

/// The module that a test file is named after: the file name without
/// `.rs`, without `_test` or else `_tests` at its end, and without `test_`
/// at its start. A file that is no `.rs` file is named after no module.
pub open spec fn module_of_test_file(path: Seq<char>) -> Option<Seq<char>> {
    match without_suffix(after_last(path, '/'), ".rs"@) {
        None => None,
        Some(name) => {
            let base = match without_suffix(name, "_test"@) {
                Some(rest) => rest,
                None => drop_suffix(name, "_tests"@),
            };
            match without_prefix(base, "test_"@) {
                Some(rest) => Some(rest),
                None => Some(base),
            }
        },
    }
}

/// The module that a test file is named after.
pub fn extract_module_from_test_file(path: &str) -> (r: Option<String>)
    ensures
        match r {
            Some(module) => module_of_test_file(path@) == Some(module@),
            None => module_of_test_file(path@) is None,
        },
{
    let filename = chars_after_last(&to_chars(path), '/');
    let name = match strip_suffix(&filename, &to_chars(".rs")) {
        Some(name) => name,
        None => {
            return None;
        },
    };
    let base = match strip_suffix(&name, &to_chars("_test")) {
        Some(rest) => rest,
        None => match strip_suffix(&name, &to_chars("_tests")) {
            Some(rest) => rest,
            None => name,
        },
    };
    let module = match strip_prefix(&base, &to_chars("test_")) {
        Some(rest) => rest,
        None => base,
    };
    Some(from_chars(&module))
}

/// A part of a module path that names a module, not its tests.
pub open spec fn names_module() -> spec_fn(Seq<char>) -> bool {
    |part: Seq<char>| part != "tests"@ && part != "test"@
}

/// The source files in which the tests of a module may live. No files for
/// no module path; the crate roots for a path that names test modules only;
/// else the file and the directory of the module, and those of its first
/// part where it has more than one.
pub open spec fn source_paths_of(modules: Seq<Seq<char>>) -> Seq<Seq<char>> {
    let parts = modules.filter(names_module());
    if modules.len() == 0 {
        Seq::empty()
    } else if parts.len() == 0 {
        seq!["src/lib.rs"@, "src/main.rs"@]
    } else {
        let whole = joined(parts, "/"@);
        let own = seq!["src/"@ + whole + ".rs"@, "src/"@ + whole + "/mod.rs"@];
        if parts.len() > 1 {
            own + seq!["src/"@ + parts[0] + ".rs"@, "src/"@ + parts[0] + "/mod.rs"@]
        } else {
            own
        }
    }
}

/// The source files in which the tests of the module with the path `modules` may
/// live.
pub fn infer_source_paths(modules: &[String]) -> (paths: Vec<String>)
    ensures
        strs(paths@) == source_paths_of(strs(modules@)),
{
    let mut paths: Vec<String> = Vec::new();
    if modules.len() == 0 {
        assert(strs(paths@) =~= Seq::<Seq<char>>::empty());
        return paths;
    }
    let ghost all = strs(modules@);
    let ghost keep = names_module();
    let mut parts: Vec<String> = Vec::new();
    let mut i: usize = 0;
    proof {
        reveal(Seq::filter);
        assert(all.subrange(0, 0) =~= Seq::<Seq<char>>::empty());
        assert(strs(parts@) =~= Seq::<Seq<char>>::empty());
    }
    while i < modules.len()
        invariant
            i <= modules@.len(),
            all == strs(modules@),
            keep == names_module(),
            strs(parts@) == all.subrange(0, i as int).filter(keep),
        decreases modules.len() - i,
    {
        let ghost head = all.subrange(0, i as int);
        let ghost part = modules@[i as int]@;
        let ghost prev = strs(parts@);
        proof {
            assert(all.subrange(0, i + 1) =~= head.push(part));
            head.lemma_filter_push(part, keep);
        }
        if !str_eq(modules[i].as_str(), "tests") && !str_eq(modules[i].as_str(), "test") {
            parts.push(modules[i].clone());
            assert(strs(parts@) =~= prev.push(part));
        }
        i += 1;
    }
    assert(all.subrange(0, all.len() as int) =~= all);
    if parts.len() == 0 {
        paths.push("src/lib.rs".to_owned());
        paths.push("src/main.rs".to_owned());
        assert(strs(paths@) =~= seq!["src/lib.rs"@, "src/main.rs"@]);
        return paths;
    }
    let whole = join(&parts, "/");
    paths.push(concat3("src/", whole.as_str(), ".rs"));
    paths.push(concat3("src/", whole.as_str(), "/mod.rs"));
    if parts.len() > 1 {
        paths.push(concat3("src/", parts[0].as_str(), ".rs"));
        paths.push(concat3("src/", parts[0].as_str(), "/mod.rs"));
        assert(strs(paths@) =~= source_paths_of(all));
    } else {
        assert(strs(paths@) =~= source_paths_of(all));
    }
    paths
}

/// The tests that belong to a source file.
#[derive(Debug, Clone)]
pub struct FileTests {
    pub path: String,
    pub tests: Vec<String>,
}

/// Which tests belong to which source files.
#[derive(Debug, Clone)]
pub struct AffectedTestsMap {
    /// The source files with their tests, in the order in which the files
    /// were first named.
    pub file_to_tests: Vec<FileTests>,
    /// The test files.
    pub test_files: Vec<String>,
}

/// The paths of the entries, in order.
pub open spec fn entry_paths(entries: Seq<FileTests>) -> Seq<Seq<char>> {
    Seq::new(entries.len(), |i: int| entries[i].path@)
}

/// The source file `path` and the changed file `changed` are related: one
/// of the two paths begins with the other.
pub open spec fn is_related(path: Seq<char>, changed: Seq<char>) -> bool {
    has_prefix(path, changed) || has_prefix(changed, path)
}

/// The changed file is a test file, and `path` holds the name of the module
/// that it is named after.
pub open spec fn names_tested_module(path: Seq<char>, changed: Seq<char>) -> bool {
    &&& looks_like_test_file(changed)
    &&& module_of_test_file(changed) matches Some(module)
    &&& has_substring(path, module)
}

/// The entry at `i` is the first with the path `path`.
pub open spec fn is_first_entry(entries: Seq<FileTests>, path: Seq<char>, i: int) -> bool {
    &&& 0 <= i < entries.len()
    &&& entries[i].path@ == path
    &&& forall|j: int| 0 <= j < i ==> entries[j].path@ != path
}

/// `test` belongs to an entry that a change to `changed` touches.
pub open spec fn is_touched(entries: Seq<FileTests>, changed: Seq<char>, test: Seq<char>) -> bool {
    exists|i: int|
        0 <= i < entries.len() && (is_related((#[trigger] entries[i]).path@, changed)
            || names_tested_module(entries[i].path@, changed)) && strs(entries[i].tests@).contains(
            test,
        )
}

impl AffectedTestsMap {
    /// A map without files.
    pub fn new() -> (m: AffectedTestsMap)
        ensures
            m.file_to_tests@.len() == 0,
            m.test_files@.len() == 0,
    {
        AffectedTestsMap { file_to_tests: Vec::new(), test_files: Vec::new() }
    }

    /// The position of the first entry of `path`.
    pub fn position(&self, path: &str) -> (r: Option<usize>)
        ensures
            match r {
                Some(i) => is_first_entry(self.file_to_tests@, path@, i as int),
                None => !entry_paths(self.file_to_tests@).contains(path@),
            },
    {
        let mut i: usize = 0;
        while i < self.file_to_tests.len()
            invariant
                i <= self.file_to_tests@.len(),
                forall|j: int| 0 <= j < i ==> self.file_to_tests@[j].path@ != path@,
            decreases self.file_to_tests.len() - i,
        {
            if str_eq(self.file_to_tests[i].path.as_str(), path) {
                return Some(i);
            }
            i += 1;
        }
        proof {
            let paths = entry_paths(self.file_to_tests@);
            if paths.contains(path@) {
                let k = paths.index_of(path@);
                assert(self.file_to_tests@[k].path@ == path@);
            }
        }
        None
    }

    /// Notes that `test` belongs to the source file `path`: after the other
    /// tests of the file, in a new entry where the file has none.
    pub fn insert(&mut self, path: &str, test: &str)
        ensures
            final(self).test_files == old(self).test_files,
            match old(self).position_spec(path@) {
                Some(i) => {
                    &&& final(self).file_to_tests@.len() == old(self).file_to_tests@.len()
                    &&& final(self).file_to_tests@[i].path@ == path@
                    &&& strs(final(self).file_to_tests@[i].tests@) == strs(
                        old(self).file_to_tests@[i].tests@,
                    ).push(test@)
                    &&& forall|j: int|
                        0 <= j < old(self).file_to_tests@.len() && j != i
                            ==> final(self).file_to_tests@[j] == old(self).file_to_tests@[j]
                },
                None => {
                    &&& final(self).file_to_tests@.len() == old(self).file_to_tests@.len() + 1
                    &&& final(self).file_to_tests@.last().path@ == path@
                    &&& strs(final(self).file_to_tests@.last().tests@) == seq![test@]
                    &&& forall|j: int|
                        0 <= j < old(self).file_to_tests@.len() ==> final(self).file_to_tests@[j]
                            == old(self).file_to_tests@[j]
                },
            },
    {
        let ghost before = self.file_to_tests@;
        match self.position(path) {
            Some(i) => {
                proof {
                    let chosen = choose|c: int| is_first_entry(before, path@, c);
                    assert(is_first_entry(before, path@, i as int));
                    assert(chosen == i);
                    let paths = entry_paths(before);
                    assert(paths[i as int] == path@);
                }
                let mut tests = clone_strings(&self.file_to_tests[i].tests);
                let ghost prev = strs(tests@);
                tests.push(test.to_owned());
                assert(strs(tests@) =~= prev.push(test@));
                self.file_to_tests.set(i, FileTests { path: path.to_owned(), tests });
            },
            None => {
                let mut tests: Vec<String> = Vec::new();
                tests.push(test.to_owned());
                assert(strs(tests@) =~= seq![test@]);
                self.file_to_tests.push(FileTests { path: path.to_owned(), tests });
            },
        }
    }

    /// The position of the first entry of `path`, if there is one.
    pub open spec fn position_spec(&self, path: Seq<char>) -> Option<int> {
        if entry_paths(self.file_to_tests@).contains(path) {
            Some(choose|i: int| is_first_entry(self.file_to_tests@, path, i))
        } else {
            None
        }
    }

    /// The tests to run again after `changed_file` changed. Where the file
    /// has an entry of its own, its tests as they stand there. Else the
    /// tests of every entry whose path is related to the file or holds the
    /// module that the file tests, each once, in ascending order.
    pub fn find_affected_tests(&self, changed_file: &str) -> (out: Vec<String>)
        ensures
            match self.position_spec(normalized(changed_file@)) {
                Some(i) => strs(out@) == strs(self.file_to_tests@[i].tests@),
                None => strictly_sorted(strs(out@)) && forall|test: Seq<char>|
                    strs(out@).contains(test) <==> is_touched(
                        self.file_to_tests@,
                        normalized(changed_file@),
                        test,
                    ),
            },
    {
        let normalized_path = normalize_path(changed_file);
        let ghost changed = normalized_path@;
        let ghost entries = self.file_to_tests@;
        match self.position(normalized_path.as_str()) {
            Some(i) => {
                proof {
                    let chosen = choose|c: int| is_first_entry(entries, changed, c);
                    assert(is_first_entry(entries, changed, i as int));
                    assert(entry_paths(entries)[i as int] == changed);
                    assert(chosen == i);
                }
                return clone_strings(&self.file_to_tests[i].tests);
            },
            None => {},
        }
        let needle = to_chars(normalized_path.as_str());
        let module: Option<Vec<char>> = if is_test_file(normalized_path.as_str()) {
            match extract_module_from_test_file(normalized_path.as_str()) {
                Some(m) => Some(to_chars(m.as_str())),
                None => None,
            }
        } else {
            None
        };
        let mut affected: Vec<String> = Vec::new();
        let mut e: usize = 0;
        while e < self.file_to_tests.len()
            invariant
                e <= self.file_to_tests@.len(),
                entries == self.file_to_tests@,
                needle@ == changed,
                match module {
                    Some(m) => looks_like_test_file(changed) && module_of_test_file(changed)
                        == Some(m@),
                    None => !looks_like_test_file(changed) || module_of_test_file(changed)
                        is None,
                },
                forall|test: Seq<char>|
                    strs(affected@).contains(test) <==> is_touched(
                        entries.subrange(0, e as int),
                        changed,
                        test,
                    ),
            decreases self.file_to_tests.len() - e,
        {
            let entry = &self.file_to_tests[e];
            let path = to_chars(entry.path.as_str());
            let hit = chars_starts_with(&path, &needle) || chars_starts_with(&needle, &path)
                || match &module {
                Some(m) => chars_contains(&path, m),
                None => false,
            };
            let ghost before = strs(affected@);
            let ghost head = entries.subrange(0, e as int);
            let ghost next = entries.subrange(0, e + 1);
            assert(hit == (is_related(entries[e as int].path@, changed) || names_tested_module(
                entries[e as int].path@,
                changed,
            )));
            if hit {
                let mut t: usize = 0;
                while t < entry.tests.len()
                    invariant
                        t <= entry.tests@.len(),
                        forall|test: Seq<char>|
                            strs(affected@).contains(test) <==> before.contains(test) || strs(
                                entry.tests@,
                            ).subrange(0, t as int).contains(test),
                    decreases entry.tests.len() - t,
                {
                    let ghost prev = strs(affected@);
                    let ghost taken = strs(entry.tests@).subrange(0, t as int);
                    affected.push(entry.tests[t].clone());
                    proof {
                        let y = entry.tests@[t as int]@;
                        let taken_next = strs(entry.tests@).subrange(0, t + 1);
                        assert(strs(affected@) =~= prev.push(y));
                        assert(taken_next =~= taken.push(y));
                        crate::text::lemma_push_contains(prev, y);
                        crate::text::lemma_push_contains(taken, y);
                        assert forall|test: Seq<char>|
                            strs(affected@).contains(test) <==> before.contains(test)
                                || taken_next.contains(test) by {
                            assert(prev.contains(test) <==> before.contains(test)
                                || taken.contains(test));
                        }
                    }
                    t += 1;
                }
                assert(strs(entry.tests@).subrange(0, entry.tests@.len() as int) =~= strs(
                    entry.tests@,
                ));
            }
            proof {
                assert forall|test: Seq<char>| strs(affected@).contains(test) <==> is_touched(
                    next,
                    changed,
                    test,
                ) by {
                    assert(before.contains(test) <==> is_touched(head, changed, test));
                    if is_touched(head, changed, test) {
                        let w = choose|w: int|
                            0 <= w < head.len() && (is_related((#[trigger] head[w]).path@, changed)
                                || names_tested_module(head[w].path@, changed)) && strs(
                                head[w].tests@,
                            ).contains(test);
                        assert(next[w] == head[w]);
                    }
                    if hit && strs(entry.tests@).contains(test) {
                        assert(next[e as int] == entries[e as int]);
                    }
                    if is_touched(next, changed, test) {
                        let w = choose|w: int|
                            0 <= w < next.len() && (is_related((#[trigger] next[w]).path@, changed)
                                || names_tested_module(next[w].path@, changed)) && strs(
                                next[w].tests@,
                            ).contains(test);
                        if w < e {
                            assert(head[w] == next[w]);
                        }
                    }
                }
            }
            e += 1;
        }
        assert(entries.subrange(0, entries.len() as int) =~= entries);
        sorted_unique(&affected)
    }

    /// Whether a change to `changed_file` calls for tests to run again: for
    /// Rust sources and for `Cargo.toml`.
    pub fn should_rerun(&self, changed_file: &str) -> (r: bool)
        ensures
            r == (has_suffix(normalized(changed_file@), ".rs"@) || has_suffix(
                normalized(changed_file@),
                "Cargo.toml"@,
            )),
    {
        let path = normalize_path(changed_file);
        let p = to_chars(path.as_str());
        chars_end_with_str(&p, ".rs") || chars_end_with_str(&p, "Cargo.toml")
    }
}

impl Default for AffectedTestsMap {
    fn default() -> (m: AffectedTestsMap)
        ensures
            m.file_to_tests@.len() == 0,
            m.test_files@.len() == 0,
    {
        AffectedTestsMap::new()
    }
}

} // verus!
