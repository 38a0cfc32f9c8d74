//! Changed files by kind.

use vstd::prelude::*;
use crate::text::{
    chars_contain_str, chars_end_with_str, has_substring, has_suffix, strs, to_chars,
};

verus! {

/// The kind of a changed file.
#[derive(Debug, Clone, Copy, PartialEq, Eq, Structural)]
pub enum FileKind {
    Rust,
    TypeScript,
    JavaScript,
    Python,
    Go,
    Config,
    Tests,
    Other,
}

/// The kind of the file at `path`: by its extension where that names a
/// language or a configuration format; else `Tests` where the path holds
/// `test` or `spec`; else `Other`.
pub open spec fn kind_of(path: Seq<char>) -> FileKind {
    if has_suffix(path, ".rs"@) {
        FileKind::Rust
    } else if has_suffix(path, ".ts"@) || has_suffix(path, ".tsx"@) {
        FileKind::TypeScript
    } else if has_suffix(path, ".js"@) || has_suffix(path, ".jsx"@) {
        FileKind::JavaScript
    } else if has_suffix(path, ".py"@) {
        FileKind::Python
    } else if has_suffix(path, ".go"@) {
        FileKind::Go
    } else if has_suffix(path, ".toml"@) || has_suffix(path, ".json"@) || has_suffix(
        path,
        ".yaml"@,
    ) || has_suffix(path, ".yml"@) {
        FileKind::Config
    } else if has_substring(path, "test"@) || has_substring(path, "spec"@) {
        FileKind::Tests
    } else {
        FileKind::Other
    }
}

/// The kind of the file at `path`.
pub fn file_kind(path: &str) -> (kind: FileKind)
    ensures
        kind == kind_of(path@),
{
    let p = to_chars(path);
    if chars_end_with_str(&p, ".rs") {
        FileKind::Rust
    } else if chars_end_with_str(&p, ".ts") || chars_end_with_str(&p, ".tsx") {
        FileKind::TypeScript
    } else if chars_end_with_str(&p, ".js") || chars_end_with_str(&p, ".jsx") {
        FileKind::JavaScript
    } else if chars_end_with_str(&p, ".py") {
        FileKind::Python
    } else if chars_end_with_str(&p, ".go") {
        FileKind::Go
    } else if chars_end_with_str(&p, ".toml") || chars_end_with_str(&p, ".json")
        || chars_end_with_str(&p, ".yaml") || chars_end_with_str(&p, ".yml") {
        FileKind::Config
    } else if chars_contain_str(&p, "test") || chars_contain_str(&p, "spec") {
        FileKind::Tests
    } else {
        FileKind::Other
    }
}

/// Changed files by kind, each list in the order in which the files were
/// given.
#[derive(Debug, Clone)]
pub struct FileCategories {
    pub rust: Vec<String>,
    pub typescript: Vec<String>,
    pub javascript: Vec<String>,
    pub python: Vec<String>,
    pub go: Vec<String>,
    pub config: Vec<String>,
    pub tests: Vec<String>,
    pub other: Vec<String>,
}

/// The paths of the given kind.
pub open spec fn of_kind(kind: FileKind) -> spec_fn(Seq<char>) -> bool {
    |path: Seq<char>| kind_of(path) == kind
}

impl FileCategories {
    /// How many files the lists hold together.
    pub open spec fn count(&self) -> nat {
        self.rust@.len() + self.typescript@.len() + self.javascript@.len() + self.python@.len()
            + self.go@.len() + self.config@.len() + self.tests@.len() + self.other@.len()
    }

    /// The lists are those of `files` by kind.
    pub open spec fn sorts(&self, files: Seq<Seq<char>>) -> bool {
        &&& strs(self.rust@) == files.filter(of_kind(FileKind::Rust))
        &&& strs(self.typescript@) == files.filter(of_kind(FileKind::TypeScript))
        &&& strs(self.javascript@) == files.filter(of_kind(FileKind::JavaScript))
        &&& strs(self.python@) == files.filter(of_kind(FileKind::Python))
        &&& strs(self.go@) == files.filter(of_kind(FileKind::Go))
        &&& strs(self.config@) == files.filter(of_kind(FileKind::Config))
        &&& strs(self.tests@) == files.filter(of_kind(FileKind::Tests))
        &&& strs(self.other@) == files.filter(of_kind(FileKind::Other))
    }

    /// How many files the lists hold together, or `None` where that number
    /// does not fit the machine word.
    pub fn checked_total(&self) -> (r: Option<usize>)
        ensures
            match r {
                Some(n) => n == self.count(),
                None => self.count() > usize::MAX,
            },
    {
        let a = self.rust.len().checked_add(self.typescript.len())?;
        let b = a.checked_add(self.javascript.len())?;
        let c = b.checked_add(self.python.len())?;
        let d = c.checked_add(self.go.len())?;
        let e = d.checked_add(self.config.len())?;
        let f = e.checked_add(self.tests.len())?;
        f.checked_add(self.other.len())
    }

    /// How many files the lists hold together.
    pub fn total(&self) -> (n: usize)
        requires
            self.count() <= usize::MAX,
        ensures
            n == self.count(),
    {
        self.rust.len() + self.typescript.len() + self.javascript.len() + self.python.len()
            + self.go.len() + self.config.len() + self.tests.len() + self.other.len()
    }
}

/// Sorts changed files by kind.
pub fn categorize_files(files: &[String]) -> (categories: FileCategories)
    ensures
        categories.sorts(strs(files@)),
        categories.count() == files@.len(),
{
    let mut c = FileCategories {
        rust: Vec::new(),
        typescript: Vec::new(),
        javascript: Vec::new(),
        python: Vec::new(),
        go: Vec::new(),
        config: Vec::new(),
        tests: Vec::new(),
        other: Vec::new(),
    };
    let ghost all = strs(files@);
    let mut i: usize = 0;
    proof {
        reveal(Seq::filter);
        let none = Seq::<Seq<char>>::empty();
        assert(all.subrange(0, 0) =~= none);
        assert(strs(c.rust@) =~= none);
        assert(strs(c.typescript@) =~= none);
        assert(strs(c.javascript@) =~= none);
        assert(strs(c.python@) =~= none);
        assert(strs(c.go@) =~= none);
        assert(strs(c.config@) =~= none);
        assert(strs(c.tests@) =~= none);
        assert(strs(c.other@) =~= none);
    }
    while i < files.len()
        invariant
            i <= files@.len(),
            all == strs(files@),
            c.sorts(all.subrange(0, i as int)),
            c.count() == i,
        decreases files.len() - i,
    {
        let ghost head = all.subrange(0, i as int);
        let ghost path = files@[i as int]@;
        let ghost before = c;
        proof {
            assert(all.subrange(0, i + 1) =~= head.push(path));
            head.lemma_filter_push(path, of_kind(FileKind::Rust));
            head.lemma_filter_push(path, of_kind(FileKind::TypeScript));
            head.lemma_filter_push(path, of_kind(FileKind::JavaScript));
            head.lemma_filter_push(path, of_kind(FileKind::Python));
            head.lemma_filter_push(path, of_kind(FileKind::Go));
            head.lemma_filter_push(path, of_kind(FileKind::Config));
            head.lemma_filter_push(path, of_kind(FileKind::Tests));
            head.lemma_filter_push(path, of_kind(FileKind::Other));
        }
        let file = files[i].clone();
        match file_kind(files[i].as_str()) {
            FileKind::Rust => {
                c.rust.push(file);
                assert(strs(c.rust@) =~= strs(before.rust@).push(path));
            },
            FileKind::TypeScript => {
                c.typescript.push(file);
                assert(strs(c.typescript@) =~= strs(before.typescript@).push(path));
            },
            FileKind::JavaScript => {
                c.javascript.push(file);
                assert(strs(c.javascript@) =~= strs(before.javascript@).push(path));
            },
            FileKind::Python => {
                c.python.push(file);
                assert(strs(c.python@) =~= strs(before.python@).push(path));
            },
            FileKind::Go => {
                c.go.push(file);
                assert(strs(c.go@) =~= strs(before.go@).push(path));
            },
            FileKind::Config => {
                c.config.push(file);
                assert(strs(c.config@) =~= strs(before.config@).push(path));
            },
            FileKind::Tests => {
                c.tests.push(file);
                assert(strs(c.tests@) =~= strs(before.tests@).push(path));
            },
            FileKind::Other => {
                c.other.push(file);
                assert(strs(c.other@) =~= strs(before.other@).push(path));
            },
        }
        i += 1;
    }
    assert(all.subrange(0, all.len() as int) =~= all);
    c
}

} // verus!
