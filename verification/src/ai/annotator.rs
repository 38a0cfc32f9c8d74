//! Finding the tests in a source file: their names and their bodies.
//!
//! A file is read line by line. A test is told by the line that starts it:
//! an attribute in Rust, a call of `it` or `test` in JavaScript, a function
//! named `test_...` in Python, a function named `Test...` in Go. Its body
//! runs to the closing brace, or in Python to the end of the indented block.

use vstd::prelude::*;
use crate::text::{
    append_chars, chars_contain_str, chars_equal_str, chars_range, chars_start_with_str,
    count_leading_spaces, from_chars, has_prefix, has_substring, joined, leading_spaces,
    str_pairs, strip_leading, to_chars, trim, trimmed, without_leading,
};

verus! {

/// `c` stands in `s` at `i`, and nowhere before.
pub open spec fn is_first_char(s: Seq<char>, c: char, i: int) -> bool {
    &&& 0 <= i < s.len()
    &&& s[i] == c
    &&& forall|j: int| 0 <= j < i ==> s[j] != c
}

/// The position of the first `c` in `s`, if it holds one.
pub open spec fn first_char(s: Seq<char>, c: char) -> Option<int> {
    if s.contains(c) {
        Some(choose|i: int| is_first_char(s, c, i))
    } else {
        None
    }
}

/// A quotation mark.
pub open spec fn is_quote(c: char) -> bool {
    c == '\'' || c == '"'
}

/// A quotation mark stands in `s` at `i`, and none before.
pub open spec fn is_first_quote(s: Seq<char>, i: int) -> bool {
    &&& 0 <= i < s.len()
    &&& is_quote(s[i])
    &&& forall|j: int| 0 <= j < i ==> !is_quote(s[j])
}

/// The position of the first quotation mark in `s`, if it holds one.
pub open spec fn first_quote(s: Seq<char>) -> Option<int> {
    if exists|i: int| is_first_quote(s, i) {
        Some(choose|i: int| is_first_quote(s, i))
    } else {
        None
    }
}

/// The first `c` of `s` stands where it is found.
proof fn lemma_first_char(s: Seq<char>, c: char, i: int)
    requires
        is_first_char(s, c, i),
    ensures
        first_char(s, c) == Some(i),
{
    assert(s.contains(c));
    let chosen = choose|k: int| is_first_char(s, c, k);
    assert(is_first_char(s, c, chosen));
    if chosen < i {
        assert(s[chosen] != c);
    }
    if i < chosen {
        assert(s[i] != c);
    }
}

/// The position of the first `c` in `s[from..]`, counted from `from`.
fn find_char(s: &Vec<char>, from: usize, c: char) -> (r: Option<usize>)
    requires
        from <= s@.len(),
    ensures
        match r {
            Some(i) => first_char(s@.subrange(from as int, s@.len() as int), c) == Some(i as int)
                && from + i < s@.len() && s@[from + i] == c,
            None => first_char(s@.subrange(from as int, s@.len() as int), c) is None,
        },
{
    let ghost rest = s@.subrange(from as int, s@.len() as int);
    let mut i: usize = from;
    while i < s.len()
        invariant
            from <= i <= s@.len(),
            rest == s@.subrange(from as int, s@.len() as int),
            forall|j: int| 0 <= j < i - from ==> rest[j] != c,
        decreases s.len() - i,
    {
        if s[i] == c {
            proof {
                assert(rest[i - from] == s@[i as int]);
                lemma_first_char(rest, c, (i - from) as int);
            }
            return Some(i - from);
        }
        assert(rest[i - from] == s@[i as int]);
        i += 1;
    }
    proof {
        if rest.contains(c) {
            let k = rest.index_of(c);
            assert(rest[k] == c);
        }
    }
    None
}

/// The position of the first quotation mark in `s`.
fn find_quote(s: &Vec<char>) -> (r: Option<usize>)
    ensures
        match r {
            Some(i) => first_quote(s@) == Some(i as int) && i < s@.len(),
            None => first_quote(s@) is None,
        },
{
    let mut i: usize = 0;
    while i < s.len()
        invariant
            i <= s@.len(),
            forall|j: int| 0 <= j < i ==> !is_quote(s@[j]),
        decreases s.len() - i,
    {
        if s[i] == '\'' || s[i] == '"' {
            proof {
                assert(is_first_quote(s@, i as int));
                let chosen = choose|k: int| is_first_quote(s@, k);
                assert(is_first_quote(s@, chosen));
                if chosen < i {
                    assert(!is_quote(s@[chosen]));
                }
                if i < chosen {
                    assert(!is_quote(s@[i as int]));
                }
            }
            return Some(i);
        }
        i += 1;
    }
    proof {
        if exists|k: int| is_first_quote(s@, k) {
            let k = choose|k: int| is_first_quote(s@, k);
            assert(!is_quote(s@[k]));
        }
    }
    None
}

/// `line` without the carriage return at its end, if it has one.
pub open spec fn without_carriage_return(line: Seq<char>) -> Seq<char> {
    if line.len() > 0 && line.last() == '\r' {
        line.drop_last()
    } else {
        line
    }
}

/// The lines of a text: the parts between its line feeds, each without a
/// carriage return before its line feed. A text that ends with a line feed
/// has no empty last line.
pub open spec fn lines_of(s: Seq<char>) -> Seq<Seq<char>>
    decreases s.len(),
{
    if s.len() == 0 {
        Seq::empty()
    } else {
        match first_char(s, '\n') {
            Some(i) => if 0 <= i < s.len() {
                seq![without_carriage_return(s.subrange(0, i))] + lines_of(
                    s.subrange(i + 1, s.len() as int),
                )
            } else {
                seq![s]
            },
            None => seq![s],
        }
    }
}

/// The lines of a text.
pub fn split_lines(s: &Vec<char>) -> (out: Vec<Vec<char>>)
    ensures
        rows_of(out@) == lines_of(s@),
{
    let mut out: Vec<Vec<char>> = Vec::new();
    let mut pos: usize = 0;
    let ghost mut done: Seq<Seq<char>> = Seq::empty();
    assert(s@.subrange(0, s@.len() as int) =~= s@);
    assert(done + lines_of(s@) =~= lines_of(s@));
    while pos < s.len()
        invariant
            pos <= s@.len(),
            rows_of(out@) == done,
            done + lines_of(s@.subrange(pos as int, s@.len() as int)) == lines_of(s@),
        decreases s.len() - pos,
    {
        let ghost rest = s@.subrange(pos as int, s@.len() as int);
        let ghost before = done;
        match find_char(s, pos, '\n') {
            Some(i) => {
                let mut end = pos + i;
                let ghost raw = s@.subrange(pos as int, pos + i);
                let ghost tail = s@.subrange(pos + i + 1, s@.len() as int);
                proof {
                    assert(rest.subrange(0, i as int) =~= raw);
                    assert(rest.subrange(i + 1, rest.len() as int) =~= tail);
                    assert(lines_of(rest) == seq![without_carriage_return(raw)] + lines_of(tail));
                }
                if end > pos && s[end - 1] == '\r' {
                    proof {
                        assert(raw.last() == s@[end - 1]);
                        assert(raw.drop_last() =~= s@.subrange(pos as int, end - 1));
                    }
                    end = end - 1;
                } else {
                    proof {
                        if raw.len() > 0 {
                            assert(raw.last() == s@[end - 1]);
                        }
                    }
                }
                let line = chars_range(s, pos, end);
                assert(line@ == without_carriage_return(raw));
                out.push(line);
                proof {
                    done = before.push(line@);
                    assert(rows_of(out@) =~= done);
                    assert(done + lines_of(tail) =~= before + lines_of(rest));
                }
                pos = pos + i + 1;
            },
            None => {
                let line = chars_range(s, pos, s.len());
                out.push(line);
                proof {
                    done = before.push(rest);
                    assert(rows_of(out@) =~= done);
                    assert(lines_of(rest) == seq![rest]);
                    let nothing = s@.subrange(s@.len() as int, s@.len() as int);
                    assert(nothing.len() == 0);
                    assert(lines_of(nothing) =~= Seq::<Seq<char>>::empty());
                    assert(done + lines_of(nothing) =~= before + lines_of(rest));
                }
                pos = s.len();
            },
        }
    }
    proof {
        let nothing = s@.subrange(s@.len() as int, s@.len() as int);
        assert(nothing.len() == 0);
        assert(done + lines_of(nothing) =~= done);
    }
    out
}

/// The lines as plain sequences.
pub open spec fn rows_of(lines: Seq<Vec<char>>) -> Seq<Seq<char>> {
    Seq::new(lines.len(), |i: int| lines[i]@)
}

/// What stands before the first `(` of `line`, without the white space
/// around it; nothing where the line has no `(`.
pub open spec fn name_before_paren(line: Seq<char>) -> Option<Seq<char>> {
    match first_char(line, '(') {
        Some(i) => Some(trimmed(line.subrange(0, i))),
        None => None,
    }
}

/// What stands before the first `(` of `line`.
fn take_name(line: &Vec<char>) -> (r: Option<String>)
    ensures
        match r {
            Some(name) => name_before_paren(line@) == Some(name@),
            None => name_before_paren(line@) is None,
        },
{
    assert(line@.subrange(0, line@.len() as int) =~= line@);
    match find_char(line, 0, '(') {
        Some(i) => Some(from_chars(&trim(&chars_range(line, 0, i)))),
        None => None,
    }
}

/// The name of the Rust function that `line` starts: what stands before
/// its first `(`, after any `pub `, `async ` and `fn ` at its start.
pub open spec fn rust_fn_name(line: Seq<char>) -> Option<Seq<char>> {
    name_before_paren(
        without_leading(without_leading(without_leading(line, "pub "@), "async "@), "fn "@),
    )
}

/// The name of the Rust function that `line` starts.
pub fn extract_fn_name(line: &str) -> (r: Option<String>)
    ensures
        match r {
            Some(name) => rust_fn_name(line@) == Some(name@),
            None => rust_fn_name(line@) is None,
        },
{
    let a = strip_leading(&to_chars(line), &to_chars("pub "));
    let b = strip_leading(&a, &to_chars("async "));
    let c = strip_leading(&b, &to_chars("fn "));
    take_name(&c)
}

/// The name of the Python function that `line` starts: what stands before
/// its first `(`, after any `async ` and `def ` at its start.
pub open spec fn python_fn_name(line: Seq<char>) -> Option<Seq<char>> {
    name_before_paren(without_leading(without_leading(line, "async "@), "def "@))
}

/// The name of the Python function that `line` starts.
pub fn extract_python_fn_name(line: &str) -> (r: Option<String>)
    ensures
        match r {
            Some(name) => python_fn_name(line@) == Some(name@),
            None => python_fn_name(line@) is None,
        },
{
    let a = strip_leading(&to_chars(line), &to_chars("async "));
    let b = strip_leading(&a, &to_chars("def "));
    take_name(&b)
}

/// The name of the Go function that `line` starts: what stands before its
/// first `(`, after any `func ` at its start.
pub open spec fn go_fn_name(line: Seq<char>) -> Option<Seq<char>> {
    name_before_paren(without_leading(line, "func "@))
}

/// The name of the Go function that `line` starts.
pub fn extract_go_fn_name(line: &str) -> (r: Option<String>)
    ensures
        match r {
            Some(name) => go_fn_name(line@) == Some(name@),
            None => go_fn_name(line@) is None,
        },
{
    let a = strip_leading(&to_chars(line), &to_chars("func "));
    take_name(&a)
}

/// The name of the JavaScript test that `line` starts: what stands between
/// the first quotation mark of the line and the next mark of the same kind.
pub open spec fn js_test_name(line: Seq<char>) -> Option<Seq<char>> {
    match first_quote(line) {
        None => None,
        Some(start) => {
            let rest = line.subrange(start + 1, line.len() as int);
            match first_char(rest, line[start]) {
                None => None,
                Some(end) => Some(rest.subrange(0, end)),
            }
        },
    }
}

/// The name of the JavaScript test that `line` starts.
pub fn extract_js_test_name(line: &str) -> (r: Option<String>)
    ensures
        match r {
            Some(name) => js_test_name(line@) == Some(name@),
            None => js_test_name(line@) is None,
        },
{
    let chars = to_chars(line);
    let start = match find_quote(&chars) {
        Some(i) => i,
        None => {
            return None;
        },
    };
    let quote = chars[start];
    let n = chars.len();
    assert(start < n);
    match find_char(&chars, start + 1, quote) {
        Some(end) => {
            proof {
                let rest = chars@.subrange(start + 1, chars@.len() as int);
                assert(rest.subrange(0, end as int) =~= chars@.subrange(
                    start + 1,
                    start + 1 + end,
                ));
            }
            Some(from_chars(&chars_range(&chars, start + 1, start + 1 + end)))
        },
        None => None,
    }
}

/// How often `c` stands in `s`.
pub open spec fn count_char(s: Seq<char>, c: char) -> nat
    decreases s.len(),
{
    if s.len() == 0 {
        0
    } else {
        count_char(s.drop_last(), c) + if s.last() == c {
            1nat
        } else {
            0nat
        }
    }
}

/// How often `c` stands in `s`.
fn count_of(s: &Vec<char>, c: char) -> (n: usize)
    ensures
        n == count_char(s@, c),
        n <= s@.len(),
{
    let mut n: usize = 0;
    let mut i: usize = 0;
    assert(s@.subrange(0, 0) =~= Seq::<char>::empty());
    while i < s.len()
        invariant
            i <= s@.len(),
            n <= i,
            n == count_char(s@.subrange(0, i as int), c),
        decreases s.len() - i,
    {
        proof {
            let next = s@.subrange(0, i + 1);
            assert(next.drop_last() =~= s@.subrange(0, i as int));
            assert(next.last() == s@[i as int]);
        }
        if s[i] == c {
            n += 1;
        }
        i += 1;
    }
    assert(s@.subrange(0, s@.len() as int) =~= s@);
    n
}

/// How often `c` stands in the lines `lines[from..to]` together.
pub open spec fn count_in_lines(lines: Seq<Seq<char>>, from: int, to: int, c: char) -> nat
    decreases to - from,
{
    if to <= from {
        0
    } else {
        count_in_lines(lines, from, to - 1, c) + count_char(lines[to - 1], c)
    }
}

/// The braces of the lines `lines[from..=at]` are balanced, and there is
/// one: a block that began at `from` ends with the line `at`.
pub open spec fn block_closes_at(lines: Seq<Seq<char>>, from: int, at: int) -> bool {
    &&& from <= at < lines.len()
    &&& count_in_lines(lines, from, at + 1, '{') > 0
    &&& count_in_lines(lines, from, at + 1, '{') == count_in_lines(lines, from, at + 1, '}')
}

/// The line after the last line of the block that begins at `from`: after
/// the first line with which the braces are balanced; after the last line
/// of all where there is no such line.
pub open spec fn block_end(lines: Seq<Seq<char>>, from: int) -> int {
    if exists|at: int| block_closes_at(lines, from, at) {
        1 + choose|at: int|
            block_closes_at(lines, from, at) && forall|e: int|
                from <= e < at ==> !block_closes_at(lines, from, e)
    } else {
        lines.len() as int
    }
}

/// The lines `lines[from..to]`, with a line feed between each two; nothing
/// where `from` is no line.
pub open spec fn block_text(lines: Seq<Seq<char>>, from: int, to: int) -> Seq<char> {
    if 0 <= from <= to <= lines.len() {
        joined(lines.subrange(from, to), seq!['\n'])
    } else {
        Seq::empty()
    }
}

/// The text of the block in braces that begins with the line `from`.
pub open spec fn function_body(lines: Seq<Seq<char>>, from: int) -> Seq<char> {
    block_text(lines, from, block_end(lines, from))
}

/// The lines `lines[from..to]` with a line feed between each two.
fn join_lines(lines: &Vec<Vec<char>>, from: usize, to: usize) -> (out: String)
    requires
        from <= to <= lines@.len(),
    ensures
        out@ == block_text(rows_of(lines@), from as int, to as int),
{
    let ghost part = rows_of(lines@).subrange(from as int, to as int);
    let ghost sep = seq!['\n'];
    let mut all: Vec<char> = Vec::new();
    let mut i: usize = from;
    assert(part.subrange(0, 0) =~= Seq::<Seq<char>>::empty());
    while i < to
        invariant
            from <= i <= to <= lines@.len(),
            part == rows_of(lines@).subrange(from as int, to as int),
            sep == seq!['\n'],
            all@ == joined(part.subrange(0, i - from), sep),
        decreases to - i,
    {
        proof {
            let next = part.subrange(0, i - from + 1);
            assert(next.drop_last() =~= part.subrange(0, i - from));
            assert(next.last() == lines@[i as int]@);
            if i == from {
                assert(next[0] == lines@[i as int]@);
            }
        }
        if i > from {
            all.push('\n');
        }
        append_chars(&mut all, &lines[i]);
        assert(all@ =~= joined(part.subrange(0, i - from + 1), sep));
        i += 1;
    }
    assert(part.subrange(0, to - from) =~= part);
    from_chars(&all)
}

/// The text of the block in braces that begins with the line `start_idx`:
/// the lines from there to the first line with which as many braces have
/// closed as have opened, at least one; to the last line where the braces
/// never balance.
fn function_text(lines: &Vec<Vec<char>>, start_idx: usize) -> (body: String)
    ensures
        body@ == function_body(rows_of(lines@), start_idx as int),
{
    let ghost rows = rows_of(lines@);
    let n = lines.len();
    if start_idx >= n {
        proof {
            assert(no_close_before(rows, start_idx as int, rows.len() as int));
            lemma_block_open(rows, start_idx as int);
        }
        if start_idx == n {
            let out = join_lines(lines, n, n);
            return out;
        }
        return String::new();
    }
    let mut opens: u128 = 0;
    let mut closes: u128 = 0;
    let mut e: usize = start_idx;
    while e < n
        invariant
            start_idx <= e <= n,
            n == lines@.len(),
            rows == rows_of(lines@),
            opens == count_in_lines(rows, start_idx as int, e as int, '{'),
            closes == count_in_lines(rows, start_idx as int, e as int, '}'),
            opens <= (e - start_idx) * 18446744073709551615,
            closes <= (e - start_idx) * 18446744073709551615,
            no_close_before(rows, start_idx as int, e as int),
        decreases n - e,
    {
        let o = count_of(&lines[e], '{');
        let c = count_of(&lines[e], '}');
        proof {
            assert(rows[e as int] == lines@[e as int]@);
            assert(count_in_lines(rows, start_idx as int, e + 1, '{') == count_in_lines(
                rows,
                start_idx as int,
                e as int,
                '{',
            ) + count_char(rows[e as int], '{'));
            assert(count_in_lines(rows, start_idx as int, e + 1, '}') == count_in_lines(
                rows,
                start_idx as int,
                e as int,
                '}',
            ) + count_char(rows[e as int], '}'));
            assert(e - start_idx + 1 <= 18446744073709551615);
        }
        opens = opens + o as u128;
        closes = closes + c as u128;
        if opens > 0 && opens == closes {
            proof {
                lemma_block_end(rows, start_idx as int, e as int);
            }
            return join_lines(lines, start_idx, e + 1);
        }
        proof {
            assert(!block_closes_at(rows, start_idx as int, e as int));
            assert(no_close_before(rows, start_idx as int, e + 1)) by {
                assert forall|at: int| start_idx <= at < e + 1 implies !block_closes_at(
                    rows,
                    start_idx as int,
                    at,
                ) by {
                    if at < e {
                        assert(no_close_before(rows, start_idx as int, e as int));
                    }
                }
            }
        }
        e += 1;
    }
    proof {
        lemma_block_open(rows, start_idx as int);
    }
    join_lines(lines, start_idx, n)
}

/// No block that began at `from` ends before the line `to`.
pub open spec fn no_close_before(lines: Seq<Seq<char>>, from: int, to: int) -> bool {
    forall|at: int| from <= at < to ==> !block_closes_at(lines, from, at)
}

/// A block ends after the first line at which it closes.
proof fn lemma_block_end(lines: Seq<Seq<char>>, from: int, at: int)
    requires
        block_closes_at(lines, from, at),
        no_close_before(lines, from, at),
    ensures
        block_end(lines, from) == at + 1,
{
    let chosen = choose|x: int|
        block_closes_at(lines, from, x) && forall|e: int|
            from <= e < x ==> !block_closes_at(lines, from, e);
    assert(block_closes_at(lines, from, chosen));
    if chosen < at {
        assert(!block_closes_at(lines, from, chosen));
    }
    if at < chosen {
        assert(!block_closes_at(lines, from, at));
    }
}

/// A block that closes at no line runs to the last line.
proof fn lemma_block_open(lines: Seq<Seq<char>>, from: int)
    requires
        no_close_before(lines, from, lines.len() as int),
    ensures
        block_end(lines, from) == lines.len(),
{
    if exists|at: int| block_closes_at(lines, from, at) {
        let at = choose|at: int| block_closes_at(lines, from, at);
        assert(!block_closes_at(lines, from, at));
    }
}

/// The text of the block in braces that begins with the line `start_idx`.
pub fn extract_function_body(lines: &Vec<String>, start_idx: usize) -> (body: String)
    ensures
        body@ == function_body(crate::text::strs(lines@), start_idx as int),
{
    let rows = char_rows(lines);
    function_text(&rows, start_idx)
}

/// The text of the block in braces that begins with the line `start_idx`.
pub fn extract_js_block(lines: &Vec<String>, start_idx: usize) -> (body: String)
    ensures
        body@ == function_body(crate::text::strs(lines@), start_idx as int),
{
    extract_function_body(lines, start_idx)
}

/// The characters of each line.
fn char_rows(lines: &Vec<String>) -> (rows: Vec<Vec<char>>)
    ensures
        rows_of(rows@) == crate::text::strs(lines@),
{
    let mut rows: Vec<Vec<char>> = Vec::new();
    let mut i: usize = 0;
    while i < lines.len()
        invariant
            i <= lines@.len(),
            rows@.len() == i,
            forall|j: int| 0 <= j < i ==> rows@[j]@ == lines@[j]@,
        decreases lines.len() - i,
    {
        rows.push(to_chars(lines[i].as_str()));
        i += 1;
    }
    assert(rows_of(rows@) =~= crate::text::strs(lines@));
    rows
}

/// A line that belongs to an indented block with the base indent `base`:
/// a blank line, or one that is indented deeper.
pub open spec fn stays_in_block(line: Seq<char>, base: nat) -> bool {
    trimmed(line).len() == 0 || leading_spaces(line) > base
}

/// The line `at` is the first after `from` that leaves the block that
/// begins with the line `from`.
pub open spec fn leaves_block_at(lines: Seq<Seq<char>>, from: int, at: int) -> bool {
    &&& from < at < lines.len()
    &&& !stays_in_block(lines[at], leading_spaces(lines[from]))
    &&& forall|e: int|
        from < e < at ==> stays_in_block(#[trigger] lines[e], leading_spaces(lines[from]))
}

/// The line after the last line of the indented block that begins with the
/// line `from`.
pub open spec fn indented_end(lines: Seq<Seq<char>>, from: int) -> int {
    if exists|at: int| leaves_block_at(lines, from, at) {
        choose|at: int| leaves_block_at(lines, from, at)
    } else {
        lines.len() as int
    }
}

/// The text of the indented block that begins with the line `from`: that
/// line and the lines after it, as long as they are blank or indented
/// deeper.
pub open spec fn python_body(lines: Seq<Seq<char>>, from: int) -> Seq<char> {
    block_text(lines, from, indented_end(lines, from))
}

/// The text of the indented block that begins with the line `start_idx`.
fn python_text(lines: &Vec<Vec<char>>, start_idx: usize) -> (body: String)
    requires
        start_idx < lines@.len(),
    ensures
        body@ == python_body(rows_of(lines@), start_idx as int),
{
    let ghost rows = rows_of(lines@);
    let n = lines.len();
    let base = count_leading_spaces(&lines[start_idx]);
    assert(rows[start_idx as int] == lines@[start_idx as int]@);
    let mut e: usize = start_idx + 1;
    while e < n
        invariant
            start_idx < e <= n,
            n == lines@.len(),
            rows == rows_of(lines@),
            base == leading_spaces(rows[start_idx as int]),
            forall|x: int| start_idx < x < e ==> stays_in_block(#[trigger] rows[x], base as nat),
        decreases n - e,
    {
        assert(rows[e as int] == lines@[e as int]@);
        let blank = trim(&lines[e]).len() == 0;
        if !blank && count_leading_spaces(&lines[e]) <= base {
            proof {
                assert(leaves_block_at(rows, start_idx as int, e as int));
                let chosen = choose|at: int| leaves_block_at(rows, start_idx as int, at);
                assert(leaves_block_at(rows, start_idx as int, chosen));
                if chosen < e {
                    assert(stays_in_block(rows[chosen], base as nat));
                }
                if e < chosen {
                    assert(stays_in_block(rows[e as int], base as nat));
                }
            }
            return join_lines(lines, start_idx, e);
        }
        e += 1;
    }
    proof {
        if exists|at: int| leaves_block_at(rows, start_idx as int, at) {
            let at = choose|at: int| leaves_block_at(rows, start_idx as int, at);
            assert(stays_in_block(rows[at], base as nat));
        }
    }
    join_lines(lines, start_idx, n)
}

/// The text of the indented block that begins with the line `start_idx`.
pub fn extract_python_block(lines: &Vec<String>, start_idx: usize) -> (body: String)
    requires
        start_idx < lines@.len(),
    ensures
        body@ == python_body(crate::text::strs(lines@), start_idx as int),
{
    let rows = char_rows(lines);
    python_text(&rows, start_idx)
}

/// A line that marks the next function as a test.
pub open spec fn is_test_attribute(line: Seq<char>) -> bool {
    line == "#[test]"@ || has_substring(line, "#[tokio::test]"@) || has_substring(
        line,
        "#[async_std::test]"@,
    )
}

/// A line that starts a function.
pub open spec fn starts_function(line: Seq<char>) -> bool {
    has_prefix(line, "fn "@) || has_prefix(line, "async fn "@) || has_prefix(line, "pub fn "@)
}

/// How many lines from `from` on do not start a function, up to the first
/// that does.
pub open spec fn lines_to_function(lines: Seq<Seq<char>>, from: int) -> nat
    decreases lines.len() - from,
{
    if from < 0 || from >= lines.len() || starts_function(trimmed(lines[from])) {
        0
    } else {
        1 + lines_to_function(lines, from + 1)
    }
}

/// What a function line adds to the tests: its name with its body, where
/// it has a name.
pub open spec fn rust_entry(lines: Seq<Seq<char>>, at: int) -> Seq<(Seq<char>, Seq<char>)> {
    match rust_fn_name(trimmed(lines[at])) {
        Some(name) => seq![(name, function_body(lines, at))],
        None => Seq::empty(),
    }
}

/// The Rust tests that begin in the lines from `from` on: for each test
/// attribute, the next function with its body; the search goes on after the
/// line that starts the function.
pub open spec fn rust_tests_from(lines: Seq<Seq<char>>, from: int) -> Seq<(Seq<char>, Seq<char>)>
    decreases lines.len() - from,
{
    if from < 0 || from >= lines.len() {
        Seq::empty()
    } else if is_test_attribute(trimmed(lines[from])) {
        let at = from + 1 + lines_to_function(lines, from + 1);
        if at < lines.len() {
            rust_entry(lines, at) + rust_tests_from(lines, at + 1)
        } else {
            Seq::empty()
        }
    } else {
        rust_tests_from(lines, from + 1)
    }
}

/// Whether `line`, without the white space around it, starts a function.
fn line_starts_function(line: &Vec<char>) -> (r: bool)
    ensures
        r == starts_function(trimmed(line@)),
{
    let t = trim(line);
    chars_start_with_str(&t, "fn ") || chars_start_with_str(&t, "async fn ")
        || chars_start_with_str(&t, "pub fn ")
}

/// The first line from `from` on that starts a function; the number of
/// lines where there is none.
fn next_function(lines: &Vec<Vec<char>>, from: usize) -> (at: usize)
    requires
        from <= lines@.len(),
    ensures
        at == from + lines_to_function(rows_of(lines@), from as int),
        from <= at <= lines@.len(),
{
    let ghost rows = rows_of(lines@);
    let mut at: usize = from;
    while at < lines.len()
        invariant
            from <= at <= lines@.len(),
            rows == rows_of(lines@),
            from + lines_to_function(rows, from as int) == at + lines_to_function(rows, at as int),
        decreases lines.len() - at,
    {
        assert(rows[at as int] == lines@[at as int]@);
        if line_starts_function(&lines[at]) {
            return at;
        }
        at += 1;
    }
    at
}

/// The tests of a Rust source: for each `#[test]` attribute, and each
/// attribute of an asynchronous test, the name of the next function with
/// its body.
pub fn extract_rust_tests(content: &str) -> (tests: Vec<(String, String)>)
    ensures
        str_pairs(tests@) == rust_tests_from(lines_of(content@), 0),
{
    let lines = split_lines(&to_chars(content));
    let ghost rows = rows_of(lines@);
    let n = lines.len();
    let mut tests: Vec<(String, String)> = Vec::new();
    let mut i: usize = 0;
    assert(str_pairs(tests@) + rust_tests_from(rows, 0) =~= rust_tests_from(rows, 0));
    while i < n
        invariant
            i <= n,
            n == lines@.len(),
            rows == rows_of(lines@),
            str_pairs(tests@) + rust_tests_from(rows, i as int) == rust_tests_from(rows, 0),
        decreases n - i,
    {
        let ghost before = str_pairs(tests@);
        assert(rows[i as int] == lines@[i as int]@);
        let line = trim(&lines[i]);
        if chars_equal_str(&line, "#[test]") || chars_contain_str(&line, "#[tokio::test]")
            || chars_contain_str(&line, "#[async_std::test]") {
            let at = next_function(&lines, i + 1);
            if at < n {
                assert(rows[at as int] == lines@[at as int]@);
                let fn_line = from_chars(&trim(&lines[at]));
                let name = extract_fn_name(fn_line.as_str());
                let body = function_text(&lines, at);
                match name {
                    Some(name) => {
                        tests.push((name, body));
                        assert(str_pairs(tests@) =~= before + rust_entry(rows, at as int));
                    },
                    None => {
                        assert(before =~= before + rust_entry(rows, at as int));
                    },
                }
                assert(str_pairs(tests@) + rust_tests_from(rows, at + 1) =~= before
                    + rust_tests_from(rows, i as int));
                i = at + 1;
            } else {
                assert(rust_tests_from(rows, n as int) =~= Seq::empty());
                i = n;
            }
        } else {
            i += 1;
        }
    }
    assert(str_pairs(tests@) + Seq::<(Seq<char>, Seq<char>)>::empty() =~= str_pairs(tests@));
    tests
}

/// A line that starts a JavaScript test: a call of `it` or `test` with a
/// quotation mark in the line.
pub open spec fn starts_js_test(line: Seq<char>) -> bool {
    (has_prefix(line, "it("@) || has_prefix(line, "test("@)) && (has_substring(line, "'"@)
        || has_substring(line, "\""@))
}

/// A line that starts a Python test: a function, asynchronous or not,
/// whose name begins with `test_`, with a `(` in the line.
pub open spec fn starts_python_test(line: Seq<char>) -> bool {
    (has_prefix(line, "def test_"@) || has_prefix(line, "async def test_"@)) && has_substring(
        line,
        "("@,
    )
}

/// A line that starts a Go test: a function whose name begins with `Test`,
/// with a `(` in the line.
pub open spec fn starts_go_test(line: Seq<char>) -> bool {
    has_prefix(line, "func Test"@) && has_substring(line, "("@)
}

/// What the line `at` adds to the JavaScript tests.
pub open spec fn js_entry(lines: Seq<Seq<char>>, at: int) -> Seq<(Seq<char>, Seq<char>)> {
    if starts_js_test(trimmed(lines[at])) {
        match js_test_name(trimmed(lines[at])) {
            Some(name) => seq![(name, function_body(lines, at))],
            None => Seq::empty(),
        }
    } else {
        Seq::empty()
    }
}

/// What the line `at` adds to the Python tests.
pub open spec fn python_entry(lines: Seq<Seq<char>>, at: int) -> Seq<(Seq<char>, Seq<char>)> {
    if starts_python_test(trimmed(lines[at])) {
        match python_fn_name(trimmed(lines[at])) {
            Some(name) => seq![(name, python_body(lines, at))],
            None => Seq::empty(),
        }
    } else {
        Seq::empty()
    }
}

/// What the line `at` adds to the Go tests.
pub open spec fn go_entry(lines: Seq<Seq<char>>, at: int) -> Seq<(Seq<char>, Seq<char>)> {
    if starts_go_test(trimmed(lines[at])) {
        match go_fn_name(trimmed(lines[at])) {
            Some(name) => seq![(name, function_body(lines, at))],
            None => Seq::empty(),
        }
    } else {
        Seq::empty()
    }
}

/// What the first `upto` lines add, line after line.
pub open spec fn gathered(
    lines: Seq<Seq<char>>,
    entry: spec_fn(Seq<Seq<char>>, int) -> Seq<(Seq<char>, Seq<char>)>,
    upto: int,
) -> Seq<(Seq<char>, Seq<char>)>
    decreases upto,
{
    if upto <= 0 {
        Seq::empty()
    } else {
        gathered(lines, entry, upto - 1) + entry(lines, upto - 1)
    }
}

/// The tests of a JavaScript or TypeScript source: for each line that
/// starts a test, the name between its quotation marks with the block in
/// braces that begins there.
pub fn extract_js_tests(content: &str) -> (tests: Vec<(String, String)>)
    ensures
        str_pairs(tests@) == gathered(
            lines_of(content@),
            |l: Seq<Seq<char>>, at: int| js_entry(l, at),
            lines_of(content@).len() as int,
        ),
{
    let lines = split_lines(&to_chars(content));
    let ghost rows = rows_of(lines@);
    let ghost entry = |l: Seq<Seq<char>>, at: int| js_entry(l, at);
    let mut tests: Vec<(String, String)> = Vec::new();
    let mut i: usize = 0;
    assert(str_pairs(tests@) =~= gathered(rows, entry, 0));
    while i < lines.len()
        invariant
            i <= lines@.len(),
            rows == rows_of(lines@),
            entry == |l: Seq<Seq<char>>, at: int| js_entry(l, at),
            str_pairs(tests@) == gathered(rows, entry, i as int),
        decreases lines.len() - i,
    {
        let ghost before = str_pairs(tests@);
        assert(rows[i as int] == lines@[i as int]@);
        assert(gathered(rows, entry, i + 1) == gathered(rows, entry, i as int) + entry(
            rows,
            i as int,
        ));
        let t = trim(&lines[i]);
        if (chars_start_with_str(&t, "it(") || chars_start_with_str(&t, "test(")) && (
        chars_contain_str(&t, "'") || chars_contain_str(&t, "\"")) {
            let line = from_chars(&t);
            match extract_js_test_name(line.as_str()) {
                Some(name) => {
                    let body = function_text(&lines, i);
                    tests.push((name, body));
                    assert(str_pairs(tests@) =~= before + js_entry(rows, i as int));
                },
                None => {
                    assert(before =~= before + js_entry(rows, i as int));
                },
            }
        } else {
            assert(before =~= before + js_entry(rows, i as int));
        }
        i += 1;
    }
    tests
}

/// The tests of a Python source: for each line that starts a test
/// function, its name with its indented block.
pub fn extract_python_tests(content: &str) -> (tests: Vec<(String, String)>)
    ensures
        str_pairs(tests@) == gathered(
            lines_of(content@),
            |l: Seq<Seq<char>>, at: int| python_entry(l, at),
            lines_of(content@).len() as int,
        ),
{
    let lines = split_lines(&to_chars(content));
    let ghost rows = rows_of(lines@);
    let ghost entry = |l: Seq<Seq<char>>, at: int| python_entry(l, at);
    let mut tests: Vec<(String, String)> = Vec::new();
    let mut i: usize = 0;
    assert(str_pairs(tests@) =~= gathered(rows, entry, 0));
    while i < lines.len()
        invariant
            i <= lines@.len(),
            rows == rows_of(lines@),
            entry == |l: Seq<Seq<char>>, at: int| python_entry(l, at),
            str_pairs(tests@) == gathered(rows, entry, i as int),
        decreases lines.len() - i,
    {
        let ghost before = str_pairs(tests@);
        assert(rows[i as int] == lines@[i as int]@);
        assert(gathered(rows, entry, i + 1) == gathered(rows, entry, i as int) + entry(
            rows,
            i as int,
        ));
        let t = trim(&lines[i]);
        if (chars_start_with_str(&t, "def test_") || chars_start_with_str(&t, "async def test_"))
            && chars_contain_str(&t, "(") {
            let line = from_chars(&t);
            match extract_python_fn_name(line.as_str()) {
                Some(name) => {
                    let body = python_text(&lines, i);
                    tests.push((name, body));
                    assert(str_pairs(tests@) =~= before + python_entry(rows, i as int));
                },
                None => {
                    assert(before =~= before + python_entry(rows, i as int));
                },
            }
        } else {
            assert(before =~= before + python_entry(rows, i as int));
        }
        i += 1;
    }
    tests
}

/// The tests of a Go source: for each line that starts a test function,
/// its name with the block in braces that begins there.
pub fn extract_go_tests(content: &str) -> (tests: Vec<(String, String)>)
    ensures
        str_pairs(tests@) == gathered(
            lines_of(content@),
            |l: Seq<Seq<char>>, at: int| go_entry(l, at),
            lines_of(content@).len() as int,
        ),
{
    let lines = split_lines(&to_chars(content));
    let ghost rows = rows_of(lines@);
    let ghost entry = |l: Seq<Seq<char>>, at: int| go_entry(l, at);
    let mut tests: Vec<(String, String)> = Vec::new();
    let mut i: usize = 0;
    assert(str_pairs(tests@) =~= gathered(rows, entry, 0));
    while i < lines.len()
        invariant
            i <= lines@.len(),
            rows == rows_of(lines@),
            entry == |l: Seq<Seq<char>>, at: int| go_entry(l, at),
            str_pairs(tests@) == gathered(rows, entry, i as int),
        decreases lines.len() - i,
    {
        let ghost before = str_pairs(tests@);
        assert(rows[i as int] == lines@[i as int]@);
        assert(gathered(rows, entry, i + 1) == gathered(rows, entry, i as int) + entry(
            rows,
            i as int,
        ));
        let t = trim(&lines[i]);
        if chars_start_with_str(&t, "func Test") && chars_contain_str(&t, "(") {
            let line = from_chars(&t);
            match extract_go_fn_name(line.as_str()) {
                Some(name) => {
                    let body = function_text(&lines, i);
                    tests.push((name, body));
                    assert(str_pairs(tests@) =~= before + go_entry(rows, i as int));
                },
                None => {
                    assert(before =~= before + go_entry(rows, i as int));
                },
            }
        } else {
            assert(before =~= before + go_entry(rows, i as int));
        }
        i += 1;
    }
    tests
}

/// The language of a source file, by its extension.
#[derive(Debug, Clone, Copy, PartialEq, Eq, Structural)]
pub enum SourceLanguage {
    Rust,
    JavaScript,
    Python,
    Go,
}

/// The language that a file extension stands for.
pub open spec fn language_named(extension: Seq<char>) -> Option<SourceLanguage> {
    if extension == "rs"@ {
        Some(SourceLanguage::Rust)
    } else if extension == "ts"@ || extension == "tsx"@ || extension == "js"@ || extension
        == "jsx"@ {
        Some(SourceLanguage::JavaScript)
    } else if extension == "py"@ {
        Some(SourceLanguage::Python)
    } else if extension == "go"@ {
        Some(SourceLanguage::Go)
    } else {
        None
    }
}

/// The language that a file extension stands for.
pub fn language_of(extension: &str) -> (r: Option<SourceLanguage>)
    ensures
        r == language_named(extension@),
{
    let e = to_chars(extension);
    if chars_equal_str(&e, "rs") {
        Some(SourceLanguage::Rust)
    } else if chars_equal_str(&e, "ts") || chars_equal_str(&e, "tsx") || chars_equal_str(&e, "js")
        || chars_equal_str(&e, "jsx") {
        Some(SourceLanguage::JavaScript)
    } else if chars_equal_str(&e, "py") {
        Some(SourceLanguage::Python)
    } else if chars_equal_str(&e, "go") {
        Some(SourceLanguage::Go)
    } else {
        None
    }
}

/// The tests of a source file with the given extension; none for a file of
/// no known language.
pub fn extract_tests(content: &str, extension: &str) -> (tests: Vec<(String, String)>)
    ensures
        match language_named(extension@) {
            Some(SourceLanguage::Rust) => str_pairs(tests@) == rust_tests_from(
                lines_of(content@),
                0,
            ),
            Some(SourceLanguage::JavaScript) => str_pairs(tests@) == gathered(
                lines_of(content@),
                |l: Seq<Seq<char>>, at: int| js_entry(l, at),
                lines_of(content@).len() as int,
            ),
            Some(SourceLanguage::Python) => str_pairs(tests@) == gathered(
                lines_of(content@),
                |l: Seq<Seq<char>>, at: int| python_entry(l, at),
                lines_of(content@).len() as int,
            ),
            Some(SourceLanguage::Go) => str_pairs(tests@) == gathered(
                lines_of(content@),
                |l: Seq<Seq<char>>, at: int| go_entry(l, at),
                lines_of(content@).len() as int,
            ),
            None => tests@.len() == 0,
        },
{
    match language_of(extension) {
        Some(SourceLanguage::Rust) => extract_rust_tests(content),
        Some(SourceLanguage::JavaScript) => extract_js_tests(content),
        Some(SourceLanguage::Python) => extract_python_tests(content),
        Some(SourceLanguage::Go) => extract_go_tests(content),
        None => Vec::new(),
    }
}

} // verus!
