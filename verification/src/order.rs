//! The order of strings: character by character, by code point, a proper
//! prefix before what extends it. This is the order in which Rust compares
//! strings.

use vstd::prelude::*;
use crate::text::{strs, to_chars};

verus! {

/// `a` comes strictly before `b`.
pub open spec fn lex_lt(a: Seq<char>, b: Seq<char>) -> bool
    decreases a.len(),
{
    if b.len() == 0 {
        false
    } else if a.len() == 0 {
        true
    } else if a[0] != b[0] {
        (a[0] as u32) < (b[0] as u32)
    } else {
        lex_lt(a.drop_first(), b.drop_first())
    }
}

/// Each string comes strictly before the next.
pub open spec fn strictly_sorted(v: Seq<Seq<char>>) -> bool {
    forall|i: int, j: int| 0 <= i < j < v.len() ==> lex_lt(#[trigger] v[i], #[trigger] v[j])
}

/// No string comes before itself.
pub proof fn lemma_lex_irreflexive(a: Seq<char>)
    ensures
        !lex_lt(a, a),
    decreases a.len(),
{
    if a.len() > 0 {
        lemma_lex_irreflexive(a.drop_first());
    }
}

/// The order is transitive.
pub proof fn lemma_lex_transitive(a: Seq<char>, b: Seq<char>, c: Seq<char>)
    requires
        lex_lt(a, b),
        lex_lt(b, c),
    ensures
        lex_lt(a, c),
    decreases a.len(),
{
    if a.len() > 0 && b.len() > 0 && c.len() > 0 {
        if a[0] == b[0] && b[0] == c[0] {
            lemma_lex_transitive(a.drop_first(), b.drop_first(), c.drop_first());
        }
    }
}

/// Of two different strings one comes before the other.
pub proof fn lemma_lex_total(a: Seq<char>, b: Seq<char>)
    ensures
        lex_lt(a, b) || a == b || lex_lt(b, a),
    decreases a.len(),
{
    if a.len() > 0 && b.len() > 0 {
        if a[0] == b[0] {
            lemma_lex_total(a.drop_first(), b.drop_first());
            if a.drop_first() == b.drop_first() {
                assert(a =~= seq![a[0]] + a.drop_first());
                assert(b =~= seq![b[0]] + b.drop_first());
            }
        } else {
            vstd::utf8::char_u32_cast(a[0], a[0] as u32);
            vstd::utf8::char_u32_cast(b[0], b[0] as u32);
        }
    } else if a.len() == 0 && b.len() == 0 {
        assert(a =~= b);
    }
}

/// A strictly sorted sequence holds no string twice.
pub proof fn lemma_sorted_no_duplicates(v: Seq<Seq<char>>)
    requires
        strictly_sorted(v),
    ensures
        v.no_duplicates(),
{
    assert forall|i: int, j: int| 0 <= i < v.len() && 0 <= j < v.len() && i != j implies v[i]
        != v[j] by {
        lemma_lex_irreflexive(v[i]);
        if i < j {
            assert(lex_lt(v[i], v[j]));
        } else {
            assert(lex_lt(v[j], v[i]));
        }
    }
}

/// Two strictly sorted sequences that hold the same strings are equal.
pub proof fn lemma_sorted_unique(v: Seq<Seq<char>>, w: Seq<Seq<char>>)
    requires
        strictly_sorted(v),
        strictly_sorted(w),
        forall|x: Seq<char>| v.contains(x) <==> w.contains(x),
    ensures
        v == w,
    decreases v.len(),
{
    lemma_sorted_no_duplicates(v);
    lemma_sorted_no_duplicates(w);
    if v.len() == 0 {
        if w.len() > 0 {
            assert(w.contains(w[0]));
        }
        assert(v =~= w);
    } else if w.len() == 0 {
        assert(v.contains(v[0]));
    } else {
        // The first of each is the least of both.
        assert(v.contains(v[0]) && w.contains(w[0]));
        let i = w.index_of(v[0]);
        let j = v.index_of(w[0]);
        lemma_lex_irreflexive(v[0]);
        if i > 0 {
            assert(lex_lt(w[0], w[i]));
            if j > 0 {
                assert(lex_lt(v[0], v[j]));
                lemma_lex_transitive(v[0], w[0], v[0]);
            }
        }
        assert(v[0] == w[0]);
        let vt = v.drop_first();
        let wt = w.drop_first();
        assert forall|a: int, b: int| 0 <= a < b < vt.len() implies lex_lt(
            #[trigger] vt[a],
            #[trigger] vt[b],
        ) by {
            assert(lex_lt(v[a + 1], v[b + 1]));
        }
        assert forall|a: int, b: int| 0 <= a < b < wt.len() implies lex_lt(
            #[trigger] wt[a],
            #[trigger] wt[b],
        ) by {
            assert(lex_lt(w[a + 1], w[b + 1]));
        }
        assert forall|x: Seq<char>| vt.contains(x) <==> wt.contains(x) by {
            if vt.contains(x) {
                let a = vt.index_of(x);
                assert(v[a + 1] == x);
                assert(v.contains(x));
                let b = w.index_of(x);
                assert(b != 0);
                assert(wt[b - 1] == x);
            }
            if wt.contains(x) {
                let a = wt.index_of(x);
                assert(w[a + 1] == x);
                assert(w.contains(x));
                let b = v.index_of(x);
                assert(b != 0);
                assert(vt[b - 1] == x);
            }
        }
        lemma_sorted_unique(vt, wt);
        assert(v =~= seq![v[0]] + vt);
        assert(w =~= seq![w[0]] + wt);
    }
}

/// Whether `a` comes strictly before `b`.
pub fn chars_lt(a: &Vec<char>, b: &Vec<char>) -> (r: bool)
    ensures
        r == lex_lt(a@, b@),
{
    let mut i: usize = 0;
    assert(a@.subrange(0, a@.len() as int) =~= a@);
    assert(b@.subrange(0, b@.len() as int) =~= b@);
    while i < a.len() && i < b.len()
        invariant
            i <= a@.len(),
            i <= b@.len(),
            lex_lt(a@, b@) == lex_lt(a@.subrange(i as int, a@.len() as int), b@.subrange(
                i as int,
                b@.len() as int,
            )),
        decreases a.len() - i,
    {
        let ghost ra = a@.subrange(i as int, a@.len() as int);
        let ghost rb = b@.subrange(i as int, b@.len() as int);
        proof {
            assert(ra[0] == a@[i as int] && rb[0] == b@[i as int]);
            assert(ra.drop_first() =~= a@.subrange(i + 1, a@.len() as int));
            assert(rb.drop_first() =~= b@.subrange(i + 1, b@.len() as int));
        }
        if a[i] != b[i] {
            return (a[i] as u32) < (b[i] as u32);
        }
        i += 1;
    }
    proof {
        let ra = a@.subrange(i as int, a@.len() as int);
        let rb = b@.subrange(i as int, b@.len() as int);
        assert(ra.len() == a@.len() - i && rb.len() == b@.len() - i);
    }
    i < b.len()
}

/// Whether the string `a` comes strictly before the string `b`.
pub fn str_lt(a: &str, b: &str) -> (r: bool)
    ensures
        r == lex_lt(a@, b@),
{
    let x = to_chars(a);
    let y = to_chars(b);
    chars_lt(&x, &y)
}

/// Puts `s` at its place in the strictly sorted list `v`, unless `v` holds
/// it already.
pub fn insert_sorted(v: &mut Vec<String>, s: String)
    requires
        strictly_sorted(strs(old(v)@)),
    ensures
        strictly_sorted(strs(final(v)@)),
        forall|x: Seq<char>|
            strs(final(v)@).contains(x) <==> x == s@ || strs(old(v)@).contains(x),
{
    let ghost before = strs(v@);
    let mut i: usize = 0;
    while i < v.len() && str_lt(v[i].as_str(), s.as_str())
        invariant
            i <= v@.len(),
            v@ == old(v)@,
            forall|j: int| 0 <= j < i ==> lex_lt(strs(v@)[j], s@),
        decreases v.len() - i,
    {
        i += 1;
    }
    proof {
        assert forall|j: int| 0 <= j < i implies before[j] != s@ by {
            lemma_lex_irreflexive(s@);
        }
    }
    if i < v.len() && crate::text::str_eq(v[i].as_str(), s.as_str()) {
        proof {
            assert(before[i as int] == s@);
        }
        return ;
    }
    let ghost key = s@;
    v.insert(i, s);
    proof {
        let after = strs(v@);
        assert(after.len() == before.len() + 1);
        assert(after[i as int] == key);
        assert forall|j: int| 0 <= j < i implies after[j] == before[j] by {}
        assert forall|j: int| i < j < after.len() implies after[j] == before[j - 1] by {}
        if i < before.len() {
            lemma_lex_total(before[i as int], key);
            assert(!lex_lt(before[i as int], key));
            assert(lex_lt(key, before[i as int]));
        }
        assert forall|a: int, b: int| 0 <= a < b < after.len() implies lex_lt(
            #[trigger] after[a],
            #[trigger] after[b],
        ) by {
            if b < i {
                assert(lex_lt(before[a], before[b]));
            } else if b == i {
                assert(lex_lt(before[a], key));
            } else if a < i {
                assert(lex_lt(before[a], before[b - 1]));
            } else if a == i {
                if b - 1 > i {
                    assert(lex_lt(before[i as int], before[b - 1]));
                    lemma_lex_transitive(key, before[i as int], before[b - 1]);
                }
            } else {
                assert(lex_lt(before[a - 1], before[b - 1]));
            }
        }
        assert forall|x: Seq<char>| after.contains(x) <==> x == key || before.contains(x) by {
            if after.contains(x) {
                let j = after.index_of(x);
                if j < i {
                    assert(before[j] == x);
                } else if j > i {
                    assert(before[j - 1] == x);
                }
            }
            if before.contains(x) {
                let j = before.index_of(x);
                if j < i {
                    assert(after[j] == x);
                } else {
                    assert(after[j + 1] == x);
                }
            }
        }
    }
}

/// `s` with `x` put at its place; `s` itself where it holds `x`.
pub open spec fn with_inserted(s: Seq<Seq<char>>, x: Seq<char>) -> Seq<Seq<char>>
    decreases s.len(),
{
    if s.len() == 0 {
        seq![x]
    } else if s[0] == x {
        s
    } else if lex_lt(x, s[0]) {
        seq![x] + s
    } else {
        seq![s[0]] + with_inserted(s.drop_first(), x)
    }
}

/// Putting a string at its place keeps the order and adds the string.
pub proof fn lemma_with_inserted(s: Seq<Seq<char>>, x: Seq<char>)
    requires
        strictly_sorted(s),
    ensures
        strictly_sorted(with_inserted(s, x)),
        forall|y: Seq<char>| with_inserted(s, x).contains(y) <==> y == x || s.contains(y),
    decreases s.len(),
{
    let out = with_inserted(s, x);
    if s.len() == 0 {
        assert(out[0] == x);
        assert forall|y: Seq<char>| out.contains(y) <==> y == x || s.contains(y) by {
            if out.contains(y) {
                let i = out.index_of(y);
                assert(out[i] == x);
            }
            if s.contains(y) {
                let i = s.index_of(y);
            }
        }
    } else if s[0] == x {
        assert(s.contains(x));
    } else if lex_lt(x, s[0]) {
        assert forall|i: int, j: int| 0 <= i < j < out.len() implies lex_lt(
            #[trigger] out[i],
            #[trigger] out[j],
        ) by {
            if i == 0 {
                if j > 1 {
                    assert(lex_lt(s[0], s[j - 1]));
                    lemma_lex_transitive(x, s[0], s[j - 1]);
                }
            } else {
                assert(lex_lt(s[i - 1], s[j - 1]));
            }
        }
        assert forall|y: Seq<char>| out.contains(y) <==> y == x || s.contains(y) by {
            if out.contains(y) {
                let i = out.index_of(y);
                if i > 0 {
                    assert(s[i - 1] == y);
                }
            }
            if s.contains(y) {
                let i = s.index_of(y);
                assert(out[i + 1] == y);
            }
            assert(out[0] == x);
        }
    } else {
        let tail = s.drop_first();
        assert forall|i: int, j: int| 0 <= i < j < tail.len() implies lex_lt(
            #[trigger] tail[i],
            #[trigger] tail[j],
        ) by {
            assert(lex_lt(s[i + 1], s[j + 1]));
        }
        lemma_with_inserted(tail, x);
        let rest = with_inserted(tail, x);
        lemma_lex_total(x, s[0]);
        assert(lex_lt(s[0], x));
        assert forall|i: int, j: int| 0 <= i < j < out.len() implies lex_lt(
            #[trigger] out[i],
            #[trigger] out[j],
        ) by {
            if i == 0 {
                let y = rest[j - 1];
                assert(rest.contains(y));
                if y != x {
                    assert(tail.contains(y));
                    let k = tail.index_of(y);
                    assert(lex_lt(s[0], s[k + 1]));
                }
            } else {
                assert(lex_lt(rest[i - 1], rest[j - 1]));
            }
        }
        assert forall|y: Seq<char>| out.contains(y) <==> y == x || s.contains(y) by {
            if out.contains(y) {
                let i = out.index_of(y);
                if i > 0 {
                    assert(rest[i - 1] == y);
                    assert(rest.contains(y));
                    if tail.contains(y) {
                        let k = tail.index_of(y);
                        assert(s[k + 1] == y);
                    }
                } else {
                    assert(s[0] == y);
                }
            }
            if y == x || s.contains(y) {
                if y == s[0] {
                    assert(out[0] == y);
                } else {
                    if s.contains(y) {
                        let k = s.index_of(y);
                        assert(s[k] == y);
                        assert(k > 0);
                        assert(tail[k - 1] == y);
                        assert(tail.contains(y));
                    }
                    assert(rest.contains(y));
                    let k = rest.index_of(y);
                    assert(out[k + 1] == y);
                }
            }
        }
    }
}

/// The strings of `v` in ascending order, each once.
pub open spec fn sorted_set(v: Seq<Seq<char>>) -> Seq<Seq<char>>
    decreases v.len(),
{
    if v.len() == 0 {
        Seq::empty()
    } else {
        with_inserted(sorted_set(v.drop_last()), v.last())
    }
}

/// `sorted_set` is in order and holds what it was given.
pub proof fn lemma_sorted_set(v: Seq<Seq<char>>)
    ensures
        strictly_sorted(sorted_set(v)),
        forall|x: Seq<char>| sorted_set(v).contains(x) <==> v.contains(x),
    decreases v.len(),
{
    if v.len() > 0 {
        let head = v.drop_last();
        lemma_sorted_set(head);
        lemma_with_inserted(sorted_set(head), v.last());
        assert forall|x: Seq<char>| sorted_set(v).contains(x) <==> v.contains(x) by {
            if v.contains(x) {
                let i = v.index_of(x);
                if i < v.len() - 1 {
                    assert(head[i] == x);
                }
            }
            if head.contains(x) {
                let i = head.index_of(x);
                assert(v[i] == x);
            }
            assert(v[v.len() - 1] == v.last());
        }
    } else {
        assert forall|x: Seq<char>| sorted_set(v).contains(x) <==> v.contains(x) by {
            if v.contains(x) {
                let i = v.index_of(x);
            }
            if sorted_set(v).contains(x) {
                let i = sorted_set(v).index_of(x);
            }
        }
    }
}

/// The strings of `v` in order, each once.
pub fn sorted_unique(v: &Vec<String>) -> (out: Vec<String>)
    ensures
        strs(out@) == sorted_set(strs(v@)),
        strictly_sorted(strs(out@)),
        forall|x: Seq<char>| strs(out@).contains(x) <==> strs(v@).contains(x),
{
    let mut out: Vec<String> = Vec::new();
    let mut i: usize = 0;
    while i < v.len()
        invariant
            i <= v@.len(),
            strictly_sorted(strs(out@)),
            forall|x: Seq<char>|
                strs(out@).contains(x) <==> strs(v@).subrange(0, i as int).contains(x),
        decreases v.len() - i,
    {
        let ghost prev = strs(out@);
        insert_sorted(&mut out, v[i].clone());
        proof {
            let head = strs(v@).subrange(0, i as int);
            let next = strs(v@).subrange(0, i + 1);
            assert forall|x: Seq<char>| strs(out@).contains(x) <==> next.contains(x) by {
                if next.contains(x) {
                    let j = next.index_of(x);
                    if j < i {
                        assert(head[j] == x);
                    }
                }
                if head.contains(x) {
                    let j = head.index_of(x);
                    assert(next[j] == x);
                }
                assert(next[i as int] == v@[i as int]@);
            }
        }
        i += 1;
    }
    assert(strs(v@).subrange(0, v@.len() as int) =~= strs(v@));
    proof {
        lemma_sorted_set(strs(v@));
        lemma_sorted_unique(strs(out@), sorted_set(strs(v@)));
    }
    out
}

} // verus!
