//! Names of the files in which tests leave their charts.

use vstd::prelude::*;
use crate::text::{from_chars, to_chars};

verus! {

/// Where tests write their artifacts, below the project directory.
pub const ARTIFACTS_DIR: &'static str = "target/runx/artifacts";

/// The kind of chart that an artifact is drawn as.
#[derive(Debug, Clone, Copy, PartialEq, Eq, Structural)]
pub enum ChartType {
    Line,
    Bar,
    Gauge,
    Area,
    Scatter,
    Pie,
}

/// `s` with each `::` turned into one `_`, from left to right.
pub open spec fn without_path_separators(s: Seq<char>) -> Seq<char>
    decreases s.len(),
{
    if s.len() == 0 {
        s
    } else if s.len() >= 2 && s[0] == ':' && s[1] == ':' {
        seq!['_'] + without_path_separators(s.subrange(2, s.len() as int))
    } else {
        seq![s[0]] + without_path_separators(s.subrange(1, s.len() as int))
    }
}

/// The character that stands for `c` in a file name: `_` for a slash, a
/// backslash and a space.
pub open spec fn safe_char(c: char) -> char {
    if c == '/' || c == '\\' || c == ' ' {
        '_'
    } else {
        c
    }
}

/// The file name that stands for a test name: each `::` becomes `_`, then
/// each slash, backslash and space becomes `_`.
pub open spec fn sanitized(name: Seq<char>) -> Seq<char> {
    without_path_separators(name).map_values(|c: char| safe_char(c))
}

/// The file name that stands for the test called `name`.
pub fn sanitize_filename(name: &str) -> (out: String)
    ensures
        out@ == sanitized(name@),
{
    let s = to_chars(name);
    let mut mid: Vec<char> = Vec::new();
    let mut i: usize = 0;
    assert(s@.subrange(0, s@.len() as int) =~= s@);
    while i < s.len()
        invariant
            i <= s@.len(),
            mid@ + without_path_separators(s@.subrange(i as int, s@.len() as int))
                == without_path_separators(s@),
        decreases s.len() - i,
    {
        let ghost rest = s@.subrange(i as int, s@.len() as int);
        let ghost before = mid@;
        if s[i] == ':' && i + 1 < s.len() && s[i + 1] == ':' {
            proof {
                assert(rest[0] == ':' && rest[1] == ':');
                assert(rest.subrange(2, rest.len() as int) =~= s@.subrange(i + 2, s@.len() as int));
            }
            mid.push('_');
            proof {
                assert(mid@ + without_path_separators(s@.subrange(i + 2, s@.len() as int)) =~= before
                    + without_path_separators(rest));
            }
            i += 2;
        } else {
            proof {
                assert(rest[0] == s@[i as int]);
                if rest.len() >= 2 {
                    assert(rest[1] == s@[i + 1]);
                }
                assert(rest.subrange(1, rest.len() as int) =~= s@.subrange(i + 1, s@.len() as int));
            }
            mid.push(s[i]);
            proof {
                assert(mid@ + without_path_separators(s@.subrange(i + 1, s@.len() as int)) =~= before
                    + without_path_separators(rest));
            }
            i += 1;
        }
    }
    proof {
        assert(s@.subrange(s@.len() as int, s@.len() as int) =~= Seq::<char>::empty());
        assert(mid@ =~= without_path_separators(s@));
    }
    let mut out: Vec<char> = Vec::new();
    let mut k: usize = 0;
    while k < mid.len()
        invariant
            k <= mid@.len(),
            out@.len() == k,
            forall|j: int| 0 <= j < k ==> out@[j] == safe_char(mid@[j]),
        decreases mid.len() - k,
    {
        let c = mid[k];
        if c == '/' || c == '\\' || c == ' ' {
            out.push('_');
        } else {
            out.push(c);
        }
        k += 1;
    }
    assert(out@ =~= sanitized(name@));
    from_chars(&out)
}

} // verus!
