//! Helpers of the watch mode.

use vstd::prelude::*;
use crate::text::{from_chars_range, strs, to_chars};

verus! {

/// The first `n` characters of `a` and `b` are the same.
pub open spec fn agree_upto(a: Seq<char>, b: Seq<char>, n: int) -> bool {
    &&& 0 <= n <= a.len()
    &&& n <= b.len()
    &&& forall|k: int| 0 <= k < n ==> a[k] == b[k]
}

/// The length of the longest prefix that `a` and `b` share.
pub open spec fn is_common_len(a: Seq<char>, b: Seq<char>, n: int) -> bool {
    &&& agree_upto(a, b, n)
    &&& n == a.len() || n == b.len() || a[n] != b[n]
}

/// The length of the longest prefix that `a` and `b` share.
pub fn common_len(a: &Vec<char>, b: &Vec<char>) -> (n: usize)
    ensures
        is_common_len(a@, b@, n as int),
{
    let mut n: usize = 0;
    while n < a.len() && n < b.len() && a[n] == b[n]
        invariant
            agree_upto(a@, b@, n as int),
        decreases a.len() - n,
    {
        n += 1;
    }
    n
}

/// `n` is the length of the longest prefix of `names[0]` that every name
/// shares.
pub open spec fn is_shared_len(names: Seq<Seq<char>>, n: int) -> bool {
    &&& forall|i: int| 0 <= i < names.len() ==> agree_upto(names[0], #[trigger] names[i], n)
    &&& n == names[0].len() || exists|i: int|
        0 <= i < names.len() && is_common_len(names[0], #[trigger] names[i], n)
}

/// The longest prefix that all the names share: nothing for no names, the
/// name itself for one.
pub fn find_common_prefix(names: &[String]) -> (prefix: String)
    ensures
        names@.len() == 0 ==> prefix@.len() == 0,
        names@.len() > 0 ==> is_shared_len(strs(names@), prefix@.len() as int) && prefix@ == names@[0]@.subrange(
            0,
            prefix@.len() as int,
        ),
{
    if names.len() == 0 {
        return String::new();
    }
    let first = to_chars(names[0].as_str());
    let ghost all = strs(names@);
    let mut len: usize = first.len();
    let mut witness: Ghost<int> = Ghost(0);
    let mut i: usize = 0;
    while i < names.len()
        invariant
            i <= names@.len(),
            names@.len() > 0,
            all == strs(names@),
            first@ == all[0],
            len <= first@.len(),
            forall|j: int| 0 <= j < i ==> agree_upto(all[0], #[trigger] all[j], len as int),
            len == first@.len() || (0 <= witness@ < i && is_common_len(
                all[0],
                all[witness@],
                len as int,
            )),
        decreases names.len() - i,
    {
        let name = to_chars(names[i].as_str());
        let common = common_len(&first, &name);
        if common < len {
            len = common;
            proof {
                witness@ = i as int;
            }
        }
        i += 1;
    }
    let out = from_chars_range(&first, 0, len);
    proof {
        if len != first@.len() {
            assert(is_common_len(all[0], all[witness@], len as int));
        }
    }
    out
}

} // verus!
