//! Searching an ordered list of prefixes: for an exact key, and for the
//! longest prefix that a path begins with.

use crate::text::starts_with;
use vstd::prelude::*;
use vstd::string::StrSliceExecFns;

verus! {

/// Entry `i` of `prefixes` is a literal prefix of `path`.
pub open spec fn is_match(prefixes: Seq<Seq<char>>, path: Seq<char>, i: int) -> bool {
    0 <= i < prefixes.len() && prefixes[i].is_prefix_of(path)
}

/// Entry `i` matches `path`, and no matching entry is longer.
pub open spec fn is_longest_match(prefixes: Seq<Seq<char>>, path: Seq<char>, i: int) -> bool {
    &&& is_match(prefixes, path, i)
    &&& forall|j: int| is_match(prefixes, path, j) ==> prefixes[j].len() <= prefixes[i].len()
}

/// No two entries of `prefixes` are the same text.
pub open spec fn all_distinct(prefixes: Seq<Seq<char>>) -> bool {
    forall|i: int, j: int|
        0 <= i < prefixes.len() && 0 <= j < prefixes.len() && i != j ==> prefixes[i] != prefixes[j]
}

/// The first position at which `key` stands in `prefixes`, if it does.
pub fn position_of(prefixes: &Vec<String>, key: &String) -> (r: Option<usize>)
    ensures
        match r {
            Some(i) => {
                &&& i < prefixes.len()
                &&& prefixes.deep_view()[i as int] == key@
                &&& forall|j: int| 0 <= j < i ==> prefixes.deep_view()[j] != key@
            },
            None => !prefixes.deep_view().contains(key@),
        },
{
    let mut i: usize = 0;
    while i < prefixes.len()
        invariant
            i <= prefixes.len(),
            forall|j: int| 0 <= j < i ==> prefixes.deep_view()[j] != key@,
        decreases prefixes.len() - i,
    {
        if prefixes[i] == *key {
            return Some(i);
        }
        i += 1;
    }
    None
}

/// The position of the longest entry of `prefixes` that `path` begins
/// with; among entries of that length, the first. `None` when `path`
/// begins with none of them.
pub fn longest_match(prefixes: &Vec<String>, path: &str) -> (r: Option<usize>)
    ensures
        match r {
            Some(i) => {
                &&& is_longest_match(prefixes.deep_view(), path@, i as int)
                &&& forall|j: int|
                    0 <= j < i && is_match(prefixes.deep_view(), path@, j)
                        ==> prefixes.deep_view()[j].len() < prefixes.deep_view()[i as int].len()
            },
            None => forall|j: int| !is_match(prefixes.deep_view(), path@, j),
        },
{
    let ghost all = prefixes.deep_view();
    let mut best: Option<usize> = None;
    let mut best_len: usize = 0;
    let mut i: usize = 0;
    while i < prefixes.len()
        invariant
            i <= prefixes.len(),
            all == prefixes.deep_view(),
            match best {
                Some(b) => {
                    &&& b < i
                    &&& is_match(all, path@, b as int)
                    &&& best_len == all[b as int].len()
                    &&& forall|j: int| 0 <= j < i && is_match(all, path@, j) ==> all[j].len() <= best_len
                    &&& forall|j: int| 0 <= j < b && is_match(all, path@, j) ==> all[j].len() < best_len
                },
                None => forall|j: int| 0 <= j < i ==> !is_match(all, path@, j),
            },
        decreases prefixes.len() - i,
    {
        let prefix: &str = prefixes[i].as_str();
        if starts_with(path, prefix) {
            let len: usize = prefix.unicode_len();
            let longer: bool = match best {
                None => true,
                Some(_) => len > best_len,
            };
            if longer {
                best = Some(i);
                best_len = len;
            }
        }
        i += 1;
    }
    best
}

} // verus!
