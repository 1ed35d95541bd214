//! Validation of topic names: a name is a `/`-separated list of non-empty
//! segments containing no wildcard character.

use vstd::prelude::*;

use crate::strings::chars_vec;

verus! {

/// A character that may not appear anywhere in a topic name.
pub open spec fn is_wildcard(c: char) -> bool {
    c == '+' || c == '#'
}

/// A topic name is valid when it is non-empty, holds no wildcard, does not
/// begin or end with a separator, and has no two adjacent separators — that
/// is, every `/`-separated segment is non-empty.
pub open spec fn valid_topic(s: Seq<char>) -> bool {
    &&& s.len() > 0
    &&& forall|i: int| 0 <= i < s.len() ==> !is_wildcard(#[trigger] s[i])
    &&& s.first() != '/'
    &&& s.last() != '/'
    &&& forall|i: int| 0 <= i < s.len() - 1 ==> !(#[trigger] s[i] == '/' && s[i + 1] == '/')
}

/// Decide whether `topic` is a valid topic name.
pub fn validate_topic_name(topic: &str) -> (r: bool)
    ensures
        r == valid_topic(topic@),
{
    let cs = chars_vec(topic);
    let n = cs.len();
    if n == 0 {
        return false;
    }
    let mut i: usize = 0;
    // length of the current segment so far
    let mut last_part_length: usize = 0;
    while i < n
        invariant
            0 < n == cs@.len(),
            cs@ == topic@,
            0 <= i <= n,
            last_part_length <= i,
            forall|j: int| 0 <= j < i ==> !is_wildcard(#[trigger] cs@[j]),
            forall|j: int| 0 <= j < i - 1 ==> !(#[trigger] cs@[j] == '/' && cs@[j + 1] == '/'),
            i > 0 ==> cs@.first() != '/',
            last_part_length == 0 <==> (i == 0 || cs@[i - 1] == '/'),
        decreases n - i,
    {
        let c = cs[i];
        if c == '+' || c == '#' {
            return false;
        }
        if c == '/' {
            if last_part_length == 0 {
                return false;
            } else {
                last_part_length = 0;
            }
        } else {
            last_part_length = last_part_length + 1;
        }
        i = i + 1;
    }
    if last_part_length == 0 {
        return false;
    }
    true
}

} // verus!
