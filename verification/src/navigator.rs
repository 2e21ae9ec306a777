//! Read-only traversal primitives over one decoded node.

use vstd::prelude::*;

use crate::node::Node;
use crate::order::{key_eq, key_le, lemma_lex_trichotomy, lex_le, lex_lt};

verus! {

/// For an internal node, the slot to descend into for `key`: the largest
/// index whose slot key is at most `key`, and zero when `key` comes
/// before every slot key (the leftmost slot then acts as the
/// minus-infinity sentinel).
pub fn find_child_index(n: &Node, key: &Vec<u8>) -> (i: usize)
    requires
        n@.entries.len() >= 1,
    ensures
        i < n@.entries.len(),
        forall|j: int| i < j < n@.entries.len() ==> lex_lt(key@, #[trigger] n@.entries[j].key),
        i > 0 ==> lex_le(n@.entries[i as int].key, key@),
{
    let ghost es = n@.entries;
    let mut j: usize = n.entries.len();
    while j > 0
        invariant
            j <= es.len(),
            es == n@.entries,
            forall|m: int| j <= m < es.len() ==> lex_lt(key@, #[trigger] es[m].key),
        decreases j,
    {
        if key_le(&n.entries[j - 1].key, key) {
            return j - 1;
        }
        proof {
            lemma_lex_trichotomy(es[j - 1].key, key@);
        }
        j = j - 1;
    }
    0
}

/// For a leaf, the slot holding exactly `key`, or `None` when the key is
/// absent.
pub fn find_key_index(n: &Node, key: &Vec<u8>) -> (r: Option<usize>)
    ensures
        r matches Some(i) ==> i < n@.entries.len() && n@.entries[i as int].key == key@,
        r is None ==> forall|j: int| 0 <= j < n@.entries.len() ==> (#[trigger] n@.entries[j].key)
            != key@,
{
    let ghost es = n@.entries;
    let mut i: usize = 0;
    while i < n.entries.len()
        invariant
            i <= es.len(),
            es == n@.entries,
            forall|j: int| 0 <= j < i ==> (#[trigger] es[j].key) != key@,
        decreases es.len() - i,
    {
        if key_eq(&n.entries[i].key, key) {
            return Some(i);
        }
        i = i + 1;
    }
    None
}

} // verus!
