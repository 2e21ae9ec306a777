//! The decoded form of a page and its well-formedness.
//!
//! A page holds one node: a kind tag (internal or leaf), and an ordered
//! array of slots. Every slot carries a key, a value (empty in internal
//! nodes) and a child pointer (unused in leaves, kept for a uniform
//! layout). The decoded form is an explicit view over the flat on-page
//! byte layout that `codec` defines.

use vstd::prelude::*;

use crate::errors::BTreeError;
use crate::order::lex_lt;

verus! {

/// Kind tag of an internal node: slots map separator keys to child pages.
pub const KIND_INTERNAL: u16 = 1;

/// Kind tag of a leaf node: slots map keys directly to stored values.
pub const KIND_LEAF: u16 = 2;

/// Size in bytes of one page, the fixed on-disk unit.
pub const PAGE_SIZE: usize = 4096;

/// Size in bytes of the page header: kind tag and key count.
pub const HEADER_SIZE: usize = 4;

/// Largest accepted key, in bytes.
pub const MAX_KEY_SIZE: usize = 1000;

/// Largest accepted value, in bytes.
pub const MAX_VAL_SIZE: usize = 3000;

/// One slot of a node.
pub struct Entry {
    /// The key; in an internal node, the least key reachable under `ptr`.
    pub key: Vec<u8>,
    /// The stored value; empty in internal nodes.
    pub val: Vec<u8>,
    /// The child page identifier; unused (zero) in leaves.
    pub ptr: u64,
}

/// Mathematical view of an `Entry`.
#[verifier::ext_equal]
pub struct EntryV {
    pub key: Seq<u8>,
    pub val: Seq<u8>,
    pub ptr: u64,
}

impl View for Entry {
    type V = EntryV;

    open spec fn view(&self) -> EntryV {
        EntryV { key: self.key@, val: self.val@, ptr: self.ptr }
    }
}

/// A decoded node: the explicit form of one page.
pub struct Node {
    /// `KIND_INTERNAL` or `KIND_LEAF`.
    pub kind: u16,
    /// The slots, keys strictly ascending.
    pub entries: Vec<Entry>,
}

/// Mathematical view of a `Node`.
#[verifier::ext_equal]
pub struct NodeV {
    pub kind: u16,
    pub entries: Seq<EntryV>,
}

impl View for Node {
    type V = NodeV;

    open spec fn view(&self) -> NodeV {
        NodeV { kind: self.kind, entries: self.entries@.map_values(|e: Entry| e@) }
    }
}

/// Encoded size in bytes of one slot's key-value record, with its length
/// fields, but without the pointer and offset table cells.
pub open spec fn rec_size(e: EntryV) -> int {
    4 + e.key.len() as int + e.val.len() as int
}

/// Encoded size in bytes of the record region for the slots `es`.
pub open spec fn recs_size(es: Seq<EntryV>) -> int
    decreases es.len(),
{
    if es.len() == 0 {
        0
    } else {
        recs_size(es.drop_last()) + rec_size(es.last())
    }
}

/// Encoded size in bytes of a whole node: header, pointer array, offset
/// array, record region. Each slot costs ten bytes of tables (an eight-byte
/// pointer and a two-byte offset) plus its record.
pub open spec fn node_size(n: NodeV) -> int {
    4 + 10 * n.entries.len() + recs_size(n.entries)
}

/// Size limits of one slot: key and value within the configured maxima.
pub open spec fn entry_ok(e: EntryV) -> bool {
    e.key.len() <= MAX_KEY_SIZE && e.val.len() <= MAX_VAL_SIZE
}

/// Keys strictly ascending across `es`.
pub open spec fn entries_sorted(es: Seq<EntryV>) -> bool {
    forall|i: int, j: int|
        0 <= i < j < es.len() ==> lex_lt(#[trigger] es[i].key, #[trigger] es[j].key)
}

/// Well-formedness of one node in isolation: a known kind tag, a key
/// count that fits the 16-bit header field, slot sizes within bounds,
/// keys strictly ascending, and values empty in internal nodes.
pub open spec fn node_wf(n: NodeV) -> bool {
    &&& n.kind == KIND_INTERNAL || n.kind == KIND_LEAF
    &&& n.entries.len() <= 65535
    &&& forall|i: int| 0 <= i < n.entries.len() ==> entry_ok(#[trigger] n.entries[i])
    &&& entries_sorted(n.entries)
    &&& n.kind == KIND_INTERNAL ==> forall|i: int|
        0 <= i < n.entries.len() ==> (#[trigger] n.entries[i]).val.len() == 0
}

/// Every record occupies at least its four length bytes.
pub proof fn lemma_recs_size_nonneg(es: Seq<EntryV>)
    ensures
        recs_size(es) >= 4 * es.len(),
    decreases es.len(),
{
    if es.len() > 0 {
        lemma_recs_size_nonneg(es.drop_last());
    }
}

/// The record region grows by exactly one record per slot taken.
pub proof fn lemma_recs_size_take_succ(es: Seq<EntryV>, i: int)
    requires
        0 <= i < es.len(),
    ensures
        recs_size(es.take(i + 1)) == recs_size(es.take(i)) + rec_size(es[i]),
{
    assert(es.take(i + 1).drop_last() =~= es.take(i));
    assert(es.take(i + 1).last() == es[i]);
}

/// A prefix of the record region never exceeds the whole.
pub proof fn lemma_recs_size_take_le(es: Seq<EntryV>, i: int)
    requires
        0 <= i <= es.len(),
    ensures
        recs_size(es.take(i)) <= recs_size(es),
    decreases es.len() - i,
{
    if i == es.len() {
        assert(es.take(i) =~= es);
    } else {
        lemma_recs_size_take_succ(es, i);
        lemma_recs_size_take_le(es, i + 1);
    }
}

/// The record region of a single slot is its record.
pub proof fn lemma_recs_size_singleton(e: EntryV)
    ensures
        recs_size(seq![e]) == rec_size(e),
{
    let s = seq![e];
    assert(s.last() == e);
    assert(s.drop_last() =~= Seq::<EntryV>::empty());
    assert(recs_size(s.drop_last()) == 0);
}

/// The record region of a concatenation is the two regions end to end.
pub proof fn lemma_recs_size_add(a: Seq<EntryV>, b: Seq<EntryV>)
    ensures
        recs_size(a + b) == recs_size(a) + recs_size(b),
    decreases b.len(),
{
    if b.len() == 0 {
        assert(a + b =~= a);
    } else {
        assert((a + b).drop_last() =~= a + b.drop_last());
        assert((a + b).last() == b.last());
        lemma_recs_size_add(a, b.drop_last());
    }
}

/// Copies a byte string.
pub fn clone_bytes(v: &Vec<u8>) -> (r: Vec<u8>)
    ensures
        r@ == v@,
{
    let mut out: Vec<u8> = Vec::new();
    let mut i: usize = 0;
    while i < v.len()
        invariant
            i <= v@.len(),
            out@ == v@.subrange(0, i as int),
        decreases v@.len() - i,
    {
        out.push(v[i]);
        proof {
            assert(out@ =~= v@.subrange(0, i as int + 1));
        }
        i = i + 1;
    }
    proof {
        assert(out@ =~= v@);
    }
    out
}

/// Copies one slot.
pub fn clone_entry(e: &Entry) -> (r: Entry)
    ensures
        r@ == e@,
{
    Entry { key: clone_bytes(&e.key), val: clone_bytes(&e.val), ptr: e.ptr }
}

/// Copies a run of slots, `from` inclusive to `to` exclusive.
pub fn clone_entry_range(es: &Vec<Entry>, from: usize, to: usize) -> (r: Vec<Entry>)
    requires
        from <= to <= es@.len(),
    ensures
        r@.map_values(|e: Entry| e@) == es@.map_values(|e: Entry| e@).subrange(
            from as int,
            to as int,
        ),
        r@.len() == to - from,
{
    let mut out: Vec<Entry> = Vec::new();
    let mut i: usize = from;
    while i < to
        invariant
            from <= i <= to <= es@.len(),
            out@.len() == i - from,
            out@.map_values(|e: Entry| e@) == es@.map_values(|e: Entry| e@).subrange(
                from as int,
                i as int,
            ),
        decreases to - i,
    {
        out.push(clone_entry(&es[i]));
        proof {
            assert(out@.map_values(|e: Entry| e@) =~= es@.map_values(|e: Entry| e@).subrange(
                from as int,
                i as int + 1,
            ));
        }
        i = i + 1;
    }
    out
}

/// Copies a whole node.
pub fn clone_node(n: &Node) -> (r: Node)
    ensures
        r@ == n@,
{
    let r = Node { kind: n.kind, entries: clone_entry_range(&n.entries, 0, n.entries.len()) };
    proof {
        assert(n@.entries.subrange(0, n@.entries.len() as int) =~= n@.entries);
        assert(r@ =~= n@);
    }
    r
}

impl Node {
    /// The kind tag, as the original page header stores it.
    pub fn b_type(&self) -> (r: u16)
        ensures
            r == self@.kind,
    {
        self.kind
    }

    /// The number of keys in this node.
    pub fn n_keys(&self) -> (r: usize)
        ensures
            r == self@.entries.len(),
    {
        self.entries.len()
    }

    /// The child pointer of slot `idx`, bound-checked against the key
    /// count; an index at or past it signals corruption or a caller bug.
    pub fn get_ptr(&self, idx: usize) -> (r: Result<u64, BTreeError>)
        ensures
            idx < self@.entries.len() ==> r == Ok::<u64, BTreeError>(self@.entries[idx as int].ptr),
            idx >= self@.entries.len() ==> r == Err::<u64, BTreeError>(BTreeError::IndexOutOfBounds),
    {
        if idx >= self.entries.len() {
            return Err(BTreeError::IndexOutOfBounds);
        }
        Ok(self.entries[idx].ptr)
    }

    /// Replaces the child pointer of slot `idx`, bound-checked the same
    /// way.
    pub fn set_ptr(&mut self, idx: usize, val: u64) -> (r: Result<(), BTreeError>)
        ensures
            idx < old(self)@.entries.len() ==> r == Ok::<(), BTreeError>(())
                && final(self)@.entries == old(self)@.entries.update(
                idx as int,
                EntryV { ptr: val, ..old(self)@.entries[idx as int] },
            ) && final(self)@.kind == old(self)@.kind,
            idx >= old(self)@.entries.len() ==> r == Err::<(), BTreeError>(
                BTreeError::IndexOutOfBounds,
            ) && final(self)@ == old(self)@,
    {
        if idx >= self.entries.len() {
            return Err(BTreeError::IndexOutOfBounds);
        }
        let mut e = self.entries.remove(idx);
        e.ptr = val;
        self.entries.insert(idx, e);
        proof {
            assert(self@.entries =~= old(self)@.entries.update(
                idx as int,
                EntryV { ptr: val, ..old(self)@.entries[idx as int] },
            ));
        }
        Ok(())
    }
}

} // verus!
