//! The copy-on-write tree mutator and its public surface.
//!
//! A tree is a root pointer into a page store. Every mutation rebuilds
//! the pages along one root-to-leaf path into freshly allocated pages and
//! then replaces the root pointer; no published page is ever altered, so
//! a reader holding an older root keeps a consistent snapshot. The
//! logical contents of a subtree is the map `subtree_kvs`; the structural
//! invariant `subtree_wf` states that every node is well formed and fits
//! a page, that an internal slot key is the least key reachable under its
//! child, and that each child's keys lie below the next slot key.

use vstd::prelude::*;

use crate::codec::node_used_size;
use crate::errors::BTreeError;
use crate::node::{
    clone_bytes, clone_entry_range, clone_node, entries_sorted, entry_ok, node_size, node_wf,
    Entry, EntryV, Node, NodeV, KIND_INTERNAL, KIND_LEAF, MAX_KEY_SIZE, MAX_VAL_SIZE, PAGE_SIZE,
};
use crate::order::{
    key_eq, key_lt, lemma_lex_irrefl, lemma_lex_le_lt_trans, lemma_lex_lt_le_trans,
    lemma_lex_trans, lemma_lex_trichotomy, lex_le, lex_lt,
};
use crate::navigator::{find_child_index, find_key_index};
use crate::planner::should_merge;
use crate::store::PageStore;

verus! {

/// One replacement child handed upward during a rebuild: the least key
/// reachable under the new page, and its pointer.
pub struct ChildRef {
    pub key: Vec<u8>,
    pub ptr: u64,
}

/// Mathematical view of a `ChildRef`.
#[verifier::ext_equal]
pub struct ChildRefV {
    pub key: Seq<u8>,
    pub ptr: u64,
}

impl View for ChildRef {
    type V = ChildRefV;

    open spec fn view(&self) -> ChildRefV {
        ChildRefV { key: self.key@, ptr: self.ptr }
    }
}

/// Replacement children as internal slots: empty values.
pub open spec fn refs_entries(rs: Seq<ChildRefV>) -> Seq<EntryV> {
    rs.map_values(|r: ChildRefV| EntryV { key: r.key, val: Seq::empty(), ptr: r.ptr })
}

/// The key-value map stored directly in leaf slots.
pub open spec fn entries_kvs(es: Seq<EntryV>) -> Map<Seq<u8>, Seq<u8>>
    decreases es.len(),
{
    if es.len() == 0 {
        Map::empty()
    } else {
        entries_kvs(es.drop_last()).insert(es.last().key, es.last().val)
    }
}

/// The logical contents of the subtree rooted at page `p` with height
/// `h`: what `lookup` can reach below it.
pub open spec fn subtree_kvs(ns: Map<u64, NodeV>, p: u64, h: nat) -> Map<Seq<u8>, Seq<u8>>
    decreases h, 0int,
{
    if !ns.dom().contains(p) {
        Map::empty()
    } else if h == 0 {
        entries_kvs(ns[p].entries)
    } else {
        kids_kvs(ns, ns[p].entries, (h - 1) as nat)
    }
}

/// The union of the subtrees under the slots `es`, each of height `h`.
pub open spec fn kids_kvs(ns: Map<u64, NodeV>, es: Seq<EntryV>, h: nat) -> Map<Seq<u8>, Seq<u8>>
    decreases h, 1int + es.len(),
{
    if es.len() == 0 {
        Map::empty()
    } else {
        kids_kvs(ns, es.drop_last(), h).union_prefer_right(
            subtree_kvs(ns, es.last().ptr, h),
        )
    }
}

/// Structural soundness of the subtree rooted at `p` with height `h`:
/// the page exists, is well formed and fits; a height-zero node is a
/// leaf; an internal node has at least one slot, every slot key is the
/// least key of a sound child subtree, and each child's keys come before
/// the following slot key.
pub open spec fn subtree_wf(ns: Map<u64, NodeV>, p: u64, h: nat) -> bool
    decreases h, 0int,
{
    &&& ns.dom().contains(p)
    &&& node_wf(ns[p])
    &&& node_size(ns[p]) <= PAGE_SIZE as int
    &&& ns[p].entries.len() >= 1
    &&& if h == 0 {
        ns[p].kind == KIND_LEAF
    } else {
        ns[p].kind == KIND_INTERNAL && slots_ok(ns, ns[p].entries, (h - 1) as nat)
    }
}

/// The conditions an internal node's slot run must meet, with children
/// of height `hc`: each slot heads a sound child holding its key as
/// least reachable key, and each child's keys come before the following
/// slot key.
pub open spec fn slots_ok(ns: Map<u64, NodeV>, es: Seq<EntryV>, hc: nat) -> bool
    decreases hc, 1int,
{
    &&& forall|i: int| 0 <= i < es.len() ==> subtree_wf(ns, (#[trigger] es[i]).ptr, hc)
    &&& forall|i: int|
        0 <= i < es.len() ==> #[trigger] subtree_kvs(ns, es[i].ptr, hc).contains_key(es[i].key)
    &&& forall|i: int, x: Seq<u8>|
        0 <= i < es.len() && #[trigger] subtree_kvs(ns, es[i].ptr, hc).contains_key(x) ==> lex_le(
            es[i].key,
            x,
        ) && (i + 1 < es.len() ==> lex_lt(x, es[i + 1].key))
}

/// The page-level conditions of a node about to be allocated at height
/// `h`, except that it may still be oversized by one slot.
pub open spec fn node_pre_ok(ns: Map<u64, NodeV>, nv: NodeV, h: nat) -> bool {
    &&& node_wf(nv)
    &&& nv.entries.len() >= 1
    &&& node_size(nv) <= crate::planner::SPLIT_INPUT_MAX as int
    &&& if h == 0 {
        nv.kind == KIND_LEAF
    } else {
        nv.kind == KIND_INTERNAL && slots_ok(ns, nv.entries, (h - 1) as nat)
    }
}

/// The contents a node of height `h` would hold.
pub open spec fn node_kvs(ns: Map<u64, NodeV>, nv: NodeV, h: nat) -> Map<Seq<u8>, Seq<u8>> {
    if h == 0 {
        entries_kvs(nv.entries)
    } else {
        kids_kvs(ns, nv.entries, (h - 1) as nat)
    }
}

/// What a rebuild hands upward: one to three sound subtrees of height
/// `h` that together hold exactly the map `kvs`, in key order, each
/// non-empty, each labelled with its least key.
pub open spec fn parts_ok(
    ns: Map<u64, NodeV>,
    h: nat,
    rs: Seq<ChildRefV>,
    kvs: Map<Seq<u8>, Seq<u8>>,
) -> bool {
    &&& 1 <= rs.len() <= 3
    &&& forall|j: int| 0 <= j < rs.len() ==> (#[trigger] rs[j]).ptr != 0
    &&& forall|j: int| 0 <= j < rs.len() ==> subtree_wf(ns, (#[trigger] rs[j]).ptr, h)
    &&& kids_kvs(ns, refs_entries(rs), h) == kvs
    &&& forall|j: int|
        0 <= j < rs.len() ==> #[trigger] subtree_kvs(ns, rs[j].ptr, h).contains_key(rs[j].key)
    &&& forall|j: int, x: Seq<u8>|
        0 <= j < rs.len() && #[trigger] subtree_kvs(ns, rs[j].ptr, h).contains_key(x) ==> lex_le(
            rs[j].key,
            x,
        ) && (j + 1 < rs.len() ==> lex_lt(x, rs[j + 1].key))
}

/// A key is stored in leaf slots exactly when some slot holds it.
pub proof fn lemma_entries_kvs_at(es: Seq<EntryV>, x: Seq<u8>)
    ensures
        entries_kvs(es).contains_key(x) == (exists|j: int|
            0 <= j < es.len() && (#[trigger] es[j]).key == x),
    decreases es.len(),
{
    if es.len() > 0 {
        lemma_entries_kvs_at(es.drop_last(), x);
        if x == es.last().key {
            assert(es[es.len() - 1].key == x);
        } else {
            if entries_kvs(es.drop_last()).contains_key(x) {
                let j = choose|j: int|
                    0 <= j < es.drop_last().len() && (#[trigger] es.drop_last()[j]).key == x;
                assert(es[j].key == x);
            }
            if exists|j: int| 0 <= j < es.len() && (#[trigger] es[j]).key == x {
                let j = choose|j: int| 0 <= j < es.len() && (#[trigger] es[j]).key == x;
                assert(es.drop_last()[j].key == x);
            }
        }
    }
}

/// In a sorted leaf, slot `j` stores exactly its own pair.
pub proof fn lemma_entries_kvs_val(es: Seq<EntryV>, j: int)
    requires
        entries_sorted(es),
        0 <= j < es.len(),
    ensures
        entries_kvs(es).contains_key(es[j].key),
        entries_kvs(es)[es[j].key] == es[j].val,
    decreases es.len(),
{
    if j == es.len() - 1 {
    } else {
        assert(lex_lt(es[j].key, es[es.len() - 1].key));
        lemma_lex_irrefl(es[j].key);
        assert(es[j].key != es.last().key);
        assert(entries_sorted(es.drop_last())) by {
            assert forall|p: int, q: int| 0 <= p < q < es.drop_last().len() implies lex_lt(
                (#[trigger] es.drop_last()[p]).key,
                (#[trigger] es.drop_last()[q]).key,
            ) by {
                assert(lex_lt(es[p].key, es[q].key));
            }
        }
        lemma_entries_kvs_val(es.drop_last(), j);
        assert(es.drop_last()[j] == es[j]);
    }
}

/// A key is under a slot run exactly when it is under one of its slots;
/// when no later slot holds it, the union stores that slot's value.
pub proof fn lemma_kids_kvs_at(ns: Map<u64, NodeV>, es: Seq<EntryV>, h: nat, x: Seq<u8>)
    ensures
        kids_kvs(ns, es, h).contains_key(x) == (exists|j: int|
            0 <= j < es.len() && #[trigger] subtree_kvs(ns, es[j].ptr, h).contains_key(x)),
        forall|j: int|
            0 <= j < es.len() && #[trigger] subtree_kvs(ns, es[j].ptr, h).contains_key(x) && (
            forall|j2: int|
                j < j2 < es.len() ==> !(#[trigger] subtree_kvs(ns, es[j2].ptr, h).contains_key(
                    x,
                ))) ==> kids_kvs(ns, es, h)[x] == subtree_kvs(ns, es[j].ptr, h)[x],
    decreases es.len(),
{
    if es.len() > 0 {
        lemma_kids_kvs_at(ns, es.drop_last(), h, x);
        let prev = es.drop_last();
        let last = es.last();
        assert forall|j: int| 0 <= j < prev.len() implies (#[trigger] prev[j]) == es[j] by {}
        if kids_kvs(ns, es, h).contains_key(x) {
            if subtree_kvs(ns, last.ptr, h).contains_key(x) {
                assert(subtree_kvs(ns, es[es.len() - 1].ptr, h).contains_key(x));
            } else {
                let j = choose|j: int|
                    0 <= j < prev.len() && #[trigger] subtree_kvs(ns, prev[j].ptr, h).contains_key(
                        x,
                    );
                assert(subtree_kvs(ns, es[j].ptr, h).contains_key(x));
            }
        }
        if exists|j: int| 0 <= j < es.len() && #[trigger] subtree_kvs(ns, es[j].ptr, h)
            .contains_key(x) {
            let j = choose|j: int|
                0 <= j < es.len() && #[trigger] subtree_kvs(ns, es[j].ptr, h).contains_key(x);
            if j < es.len() - 1 {
                assert(subtree_kvs(ns, prev[j].ptr, h).contains_key(x));
                assert(kids_kvs(ns, prev, h).contains_key(x));
            }
            assert(kids_kvs(ns, es, h).contains_key(x));
        }
        assert forall|j: int|
            0 <= j < es.len() && #[trigger] subtree_kvs(ns, es[j].ptr, h).contains_key(x) && (
            forall|j2: int|
                j < j2 < es.len() ==> !(#[trigger] subtree_kvs(ns, es[j2].ptr, h).contains_key(
                    x,
                ))) implies kids_kvs(ns, es, h)[x] == subtree_kvs(ns, es[j].ptr, h)[x] by {
            if j == es.len() - 1 {
            } else {
                assert(!subtree_kvs(ns, es[es.len() - 1].ptr, h).contains_key(x));
                assert(subtree_kvs(ns, prev[j].ptr, h).contains_key(x));
                assert forall|j2: int| j < j2 < prev.len() implies !(#[trigger] subtree_kvs(
                    ns,
                    prev[j2].ptr,
                    h,
                ).contains_key(x)) by {
                    assert(!subtree_kvs(ns, es[j2].ptr, h).contains_key(x));
                }
                assert(kids_kvs(ns, prev, h)[x] == subtree_kvs(ns, prev[j].ptr, h)[x]);
            }
        }
    }
}

/// Growing the store with fresh pages disturbs no existing subtree.
pub proof fn lemma_subtree_frame(ns: Map<u64, NodeV>, ns2: Map<u64, NodeV>, p: u64, h: nat)
    requires
        ns.submap_of(ns2),
        subtree_wf(ns, p, h),
    ensures
        subtree_wf(ns2, p, h),
        subtree_kvs(ns2, p, h) == subtree_kvs(ns, p, h),
    decreases h, 0int,
{
    assert(ns.dom().contains(p));
    assert(ns2.dom().contains(p) && ns2[p] == ns[p]);
    if h == 0 {
    } else {
        let es = ns[p].entries;
        lemma_kids_frame(ns, ns2, es, (h - 1) as nat);
        assert(subtree_wf(ns2, p, h));
    }
}

/// Frame rule for a whole slot run.
pub proof fn lemma_kids_frame(ns: Map<u64, NodeV>, ns2: Map<u64, NodeV>, es: Seq<EntryV>, h: nat)
    requires
        ns.submap_of(ns2),
        forall|i: int| 0 <= i < es.len() ==> subtree_wf(ns, (#[trigger] es[i]).ptr, h),
    ensures
        forall|i: int|
            0 <= i < es.len() ==> subtree_wf(ns2, (#[trigger] es[i]).ptr, h) && subtree_kvs(
                ns2,
                es[i].ptr,
                h,
            ) == subtree_kvs(ns, es[i].ptr, h),
        kids_kvs(ns2, es, h) == kids_kvs(ns, es, h),
    decreases h, 1int + es.len(),
{
    if es.len() > 0 {
        let prev = es.drop_last();
        assert forall|i: int| 0 <= i < prev.len() implies subtree_wf(
            ns,
            (#[trigger] prev[i]).ptr,
            h,
        ) by {
            assert(subtree_wf(ns, es[i].ptr, h));
        }
        lemma_kids_frame(ns, ns2, prev, h);
        assert(subtree_wf(ns, es[es.len() - 1].ptr, h));
        lemma_subtree_frame(ns, ns2, es.last().ptr, h);
        assert forall|i: int| 0 <= i < es.len() implies subtree_wf(
            ns2,
            (#[trigger] es[i]).ptr,
            h,
        ) && subtree_kvs(ns2, es[i].ptr, h) == subtree_kvs(ns, es[i].ptr, h) by {
            if i < es.len() - 1 {
                assert(prev[i] == es[i]);
                assert(subtree_wf(ns2, prev[i].ptr, h));
            }
        }
    }
}

/// Every key and value reachable in a sound subtree is within the size
/// limits.
pub proof fn lemma_subtree_bounds(ns: Map<u64, NodeV>, p: u64, h: nat)
    requires
        subtree_wf(ns, p, h),
    ensures
        forall|x: Seq<u8>|
            #[trigger] subtree_kvs(ns, p, h).contains_key(x) ==> x.len() <= MAX_KEY_SIZE
                && subtree_kvs(ns, p, h)[x].len() <= MAX_VAL_SIZE,
    decreases h,
{
    let es = ns[p].entries;
    if h == 0 {
        assert forall|x: Seq<u8>| #[trigger] subtree_kvs(ns, p, h).contains_key(x) implies x.len()
            <= MAX_KEY_SIZE && subtree_kvs(ns, p, h)[x].len() <= MAX_VAL_SIZE by {
            lemma_entries_kvs_at(es, x);
            let j = choose|j: int| 0 <= j < es.len() && (#[trigger] es[j]).key == x;
            lemma_entries_kvs_val(es, j);
            assert(entry_ok(es[j]));
        }
    } else {
        assert forall|x: Seq<u8>| #[trigger] subtree_kvs(ns, p, h).contains_key(x) implies x.len()
            <= MAX_KEY_SIZE && subtree_kvs(ns, p, h)[x].len() <= MAX_VAL_SIZE by {
            lemma_kids_kvs_at(ns, es, (h - 1) as nat, x);
            let j = choose|j: int|
                0 <= j < es.len() && #[trigger] subtree_kvs(ns, es[j].ptr, (h - 1) as nat)
                    .contains_key(x);
            assert(subtree_wf(ns, es[j].ptr, (h - 1) as nat));
            lemma_subtree_bounds(ns, es[j].ptr, (h - 1) as nat);
            // The union agrees with one of the children on the value.
            let jl = choose|jl: int|
                0 <= jl < es.len() && #[trigger] subtree_kvs(ns, es[jl].ptr, (h - 1) as nat)
                    .contains_key(x) && forall|j2: int|
                    jl < j2 < es.len() ==> !(#[trigger] subtree_kvs(
                        ns,
                        es[j2].ptr,
                        (h - 1) as nat,
                    ).contains_key(x));
            assert(0 <= jl < es.len() && subtree_kvs(ns, es[jl].ptr, (h - 1) as nat).contains_key(
                x,
            ) && forall|j2: int|
                jl < j2 < es.len() ==> !(#[trigger] subtree_kvs(ns, es[j2].ptr, (h - 1) as nat)
                    .contains_key(x))) by {
                lemma_last_holder(ns, es, (h - 1) as nat, x, j);
            }
            lemma_subtree_bounds(ns, es[jl].ptr, (h - 1) as nat);
            assert(subtree_kvs(ns, p, h)[x] == subtree_kvs(ns, es[jl].ptr, (h - 1) as nat)[x]);
        }
    }
}

/// Among the slots whose subtree holds `x`, there is a last one.
pub proof fn lemma_last_holder(ns: Map<u64, NodeV>, es: Seq<EntryV>, h: nat, x: Seq<u8>, j: int)
    requires
        0 <= j < es.len(),
        subtree_kvs(ns, es[j].ptr, h).contains_key(x),
    ensures
        exists|jl: int|
            0 <= jl < es.len() && #[trigger] subtree_kvs(ns, es[jl].ptr, h).contains_key(x) && (
            forall|j2: int|
                jl < j2 < es.len() ==> !(#[trigger] subtree_kvs(ns, es[j2].ptr, h).contains_key(
                    x,
                ))),
    decreases es.len() - j,
{
    if forall|j2: int|
        j < j2 < es.len() ==> !(#[trigger] subtree_kvs(ns, es[j2].ptr, h).contains_key(x)) {
        assert(subtree_kvs(ns, es[j].ptr, h).contains_key(x));
    } else {
        let j2 = choose|j2: int|
            j < j2 < es.len() && #[trigger] subtree_kvs(ns, es[j2].ptr, h).contains_key(x);
        lemma_last_holder(ns, es, h, x, j2);
    }
}

/// The first slot key of a sound subtree's root is its least reachable
/// key.
pub proof fn lemma_subtree_min(ns: Map<u64, NodeV>, p: u64, h: nat)
    requires
        subtree_wf(ns, p, h),
    ensures
        subtree_kvs(ns, p, h).contains_key(ns[p].entries[0].key),
        forall|x: Seq<u8>|
            #[trigger] subtree_kvs(ns, p, h).contains_key(x) ==> lex_le(
                ns[p].entries[0].key,
                x,
            ),
    decreases h,
{
    let es = ns[p].entries;
    if h == 0 {
        lemma_entries_kvs_val(es, 0);
        assert forall|x: Seq<u8>| #[trigger] subtree_kvs(ns, p, h).contains_key(x) implies lex_le(
            es[0].key,
            x,
        ) by {
            lemma_entries_kvs_at(es, x);
            let j = choose|j: int| 0 <= j < es.len() && (#[trigger] es[j]).key == x;
            if j > 0 {
                assert(lex_lt(es[0].key, es[j].key));
            }
        }
    } else {
        let hc = (h - 1) as nat;
        assert(subtree_wf(ns, es[0].ptr, hc));
        lemma_subtree_min(ns, es[0].ptr, hc);
        assert(subtree_kvs(ns, es[0].ptr, hc).contains_key(es[0].key));
        lemma_kids_kvs_at(ns, es, hc, es[0].key);
        assert(subtree_kvs(ns, p, h).contains_key(es[0].key));
        assert forall|x: Seq<u8>| #[trigger] subtree_kvs(ns, p, h).contains_key(x) implies lex_le(
            es[0].key,
            x,
        ) by {
            lemma_kids_kvs_at(ns, es, hc, x);
            let j = choose|j: int|
                0 <= j < es.len() && #[trigger] subtree_kvs(ns, es[j].ptr, hc).contains_key(x);
            assert(lex_le(es[j].key, x));
            if j > 0 {
                assert(lex_lt(es[0].key, es[j].key));
                lemma_lex_lt_le_trans(es[0].key, es[j].key, x);
            }
        }
    }
}

/// Leaf contents concatenate to the union, later slots preferred.
pub proof fn lemma_entries_kvs_concat(a: Seq<EntryV>, b: Seq<EntryV>)
    ensures
        entries_kvs(a + b) == entries_kvs(a).union_prefer_right(entries_kvs(b)),
    decreases b.len(),
{
    if b.len() == 0 {
        assert(a + b =~= a);
        assert(entries_kvs(a).union_prefer_right(entries_kvs(b)) =~= entries_kvs(a));
    } else {
        assert((a + b).drop_last() =~= a + b.drop_last());
        assert((a + b).last() == b.last());
        lemma_entries_kvs_concat(a, b.drop_last());
        assert(entries_kvs(a + b) =~= entries_kvs(a).union_prefer_right(entries_kvs(b)));
    }
}

/// Subtree unions concatenate to the union, later slots preferred.
pub proof fn lemma_kids_kvs_concat(ns: Map<u64, NodeV>, a: Seq<EntryV>, b: Seq<EntryV>, h: nat)
    ensures
        kids_kvs(ns, a + b, h) == kids_kvs(ns, a, h).union_prefer_right(kids_kvs(ns, b, h)),
    decreases b.len(),
{
    if b.len() == 0 {
        assert(a + b =~= a);
        assert(kids_kvs(ns, a, h).union_prefer_right(kids_kvs(ns, b, h)) =~= kids_kvs(ns, a, h));
    } else {
        assert((a + b).drop_last() =~= a + b.drop_last());
        assert((a + b).last() == b.last());
        lemma_kids_kvs_concat(ns, a, b.drop_last(), h);
        assert(kids_kvs(ns, a + b, h) =~= kids_kvs(ns, a, h).union_prefer_right(
            kids_kvs(ns, b, h),
        ));
    }
}

/// Under sound slot conditions, distinct slots hold disjoint keys.
pub proof fn lemma_slots_disjoint(
    ns: Map<u64, NodeV>,
    es: Seq<EntryV>,
    hc: nat,
    j1: int,
    j2: int,
    x: Seq<u8>,
)
    requires
        slots_ok(ns, es, hc),
        entries_sorted(es),
        0 <= j1 < j2 < es.len(),
        subtree_kvs(ns, es[j1].ptr, hc).contains_key(x),
    ensures
        !subtree_kvs(ns, es[j2].ptr, hc).contains_key(x),
{
    if subtree_kvs(ns, es[j2].ptr, hc).contains_key(x) {
        assert(lex_lt(x, es[j1 + 1].key));
        assert(lex_le(es[j2].key, x));
        if j1 + 1 < j2 {
            assert(lex_lt(es[j1 + 1].key, es[j2].key));
            lemma_lex_trans(x, es[j1 + 1].key, es[j2].key);
        }
        assert(lex_lt(x, es[j2].key));
        lemma_lex_le_lt_trans(es[j2].key, x, es[j2].key);
        lemma_lex_irrefl(es[j2].key);
    }
}

/// Allocating a node whose conditions hold yields a sound subtree with
/// the node's contents.
pub proof fn lemma_alloc(ns: Map<u64, NodeV>, ns2: Map<u64, NodeV>, nv: NodeV, p: u64, h: nat)
    requires
        ns.submap_of(ns2),
        ns2.dom().contains(p),
        ns2[p] == nv,
        node_pre_ok(ns, nv, h),
        node_size(nv) <= PAGE_SIZE as int,
    ensures
        subtree_wf(ns2, p, h),
        subtree_kvs(ns2, p, h) == node_kvs(ns, nv, h),
{
    if h == 0 {
    } else {
        let hc = (h - 1) as nat;
        lemma_kids_frame(ns, ns2, nv.entries, hc);
        assert forall|i: int| 0 <= i < nv.entries.len() implies #[trigger] subtree_kvs(
            ns2,
            nv.entries[i].ptr,
            hc,
        ).contains_key(nv.entries[i].key) by {
            assert(subtree_kvs(ns, nv.entries[i].ptr, hc).contains_key(nv.entries[i].key));
        }
        assert forall|i: int, x: Seq<u8>|
            0 <= i < nv.entries.len() && #[trigger] subtree_kvs(ns2, nv.entries[i].ptr, hc)
                .contains_key(x) implies lex_le(nv.entries[i].key, x) && (i + 1 < nv.entries.len()
            ==> lex_lt(x, nv.entries[i + 1].key)) by {
            assert(subtree_kvs(ns, nv.entries[i].ptr, hc).contains_key(x));
        }
        assert(slots_ok(ns2, nv.entries, hc));
        assert(subtree_wf(ns2, p, h));
    }
}

/// Every slot key of a sound subtree's root is reachable in it.
proof fn lemma_slot_key_in_kvs(ns: Map<u64, NodeV>, p: u64, h: nat, t: int)
    requires
        subtree_wf(ns, p, h),
        0 <= t < ns[p].entries.len(),
    ensures
        subtree_kvs(ns, p, h).contains_key(ns[p].entries[t].key),
{
    let es = ns[p].entries;
    if h == 0 {
        lemma_entries_kvs_val(es, t);
    } else {
        let hc = (h - 1) as nat;
        assert(subtree_kvs(ns, es[t].ptr, hc).contains_key(es[t].key));
        lemma_kids_kvs_at(ns, es, hc, es[t].key);
    }
}

/// Two sound slot runs concatenate to a sound run when every key under
/// the left run comes before the right run's first slot key.
proof fn lemma_slots_ok_concat(ns: Map<u64, NodeV>, a: Seq<EntryV>, b: Seq<EntryV>, hc: nat)
    requires
        slots_ok(ns, a, hc),
        slots_ok(ns, b, hc),
        b.len() >= 1,
        forall|j: int, x: Seq<u8>|
            0 <= j < a.len() && #[trigger] subtree_kvs(ns, a[j].ptr, hc).contains_key(x)
                ==> lex_lt(x, b[0].key),
    ensures
        slots_ok(ns, a + b, hc),
{
    let ms = a + b;
    let nl = a.len() as int;
    assert forall|i: int| 0 <= i < ms.len() implies subtree_wf(ns, (#[trigger] ms[i]).ptr, hc)
        && subtree_kvs(ns, ms[i].ptr, hc).contains_key(ms[i].key) by {
        if i < nl {
            assert(subtree_wf(ns, a[i].ptr, hc));
            assert(subtree_kvs(ns, a[i].ptr, hc).contains_key(a[i].key));
        } else {
            assert(subtree_wf(ns, b[i - nl].ptr, hc));
            assert(subtree_kvs(ns, b[i - nl].ptr, hc).contains_key(b[i - nl].key));
        }
    }
    assert forall|i: int, x: Seq<u8>|
        0 <= i < ms.len() && #[trigger] subtree_kvs(ns, ms[i].ptr, hc).contains_key(x) implies
        lex_le(ms[i].key, x) && (i + 1 < ms.len() ==> lex_lt(x, ms[i + 1].key)) by {
        if i < nl {
            assert(subtree_kvs(ns, a[i].ptr, hc).contains_key(x));
            assert(lex_le(a[i].key, x));
            if i + 1 < ms.len() {
                if i + 1 < nl {
                    assert(lex_lt(x, a[i + 1].key));
                } else {
                    assert(lex_lt(x, b[0].key));
                }
            }
        } else {
            assert(subtree_kvs(ns, b[i - nl].ptr, hc).contains_key(x));
            assert(lex_le(b[i - nl].key, x));
            if i + 1 < ms.len() {
                assert(lex_lt(x, b[i - nl + 1].key));
            }
        }
    }
}

/// Replacing two adjacent slots by the single merged child keeps the
/// slot run sound and removes the key from the node's contents. The
/// deleted key was under slot `di`, one of the two merged slots.
#[verifier::rlimit(100)]
#[verifier::spinoff_prover]
proof fn lemma_merge_rebuild(
    ns0: Map<u64, NodeV>,
    ns2: Map<u64, NodeV>,
    es: Seq<EntryV>,
    hc: nat,
    lo: int,
    di: int,
    rf: ChildRefV,
    newes: Seq<EntryV>,
    key: Seq<u8>,
)
    requires
        slots_ok(ns0, es, hc),
        entries_sorted(es),
        forall|t: int| 0 <= t < es.len() ==> entry_ok(#[trigger] es[t]) && es[t].val.len() == 0,
        0 <= lo,
        lo + 1 < es.len(),
        di == lo || di == lo + 1,
        ns0.submap_of(ns2),
        subtree_wf(ns2, rf.ptr, hc),
        rf.ptr != 0,
        subtree_kvs(ns2, rf.ptr, hc).contains_key(rf.key),
        forall|x: Seq<u8>|
            #[trigger] subtree_kvs(ns2, rf.ptr, hc).contains_key(x) ==> lex_le(rf.key, x),
        forall|x: Seq<u8>|
            #[trigger] subtree_kvs(ns2, rf.ptr, hc).contains_key(x) == ((subtree_kvs(
                ns0,
                es[lo].ptr,
                hc,
            ).contains_key(x) || subtree_kvs(ns0, es[lo + 1].ptr, hc).contains_key(x)) && x
                != key),
        forall|x: Seq<u8>|
            #[trigger] subtree_kvs(ns2, rf.ptr, hc).contains_key(x) && subtree_kvs(
                ns0,
                es[lo].ptr,
                hc,
            ).contains_key(x) ==> subtree_kvs(ns2, rf.ptr, hc)[x] == subtree_kvs(
                ns0,
                es[lo].ptr,
                hc,
            )[x],
        forall|x: Seq<u8>|
            #[trigger] subtree_kvs(ns2, rf.ptr, hc).contains_key(x) && subtree_kvs(
                ns0,
                es[lo + 1].ptr,
                hc,
            ).contains_key(x) ==> subtree_kvs(ns2, rf.ptr, hc)[x] == subtree_kvs(
                ns0,
                es[lo + 1].ptr,
                hc,
            )[x],
        forall|j: int| di < j < es.len() ==> lex_lt(key, (#[trigger] es[j]).key),
        di > 0 ==> lex_le(es[di].key, key),
        newes == es.take(lo) + refs_entries(seq![rf]) + es.skip(lo + 2),
    ensures
        slots_ok(ns2, newes, hc),
        entries_sorted(newes),
        forall|t: int|
            0 <= t < newes.len() ==> (#[trigger] newes[t]).key.len() <= MAX_KEY_SIZE
                && newes[t].val.len() == 0,
        kids_kvs(ns2, newes, hc) == kids_kvs(ns0, es, hc).remove(key),
        newes.len() == es.len() - 1,
{
    let u = subtree_kvs(ns2, rf.ptr, hc);
    let re = refs_entries(seq![rf]);
    lemma_kids_frame(ns0, ns2, es, hc);
    assert(re.len() == 1);
    assert(re[0].key == rf.key && re[0].ptr == rf.ptr && re[0].val.len() == 0);
    assert(newes.len() == es.len() - 1);
    assert forall|t: int| 0 <= t < newes.len() implies (#[trigger] newes[t]) == (if t < lo {
        es[t]
    } else if t == lo {
        re[0]
    } else {
        es[t + 1]
    }) by {}
    // The merged child's keys respect the replaced slots' gap.
    assert forall|x: Seq<u8>| #[trigger] u.contains_key(x) implies lex_le(es[lo].key, x) && (lo + 2
        < es.len() ==> lex_lt(x, es[lo + 2].key)) by {
        if subtree_kvs(ns0, es[lo].ptr, hc).contains_key(x) {
            assert(lex_le(es[lo].key, x));
            if lo + 2 < es.len() {
                assert(lex_lt(x, es[lo + 1].key));
                assert(lex_lt(es[lo + 1].key, es[lo + 2].key));
                lemma_lex_trans(x, es[lo + 1].key, es[lo + 2].key);
            }
        } else {
            assert(subtree_kvs(ns0, es[lo + 1].ptr, hc).contains_key(x));
            assert(lex_le(es[lo + 1].key, x));
            assert(lex_lt(es[lo].key, es[lo + 1].key));
            lemma_lex_lt_le_trans(es[lo].key, es[lo + 1].key, x);
            if lo + 2 < es.len() {
                assert(lex_lt(x, es[lo + 2].key));
            }
        }
    }
    // Soundness and bounds of every new slot.
    assert forall|t: int| 0 <= t < newes.len() implies subtree_wf(
        ns2,
        (#[trigger] newes[t]).ptr,
        hc,
    ) && subtree_kvs(ns2, newes[t].ptr, hc).contains_key(newes[t].key) by {
        if t < lo {
            assert(subtree_wf(ns2, es[t].ptr, hc));
            assert(subtree_kvs(ns0, es[t].ptr, hc).contains_key(es[t].key));
        } else if t == lo {
        } else {
            assert(subtree_wf(ns2, es[t + 1].ptr, hc));
            assert(subtree_kvs(ns0, es[t + 1].ptr, hc).contains_key(es[t + 1].key));
        }
    }
    assert forall|t: int, x: Seq<u8>|
        0 <= t < newes.len() && #[trigger] subtree_kvs(ns2, newes[t].ptr, hc).contains_key(
            x,
        ) implies lex_le(newes[t].key, x) && (t + 1 < newes.len() ==> lex_lt(
        x,
        newes[t + 1].key,
    )) by {
        if t < lo {
            assert(subtree_kvs(ns0, es[t].ptr, hc).contains_key(x));
            assert(lex_le(es[t].key, x));
            if t + 1 < newes.len() {
                if t + 1 < lo {
                    assert(lex_lt(x, es[t + 1].key));
                } else {
                    assert(lex_lt(x, es[lo].key));
                    assert(u.contains_key(rf.key));
                    assert(lex_le(es[lo].key, rf.key));
                    lemma_lex_lt_le_trans(x, es[lo].key, rf.key);
                }
            }
        } else if t == lo {
            assert(u.contains_key(x));
            assert(lex_le(rf.key, x));
            if t + 1 < newes.len() {
                assert(lex_lt(x, es[lo + 2].key));
            }
        } else {
            assert(subtree_kvs(ns0, es[t + 1].ptr, hc).contains_key(x));
            assert(lex_le(es[t + 1].key, x));
            if t + 1 < newes.len() {
                assert(lex_lt(x, es[t + 2].key));
            }
        }
    }
    assert(slots_ok(ns2, newes, hc));
    assert forall|t: int| 0 <= t < newes.len() implies (#[trigger] newes[t]).key.len()
        <= MAX_KEY_SIZE && newes[t].val.len() == 0 by {
        if t == lo {
            lemma_subtree_bounds(ns2, rf.ptr, hc);
            assert(u.contains_key(rf.key));
        }
    }
    assert forall|t: int| 0 <= t < newes.len() - 1 implies lex_lt(
        (#[trigger] newes[t]).key,
        newes[t + 1].key,
    ) by {
        assert(subtree_kvs(ns2, newes[t].ptr, hc).contains_key(newes[t].key));
    }
    lemma_adjacent_sorted(newes);
    // The removed key is under no slot outside the merged pair.
    assert forall|jj: int| 0 <= jj < es.len() && jj != lo && jj != lo + 1 implies !(
    #[trigger] subtree_kvs(ns0, es[jj].ptr, hc).contains_key(key)) by {
        if subtree_kvs(ns0, es[jj].ptr, hc).contains_key(key) {
            if jj < lo {
                assert(lex_lt(key, es[jj + 1].key));
                if jj + 1 < di {
                    assert(lex_lt(es[jj + 1].key, es[di].key));
                    lemma_lex_trans(key, es[jj + 1].key, es[di].key);
                }
                assert(lex_lt(key, es[di].key));
                assert(lex_le(es[di].key, key));
                lemma_lex_lt_le_trans(key, es[di].key, key);
                lemma_lex_irrefl(key);
            } else {
                assert(jj > lo + 1);
                assert(jj > di);
                assert(lex_le(es[jj].key, key));
                assert(lex_lt(key, es[jj].key));
                lemma_lex_lt_le_trans(key, es[jj].key, key);
                lemma_lex_irrefl(key);
            }
        }
    }
    lemma_merge_rebuild_kvs(ns0, ns2, es, hc, lo, di, rf, newes, key);
}

/// The contents part of the merged-slot rebuild: the new run holds the
/// old contents without the removed key.
#[verifier::rlimit(100)]
#[verifier::spinoff_prover]
proof fn lemma_merge_rebuild_kvs(
    ns0: Map<u64, NodeV>,
    ns2: Map<u64, NodeV>,
    es: Seq<EntryV>,
    hc: nat,
    lo: int,
    di: int,
    rf: ChildRefV,
    newes: Seq<EntryV>,
    key: Seq<u8>,
)
    requires
        slots_ok(ns0, es, hc),
        entries_sorted(es),
        0 <= lo,
        lo + 1 < es.len(),
        di == lo || di == lo + 1,
        ns0.submap_of(ns2),
        subtree_wf(ns2, rf.ptr, hc),
        forall|x: Seq<u8>|
            #[trigger] subtree_kvs(ns2, rf.ptr, hc).contains_key(x) == ((subtree_kvs(
                ns0,
                es[lo].ptr,
                hc,
            ).contains_key(x) || subtree_kvs(ns0, es[lo + 1].ptr, hc).contains_key(x)) && x
                != key),
        forall|x: Seq<u8>|
            #[trigger] subtree_kvs(ns2, rf.ptr, hc).contains_key(x) && subtree_kvs(
                ns0,
                es[lo].ptr,
                hc,
            ).contains_key(x) ==> subtree_kvs(ns2, rf.ptr, hc)[x] == subtree_kvs(
                ns0,
                es[lo].ptr,
                hc,
            )[x],
        forall|x: Seq<u8>|
            #[trigger] subtree_kvs(ns2, rf.ptr, hc).contains_key(x) && subtree_kvs(
                ns0,
                es[lo + 1].ptr,
                hc,
            ).contains_key(x) ==> subtree_kvs(ns2, rf.ptr, hc)[x] == subtree_kvs(
                ns0,
                es[lo + 1].ptr,
                hc,
            )[x],
        slots_ok(ns2, newes, hc),
        entries_sorted(newes),
        forall|jj: int|
            0 <= jj < es.len() && jj != lo && jj != lo + 1 ==> !(#[trigger] subtree_kvs(
                ns0,
                es[jj].ptr,
                hc,
            ).contains_key(key)),
        newes == es.take(lo) + refs_entries(seq![rf]) + es.skip(lo + 2),
    ensures
        kids_kvs(ns2, newes, hc) == kids_kvs(ns0, es, hc).remove(key),
{
    let u = subtree_kvs(ns2, rf.ptr, hc);
    let re = refs_entries(seq![rf]);
    lemma_kids_frame(ns0, ns2, es, hc);
    assert(re.len() == 1);
    assert(re[0].key == rf.key && re[0].ptr == rf.ptr);
    assert(newes.len() == es.len() - 1);
    assert forall|t: int| 0 <= t < newes.len() implies (#[trigger] newes[t]) == (if t < lo {
        es[t]
    } else if t == lo {
        re[0]
    } else {
        es[t + 1]
    }) by {}
    // The contents are the old contents without the key.
    let lhs = kids_kvs(ns2, newes, hc);
    let rhs = kids_kvs(ns0, es, hc).remove(key);
    assert forall|x: Seq<u8>| true implies lhs.contains_key(x) == rhs.contains_key(x) by {
        lemma_kids_kvs_at(ns2, newes, hc, x);
        lemma_kids_kvs_at(ns0, es, hc, x);
        if lhs.contains_key(x) {
            let t = choose|t: int|
                0 <= t < newes.len() && #[trigger] subtree_kvs(ns2, newes[t].ptr, hc).contains_key(
                    x,
                );
            if t < lo {
                assert(subtree_kvs(ns0, es[t].ptr, hc).contains_key(x));
                assert(x != key);
            } else if t == lo {
                assert(u.contains_key(x));
                assert(x != key);
            } else {
                assert(subtree_kvs(ns0, es[t + 1].ptr, hc).contains_key(x));
                assert(x != key);
            }
        }
        if rhs.contains_key(x) {
            assert(x != key);
            let jj = choose|jj: int|
                0 <= jj < es.len() && #[trigger] subtree_kvs(ns0, es[jj].ptr, hc).contains_key(x);
            if jj == lo || jj == lo + 1 {
                assert(u.contains_key(x));
                assert(subtree_kvs(ns2, newes[lo as int].ptr, hc).contains_key(x));
            } else if jj < lo {
                assert(subtree_kvs(ns2, newes[jj].ptr, hc).contains_key(x));
            } else {
                assert(subtree_kvs(ns2, newes[jj - 1].ptr, hc).contains_key(x));
            }
        }
    }
    assert forall|x: Seq<u8>| lhs.contains_key(x) && rhs.contains_key(x) implies lhs[x]
        == rhs[x] by {
        lemma_kids_kvs_at(ns2, newes, hc, x);
        lemma_kids_kvs_at(ns0, es, hc, x);
        assert(x != key);
        let t = choose|t: int|
            0 <= t < newes.len() && #[trigger] subtree_kvs(ns2, newes[t].ptr, hc).contains_key(x);
        assert forall|t2: int| t < t2 < newes.len() implies !(#[trigger] subtree_kvs(
            ns2,
            newes[t2].ptr,
            hc,
        ).contains_key(x)) by {
            lemma_slots_disjoint(ns2, newes, hc, t, t2, x);
        }
        assert(lhs[x] == subtree_kvs(ns2, newes[t].ptr, hc)[x]);
        if t != lo {
            let jj = if t < lo {
                t
            } else {
                t + 1
            };
            assert(subtree_kvs(ns0, es[jj].ptr, hc).contains_key(x));
            assert forall|j2: int| jj < j2 < es.len() implies !(#[trigger] subtree_kvs(
                ns0,
                es[j2].ptr,
                hc,
            ).contains_key(x)) by {
                lemma_slots_disjoint(ns0, es, hc, jj, j2, x);
            }
            assert(kids_kvs(ns0, es, hc)[x] == subtree_kvs(ns0, es[jj].ptr, hc)[x]);
        } else {
            assert(u.contains_key(x));
            let jj: int = if subtree_kvs(ns0, es[lo + 1].ptr, hc).contains_key(x) {
                lo + 1
            } else {
                lo
            };
            assert(subtree_kvs(ns0, es[jj].ptr, hc).contains_key(x));
            assert(u[x] == subtree_kvs(ns0, es[jj].ptr, hc)[x]);
            assert forall|j2: int| jj < j2 < es.len() implies !(#[trigger] subtree_kvs(
                ns0,
                es[j2].ptr,
                hc,
            ).contains_key(x)) by {
                lemma_slots_disjoint(ns0, es, hc, jj, j2, x);
            }
            assert(kids_kvs(ns0, es, hc)[x] == subtree_kvs(ns0, es[jj].ptr, hc)[x]);
        }
    }
    assert(lhs =~= rhs);
}

/// Submap inclusion is transitive.
pub proof fn lemma_submap_trans(a: Map<u64, NodeV>, b: Map<u64, NodeV>, c: Map<u64, NodeV>)
    requires
        a.submap_of(b),
        b.submap_of(c),
    ensures
        a.submap_of(c),
{
    assert forall|k: u64| #[trigger] a.dom().contains(k) implies c.dom().contains(k) && a[k]
        == c[k] by {
        let tb = b.dom().contains(k);
        let tc = c.dom().contains(k);
        assert(b.dom().contains(k) && a[k] == b[k]);
        assert(c.dom().contains(k) && b[k] == c[k]);
    }
}

/// Inserting a fresh page keeps the old pages intact.
pub proof fn lemma_submap_insert(ns: Map<u64, NodeV>, p: u64, v: NodeV)
    requires
        !ns.dom().contains(p),
    ensures
        ns.submap_of(ns.insert(p, v)),
{
}

/// Child selection is sound and complete: a key is in the subtree
/// exactly when it is under the selected slot, with the same value.
pub proof fn lemma_descend(ns: Map<u64, NodeV>, p: u64, h: nat, key: Seq<u8>, i: int)
    requires
        subtree_wf(ns, p, h),
        h >= 1,
        0 <= i < ns[p].entries.len(),
        forall|j: int|
            i < j < ns[p].entries.len() ==> lex_lt(key, (#[trigger] ns[p].entries[j]).key),
        i > 0 ==> lex_le(ns[p].entries[i].key, key),
    ensures
        subtree_kvs(ns, p, h).contains_key(key) == subtree_kvs(
            ns,
            ns[p].entries[i].ptr,
            (h - 1) as nat,
        ).contains_key(key),
        subtree_kvs(ns, ns[p].entries[i].ptr, (h - 1) as nat).contains_key(key) ==> subtree_kvs(
            ns,
            p,
            h,
        )[key] == subtree_kvs(ns, ns[p].entries[i].ptr, (h - 1) as nat)[key],
{
    let es = ns[p].entries;
    let hc = (h - 1) as nat;
    lemma_kids_kvs_at(ns, es, hc, key);
    assert forall|j2: int| i < j2 < es.len() implies !(#[trigger] subtree_kvs(
        ns,
        es[j2].ptr,
        hc,
    ).contains_key(key)) by {
        if subtree_kvs(ns, es[j2].ptr, hc).contains_key(key) {
            assert(lex_le(es[j2].key, key));
            lemma_lex_trichotomy(es[j2].key, key);
        }
    }
    if subtree_kvs(ns, es[i].ptr, hc).contains_key(key) {
        assert(subtree_kvs(ns, p, h).contains_key(key));
        assert(subtree_kvs(ns, p, h)[key] == subtree_kvs(ns, es[i].ptr, hc)[key]);
    }
    if subtree_kvs(ns, p, h).contains_key(key) {
        let j = choose|j: int|
            0 <= j < es.len() && #[trigger] subtree_kvs(ns, es[j].ptr, hc).contains_key(key);
        if j < i {
            assert(lex_le(es[i].key, key));
            assert(lex_lt(key, es[j + 1].key));
            if j + 1 < i {
                assert(lex_lt(es[j + 1].key, es[i].key));
                lemma_lex_trans(key, es[j + 1].key, es[i].key);
            }
            assert(lex_lt(key, es[i].key));
            lemma_lex_trichotomy(es[i].key, key);
            assert(false);
        }
        assert(j == i);
    }
}

/// The copy-on-write B+tree over an abstract page store.
pub struct BTree<S: PageStore> {
    /// The page store holding every published page.
    pub store: S,
    /// The current root pointer; zero denotes an empty tree.
    pub root: u64,
    /// The height of the current tree: zero for a single leaf.
    pub height: u64,
}

impl<S: PageStore> BTree<S> {
    /// Structural soundness of the current tree.
    pub open spec fn wf(self) -> bool {
        self.root != 0 ==> subtree_wf(self.store.pages(), self.root, self.height as nat)
    }

    /// The logical contents of the current tree.
    pub open spec fn kvs(self) -> Map<Seq<u8>, Seq<u8>> {
        if self.root == 0 {
            Map::empty()
        } else {
            subtree_kvs(self.store.pages(), self.root, self.height as nat)
        }
    }

    /// Builds a tree over `store` starting from `root`; zero means the
    /// tree is empty, otherwise `root` must head a sound tree of height
    /// `height` in the store.
    pub fn new(store: S, root: u64, height: u64) -> (r: BTree<S>)
        requires
            root != 0 ==> subtree_wf(store.pages(), root, height as nat),
        ensures
            r.wf(),
            r.store == store,
            r.root == root,
            root != 0 ==> r.kvs() == subtree_kvs(store.pages(), root, height as nat),
            root == 0 ==> r.kvs() == Map::<Seq<u8>, Seq<u8>>::empty(),
    {
        BTree { store, root, height }
    }

    /// Builds an empty tree over `store`.
    pub fn new_empty(store: S) -> (r: BTree<S>)
        ensures
            r.wf(),
            r.store == store,
            r.root == 0,
            r.kvs() == Map::<Seq<u8>, Seq<u8>>::empty(),
    {
        BTree { store, root: 0, height: 0 }
    }

    /// The current root pointer, identifying this tree version; zero for
    /// an empty tree.
    pub fn current_root(&self) -> (r: u64)
        ensures
            r == self.root,
    {
        self.root
    }

    /// Looks `key` up in the current tree.
    pub fn lookup(&self, key: &Vec<u8>) -> (r: Result<Option<Vec<u8>>, BTreeError>)
        requires
            self.wf(),
        ensures
            r matches Ok(Some(v)) ==> self.kvs().contains_key(key@) && v@ == self.kvs()[key@],
            r matches Ok(None) ==> !self.kvs().contains_key(key@),
            r matches Err(e) ==> e == BTreeError::PageStoreFailure,
            self.root == 0 ==> r == Ok::<Option<Vec<u8>>, BTreeError>(None),
    {
        if self.root == 0 {
            return Ok(None);
        }
        lookup_at(&self.store, self.root, self.height, key)
    }

    /// Inserts `key` with `val`, overwriting an equal key, by rebuilding
    /// the path from the responsible leaf to the root into fresh pages
    /// and then replacing the root pointer. An oversized input is
    /// rejected before any page is touched; on any failure the previous
    /// tree stays intact, and the superseded pages are queued for
    /// release only after the new root is in place.
    #[verifier::rlimit(100)]
    pub fn insert(&mut self, key: &Vec<u8>, val: &Vec<u8>) -> (r: Result<(), BTreeError>)
        requires
            old(self).wf(),
        ensures
            final(self).wf(),
            r is Ok ==> key@.len() <= MAX_KEY_SIZE && val@.len() <= MAX_VAL_SIZE
                && final(self).kvs() == old(self).kvs().insert(key@, val@),
            r matches Err(e) ==> final(self).root == old(self).root
                && final(self).kvs() == old(self).kvs() && (e == BTreeError::OversizedKey
                <==> key@.len() > MAX_KEY_SIZE) && (e
                == BTreeError::OversizedValue <==> (key@.len() <= MAX_KEY_SIZE && val@.len()
                > MAX_VAL_SIZE)) && (e == BTreeError::OversizedKey || e
                == BTreeError::OversizedValue || e == BTreeError::PageStoreFailure),
            r matches Err(e) ==> ((e == BTreeError::OversizedKey || e
                == BTreeError::OversizedValue) ==> *final(self) == *old(self)),
            old(self).store.pages().submap_of(final(self).store.pages()),
    {
        if key.len() > MAX_KEY_SIZE {
            return Err(BTreeError::OversizedKey);
        }
        if val.len() > MAX_VAL_SIZE {
            return Err(BTreeError::OversizedValue);
        }
        if self.root == 0 {
            let mut entries: Vec<Entry> = Vec::new();
            entries.push(Entry { key: clone_bytes(key), val: clone_bytes(val), ptr: 0 });
            let node = Node { kind: KIND_LEAF, entries };
            proof {
                let nv = node@;
                assert(nv.entries.len() == 1);
                assert(nv.entries[0] == EntryV { key: key@, val: val@, ptr: 0 });
                crate::node::lemma_recs_size_singleton(nv.entries[0]);
                assert(nv.entries =~= seq![nv.entries[0]]);
                assert(node_wf(nv));
                assert(node_size(nv) <= PAGE_SIZE as int);
                assert(nv.entries.drop_last() =~= Seq::<EntryV>::empty());
                assert(entries_kvs(nv.entries.drop_last()) =~= Map::<Seq<u8>, Seq<u8>>::empty());
                assert(entries_kvs(nv.entries) =~= Map::<Seq<u8>, Seq<u8>>::empty().insert(
                    key@,
                    val@,
                ));
            }
            let ghost nv = node@;
            match self.store.allocate(node) {
                Ok(np) => {
                    self.root = np;
                    self.height = 0;
                    proof {
                        assert(subtree_wf(self.store.pages(), np, 0));
                        assert(self.kvs() =~= old(self).kvs().insert(key@, val@));
                    }
                    Ok(())
                },
                Err(_) => Err(BTreeError::PageStoreFailure),
            }
        } else {
            let ghost ns0 = self.store.pages();
            let ghost hh = self.height as nat;
            let ghost target = old(self).kvs().insert(key@, val@);
            let mut superseded: Vec<u64> = Vec::new();
            let root = self.root;
            let height = self.height;
            let sub = match insert_at(&mut self.store, root, height, key, val, &mut superseded) {
                Ok(s) => s,
                Err(_) => {
                    proof {
                        lemma_subtree_frame(ns0, self.store.pages(), old(self).root, hh);
                    }
                    return Err(BTreeError::PageStoreFailure);
                },
            };
            let ghost ns2 = self.store.pages();
            let ghost rs = sub@.map_values(|c: ChildRef| c@);
            let ghost re = refs_entries(rs);
            if sub.len() == 1 {
                self.root = sub[0].ptr;
                proof {
                    assert(rs[0] == sub@[0]@);
                    assert(re.len() == 1);
                    assert(re.drop_last() =~= Seq::<EntryV>::empty());
                    assert(re.last().ptr == rs[0].ptr);
                    assert(kids_kvs(ns2, re.drop_last(), hh) == Map::<Seq<u8>, Seq<u8>>::empty());
                    assert(Map::<Seq<u8>, Seq<u8>>::empty().union_prefer_right(
                        subtree_kvs(ns2, rs[0].ptr, hh),
                    ) =~= subtree_kvs(ns2, rs[0].ptr, hh));
                    assert(subtree_kvs(ns2, rs[0].ptr, hh) == target);
                    assert(subtree_wf(ns2, rs[0].ptr, hh));
                }
            } else {
                if height == 0xffff_ffff_ffff_ffff {
                    proof {
                        lemma_subtree_frame(ns0, ns2, old(self).root, hh);
                    }
                    return Err(BTreeError::PageStoreFailure);
                }
                let mut entries: Vec<Entry> = Vec::new();
                push_ref_entries(&mut entries, &sub);
                let node = Node { kind: KIND_INTERNAL, entries };
                proof {
                    let newes = node@.entries;
                    assert forall|t: int| 0 <= t < newes.len() implies newes[t] == re[t] by {
                        assert(newes[t] == entries@[t]@);
                    }
                    assert(newes =~= re);
                    assert forall|t: int| 0 <= t < re.len() implies subtree_wf(
                        ns2,
                        (#[trigger] re[t]).ptr,
                        hh,
                    ) && subtree_kvs(ns2, re[t].ptr, hh).contains_key(re[t].key) by {
                        assert(re[t].ptr == rs[t].ptr && re[t].key == rs[t].key);
                        assert(subtree_wf(ns2, rs[t].ptr, hh));
                        assert(subtree_kvs(ns2, rs[t].ptr, hh).contains_key(rs[t].key));
                    }
                    assert forall|t: int, x: Seq<u8>|
                        0 <= t < re.len() && #[trigger] subtree_kvs(ns2, re[t].ptr, hh)
                            .contains_key(x) implies lex_le(re[t].key, x) && (t + 1 < re.len()
                        ==> lex_lt(x, re[t + 1].key)) by {
                        assert(re[t].ptr == rs[t].ptr && re[t].key == rs[t].key);
                        assert(subtree_kvs(ns2, rs[t].ptr, hh).contains_key(x));
                        if t + 1 < re.len() {
                            assert(re[t + 1].key == rs[t + 1].key);
                        }
                    }
                    assert(slots_ok(ns2, newes, hh));
                    assert forall|t: int| 0 <= t < newes.len() implies (#[trigger] newes[t]).key
                        .len() <= MAX_KEY_SIZE && newes[t].val.len() == 0 by {
                        lemma_subtree_bounds(ns2, newes[t].ptr, hh);
                        assert(subtree_kvs(ns2, newes[t].ptr, hh).contains_key(newes[t].key));
                    }
                    assert forall|t: int| 0 <= t < newes.len() - 1 implies lex_lt(
                        (#[trigger] newes[t]).key,
                        newes[t + 1].key,
                    ) by {
                        assert(subtree_kvs(ns2, newes[t].ptr, hh).contains_key(newes[t].key));
                    }
                    lemma_adjacent_sorted(newes);
                    lemma_recs_size_bound(newes);
                    assert(node_wf(node@));
                    assert(node_size(node@) <= PAGE_SIZE as int);
                    assert(node_pre_ok(ns2, node@, (height + 1) as nat));
                }
                let ghost nv = node@;
                let ghost ns3 = self.store.pages();
                match self.store.allocate(node) {
                    Ok(np) => {
                        self.root = np;
                        self.height = height + 1;
                        proof {
                            lemma_submap_insert(ns3, np, nv);
                            lemma_alloc(
                                ns2,
                                self.store.pages(),
                                nv,
                                np,
                                (height + 1) as nat,
                            );
                            lemma_kids_frame(ns2, self.store.pages(), nv.entries, hh);
                            assert(node_kvs(ns2, nv, (height + 1) as nat) == kids_kvs(
                                ns2,
                                re,
                                hh,
                            ));
                            assert(self.kvs() == target);
                            lemma_submap_trans(ns0, ns2, self.store.pages());
                        }
                    },
                    Err(_) => {
                        proof {
                            lemma_subtree_frame(ns0, ns2, old(self).root, hh);
                        }
                        return Err(BTreeError::PageStoreFailure);
                    },
                }
            }
            let ghost ns_commit = self.store.pages();
            let ghost new_root = self.root;
            let ghost new_h = self.height as nat;
            let mut fi: usize = 0;
            proof {
                assert(new_root != 0);
                assert(ns0.submap_of(ns_commit));
            }
            while fi < superseded.len()
                invariant
                    self.store.pages() == ns_commit,
                    subtree_wf(ns_commit, new_root, new_h),
                    self.root == new_root,
                    self.height as nat == new_h,
                    new_root != 0,
                    ns0.submap_of(ns_commit),
                decreases superseded@.len() - fi,
            {
                self.store.free(superseded[fi]);
                fi = fi + 1;
            }
            proof {
                assert(subtree_kvs(self.store.pages(), new_root, new_h) == target);
            }
            Ok(())
        }
    }

    /// Removes `key` if present, rebuilding the path from the
    /// responsible leaf to the root into fresh pages. Absence is a
    /// normal `false` result that leaves the tree, the root pointer and
    /// every page untouched; on failure the previous tree stays intact.
    /// At each internal level, a rebuilt child that has shrunk below a
    /// quarter page is merged with an adjacent sibling when the pair
    /// fits one page; the left sibling is preferred, the right one is
    /// used for a leftmost child. An internal root left with a single
    /// child is replaced by that child, and the superseded pages are
    /// queued for release only after the new root is in place.
    #[verifier::rlimit(100)]
    pub fn delete(&mut self, key: &Vec<u8>) -> (r: Result<bool, BTreeError>)
        requires
            old(self).wf(),
        ensures
            final(self).wf(),
            r matches Ok(b) ==> b == old(self).kvs().contains_key(key@)
                && final(self).kvs() == old(self).kvs().remove(key@),
            r == Ok::<bool, BTreeError>(false) ==> *final(self) == *old(self),
            r matches Err(e) ==> e == BTreeError::PageStoreFailure
                && final(self).root == old(self).root && final(self).kvs() == old(self).kvs(),
            old(self).root == 0 ==> r == Ok::<bool, BTreeError>(false),
            old(self).store.pages().submap_of(final(self).store.pages()),
    {
        if self.root == 0 {
            proof {
                assert(old(self).kvs().remove(key@) =~= old(self).kvs());
            }
            return Ok(false);
        }
        let ghost ns0 = self.store.pages();
        let ghost hh = self.height as nat;
        let ghost target = old(self).kvs().remove(key@);
        let mut superseded: Vec<u64> = Vec::new();
        let root = self.root;
        let height = self.height;
        let sub = match delete_at(&mut self.store, root, height, key, &mut superseded) {
            Ok(None) => {
                proof {
                    assert(old(self).kvs().remove(key@) =~= old(self).kvs());
                    assert(*self == *old(self));
                }
                return Ok(false);
            },
            Ok(Some(s)) => s,
            Err(_) => {
                proof {
                    lemma_subtree_frame(ns0, self.store.pages(), old(self).root, hh);
                }
                return Err(BTreeError::PageStoreFailure);
            },
        };
        let ghost ns2 = self.store.pages();
        let ghost rs = sub@.map_values(|c: ChildRef| c@);
        let ghost re = refs_entries(rs);
        if sub.len() == 0 {
            self.root = 0;
            self.height = 0;
            proof {
                assert(self.kvs() =~= target);
            }
        } else if sub.len() == 1 {
            self.root = sub[0].ptr;
            proof {
                assert(rs[0] == sub@[0]@);
                assert(re.len() == 1);
                assert(re.drop_last() =~= Seq::<EntryV>::empty());
                assert(re.last().ptr == rs[0].ptr);
                assert(kids_kvs(ns2, re.drop_last(), hh) == Map::<Seq<u8>, Seq<u8>>::empty());
                assert(Map::<Seq<u8>, Seq<u8>>::empty().union_prefer_right(
                    subtree_kvs(ns2, rs[0].ptr, hh),
                ) =~= subtree_kvs(ns2, rs[0].ptr, hh));
                assert(subtree_kvs(ns2, rs[0].ptr, hh) == target);
                assert(subtree_wf(ns2, rs[0].ptr, hh));
            }
            // Root collapse: an internal root with one child yields to it.
            if height > 0 {
                match self.store.get(self.root) {
                    Ok(rn) => {
                        if rn.n_keys() == 1 {
                            let ghost rv = ns2[self.root as u64];
                            proof {
                                assert(rv.entries.len() == 1);
                                assert(subtree_wf(ns2, rv.entries[0].ptr, (hh - 1) as nat));
                                assert(kids_kvs(ns2, rv.entries, (hh - 1) as nat) == target);
                                assert(rv.entries.drop_last() =~= Seq::<EntryV>::empty());
                                assert(rv.entries.last() == rv.entries[0]);
                                assert(kids_kvs(
                                    ns2,
                                    rv.entries.drop_last(),
                                    (hh - 1) as nat,
                                ) == Map::<Seq<u8>, Seq<u8>>::empty());
                                assert(Map::<Seq<u8>, Seq<u8>>::empty().union_prefer_right(
                                    subtree_kvs(ns2, rv.entries[0].ptr, (hh - 1) as nat),
                                ) =~= subtree_kvs(ns2, rv.entries[0].ptr, (hh - 1) as nat));
                                assert(subtree_kvs(ns2, rv.entries[0].ptr, (hh - 1) as nat)
                                    == target);
                            }
                            let old_root = self.root;
                            let cp = match rn.get_ptr(0) {
                                Ok(cp) => cp,
                                Err(_) => old_root,
                            };
                            if cp != 0 {
                                proof {
                                    assert(cp == rv.entries[0].ptr);
                                }
                                self.root = cp;
                                self.height = height - 1;
                                self.store.free(old_root);
                            }
                        }
                    },
                    Err(_) => {
                        // The store refused the read; keep the sound,
                        // uncollapsed root.
                    },
                }
            }
        } else {
            if height == 0xffff_ffff_ffff_ffff {
                proof {
                    lemma_subtree_frame(ns0, ns2, old(self).root, hh);
                }
                return Err(BTreeError::PageStoreFailure);
            }
            let mut entries: Vec<Entry> = Vec::new();
            push_ref_entries(&mut entries, &sub);
            let node = Node { kind: KIND_INTERNAL, entries };
            proof {
                let newes = node@.entries;
                assert forall|t: int| 0 <= t < newes.len() implies newes[t] == re[t] by {
                    assert(newes[t] == entries@[t]@);
                }
                assert(newes =~= re);
                assert forall|t: int| 0 <= t < re.len() implies subtree_wf(
                    ns2,
                    (#[trigger] re[t]).ptr,
                    hh,
                ) && subtree_kvs(ns2, re[t].ptr, hh).contains_key(re[t].key) by {
                    assert(re[t].ptr == rs[t].ptr && re[t].key == rs[t].key);
                    assert(subtree_wf(ns2, rs[t].ptr, hh));
                    assert(subtree_kvs(ns2, rs[t].ptr, hh).contains_key(rs[t].key));
                }
                assert forall|t: int, x: Seq<u8>|
                    0 <= t < re.len() && #[trigger] subtree_kvs(ns2, re[t].ptr, hh).contains_key(
                        x,
                    ) implies lex_le(re[t].key, x) && (t + 1 < re.len() ==> lex_lt(
                    x,
                    re[t + 1].key,
                )) by {
                    assert(re[t].ptr == rs[t].ptr && re[t].key == rs[t].key);
                    assert(subtree_kvs(ns2, rs[t].ptr, hh).contains_key(x));
                    if t + 1 < re.len() {
                        assert(re[t + 1].key == rs[t + 1].key);
                    }
                }
                assert(slots_ok(ns2, newes, hh));
                assert forall|t: int| 0 <= t < newes.len() implies (#[trigger] newes[t]).key.len()
                    <= MAX_KEY_SIZE && newes[t].val.len() == 0 by {
                    lemma_subtree_bounds(ns2, newes[t].ptr, hh);
                    assert(subtree_kvs(ns2, newes[t].ptr, hh).contains_key(newes[t].key));
                }
                assert forall|t: int| 0 <= t < newes.len() - 1 implies lex_lt(
                    (#[trigger] newes[t]).key,
                    newes[t + 1].key,
                ) by {
                    assert(subtree_kvs(ns2, newes[t].ptr, hh).contains_key(newes[t].key));
                }
                lemma_adjacent_sorted(newes);
                lemma_recs_size_bound(newes);
                assert(node_wf(node@));
                assert(node_size(node@) <= PAGE_SIZE as int);
                assert(node_pre_ok(ns2, node@, (height + 1) as nat));
            }
            let ghost nv = node@;
            let ghost ns3 = self.store.pages();
            match self.store.allocate(node) {
                Ok(np) => {
                    self.root = np;
                    self.height = height + 1;
                    proof {
                        lemma_submap_insert(ns3, np, nv);
                        lemma_alloc(ns2, self.store.pages(), nv, np, (height + 1) as nat);
                        lemma_kids_frame(ns2, self.store.pages(), nv.entries, hh);
                        assert(node_kvs(ns2, nv, (height + 1) as nat) == kids_kvs(ns2, re, hh));
                        assert(self.kvs() == target);
                        lemma_submap_trans(ns0, ns2, self.store.pages());
                    }
                },
                Err(_) => {
                    proof {
                        lemma_subtree_frame(ns0, ns2, old(self).root, hh);
                    }
                    return Err(BTreeError::PageStoreFailure);
                },
            }
        }
        let ghost ns_commit = self.store.pages();
        let ghost new_root = self.root;
        let ghost new_h = self.height as nat;
        proof {
            assert(new_root != 0 ==> subtree_wf(ns_commit, new_root, new_h) && subtree_kvs(
                ns_commit,
                new_root,
                new_h,
            ) == target);
            assert(new_root == 0 ==> target =~= Map::<Seq<u8>, Seq<u8>>::empty());
            assert(ns0.submap_of(ns_commit));
        }
        let mut fi: usize = 0;
        while fi < superseded.len()
            invariant
                self.store.pages() == ns_commit,
                self.root == new_root,
                self.height as nat == new_h,
                ns0.submap_of(ns_commit),
                new_root != 0 ==> subtree_wf(ns_commit, new_root, new_h) && subtree_kvs(
                    ns_commit,
                    new_root,
                    new_h,
                ) == target,
                new_root == 0 ==> target == Map::<Seq<u8>, Seq<u8>>::empty(),
            decreases superseded@.len() - fi,
        {
            self.store.free(superseded[fi]);
            fi = fi + 1;
        }
        Ok(true)
    }
}

/// Descends from page `p` of height `h` to the leaf responsible for
/// `key` and reads its slot.
fn lookup_at<S: PageStore>(store: &S, p: u64, h: u64, key: &Vec<u8>) -> (r: Result<
    Option<Vec<u8>>,
    BTreeError,
>)
    requires
        subtree_wf(store.pages(), p, h as nat),
    ensures
        r matches Ok(Some(v)) ==> subtree_kvs(store.pages(), p, h as nat).contains_key(key@)
            && v@ == subtree_kvs(store.pages(), p, h as nat)[key@],
        r matches Ok(None) ==> !subtree_kvs(store.pages(), p, h as nat).contains_key(key@),
        r matches Err(e) ==> e == BTreeError::PageStoreFailure,
    decreases h,
{
    let ghost ns = store.pages();
    let n = match store.get(p) {
        Ok(n) => n,
        Err(_) => {
            return Err(BTreeError::PageStoreFailure);
        },
    };
    if h == 0 {
        match find_key_index(&n, key) {
            Some(i) => {
                proof {
                    lemma_entries_kvs_val(ns[p].entries, i as int);
                }
                Ok(Some(clone_bytes(&n.entries[i].val)))
            },
            None => {
                proof {
                    lemma_entries_kvs_at(ns[p].entries, key@);
                    if subtree_kvs(ns, p, h as nat).contains_key(key@) {
                        let j = choose|j: int|
                            0 <= j < ns[p].entries.len() && (#[trigger] ns[p].entries[j]).key
                                == key@;
                        assert(false);
                    }
                }
                Ok(None)
            },
        }
    } else {
        let i = find_child_index(&n, key);
        proof {
            lemma_descend(ns, p, h as nat, key@, i as int);
        }
        lookup_at(store, n.entries[i].ptr, h - 1, key)
    }
}

/// Copies the slot run `src[from .. to]` onto the end of `dst`.
fn push_entry_range(dst: &mut Vec<Entry>, src: &Node, from: usize, to: usize)
    requires
        from <= to <= src@.entries.len(),
    ensures
        final(dst)@.len() == old(dst)@.len() + (to - from),
        forall|m: int|
            0 <= m < old(dst)@.len() ==> (#[trigger] final(dst)@[m]) == old(dst)@[m],
        forall|m: int|
            old(dst)@.len() <= m < final(dst)@.len() ==> (#[trigger] final(dst)@[m])@
                == src@.entries[from + (m - old(dst)@.len())],
{
    let more = clone_entry_range(&src.entries, from, to);
    let mut m: usize = 0;
    let mlen = more.len();
    while m < mlen
        invariant
            m <= mlen,
            mlen == to - from,
            from <= to <= src@.entries.len(),
            more@.len() == mlen,
            more@.map_values(|e: Entry| e@) == src@.entries.subrange(from as int, to as int),
            dst@.len() == old(dst)@.len() + m,
            forall|t: int| 0 <= t < old(dst)@.len() ==> (#[trigger] dst@[t]) == old(dst)@[t],
            forall|t: int|
                old(dst)@.len() <= t < dst@.len() ==> (#[trigger] dst@[t])@ == src@.entries[from
                    + (t - old(dst)@.len())],
        decreases mlen - m,
    {
        let e2 = crate::node::clone_entry(&more[m]);
        proof {
            assert(e2@ == more@.map_values(|e: Entry| e@)[m as int]);
            assert(e2@ == src@.entries[from + m]);
        }
        dst.push(e2);
        m = m + 1;
    }
}

/// The slot sequence produced by inserting `(key, val)` into the sorted
/// leaf slots `es`: the slots before position `j`, the new pair, and the
/// slots from `ts` on.
pub open spec fn spliced(es: Seq<EntryV>, j: int, ts: int, e: EntryV) -> Seq<EntryV> {
    es.subrange(0, j) + seq![e] + es.subrange(ts, es.len() as int)
}

/// Builds the copy of leaf `n` with `(key, val)` inserted at its sorted
/// position, overwriting an equal key.
#[verifier::rlimit(100)]
fn leaf_insert(n: &Node, key: &Vec<u8>, val: &Vec<u8>) -> (r: Node)
    requires
        node_wf(n@),
        n@.kind == KIND_LEAF,
        node_size(n@) <= PAGE_SIZE as int,
        key@.len() <= MAX_KEY_SIZE,
        val@.len() <= MAX_VAL_SIZE,
    ensures
        node_wf(r@),
        r@.kind == KIND_LEAF,
        r@.entries.len() >= 1,
        r@.entries.len() <= n@.entries.len() + 1,
        entries_kvs(r@.entries) == entries_kvs(n@.entries).insert(key@, val@),
        node_size(r@) <= node_size(n@) + 14 + MAX_KEY_SIZE as int + MAX_VAL_SIZE as int,
{
    let ghost es = n@.entries;
    let cnt = n.entries.len();
    let mut j: usize = 0;
    while j < cnt && key_lt(&n.entries[j].key, key)
        invariant
            j <= cnt,
            cnt == es.len(),
            es == n@.entries,
            forall|m: int| 0 <= m < j ==> lex_lt((#[trigger] es[m]).key, key@),
        decreases cnt - j,
    {
        j = j + 1;
    }
    let replace = j < cnt && key_eq(&n.entries[j].key, key);
    let ts = if replace {
        j + 1
    } else {
        j
    };
    let ghost new_e = EntryV { key: key@, val: val@, ptr: 0 };
    let mut entries: Vec<Entry> = Vec::new();
    push_entry_range(&mut entries, n, 0, j);
    let ghost s1 = entries@;
    let mid = Entry { key: clone_bytes(key), val: clone_bytes(val), ptr: 0 };
    proof {
        assert(mid@ == new_e);
    }
    entries.push(mid);
    let ghost s2 = entries@;
    push_entry_range(&mut entries, n, ts, cnt);
    let r = Node { kind: n.kind, entries };
    proof {
        let newes = r@.entries;
        let sp = spliced(es, j as int, ts as int, new_e);
        assert(s2 == s1.push(mid));
        assert forall|t: int| 0 <= t < newes.len() implies newes[t] == sp[t] by {
            assert(newes[t] == entries@[t]@);
            if t < j {
                assert(entries@[t] == s2[t]);
                assert(s2[t] == s1[t]);
                assert(s1[t]@ == es[t]);
            } else if t == j {
                assert(entries@[t] == s2[t]);
                assert(s2[t] == mid);
            } else {
                assert(entries@[s2.len() + (t - j - 1)]@ == es[ts + (t - j - 1)]);
            }
        }
        assert(newes =~= sp);
        crate::node::lemma_recs_size_nonneg(es);
        assert forall|t: int| 0 <= t < newes.len() implies entry_ok(#[trigger] newes[t]) by {
            if t < j {
                assert(entry_ok(es[t]));
            } else if t > j {
                assert(entry_ok(es[ts + (t - j - 1)]));
            }
        }
        // Keys after the splice point come after the new key.
        assert forall|m: int| ts <= m < cnt implies lex_lt(key@, (#[trigger] es[m]).key) by {
            if replace {
                if m > j {
                    assert(lex_lt(es[j as int].key, es[m].key));
                }
            } else {
                lemma_lex_trichotomy(es[j as int].key, key@);
                if m > j {
                    assert(lex_lt(es[j as int].key, es[m].key));
                    lemma_lex_trans(key@, es[j as int].key, es[m].key);
                }
            }
        }
        // Sortedness of the spliced run.
        assert forall|p: int, q: int| 0 <= p < q < newes.len() implies lex_lt(
            (#[trigger] newes[p]).key,
            (#[trigger] newes[q]).key,
        ) by {
            let jj = j as int;
            let shift = ts - (jj + 1);
            if p < jj && q < jj {
                assert(lex_lt(es[p].key, es[q].key));
            } else if p < jj && q == jj {
                assert(lex_lt(es[p].key, key@));
            } else if p < jj && q > jj {
                assert(lex_lt(es[p].key, es[q + shift].key));
            } else if p == jj {
                assert(newes[q] == es[q + shift]);
                assert(lex_lt(key@, es[q + shift].key));
            } else {
                assert(lex_lt(es[p + shift].key, es[q + shift].key));
            }
        }
        // The spliced run stores the inserted map.
        assert forall|x: Seq<u8>| true implies entries_kvs(newes).contains_key(x) == entries_kvs(
            es,
        ).insert(key@, val@).contains_key(x) by {
            lemma_entries_kvs_at(newes, x);
            lemma_entries_kvs_at(es, x);
            if x == key@ {
                assert(newes[j as int].key == x);
            } else {
                if entries_kvs(newes).contains_key(x) {
                    let m = choose|m: int| 0 <= m < newes.len() && (#[trigger] newes[m]).key == x;
                    if m < j {
                        assert(es[m].key == x);
                    } else {
                        assert(m != j);
                        assert(es[m + (ts - j - 1)].key == x);
                    }
                }
                if entries_kvs(es).contains_key(x) {
                    let m = choose|m: int| 0 <= m < es.len() && (#[trigger] es[m]).key == x;
                    if m < j {
                        assert(newes[m].key == x);
                    } else {
                        assert(m >= ts) by {
                            if replace && m == j {
                                assert(es[m].key == key@);
                            }
                            if !replace && m == j {
                                lemma_lex_trichotomy(es[j as int].key, key@);
                            }
                        }
                        assert(newes[m - (ts - j - 1)].key == x);
                    }
                }
            }
        }
        assert forall|x: Seq<u8>|
            entries_kvs(newes).contains_key(x) && entries_kvs(es).insert(
                key@,
                val@,
            ).contains_key(x) implies entries_kvs(newes)[x] == entries_kvs(es).insert(
            key@,
            val@,
        )[x] by {
            if x == key@ {
                lemma_entries_kvs_val(newes, j as int);
            } else {
                lemma_entries_kvs_at(newes, x);
                let m = choose|m: int| 0 <= m < newes.len() && (#[trigger] newes[m]).key == x;
                lemma_entries_kvs_val(newes, m);
                if m < j {
                    lemma_entries_kvs_val(es, m);
                } else {
                    lemma_entries_kvs_val(es, m + (ts - j - 1));
                }
            }
        }
        assert(entries_kvs(newes) =~= entries_kvs(es).insert(key@, val@));
        // Size accounting.
        assert(es =~= es.subrange(0, ts as int) + es.subrange(ts as int, cnt as int));
        crate::node::lemma_recs_size_add(
            es.subrange(0, ts as int),
            es.subrange(ts as int, cnt as int),
        );
        assert(es.subrange(0, ts as int) =~= es.subrange(0, j as int) + es.subrange(
            j as int,
            ts as int,
        ));
        crate::node::lemma_recs_size_add(
            es.subrange(0, j as int),
            es.subrange(j as int, ts as int),
        );
        crate::node::lemma_recs_size_nonneg(es.subrange(j as int, ts as int));
        assert(newes =~= (es.subrange(0, j as int) + seq![new_e]) + es.subrange(
            ts as int,
            cnt as int,
        ));
        crate::node::lemma_recs_size_add(
            es.subrange(0, j as int) + seq![new_e],
            es.subrange(ts as int, cnt as int),
        );
        crate::node::lemma_recs_size_add(es.subrange(0, j as int), seq![new_e]);
        crate::node::lemma_recs_size_singleton(new_e);
        assert(node_wf(r@));
    }
    r
}

/// A chain of adjacent key comparisons reaches any later slot.
proof fn lemma_lex_chain(es: Seq<EntryV>, p: int, q: int)
    requires
        forall|t: int| 0 <= t < es.len() - 1 ==> lex_lt((#[trigger] es[t]).key, es[t + 1].key),
        0 <= p < q < es.len(),
    ensures
        lex_lt(es[p].key, es[q].key),
    decreases q - p,
{
    if q > p + 1 {
        lemma_lex_chain(es, p, q - 1);
        lemma_lex_trans(es[p].key, es[q - 1].key, es[q].key);
    }
}

/// Slots ascending pairwise when ascending between neighbours.
proof fn lemma_adjacent_sorted(es: Seq<EntryV>)
    requires
        forall|t: int| 0 <= t < es.len() - 1 ==> lex_lt((#[trigger] es[t]).key, es[t + 1].key),
    ensures
        entries_sorted(es),
{
    assert forall|p: int, q: int| 0 <= p < q < es.len() implies lex_lt(
        (#[trigger] es[p]).key,
        (#[trigger] es[q]).key,
    ) by {
        lemma_lex_chain(es, p, q);
    }
}

/// Record bytes of a run of value-less slots with bounded keys.
proof fn lemma_recs_size_bound(es: Seq<EntryV>)
    requires
        forall|t: int|
            0 <= t < es.len() ==> (#[trigger] es[t]).key.len() <= MAX_KEY_SIZE && es[t].val.len()
                == 0,
    ensures
        crate::node::recs_size(es) <= es.len() * (4 + MAX_KEY_SIZE),
    decreases es.len(),
{
    if es.len() > 0 {
        assert forall|t: int| 0 <= t < es.drop_last().len() implies (#[trigger] es.drop_last()[t])
            .key.len() <= MAX_KEY_SIZE && es.drop_last()[t].val.len() == 0 by {
            assert(es[t].key.len() <= MAX_KEY_SIZE && es[t].val.len() == 0);
        }
        lemma_recs_size_bound(es.drop_last());
    }
}

/// Replacing slot `i`'s child by the rebuilt parts keeps the slot run
/// sound and turns the node's contents into the inserted map.
#[verifier::rlimit(100)]
#[verifier::spinoff_prover]
proof fn lemma_insert_rebuild(
    ns0: Map<u64, NodeV>,
    ns2: Map<u64, NodeV>,
    es: Seq<EntryV>,
    hc: nat,
    i: int,
    rs: Seq<ChildRefV>,
    newes: Seq<EntryV>,
    key: Seq<u8>,
    val: Seq<u8>,
)
    requires
        slots_ok(ns0, es, hc),
        entries_sorted(es),
        forall|t: int| 0 <= t < es.len() ==> entry_ok(#[trigger] es[t]) && es[t].val.len() == 0,
        0 <= i < es.len(),
        ns0.submap_of(ns2),
        parts_ok(ns2, hc, rs, subtree_kvs(ns0, es[i].ptr, hc).insert(key, val)),
        forall|j: int| i < j < es.len() ==> lex_lt(key, (#[trigger] es[j]).key),
        i > 0 ==> lex_le(es[i].key, key),
        key.len() <= MAX_KEY_SIZE,
        newes == es.take(i) + refs_entries(rs) + es.skip(i + 1),
    ensures
        slots_ok(ns2, newes, hc),
        entries_sorted(newes),
        forall|t: int|
            0 <= t < newes.len() ==> (#[trigger] newes[t]).key.len() <= MAX_KEY_SIZE
                && newes[t].val.len() == 0,
        kids_kvs(ns2, newes, hc) == kids_kvs(ns0, es, hc).insert(key, val),
        newes.len() == es.len() + rs.len() - 1,
{
    let rl = rs.len() as int;
    let u = subtree_kvs(ns0, es[i].ptr, hc).insert(key, val);
    let re = refs_entries(rs);
    lemma_kids_frame(ns0, ns2, es, hc);
    // Indexing of the rebuilt run.
    assert(newes.len() == es.len() + rl - 1);
    assert forall|t: int| 0 <= t < newes.len() implies (#[trigger] newes[t]) == (if t < i {
        es[t]
    } else if t < i + rl {
        re[t - i]
    } else {
        es[t - rl + 1]
    }) by {}
    assert forall|j: int| 0 <= j < rl implies (#[trigger] re[j]).key == rs[j].key && re[j].ptr
        == rs[j].ptr && re[j].val.len() == 0 by {}
    // Keys of the replacement parts sit in the inserted child map.
    assert forall|j: int| 0 <= j < rl implies u.contains_key((#[trigger] rs[j]).key) && forall|
        x: Seq<u8>,
    |
        #[trigger] subtree_kvs(ns2, rs[j].ptr, hc).contains_key(x) ==> u.contains_key(x) by {
        assert forall|x: Seq<u8>| #[trigger] subtree_kvs(ns2, rs[j].ptr, hc).contains_key(
            x,
        ) implies u.contains_key(x) by {
            lemma_kids_kvs_at(ns2, re, hc, x);
            assert(subtree_kvs(ns2, re[j].ptr, hc).contains_key(x));
        }
        assert(subtree_kvs(ns2, rs[j].ptr, hc).contains_key(rs[j].key));
    }
    // Everything in the inserted child map respects the old slot gap.
    assert forall|x: Seq<u8>| #[trigger] u.contains_key(x) implies (i > 0 ==> lex_le(
        es[i].key,
        x,
    )) && (i + 1 < es.len() ==> lex_lt(x, es[i + 1].key)) by {
        if x != key {
            assert(subtree_kvs(ns0, es[i].ptr, hc).contains_key(x));
        }
    }
    // Soundness of every new slot.
    assert forall|t: int| 0 <= t < newes.len() implies subtree_wf(
        ns2,
        (#[trigger] newes[t]).ptr,
        hc,
    ) && subtree_kvs(ns2, newes[t].ptr, hc).contains_key(newes[t].key) by {
        if t < i {
            assert(subtree_wf(ns2, es[t].ptr, hc));
            assert(subtree_kvs(ns0, es[t].ptr, hc).contains_key(es[t].key));
        } else if t < i + rl {
            assert(subtree_wf(ns2, rs[t - i].ptr, hc));
        } else {
            assert(subtree_wf(ns2, es[t - rl + 1].ptr, hc));
            assert(subtree_kvs(ns0, es[t - rl + 1].ptr, hc).contains_key(es[t - rl + 1].key));
        }
    }
    // Bounds of every new slot.
    assert forall|t: int, x: Seq<u8>|
        0 <= t < newes.len() && #[trigger] subtree_kvs(ns2, newes[t].ptr, hc).contains_key(
            x,
        ) implies lex_le(newes[t].key, x) && (t + 1 < newes.len() ==> lex_lt(
        x,
        newes[t + 1].key,
    )) by {
        if t < i {
            assert(subtree_kvs(ns0, es[t].ptr, hc).contains_key(x));
            assert(lex_le(es[t].key, x));
            if t + 1 < newes.len() {
                if t + 1 < i {
                    assert(lex_lt(x, es[t + 1].key));
                } else {
                    // The next slot is the first replacement part.
                    assert(lex_lt(x, es[i].key));
                    assert(u.contains_key(rs[0].key));
                    assert(i > 0);
                    assert(lex_le(es[i].key, rs[0].key));
                    lemma_lex_lt_le_trans(x, es[i].key, rs[0].key);
                    assert(newes[t + 1].key == rs[0].key);
                }
            }
        } else if t < i + rl {
            let j = t - i;
            assert(subtree_kvs(ns2, rs[j].ptr, hc).contains_key(x));
            assert(lex_le(rs[j].key, x));
            if t + 1 < newes.len() {
                if j + 1 < rl {
                    assert(lex_lt(x, rs[j + 1].key));
                } else {
                    assert(u.contains_key(x));
                    assert(i + 1 < es.len());
                    assert(lex_lt(x, es[i + 1].key));
                }
            }
        } else {
            let jj = t - rl + 1;
            assert(subtree_kvs(ns0, es[jj].ptr, hc).contains_key(x));
            assert(lex_le(es[jj].key, x));
            if t + 1 < newes.len() {
                assert(lex_lt(x, es[jj + 1].key));
            }
        }
    }
    assert(slots_ok(ns2, newes, hc));
    // Keys and values of the new slots stay bounded; keys ascend.
    assert forall|t: int| 0 <= t < newes.len() implies (#[trigger] newes[t]).key.len()
        <= MAX_KEY_SIZE && newes[t].val.len() == 0 by {
        if i <= t < i + rl {
            lemma_subtree_bounds(ns2, rs[t - i].ptr, hc);
            assert(subtree_kvs(ns2, rs[t - i].ptr, hc).contains_key(rs[t - i].key));
        }
    }
    assert forall|t: int| 0 <= t < newes.len() - 1 implies lex_lt(
        (#[trigger] newes[t]).key,
        newes[t + 1].key,
    ) by {
        assert(subtree_kvs(ns2, newes[t].ptr, hc).contains_key(newes[t].key));
    }
    lemma_adjacent_sorted(newes);
    // The contents are the old contents with the pair inserted.
    let lhs = kids_kvs(ns2, newes, hc);
    let rhs = kids_kvs(ns0, es, hc).insert(key, val);
    assert forall|x: Seq<u8>| true implies lhs.contains_key(x) == rhs.contains_key(x) by {
        lemma_kids_kvs_at(ns2, newes, hc, x);
        lemma_kids_kvs_at(ns0, es, hc, x);
        lemma_kids_kvs_at(ns2, re, hc, x);
        if lhs.contains_key(x) {
            let t = choose|t: int|
                0 <= t < newes.len() && #[trigger] subtree_kvs(ns2, newes[t].ptr, hc).contains_key(
                    x,
                );
            if t < i {
                assert(subtree_kvs(ns0, es[t].ptr, hc).contains_key(x));
            } else if t < i + rl {
                assert(subtree_kvs(ns2, rs[t - i].ptr, hc).contains_key(x));
                assert(u.contains_key(x));
                if x != key {
                    assert(subtree_kvs(ns0, es[i].ptr, hc).contains_key(x));
                }
            } else {
                assert(subtree_kvs(ns0, es[t - rl + 1].ptr, hc).contains_key(x));
            }
        }
        if rhs.contains_key(x) {
            if x == key {
                assert(u.contains_key(x));
                let j = choose|j: int|
                    0 <= j < re.len() && #[trigger] subtree_kvs(ns2, re[j].ptr, hc).contains_key(
                        x,
                    );
                assert(subtree_kvs(ns2, newes[i + j].ptr, hc).contains_key(x));
            } else {
                let jj = choose|jj: int|
                    0 <= jj < es.len() && #[trigger] subtree_kvs(ns0, es[jj].ptr, hc).contains_key(
                        x,
                    );
                if jj == i {
                    assert(u.contains_key(x));
                    let j = choose|j: int|
                        0 <= j < re.len() && #[trigger] subtree_kvs(ns2, re[j].ptr, hc)
                            .contains_key(x);
                    assert(subtree_kvs(ns2, newes[i + j].ptr, hc).contains_key(x));
                } else if jj < i {
                    assert(subtree_kvs(ns2, newes[jj].ptr, hc).contains_key(x));
                } else {
                    assert(subtree_kvs(ns2, newes[jj + rl - 1].ptr, hc).contains_key(x));
                }
            }
        }
    }
    assert forall|x: Seq<u8>| lhs.contains_key(x) && rhs.contains_key(x) implies lhs[x]
        == rhs[x] by {
        lemma_kids_kvs_at(ns2, newes, hc, x);
        lemma_kids_kvs_at(ns0, es, hc, x);
        lemma_kids_kvs_at(ns2, re, hc, x);
        let t = choose|t: int|
            0 <= t < newes.len() && #[trigger] subtree_kvs(ns2, newes[t].ptr, hc).contains_key(x);
        assert forall|t2: int| t < t2 < newes.len() implies !(#[trigger] subtree_kvs(
            ns2,
            newes[t2].ptr,
            hc,
        ).contains_key(x)) by {
            lemma_slots_disjoint(ns2, newes, hc, t, t2, x);
        }
        assert(lhs[x] == subtree_kvs(ns2, newes[t].ptr, hc)[x]);
        if t < i || t >= i + rl {
            let jj = if t < i {
                t
            } else {
                t - rl + 1
            };
            assert(jj != i);
            assert(subtree_kvs(ns0, es[jj].ptr, hc).contains_key(x));
            assert(x != key) by {
                if x == key {
                    if jj < i {
                        assert(lex_lt(x, es[jj + 1].key));
                        if jj + 1 < i {
                            assert(lex_lt(es[jj + 1].key, es[i].key));
                            lemma_lex_trans(x, es[jj + 1].key, es[i].key);
                        }
                        assert(lex_lt(key, es[i].key));
                        assert(i > 0 ==> lex_le(es[i].key, key));
                        lemma_lex_lt_le_trans(key, es[i].key, key);
                        lemma_lex_irrefl(key);
                    } else {
                        assert(lex_le(es[jj].key, x));
                        assert(lex_lt(key, es[jj].key));
                        lemma_lex_lt_le_trans(key, es[jj].key, key);
                        lemma_lex_irrefl(key);
                    }
                }
            }
            assert forall|j2: int| jj < j2 < es.len() implies !(#[trigger] subtree_kvs(
                ns0,
                es[j2].ptr,
                hc,
            ).contains_key(x)) by {
                lemma_slots_disjoint(ns0, es, hc, jj, j2, x);
            }
            assert(kids_kvs(ns0, es, hc)[x] == subtree_kvs(ns0, es[jj].ptr, hc)[x]);
            assert(lhs[x] == subtree_kvs(ns2, newes[t].ptr, hc)[x]);
            assert(rhs[x] == subtree_kvs(ns0, es[jj].ptr, hc)[x]);
        } else {
            let j = t - i;
            assert(subtree_kvs(ns2, rs[j].ptr, hc).contains_key(x));
            assert forall|j2: int| j < j2 < re.len() implies !(#[trigger] subtree_kvs(
                ns2,
                re[j2].ptr,
                hc,
            ).contains_key(x)) by {
                lemma_slots_disjoint(ns2, newes, hc, i + j, i + j2, x);
                assert(newes[i + j2].ptr == re[j2].ptr);
            }
            assert(u[x] == subtree_kvs(ns2, re[j].ptr, hc)[x]);
            assert(lhs[x] == subtree_kvs(ns2, newes[t].ptr, hc)[x]);
            if x == key {
                assert(rhs[x] == val);
                assert(u[x] == val);
            } else {
                assert(subtree_kvs(ns0, es[i].ptr, hc).contains_key(x));
                assert(u[x] == subtree_kvs(ns0, es[i].ptr, hc)[x]);
                assert forall|j2: int| i < j2 < es.len() implies !(#[trigger] subtree_kvs(
                    ns0,
                    es[j2].ptr,
                    hc,
                ).contains_key(x)) by {
                    lemma_slots_disjoint(ns0, es, hc, i, j2, x);
                }
                assert(rhs[x] == subtree_kvs(ns0, es[i].ptr, hc)[x]);
            }
        }
    }
    assert(lhs =~= rhs);
}

/// Replacing slot `i`'s child by the parts left after a removal keeps
/// the slot run sound and removes the key from the node's contents.
#[verifier::rlimit(100)]
#[verifier::spinoff_prover]
proof fn lemma_delete_rebuild(
    ns0: Map<u64, NodeV>,
    ns2: Map<u64, NodeV>,
    es: Seq<EntryV>,
    hc: nat,
    i: int,
    rs: Seq<ChildRefV>,
    newes: Seq<EntryV>,
    key: Seq<u8>,
)
    requires
        slots_ok(ns0, es, hc),
        entries_sorted(es),
        forall|t: int| 0 <= t < es.len() ==> entry_ok(#[trigger] es[t]) && es[t].val.len() == 0,
        0 <= i < es.len(),
        ns0.submap_of(ns2),
        parts_ok(ns2, hc, rs, subtree_kvs(ns0, es[i].ptr, hc).remove(key)),
        forall|j: int| i < j < es.len() ==> lex_lt(key, (#[trigger] es[j]).key),
        i > 0 ==> lex_le(es[i].key, key),
        newes == es.take(i) + refs_entries(rs) + es.skip(i + 1),
    ensures
        slots_ok(ns2, newes, hc),
        entries_sorted(newes),
        forall|t: int|
            0 <= t < newes.len() ==> (#[trigger] newes[t]).key.len() <= MAX_KEY_SIZE
                && newes[t].val.len() == 0,
        kids_kvs(ns2, newes, hc) == kids_kvs(ns0, es, hc).remove(key),
        newes.len() == es.len() + rs.len() - 1,
{
    let rl = rs.len() as int;
    let u = subtree_kvs(ns0, es[i].ptr, hc).remove(key);
    let re = refs_entries(rs);
    lemma_kids_frame(ns0, ns2, es, hc);
    assert(newes.len() == es.len() + rl - 1);
    assert forall|t: int| 0 <= t < newes.len() implies (#[trigger] newes[t]) == (if t < i {
        es[t]
    } else if t < i + rl {
        re[t - i]
    } else {
        es[t - rl + 1]
    }) by {}
    assert forall|j: int| 0 <= j < rl implies (#[trigger] re[j]).key == rs[j].key && re[j].ptr
        == rs[j].ptr && re[j].val.len() == 0 by {}
    assert forall|j: int| 0 <= j < rl implies u.contains_key((#[trigger] rs[j]).key) && forall|
        x: Seq<u8>,
    |
        #[trigger] subtree_kvs(ns2, rs[j].ptr, hc).contains_key(x) ==> u.contains_key(x) by {
        assert forall|x: Seq<u8>| #[trigger] subtree_kvs(ns2, rs[j].ptr, hc).contains_key(
            x,
        ) implies u.contains_key(x) by {
            lemma_kids_kvs_at(ns2, re, hc, x);
            assert(subtree_kvs(ns2, re[j].ptr, hc).contains_key(x));
        }
        assert(subtree_kvs(ns2, rs[j].ptr, hc).contains_key(rs[j].key));
    }
    assert forall|x: Seq<u8>| #[trigger] u.contains_key(x) implies (i > 0 ==> lex_le(
        es[i].key,
        x,
    )) && (i + 1 < es.len() ==> lex_lt(x, es[i + 1].key)) by {
        assert(subtree_kvs(ns0, es[i].ptr, hc).contains_key(x));
    }
    assert forall|t: int| 0 <= t < newes.len() implies subtree_wf(
        ns2,
        (#[trigger] newes[t]).ptr,
        hc,
    ) && subtree_kvs(ns2, newes[t].ptr, hc).contains_key(newes[t].key) by {
        if t < i {
            assert(subtree_wf(ns2, es[t].ptr, hc));
            assert(subtree_kvs(ns0, es[t].ptr, hc).contains_key(es[t].key));
        } else if t < i + rl {
            assert(subtree_wf(ns2, rs[t - i].ptr, hc));
        } else {
            assert(subtree_wf(ns2, es[t - rl + 1].ptr, hc));
            assert(subtree_kvs(ns0, es[t - rl + 1].ptr, hc).contains_key(es[t - rl + 1].key));
        }
    }
    assert forall|t: int, x: Seq<u8>|
        0 <= t < newes.len() && #[trigger] subtree_kvs(ns2, newes[t].ptr, hc).contains_key(
            x,
        ) implies lex_le(newes[t].key, x) && (t + 1 < newes.len() ==> lex_lt(
        x,
        newes[t + 1].key,
    )) by {
        if t < i {
            assert(subtree_kvs(ns0, es[t].ptr, hc).contains_key(x));
            assert(lex_le(es[t].key, x));
            if t + 1 < newes.len() {
                if t + 1 < i {
                    assert(lex_lt(x, es[t + 1].key));
                } else {
                    assert(lex_lt(x, es[i].key));
                    assert(u.contains_key(rs[0].key));
                    assert(i > 0);
                    assert(lex_le(es[i].key, rs[0].key));
                    lemma_lex_lt_le_trans(x, es[i].key, rs[0].key);
                    assert(newes[t + 1].key == rs[0].key);
                }
            }
        } else if t < i + rl {
            let j = t - i;
            assert(subtree_kvs(ns2, rs[j].ptr, hc).contains_key(x));
            assert(lex_le(rs[j].key, x));
            if t + 1 < newes.len() {
                if j + 1 < rl {
                    assert(lex_lt(x, rs[j + 1].key));
                } else {
                    assert(u.contains_key(x));
                    assert(i + 1 < es.len());
                    assert(lex_lt(x, es[i + 1].key));
                }
            }
        } else {
            let jj = t - rl + 1;
            assert(subtree_kvs(ns0, es[jj].ptr, hc).contains_key(x));
            assert(lex_le(es[jj].key, x));
            if t + 1 < newes.len() {
                assert(lex_lt(x, es[jj + 1].key));
            }
        }
    }
    assert(slots_ok(ns2, newes, hc));
    assert forall|t: int| 0 <= t < newes.len() implies (#[trigger] newes[t]).key.len()
        <= MAX_KEY_SIZE && newes[t].val.len() == 0 by {
        if i <= t < i + rl {
            lemma_subtree_bounds(ns2, rs[t - i].ptr, hc);
            assert(subtree_kvs(ns2, rs[t - i].ptr, hc).contains_key(rs[t - i].key));
        }
    }
    assert forall|t: int| 0 <= t < newes.len() - 1 implies lex_lt(
        (#[trigger] newes[t]).key,
        newes[t + 1].key,
    ) by {
        assert(subtree_kvs(ns2, newes[t].ptr, hc).contains_key(newes[t].key));
    }
    lemma_adjacent_sorted(newes);
    let lhs = kids_kvs(ns2, newes, hc);
    let rhs = kids_kvs(ns0, es, hc).remove(key);
    assert forall|x: Seq<u8>| true implies lhs.contains_key(x) == rhs.contains_key(x) by {
        lemma_kids_kvs_at(ns2, newes, hc, x);
        lemma_kids_kvs_at(ns0, es, hc, x);
        lemma_kids_kvs_at(ns2, re, hc, x);
        if lhs.contains_key(x) {
            let t = choose|t: int|
                0 <= t < newes.len() && #[trigger] subtree_kvs(ns2, newes[t].ptr, hc).contains_key(
                    x,
                );
            if t < i {
                assert(subtree_kvs(ns0, es[t].ptr, hc).contains_key(x));
                assert(x != key) by {
                    if x == key {
                        assert(lex_lt(x, es[t + 1].key));
                        if t + 1 < i {
                            assert(lex_lt(es[t + 1].key, es[i].key));
                            lemma_lex_trans(x, es[t + 1].key, es[i].key);
                        }
                        assert(lex_lt(key, es[i].key));
                        assert(lex_le(es[i].key, key));
                        lemma_lex_lt_le_trans(key, es[i].key, key);
                        lemma_lex_irrefl(key);
                    }
                }
            } else if t < i + rl {
                assert(subtree_kvs(ns2, rs[t - i].ptr, hc).contains_key(x));
                assert(u.contains_key(x));
                assert(subtree_kvs(ns0, es[i].ptr, hc).contains_key(x));
                assert(x != key);
            } else {
                let jj = t - rl + 1;
                assert(subtree_kvs(ns0, es[jj].ptr, hc).contains_key(x));
                assert(x != key) by {
                    if x == key {
                        assert(lex_le(es[jj].key, x));
                        assert(lex_lt(key, es[jj].key));
                        lemma_lex_lt_le_trans(key, es[jj].key, key);
                        lemma_lex_irrefl(key);
                    }
                }
            }
        }
        if rhs.contains_key(x) {
            assert(x != key);
            let jj = choose|jj: int|
                0 <= jj < es.len() && #[trigger] subtree_kvs(ns0, es[jj].ptr, hc).contains_key(x);
            if jj == i {
                assert(u.contains_key(x));
                let j = choose|j: int|
                    0 <= j < re.len() && #[trigger] subtree_kvs(ns2, re[j].ptr, hc).contains_key(
                        x,
                    );
                assert(subtree_kvs(ns2, newes[i + j].ptr, hc).contains_key(x));
            } else if jj < i {
                assert(subtree_kvs(ns2, newes[jj].ptr, hc).contains_key(x));
            } else {
                assert(subtree_kvs(ns2, newes[jj + rl - 1].ptr, hc).contains_key(x));
            }
        }
    }
    assert forall|x: Seq<u8>| lhs.contains_key(x) && rhs.contains_key(x) implies lhs[x]
        == rhs[x] by {
        lemma_kids_kvs_at(ns2, newes, hc, x);
        lemma_kids_kvs_at(ns0, es, hc, x);
        lemma_kids_kvs_at(ns2, re, hc, x);
        assert(x != key);
        let t = choose|t: int|
            0 <= t < newes.len() && #[trigger] subtree_kvs(ns2, newes[t].ptr, hc).contains_key(x);
        assert forall|t2: int| t < t2 < newes.len() implies !(#[trigger] subtree_kvs(
            ns2,
            newes[t2].ptr,
            hc,
        ).contains_key(x)) by {
            lemma_slots_disjoint(ns2, newes, hc, t, t2, x);
        }
        assert(lhs[x] == subtree_kvs(ns2, newes[t].ptr, hc)[x]);
        if t < i || t >= i + rl {
            let jj = if t < i {
                t
            } else {
                t - rl + 1
            };
            assert(jj != i);
            assert(subtree_kvs(ns0, es[jj].ptr, hc).contains_key(x));
            assert forall|j2: int| jj < j2 < es.len() implies !(#[trigger] subtree_kvs(
                ns0,
                es[j2].ptr,
                hc,
            ).contains_key(x)) by {
                lemma_slots_disjoint(ns0, es, hc, jj, j2, x);
            }
            assert(kids_kvs(ns0, es, hc)[x] == subtree_kvs(ns0, es[jj].ptr, hc)[x]);
        } else {
            let j = t - i;
            assert(subtree_kvs(ns2, rs[j].ptr, hc).contains_key(x));
            assert forall|j2: int| j < j2 < re.len() implies !(#[trigger] subtree_kvs(
                ns2,
                re[j2].ptr,
                hc,
            ).contains_key(x)) by {
                lemma_slots_disjoint(ns2, newes, hc, i + j, i + j2, x);
                assert(newes[i + j2].ptr == re[j2].ptr);
            }
            assert(u[x] == subtree_kvs(ns2, re[j].ptr, hc)[x]);
            assert(subtree_kvs(ns0, es[i].ptr, hc).contains_key(x));
            assert(u[x] == subtree_kvs(ns0, es[i].ptr, hc)[x]);
            assert forall|j2: int| i < j2 < es.len() implies !(#[trigger] subtree_kvs(
                ns0,
                es[j2].ptr,
                hc,
            ).contains_key(x)) by {
                lemma_slots_disjoint(ns0, es, hc, i, j2, x);
            }
            assert(kids_kvs(ns0, es, hc)[x] == subtree_kvs(ns0, es[i].ptr, hc)[x]);
        }
    }
    assert(lhs =~= rhs);
}

/// Dropping slot `i` keeps the slot run sound; when the dropped child
/// held only `key`, the contents lose exactly that key.
proof fn lemma_drop_slot(
    ns0: Map<u64, NodeV>,
    es: Seq<EntryV>,
    hc: nat,
    i: int,
    newes: Seq<EntryV>,
    key: Seq<u8>,
)
    requires
        slots_ok(ns0, es, hc),
        entries_sorted(es),
        forall|t: int| 0 <= t < es.len() ==> entry_ok(#[trigger] es[t]) && es[t].val.len() == 0,
        0 <= i < es.len(),
        subtree_kvs(ns0, es[i].ptr, hc).remove(key) == Map::<Seq<u8>, Seq<u8>>::empty(),
        newes == es.take(i) + es.skip(i + 1),
    ensures
        slots_ok(ns0, newes, hc),
        entries_sorted(newes),
        forall|t: int|
            0 <= t < newes.len() ==> (#[trigger] newes[t]).key.len() <= MAX_KEY_SIZE
                && newes[t].val.len() == 0,
        kids_kvs(ns0, newes, hc) == kids_kvs(ns0, es, hc).remove(key),
        newes.len() == es.len() - 1,
{
    assert forall|t: int| 0 <= t < newes.len() implies (#[trigger] newes[t]) == (if t < i {
        es[t]
    } else {
        es[t + 1]
    }) by {}
    assert forall|t: int, x: Seq<u8>|
        0 <= t < newes.len() && #[trigger] subtree_kvs(ns0, newes[t].ptr, hc).contains_key(
            x,
        ) implies lex_le(newes[t].key, x) && (t + 1 < newes.len() ==> lex_lt(
        x,
        newes[t + 1].key,
    )) by {
        let jj = if t < i {
            t
        } else {
            t + 1
        };
        assert(subtree_kvs(ns0, es[jj].ptr, hc).contains_key(x));
        assert(lex_le(es[jj].key, x));
        if t + 1 < newes.len() {
            if t + 1 < i {
                assert(lex_lt(x, es[t + 1].key));
            } else if t + 1 == i {
                assert(lex_lt(x, es[i].key));
                assert(lex_lt(es[i].key, es[i + 1].key));
                lemma_lex_trans(x, es[i].key, es[i + 1].key);
            } else {
                assert(lex_lt(x, es[jj + 1].key));
            }
        }
    }
    assert forall|t: int| 0 <= t < newes.len() implies subtree_wf(
        ns0,
        (#[trigger] newes[t]).ptr,
        hc,
    ) && subtree_kvs(ns0, newes[t].ptr, hc).contains_key(newes[t].key) by {
        let jj = if t < i {
            t
        } else {
            t + 1
        };
        assert(subtree_wf(ns0, es[jj].ptr, hc));
        assert(subtree_kvs(ns0, es[jj].ptr, hc).contains_key(es[jj].key));
    }
    assert(slots_ok(ns0, newes, hc));
    assert forall|t: int| 0 <= t < newes.len() implies entry_ok(#[trigger] newes[t]) && newes[t]
        .val.len() == 0 by {
        let jj = if t < i {
            t
        } else {
            t + 1
        };
        assert(entry_ok(es[jj]) && es[jj].val.len() == 0);
    }
    assert forall|p: int, q: int| 0 <= p < q < newes.len() implies lex_lt(
        (#[trigger] newes[p]).key,
        (#[trigger] newes[q]).key,
    ) by {
        let pp = if p < i {
            p
        } else {
            p + 1
        };
        let qq = if q < i {
            q
        } else {
            q + 1
        };
        assert(lex_lt(es[pp].key, es[qq].key));
    }
    let lhs = kids_kvs(ns0, newes, hc);
    let rhs = kids_kvs(ns0, es, hc).remove(key);
    let ui = subtree_kvs(ns0, es[i].ptr, hc);
    assert forall|x: Seq<u8>| #[trigger] ui.contains_key(x) implies x == key by {
        if x != key {
            assert(ui.remove(key).contains_key(x));
        }
    }
    assert forall|x: Seq<u8>| true implies lhs.contains_key(x) == rhs.contains_key(x) by {
        lemma_kids_kvs_at(ns0, newes, hc, x);
        lemma_kids_kvs_at(ns0, es, hc, x);
        if lhs.contains_key(x) {
            let t = choose|t: int|
                0 <= t < newes.len() && #[trigger] subtree_kvs(ns0, newes[t].ptr, hc).contains_key(
                    x,
                );
            let jj = if t < i {
                t
            } else {
                t + 1
            };
            assert(subtree_kvs(ns0, es[jj].ptr, hc).contains_key(x));
            assert(x != key) by {
                if x == key {
                    lemma_slots_disjoint_either(ns0, es, hc, jj, i, x);
                    assert(ui.contains_key(es[i].key));
                    assert(es[i].key == key);
                    assert(lex_le(es[jj].key, x));
                    if jj < i {
                        assert(lex_lt(x, es[jj + 1].key));
                        if jj + 1 < i {
                            assert(lex_lt(es[jj + 1].key, es[i].key));
                            lemma_lex_trans(x, es[jj + 1].key, es[i].key);
                        }
                        lemma_lex_irrefl(x);
                    } else {
                        assert(lex_lt(es[i].key, es[jj].key));
                        lemma_lex_lt_le_trans(x, es[jj].key, x);
                        lemma_lex_irrefl(x);
                    }
                }
            }
        }
        if rhs.contains_key(x) {
            assert(x != key);
            let jj = choose|jj: int|
                0 <= jj < es.len() && #[trigger] subtree_kvs(ns0, es[jj].ptr, hc).contains_key(x);
            assert(jj != i);
            if jj < i {
                assert(subtree_kvs(ns0, newes[jj].ptr, hc).contains_key(x));
            } else {
                assert(subtree_kvs(ns0, newes[jj - 1].ptr, hc).contains_key(x));
            }
        }
    }
    assert forall|x: Seq<u8>| lhs.contains_key(x) && rhs.contains_key(x) implies lhs[x]
        == rhs[x] by {
        lemma_kids_kvs_at(ns0, newes, hc, x);
        lemma_kids_kvs_at(ns0, es, hc, x);
        let t = choose|t: int|
            0 <= t < newes.len() && #[trigger] subtree_kvs(ns0, newes[t].ptr, hc).contains_key(x);
        assert forall|t2: int| t < t2 < newes.len() implies !(#[trigger] subtree_kvs(
            ns0,
            newes[t2].ptr,
            hc,
        ).contains_key(x)) by {
            lemma_slots_disjoint(ns0, newes, hc, t, t2, x);
        }
        assert(lhs[x] == subtree_kvs(ns0, newes[t].ptr, hc)[x]);
        let jj = if t < i {
            t
        } else {
            t + 1
        };
        assert(subtree_kvs(ns0, es[jj].ptr, hc).contains_key(x));
        assert forall|j2: int| jj < j2 < es.len() implies !(#[trigger] subtree_kvs(
            ns0,
            es[j2].ptr,
            hc,
        ).contains_key(x)) by {
            lemma_slots_disjoint(ns0, es, hc, jj, j2, x);
        }
        assert(kids_kvs(ns0, es, hc)[x] == subtree_kvs(ns0, es[jj].ptr, hc)[x]);
    }
    assert(lhs =~= rhs);
}

/// Two distinct slots cannot both hold a key, whichever order they come
/// in.
proof fn lemma_slots_disjoint_either(
    ns: Map<u64, NodeV>,
    es: Seq<EntryV>,
    hc: nat,
    j1: int,
    j2: int,
    x: Seq<u8>,
)
    requires
        slots_ok(ns, es, hc),
        entries_sorted(es),
        0 <= j1 < es.len(),
        0 <= j2 < es.len(),
        j1 != j2,
        subtree_kvs(ns, es[j1].ptr, hc).contains_key(x),
    ensures
        !subtree_kvs(ns, es[j2].ptr, hc).contains_key(x),
{
    if j1 < j2 {
        lemma_slots_disjoint(ns, es, hc, j1, j2, x);
    } else {
        if subtree_kvs(ns, es[j2].ptr, hc).contains_key(x) {
            lemma_slots_disjoint(ns, es, hc, j2, j1, x);
        }
    }
}

/// Allocates `node` as one freshly allocated page and returns its
/// single replacement reference.
#[verifier::rlimit(100)]
fn alloc_single<S: PageStore>(
    store: &mut S,
    node: Node,
    Ghost(h): Ghost<nat>,
    Ghost(ns0): Ghost<Map<u64, NodeV>>,
) -> (r: Result<Vec<ChildRef>, BTreeError>)
    requires
        ns0.submap_of(old(store).pages()),
        node_pre_ok(ns0, node@, h),
        node_size(node@) <= PAGE_SIZE as int,
    ensures
        old(store).pages().submap_of(final(store).pages()),
        r matches Ok(ps) ==> parts_ok(
            final(store).pages(),
            h,
            ps@.map_values(|c: ChildRef| c@),
            node_kvs(ns0, node@, h),
        ),
        r matches Err(e) ==> e == BTreeError::PageStoreFailure,
{
    let ghost nv = node@;
    let sep = clone_bytes(&node.entries[0].key);
    let ghost ns1 = store.pages();
    match store.allocate(node) {
        Ok(np) => {
            proof {
                lemma_submap_insert(ns1, np, nv);
                lemma_submap_trans(ns0, ns1, store.pages());
                lemma_alloc(ns0, store.pages(), nv, np, h);
                lemma_subtree_min(store.pages(), np, h);
            }
            let mut out: Vec<ChildRef> = Vec::new();
            out.push(ChildRef { key: sep, ptr: np });
            proof {
                let rs = out@.map_values(|c: ChildRef| c@);
                assert(rs[0].key == nv.entries[0].key && rs[0].ptr == np);
                let re = refs_entries(rs);
                assert(re.len() == 1);
                assert(re.drop_last() =~= Seq::<EntryV>::empty());
                assert(re.last().ptr == np);
                assert(kids_kvs(store.pages(), re.drop_last(), h) == Map::<
                    Seq<u8>,
                    Seq<u8>,
                >::empty());
                assert(Map::<Seq<u8>, Seq<u8>>::empty().union_prefer_right(
                    subtree_kvs(store.pages(), np, h),
                ) =~= subtree_kvs(store.pages(), np, h));
                assert(kids_kvs(store.pages(), re, h) == subtree_kvs(store.pages(), np, h));
                assert(parts_ok(store.pages(), h, rs, node_kvs(ns0, nv, h)));
            }
            Ok(out)
        },
        Err(_) => Err(BTreeError::PageStoreFailure),
    }
}

/// Allocates the node as one page, or as its split parts, and returns
/// the replacement references in key order.
#[verifier::rlimit(100)]
fn alloc_node_parts<S: PageStore>(
    store: &mut S,
    node: Node,
    Ghost(h): Ghost<nat>,
    Ghost(ns0): Ghost<Map<u64, NodeV>>,
) -> (r: Result<Vec<ChildRef>, BTreeError>)
    requires
        ns0.submap_of(old(store).pages()),
        node_pre_ok(ns0, node@, h),
    ensures
        old(store).pages().submap_of(final(store).pages()),
        r matches Ok(ps) ==> parts_ok(
            final(store).pages(),
            h,
            ps@.map_values(|c: ChildRef| c@),
            node_kvs(ns0, node@, h),
        ),
        r matches Err(e) ==> e == BTreeError::PageStoreFailure,
{
    let ghost nv = node@;
    let ghost es = node@.entries;
    let size = node_used_size(&node);
    if size <= PAGE_SIZE {
        return alloc_single(store, node, Ghost(h), Ghost(ns0));
    }
    let parts = crate::planner::split_node(&node);
    let ghost pviews = parts@.map_values(|q: Node| q@);
    let ghost cuts = choose|cuts: Seq<int>|
        crate::planner::split_cuts_ok(node@.entries, pviews, cuts);
    let ghost ns_start = store.pages();
    let mut out: Vec<ChildRef> = Vec::new();
    let mut k: usize = 0;
    let plen = parts.len();
    while k < plen
        invariant
            k <= plen,
            out@.len() == k,
            plen == pviews.len(),
            1 <= plen <= 3,
            pviews == parts@.map_values(|q: Node| q@),
            nv == node@,
            es == nv.entries,
            node_pre_ok(ns0, nv, h),
            crate::planner::split_cuts_ok(es, pviews, cuts),
            forall|t: int|
                0 <= t < plen ==> (#[trigger] pviews[t]).kind == nv.kind && node_wf(pviews[t])
                    && node_size(pviews[t]) <= PAGE_SIZE as int && pviews[t].entries.len() >= 1,
            ns_start == old(store).pages(),
            ns0.submap_of(ns_start),
            ns_start.submap_of(store.pages()),
            ns0.submap_of(store.pages()),
            forall|j: int|
                0 <= j < k ==> (#[trigger] out@[j])@.ptr != 0 && subtree_wf(
                    store.pages(),
                    out@[j]@.ptr,
                    h,
                ) && subtree_kvs(store.pages(), out@[j]@.ptr, h) == node_kvs(
                    ns0,
                    pviews[j],
                    h,
                ) && out@[j]@.key == pviews[j].entries[0].key && subtree_kvs(
                    store.pages(),
                    out@[j]@.ptr,
                    h,
                ).contains_key(out@[j]@.key),
            forall|j: int, x: Seq<u8>|
                0 <= j < k && #[trigger] subtree_kvs(store.pages(), out@[j]@.ptr, h).contains_key(
                    x,
                ) ==> lex_le(out@[j]@.key, x) && (cuts[j + 1] < es.len() ==> lex_lt(
                    x,
                    es[cuts[j + 1]].key,
                )),
            kids_kvs(store.pages(), refs_entries(out@.map_values(|c: ChildRef| c@)), h) == (
            if h == 0 {
                entries_kvs(es.take(cuts[k as int]))
            } else {
                kids_kvs(ns0, es.take(cuts[k as int]), (h - 1) as nat)
            }),
        decreases plen - k,
    {
        let part = clone_node(&parts[k]);
        let ghost pv = pviews[k as int];
        proof {
            assert(part@ == parts@[k as int]@);
            assert(pv == part@);
            assert(pv.entries == es.subrange(cuts[k as int], cuts[k as int + 1]));
            lemma_part_pre_ok(ns0, nv, pv, cuts[k as int], cuts[k as int + 1], h);
        }
        let sep = clone_bytes(&part.entries[0].key);
        let ghost ns_before = store.pages();
        let ghost out_before = out@;
        let np = match store.allocate(part) {
            Ok(np) => np,
            Err(_) => {
                proof {
                    lemma_submap_trans(ns_start, ns_before, store.pages());
                }
                return Err(BTreeError::PageStoreFailure);
            },
        };
        proof {
            lemma_submap_insert(ns_before, np, pv);
            lemma_submap_trans(ns_start, ns_before, store.pages());
            lemma_submap_trans(ns0, ns_start, store.pages());
            assert forall|j: int| 0 <= j < k implies subtree_wf(
                store.pages(),
                (#[trigger] out_before[j])@.ptr,
                h,
            ) && subtree_kvs(store.pages(), out_before[j]@.ptr, h) == subtree_kvs(
                ns_before,
                out_before[j]@.ptr,
                h,
            ) by {
                lemma_subtree_frame(ns_before, store.pages(), out_before[j]@.ptr, h);
            }
            let rs_before = out_before.map_values(|c: ChildRef| c@);
            assert forall|i: int| 0 <= i < refs_entries(rs_before).len() implies subtree_wf(
                ns_before,
                (#[trigger] refs_entries(rs_before)[i]).ptr,
                h,
            ) by {
                assert(refs_entries(rs_before)[i].ptr == rs_before[i].ptr);
                assert(rs_before[i] == out_before[i]@);
            }
            lemma_kids_frame(ns_before, store.pages(), refs_entries(rs_before), h);
            lemma_alloc(ns0, store.pages(), pv, np, h);
            lemma_subtree_min(store.pages(), np, h);
        }
        out.push(ChildRef { key: sep, ptr: np });
        proof {
            let rs = out@.map_values(|c: ChildRef| c@);
            let rs_before = out_before.map_values(|c: ChildRef| c@);
            assert(out@.len() == k + 1);
            assert forall|j: int| 0 <= j < k implies out@[j] == out_before[j] by {}
            assert(rs[k as int].key == pv.entries[0].key && rs[k as int].ptr == np);
            assert(out@[k as int]@.key == pv.entries[0].key && out@[k as int]@.ptr == np);
            assert forall|j: int| 0 <= j < rs_before.len() implies rs[j] == rs_before[j] by {
                assert(rs[j] == out@[j]@);
                assert(rs_before[j] == out_before[j]@);
            }
            assert(refs_entries(rs).drop_last() =~= refs_entries(rs_before));
            assert(refs_entries(rs).last().ptr == np);
            assert(kids_kvs(store.pages(), refs_entries(rs), h) == kids_kvs(
                store.pages(),
                refs_entries(rs_before),
                h,
            ).union_prefer_right(subtree_kvs(store.pages(), np, h)));
            let c0 = cuts[k as int];
            let c1 = cuts[k as int + 1];
            assert(es.take(c1) =~= es.take(c0) + es.subrange(c0, c1));
            if h == 0 {
                lemma_entries_kvs_concat(es.take(c0), es.subrange(c0, c1));
            } else {
                lemma_kids_kvs_concat(ns0, es.take(c0), es.subrange(c0, c1), (h - 1) as nat);
            }
            assert forall|x: Seq<u8>| #[trigger] subtree_kvs(store.pages(), np, h).contains_key(
                x,
            ) implies lex_le(out@[k as int]@.key, x) && (c1 < es.len() ==> lex_lt(
                x,
                es[c1].key,
            )) by {
                lemma_part_upper(ns0, nv, pv, c0, c1, h, x);
            }
        }
        k = k + 1;
    }
    proof {
        let rs = out@.map_values(|c: ChildRef| c@);
        assert(cuts[plen as int] == es.len());
        assert(es.take(es.len() as int) =~= es);
        assert(kids_kvs(store.pages(), refs_entries(rs), h) == node_kvs(ns0, nv, h));
        assert forall|j: int| 0 <= j < rs.len() implies subtree_wf(
            store.pages(),
            (#[trigger] rs[j]).ptr,
            h,
        ) && subtree_kvs(store.pages(), rs[j].ptr, h).contains_key(rs[j].key) by {
            assert(rs[j] == out@[j]@);
        }
        assert forall|j: int, x: Seq<u8>|
            0 <= j < rs.len() && #[trigger] subtree_kvs(store.pages(), rs[j].ptr, h).contains_key(
                x,
            ) implies lex_le(rs[j].key, x) && (j + 1 < rs.len() ==> lex_lt(x, rs[j + 1].key)) by {
            assert(rs[j] == out@[j]@);
            assert(subtree_kvs(store.pages(), out@[j]@.ptr, h).contains_key(x));
            if j + 1 < rs.len() {
                assert(pviews[j + 1].entries.len() >= 1);
                assert(pviews[j + 1].entries == es.subrange(cuts[j + 1], cuts[j + 2]));
                assert(cuts[j + 1] < cuts[j + 2] <= es.len());
                assert(rs[j + 1] == out@[j + 1]@);
                assert(rs[j + 1].key == pviews[j + 1].entries[0].key);
                assert(pviews[j + 1].entries[0] == es[cuts[j + 1]]);
                assert(lex_lt(x, es[cuts[j + 1]].key));
            }
        }
        assert(parts_ok(store.pages(), h, rs, node_kvs(ns0, nv, h)));
    }
    Ok(out)
}

/// A contiguous run of sound slots makes a sound smaller node.
proof fn lemma_part_pre_ok(
    ns0: Map<u64, NodeV>,
    nv: NodeV,
    pv: NodeV,
    c0: int,
    c1: int,
    h: nat,
)
    requires
        node_pre_ok(ns0, nv, h),
        0 <= c0 < c1 <= nv.entries.len(),
        pv.entries == nv.entries.subrange(c0, c1),
        pv.kind == nv.kind,
        node_wf(pv),
        node_size(pv) <= PAGE_SIZE as int,
        pv.entries.len() >= 1,
    ensures
        node_pre_ok(ns0, pv, h),
{
    let es = nv.entries;
    if h > 0 {
        let hc = (h - 1) as nat;
        assert forall|i: int| 0 <= i < pv.entries.len() implies subtree_wf(
            ns0,
            (#[trigger] pv.entries[i]).ptr,
            hc,
        ) && subtree_kvs(ns0, pv.entries[i].ptr, hc).contains_key(pv.entries[i].key) by {
            assert(pv.entries[i] == es[c0 + i]);
            assert(subtree_wf(ns0, es[c0 + i].ptr, hc));
            assert(subtree_kvs(ns0, es[c0 + i].ptr, hc).contains_key(es[c0 + i].key));
        }
        assert forall|i: int, x: Seq<u8>|
            0 <= i < pv.entries.len() && #[trigger] subtree_kvs(
                ns0,
                pv.entries[i].ptr,
                hc,
            ).contains_key(x) implies lex_le(pv.entries[i].key, x) && (i + 1 < pv.entries.len()
            ==> lex_lt(x, pv.entries[i + 1].key)) by {
            assert(pv.entries[i] == es[c0 + i]);
            assert(subtree_kvs(ns0, es[c0 + i].ptr, hc).contains_key(x));
            if i + 1 < pv.entries.len() {
                assert(pv.entries[i + 1] == es[c0 + i + 1]);
            }
        }
        assert(slots_ok(ns0, pv.entries, hc));
    }
}

/// Every key in a part's contents comes before the slot at the part's
/// upper boundary.
proof fn lemma_part_upper(
    ns0: Map<u64, NodeV>,
    nv: NodeV,
    pv: NodeV,
    c0: int,
    c1: int,
    h: nat,
    x: Seq<u8>,
)
    requires
        node_pre_ok(ns0, nv, h),
        node_pre_ok(ns0, pv, h),
        0 <= c0 < c1 <= nv.entries.len(),
        pv.entries == nv.entries.subrange(c0, c1),
        node_kvs(ns0, pv, h).contains_key(x),
    ensures
        lex_le(pv.entries[0].key, x),
        c1 < nv.entries.len() ==> lex_lt(x, nv.entries[c1].key),
{
    let es = nv.entries;
    if h == 0 {
        lemma_entries_kvs_at(pv.entries, x);
        let i = choose|i: int| 0 <= i < pv.entries.len() && (#[trigger] pv.entries[i]).key == x;
        assert(pv.entries[i] == es[c0 + i]);
        if i > 0 {
            assert(lex_lt(pv.entries[0].key, pv.entries[i].key));
        }
        if c1 < es.len() {
            assert(lex_lt(es[c0 + i].key, es[c1].key));
        }
    } else {
        let hc = (h - 1) as nat;
        lemma_kids_kvs_at(ns0, pv.entries, hc, x);
        let i = choose|i: int|
            0 <= i < pv.entries.len() && #[trigger] subtree_kvs(ns0, pv.entries[i].ptr, hc)
                .contains_key(x);
        assert(pv.entries[i] == es[c0 + i]);
        assert(subtree_kvs(ns0, es[c0 + i].ptr, hc).contains_key(x));
        assert(lex_le(pv.entries[i].key, x));
        if i > 0 {
            assert(lex_lt(pv.entries[0].key, pv.entries[i].key));
            lemma_lex_lt_le_trans(pv.entries[0].key, pv.entries[i].key, x);
        }
        if c1 < es.len() {
            assert(lex_lt(x, es[c0 + i + 1].key));
            if c0 + i + 1 < c1 {
                assert(lex_lt(es[c0 + i + 1].key, es[c1].key));
                lemma_lex_trans(x, es[c0 + i + 1].key, es[c1].key);
            }
        }
    }
}

/// Appends the replacement references as internal slots.
fn push_ref_entries(dst: &mut Vec<Entry>, refs: &Vec<ChildRef>)
    ensures
        final(dst)@.len() == old(dst)@.len() + refs@.len(),
        forall|m: int|
            0 <= m < old(dst)@.len() ==> (#[trigger] final(dst)@[m]) == old(dst)@[m],
        forall|m: int|
            old(dst)@.len() <= m < final(dst)@.len() ==> (#[trigger] final(dst)@[m])@
                == refs_entries(refs@.map_values(|c: ChildRef| c@))[m - old(dst)@.len()],
{
    let ghost rs = refs@.map_values(|c: ChildRef| c@);
    let mut t: usize = 0;
    let rlen = refs.len();
    while t < rlen
        invariant
            t <= rlen,
            rlen == refs@.len(),
            rs == refs@.map_values(|c: ChildRef| c@),
            dst@.len() == old(dst)@.len() + t,
            forall|m: int| 0 <= m < old(dst)@.len() ==> (#[trigger] dst@[m]) == old(dst)@[m],
            forall|m: int|
                old(dst)@.len() <= m < dst@.len() ==> (#[trigger] dst@[m])@ == refs_entries(rs)[m
                    - old(dst)@.len()],
        decreases rlen - t,
    {
        let kb = clone_bytes(&refs[t].key);
        let e2 = Entry { key: kb, val: Vec::new(), ptr: refs[t].ptr };
        proof {
            assert(rs[t as int] == refs@[t as int]@);
            assert(e2@ == refs_entries(rs)[t as int]);
        }
        dst.push(e2);
        t = t + 1;
    }
}

/// Copy-on-write insertion into the subtree at `p` of height `h`:
/// returns the replacement parts and records the superseded pages.
#[verifier::rlimit(100)]
fn insert_at<S: PageStore>(
    store: &mut S,
    p: u64,
    h: u64,
    key: &Vec<u8>,
    val: &Vec<u8>,
    superseded: &mut Vec<u64>,
) -> (r: Result<Vec<ChildRef>, BTreeError>)
    requires
        subtree_wf(old(store).pages(), p, h as nat),
        key@.len() <= MAX_KEY_SIZE,
        val@.len() <= MAX_VAL_SIZE,
    ensures
        old(store).pages().submap_of(final(store).pages()),
        r matches Ok(ps) ==> parts_ok(
            final(store).pages(),
            h as nat,
            ps@.map_values(|c: ChildRef| c@),
            subtree_kvs(old(store).pages(), p, h as nat).insert(key@, val@),
        ),
        r matches Err(e) ==> e == BTreeError::PageStoreFailure,
    decreases h,
{
    let ghost ns0 = store.pages();
    proof {
        assert(ns0.submap_of(ns0));
    }
    let n = match store.get(p) {
        Ok(n) => n,
        Err(_) => {
            return Err(BTreeError::PageStoreFailure);
        },
    };
    if h == 0 {
        let node = leaf_insert(&n, key, val);
        superseded.push(p);
        proof {
            assert(node_pre_ok(ns0, node@, 0));
            assert(node_kvs(ns0, node@, 0) == subtree_kvs(ns0, p, 0).insert(key@, val@));
        }
        alloc_node_parts(store, node, Ghost(0nat), Ghost(ns0))
    } else {
        let i = find_child_index(&n, key);
        let ghost es = ns0[p].entries;
        let cptr = n.entries[i].ptr;
        proof {
            assert(es[i as int].ptr == cptr);
            assert(subtree_wf(ns0, cptr, (h - 1) as nat));
        }
        let sub = match insert_at(store, cptr, h - 1, key, val, superseded) {
            Ok(s) => s,
            Err(_) => {
                return Err(BTreeError::PageStoreFailure);
            },
        };
        let ghost ns2 = store.pages();
        let ghost rs = sub@.map_values(|c: ChildRef| c@);
        let mut entries: Vec<Entry> = Vec::new();
        push_entry_range(&mut entries, &n, 0, i);
        let ghost s1 = entries@;
        push_ref_entries(&mut entries, &sub);
        let ghost s2 = entries@;
        push_entry_range(&mut entries, &n, i + 1, n.entries.len());
        let node = Node { kind: KIND_INTERNAL, entries };
        superseded.push(p);
        proof {
            let hc = (h - 1) as nat;
            let newes = node@.entries;
            let target = es.take(i as int) + refs_entries(rs) + es.skip(i as int + 1);
            assert(s2.len() == i + rs.len());
            assert forall|t: int| 0 <= t < newes.len() implies newes[t] == target[t] by {
                assert(newes[t] == entries@[t]@);
                if t < i {
                    assert(entries@[t] == s2[t]);
                    assert(s2[t] == s1[t]);
                    assert(s1[t]@ == es[t]);
                } else if t < i + rs.len() {
                    assert(entries@[t] == s2[t]);
                    assert(s2[t]@ == refs_entries(rs)[t - i]);
                } else {
                    assert(entries@[t]@ == es[i as int + 1 + (t - s2.len())]);
                }
            }
            assert(newes =~= target);
            lemma_insert_rebuild(ns0, ns2, es, hc, i as int, rs, newes, key@, val@);
            // The rebuilt run still nearly fits: it trades one slot for at
            // most three bounded separators.
            crate::node::lemma_recs_size_nonneg(es);
            assert(es =~= es.take(i as int) + es.subrange(i as int, i as int + 1) + es.skip(
                i as int + 1,
            ));
            crate::node::lemma_recs_size_add(
                es.take(i as int) + es.subrange(i as int, i as int + 1),
                es.skip(i as int + 1),
            );
            crate::node::lemma_recs_size_add(
                es.take(i as int),
                es.subrange(i as int, i as int + 1),
            );
            assert(es.subrange(i as int, i as int + 1) =~= seq![es[i as int]]);
            crate::node::lemma_recs_size_singleton(es[i as int]);
            crate::node::lemma_recs_size_add(
                es.take(i as int) + refs_entries(rs),
                es.skip(i as int + 1),
            );
            crate::node::lemma_recs_size_add(es.take(i as int), refs_entries(rs));
            assert forall|t: int| 0 <= t < refs_entries(rs).len() implies (#[trigger] refs_entries(
                rs,
            )[t]).key.len() <= MAX_KEY_SIZE && refs_entries(rs)[t].val.len() == 0 by {
                assert(newes[i + t] == refs_entries(rs)[t]);
            }
            lemma_recs_size_bound(refs_entries(rs));
            assert(node_size(node@) <= crate::planner::SPLIT_INPUT_MAX as int);
            crate::node::lemma_recs_size_nonneg(newes);
            assert forall|t: int| 0 <= t < newes.len() implies entry_ok(#[trigger] newes[t]) by {}
            assert(node_pre_ok(ns2, node@, h as nat));
            assert(node_kvs(ns2, node@, h as nat) == subtree_kvs(ns0, p, h as nat).insert(
                key@,
                val@,
            ));
            assert(ns2.submap_of(ns2));
        }
        let out = match alloc_node_parts(store, node, Ghost(h as nat), Ghost(ns2)) {
            Ok(out) => out,
            Err(_) => {
                proof {
                    lemma_submap_trans(ns0, ns2, store.pages());
                }
                return Err(BTreeError::PageStoreFailure);
            },
        };
        proof {
            lemma_submap_trans(ns0, ns2, store.pages());
        }
        Ok(out)
    }
}

/// Builds the copy of leaf `n` with slot `j` (holding `key`) removed.
#[verifier::rlimit(100)]
fn leaf_remove(n: &Node, j: usize, Ghost(key): Ghost<Seq<u8>>) -> (r: Node)
    requires
        node_wf(n@),
        n@.kind == KIND_LEAF,
        j < n@.entries.len(),
        n@.entries[j as int].key == key,
    ensures
        node_wf(r@),
        r@.kind == KIND_LEAF,
        r@.entries.len() == n@.entries.len() - 1,
        entries_kvs(r@.entries) == entries_kvs(n@.entries).remove(key),
        node_size(r@) <= node_size(n@),
{
    let ghost es = n@.entries;
    let cnt = n.entries.len();
    let mut entries: Vec<Entry> = Vec::new();
    push_entry_range(&mut entries, n, 0, j);
    let ghost s1 = entries@;
    push_entry_range(&mut entries, n, j + 1, cnt);
    let r = Node { kind: n.kind, entries };
    proof {
        let newes = r@.entries;
        let target = es.take(j as int) + es.skip(j as int + 1);
        assert forall|t: int| 0 <= t < newes.len() implies newes[t] == target[t] by {
            assert(newes[t] == entries@[t]@);
            if t < j {
                assert(entries@[t] == s1[t]);
                assert(s1[t]@ == es[t]);
            } else {
                assert(entries@[t]@ == es[j as int + 1 + (t - j)]);
            }
        }
        assert(newes =~= target);
        assert forall|p: int, q: int| 0 <= p < q < newes.len() implies lex_lt(
            (#[trigger] newes[p]).key,
            (#[trigger] newes[q]).key,
        ) by {
            let pp = if p < j {
                p
            } else {
                p + 1
            };
            let qq = if q < j {
                q
            } else {
                q + 1
            };
            assert(lex_lt(es[pp].key, es[qq].key));
        }
        assert forall|t: int| 0 <= t < newes.len() implies entry_ok(#[trigger] newes[t]) by {
            let tt = if t < j {
                t
            } else {
                t + 1
            };
            assert(entry_ok(es[tt]));
        }
        assert(es =~= es.take(j as int) + es.subrange(j as int, j as int + 1) + es.skip(
            j as int + 1,
        ));
        crate::node::lemma_recs_size_add(
            es.take(j as int) + es.subrange(j as int, j as int + 1),
            es.skip(j as int + 1),
        );
        crate::node::lemma_recs_size_add(es.take(j as int), es.subrange(j as int, j as int + 1));
        assert(es.subrange(j as int, j as int + 1) =~= seq![es[j as int]]);
        crate::node::lemma_recs_size_singleton(es[j as int]);
        crate::node::lemma_recs_size_add(es.take(j as int), es.skip(j as int + 1));
        assert(node_wf(r@));
        let lhs = entries_kvs(newes);
        let rhs = entries_kvs(es).remove(key);
        assert forall|x: Seq<u8>| true implies lhs.contains_key(x) == rhs.contains_key(x) by {
            lemma_entries_kvs_at(newes, x);
            lemma_entries_kvs_at(es, x);
            if lhs.contains_key(x) {
                let m = choose|m: int| 0 <= m < newes.len() && (#[trigger] newes[m]).key == x;
                let mm = if m < j {
                    m
                } else {
                    m + 1
                };
                assert(es[mm].key == x);
                assert(x != key) by {
                    if mm < j {
                        assert(lex_lt(es[mm].key, es[j as int].key));
                    } else {
                        assert(lex_lt(es[j as int].key, es[mm].key));
                    }
                    lemma_lex_irrefl(x);
                }
            }
            if rhs.contains_key(x) {
                assert(x != key);
                let m = choose|m: int| 0 <= m < es.len() && (#[trigger] es[m]).key == x;
                assert(m != j) by {
                    lemma_lex_irrefl(x);
                }
                if m < j {
                    assert(newes[m].key == x);
                } else {
                    assert(newes[m - 1].key == x);
                }
            }
        }
        assert forall|x: Seq<u8>| lhs.contains_key(x) && rhs.contains_key(x) implies lhs[x]
            == rhs[x] by {
            lemma_entries_kvs_at(newes, x);
            let m = choose|m: int| 0 <= m < newes.len() && (#[trigger] newes[m]).key == x;
            lemma_entries_kvs_val(newes, m);
            let mm = if m < j {
                m
            } else {
                m + 1
            };
            lemma_entries_kvs_val(es, mm);
        }
        assert(lhs =~= rhs);
    }
    r
}

/// Attempts to coalesce the rebuilt child for slot `i` (already holding
/// the contents of that slot without `key`) with an adjacent sibling.
/// The attempt is made only when the child has shrunk below a quarter
/// page (the low-water mark), and the left sibling is preferred; with no
/// left sibling the right one is tried. `Ok(Some(..))` carries the whole
/// rebuilt parent's replacement parts; `Ok(None)` means no merge applied
/// and no page changed, and the caller rebuilds the parent slot by slot.
#[verifier::rlimit(100)]
#[verifier::spinoff_prover]
fn try_merge<S: PageStore>(
    store: &mut S,
    n: &Node,
    i: usize,
    child: &ChildRef,
    h: u64,
    Ghost(ns0): Ghost<Map<u64, NodeV>>,
    Ghost(key): Ghost<Seq<u8>>,
) -> (r: Result<Option<Vec<ChildRef>>, BTreeError>)
    requires
        h >= 1,
        node_wf(n@),
        n@.kind == KIND_INTERNAL,
        node_size(n@) <= PAGE_SIZE as int,
        n@.entries.len() >= 2,
        i < n@.entries.len(),
        slots_ok(ns0, n@.entries, (h - 1) as nat),
        ns0.submap_of(old(store).pages()),
        child@.ptr != 0,
        subtree_wf(old(store).pages(), child@.ptr, (h - 1) as nat),
        subtree_kvs(old(store).pages(), child@.ptr, (h - 1) as nat) == subtree_kvs(
            ns0,
            n@.entries[i as int].ptr,
            (h - 1) as nat,
        ).remove(key),
        subtree_kvs(old(store).pages(), child@.ptr, (h - 1) as nat).contains_key(child@.key),
        forall|x: Seq<u8>|
            #[trigger] subtree_kvs(old(store).pages(), child@.ptr, (h - 1) as nat).contains_key(
                x,
            ) ==> lex_le(child@.key, x),
        forall|j: int| i < j < n@.entries.len() ==> lex_lt(key, (#[trigger] n@.entries[j]).key),
        i > 0 ==> lex_le(n@.entries[i as int].key, key),
    ensures
        old(store).pages().submap_of(final(store).pages()),
        r matches Ok(Some(ps)) ==> parts_ok(
            final(store).pages(),
            h as nat,
            ps@.map_values(|c: ChildRef| c@),
            kids_kvs(ns0, n@.entries, (h - 1) as nat).remove(key),
        ),
        r matches Ok(o) ==> (o is None ==> final(store).pages() == old(store).pages()),
        r matches Err(e) ==> e == BTreeError::PageStoreFailure,
{
    let ghost es = n@.entries;
    let ghost hc = (h - 1) as nat;
    let ghost ns1 = store.pages();
    let ghost u = subtree_kvs(ns1, child@.ptr, hc);
    let cn = match store.get(child.ptr) {
        Ok(c) => c,
        Err(_) => {
            return Ok(None);
        },
    };
    proof {
        assert(cn@ == ns1[child@.ptr]);
        assert(subtree_wf(ns1, child@.ptr, hc));
        lemma_subtree_min(ns1, child.ptr@, hc);
    }
    if !(node_used_size(&cn) < PAGE_SIZE / 4) {
        // Above the low-water mark: leave the sibling alone.
        return Ok(None);
    }
    let left = i > 0;
    let sib = if left {
        i - 1
    } else {
        i + 1
    };
    let lo = if left {
        i - 1
    } else {
        i
    };
    let sptr = n.entries[sib].ptr;
    proof {
        assert(es[sib as int].ptr == sptr);
        assert(subtree_wf(ns0, es[sib as int].ptr, hc));
        lemma_subtree_frame(ns0, ns1, sptr, hc);
        lemma_subtree_min(ns1, sptr, hc);
    }
    let sn = match store.get(sptr) {
        Ok(s0) => s0,
        Err(_) => {
            return Ok(None);
        },
    };
    let ghost skvs = subtree_kvs(ns0, es[sib as int].ptr, hc);
    proof {
        assert(sn@ == ns1[sptr]);
        assert(sn@ == ns0[sptr]);
        assert(subtree_kvs(ns1, sptr, hc) == skvs);
        // Every key under the rebuilt child sits in the replaced slot's
        // range, and the sibling's keys sit in its own.
        assert forall|x: Seq<u8>| #[trigger] u.contains_key(x) implies lex_le(
            es[i as int].key,
            x,
        ) && (i + 1 < es.len() ==> lex_lt(x, es[i as int + 1].key)) by {
            assert(subtree_kvs(ns0, es[i as int].ptr, hc).contains_key(x));
        }
        if left {
            // sibling slots: kvs < es[i].key <= child@.key == least of u
            assert(lex_le(es[i as int].key, child@.key));
            assert(lex_le(es[i as int].key, cn@.entries[0].key));
            assert forall|x: Seq<u8>| #[trigger] skvs.contains_key(x) implies lex_lt(
                x,
                cn@.entries[0].key,
            ) by {
                assert(lex_lt(x, es[sib as int + 1].key));
                lemma_lex_lt_le_trans(x, es[i as int].key, cn@.entries[0].key);
            }
            lemma_slot_key_in_kvs(ns1, sptr, hc, sn@.entries.len() - 1);
            assert(lex_lt(sn@.entries.last().key, cn@.entries[0].key));
        } else {
            // child keys < es[i+1].key <= least of the sibling
            assert(lex_le(es[sib as int].key, sn@.entries[0].key)) by {
                assert(subtree_kvs(ns1, sptr, hc).contains_key(sn@.entries[0].key));
                assert(skvs.contains_key(sn@.entries[0].key));
            }
            assert forall|x: Seq<u8>| #[trigger] u.contains_key(x) implies lex_lt(
                x,
                sn@.entries[0].key,
            ) by {
                assert(lex_lt(x, es[i as int + 1].key));
                lemma_lex_lt_le_trans(x, es[i as int + 1].key, sn@.entries[0].key);
            }
            lemma_subtree_min(ns1, child.ptr@, hc);
            lemma_slot_key_in_kvs(ns1, child.ptr@, hc, cn@.entries.len() - 1);
            assert(u.contains_key(cn@.entries.last().key));
            assert(lex_lt(cn@.entries.last().key, sn@.entries[0].key));
        }
        if hc == 0 {
            assert(cn@.kind == KIND_LEAF && sn@.kind == KIND_LEAF);
        } else {
            assert(cn@.kind == KIND_INTERNAL && sn@.kind == KIND_INTERNAL);
        }
    }
    let fits = if left {
        should_merge(&sn, &cn)
    } else {
        should_merge(&cn, &sn)
    };
    if !fits {
        return Ok(None);
    }
    let merged = if left {
        crate::planner::merge_nodes(&sn, &cn)
    } else {
        crate::planner::merge_nodes(&cn, &sn)
    };
    let ghost mv = merged@;
    let ghost u2 = if left {
        skvs.union_prefer_right(u)
    } else {
        u.union_prefer_right(skvs)
    };
    proof {
        // The merged node meets the page-level conditions and holds the
        // two slots' combined contents.
        if hc == 0 {
            if left {
                lemma_entries_kvs_concat(sn@.entries, cn@.entries);
            } else {
                lemma_entries_kvs_concat(cn@.entries, sn@.entries);
            }
        } else {
            let hcc = (hc - 1) as nat;
            if left {
                assert forall|j: int, x: Seq<u8>|
                    0 <= j < sn@.entries.len() && #[trigger] subtree_kvs(
                        ns1,
                        sn@.entries[j].ptr,
                        hcc,
                    ).contains_key(x) implies lex_lt(x, cn@.entries[0].key) by {
                    lemma_kids_kvs_at(ns1, sn@.entries, hcc, x);
                    assert(subtree_kvs(ns1, sptr, hc).contains_key(x));
                    assert(skvs.contains_key(x));
                }
                lemma_slots_ok_concat(ns1, sn@.entries, cn@.entries, hcc);
                lemma_kids_kvs_concat(ns1, sn@.entries, cn@.entries, hcc);
            } else {
                assert forall|j: int, x: Seq<u8>|
                    0 <= j < cn@.entries.len() && #[trigger] subtree_kvs(
                        ns1,
                        cn@.entries[j].ptr,
                        hcc,
                    ).contains_key(x) implies lex_lt(x, sn@.entries[0].key) by {
                    lemma_kids_kvs_at(ns1, cn@.entries, hcc, x);
                    assert(subtree_kvs(ns1, child@.ptr, hc).contains_key(x));
                }
                lemma_slots_ok_concat(ns1, cn@.entries, sn@.entries, hcc);
                lemma_kids_kvs_concat(ns1, cn@.entries, sn@.entries, hcc);
            }
        }
        assert(node_pre_ok(ns1, mv, hc));
        assert(node_kvs(ns1, mv, hc) == u2);
    }
    let sep = clone_bytes(&merged.entries[0].key);
    let mp = match store.allocate(merged) {
        Ok(mp) => mp,
        Err(_) => {
            return Ok(None);
        },
    };
    let rf = ChildRef { key: sep, ptr: mp };
    proof {
        lemma_submap_insert(ns1, mp, mv);
        lemma_submap_trans(ns0, ns1, store.pages());
        lemma_alloc(ns1, store.pages(), mv, mp, hc);
        lemma_subtree_min(store.pages(), mp, hc);
        assert(subtree_kvs(store.pages(), mp, hc) == u2);
        assert(rf@.key == mv.entries[0].key && rf@.ptr == mp);
    }
    let mut refs1: Vec<ChildRef> = Vec::new();
    refs1.push(rf);
    let mut entries: Vec<Entry> = Vec::new();
    push_entry_range(&mut entries, n, 0, lo);
    let ghost s1 = entries@;
    push_ref_entries(&mut entries, &refs1);
    let ghost s2 = entries@;
    push_entry_range(&mut entries, n, lo + 2, n.entries.len());
    let parent = Node { kind: KIND_INTERNAL, entries };
    proof {
        let ns2 = store.pages();
        let rfv = refs1@.map_values(|c: ChildRef| c@)[0];
        assert(rfv == refs1@[0]@);
        assert(refs1@.map_values(|c: ChildRef| c@) =~= seq![rfv]);
        let newes = parent@.entries;
        let target = es.take(lo as int) + refs_entries(seq![rfv]) + es.skip(lo as int + 2);
        assert(s2.len() == lo + 1);
        assert forall|t: int| 0 <= t < newes.len() implies newes[t] == target[t] by {
            assert(newes[t] == entries@[t]@);
            if t < lo {
                assert(entries@[t] == s2[t]);
                assert(s2[t] == s1[t]);
                assert(s1[t]@ == es[t]);
            } else if t == lo {
                assert(entries@[t] == s2[t]);
                assert(s2[t]@ == refs_entries(refs1@.map_values(|c: ChildRef| c@))[0]);
            } else {
                assert(entries@[t]@ == es[lo as int + 2 + (t - s2.len())]);
            }
        }
        assert(newes =~= target);
        // Conditions tying the merged child's contents to the two
        // replaced slots.
        let di = i as int;
        assert forall|x: Seq<u8>| #[trigger] subtree_kvs(ns2, rfv.ptr, hc).contains_key(x) == ((
        subtree_kvs(ns0, es[lo as int].ptr, hc).contains_key(x) || subtree_kvs(
            ns0,
            es[lo as int + 1].ptr,
            hc,
        ).contains_key(x)) && x != key) by {
            if left {
                if skvs.contains_key(x) && x == key {
                    assert(lex_lt(key, es[i as int].key)) by {
                        assert(lex_lt(x, es[sib as int + 1].key));
                    }
                    assert(lex_le(es[i as int].key, key));
                    lemma_lex_lt_le_trans(key, es[i as int].key, key);
                    lemma_lex_irrefl(key);
                }
            } else {
                if skvs.contains_key(x) && x == key {
                    assert(lex_le(es[i as int + 1].key, key));
                    assert(lex_lt(key, es[i as int + 1].key));
                    lemma_lex_lt_le_trans(key, es[i as int + 1].key, key);
                    lemma_lex_irrefl(key);
                }
            }
        }
        assert forall|x: Seq<u8>|
            #[trigger] subtree_kvs(ns2, rfv.ptr, hc).contains_key(x) && subtree_kvs(
                ns0,
                es[lo as int].ptr,
                hc,
            ).contains_key(x) implies subtree_kvs(ns2, rfv.ptr, hc)[x] == subtree_kvs(
            ns0,
            es[lo as int].ptr,
            hc,
        )[x] by {
            lemma_slots_disjoint(ns0, es, hc, lo as int, lo as int + 1, x);
        }
        assert forall|x: Seq<u8>|
            #[trigger] subtree_kvs(ns2, rfv.ptr, hc).contains_key(x) && subtree_kvs(
                ns0,
                es[lo as int + 1].ptr,
                hc,
            ).contains_key(x) implies subtree_kvs(ns2, rfv.ptr, hc)[x] == subtree_kvs(
            ns0,
            es[lo as int + 1].ptr,
            hc,
        )[x] by {
            if subtree_kvs(ns0, es[lo as int].ptr, hc).contains_key(x) {
                lemma_slots_disjoint(ns0, es, hc, lo as int, lo as int + 1, x);
            }
        }
        lemma_merge_rebuild(ns0, ns2, es, hc, lo as int, di, rfv, newes, key);
        // The rebuilt parent still nearly fits: two slots became one
        // bounded separator.
        crate::node::lemma_recs_size_nonneg(es);
        assert(es =~= es.take(lo as int) + es.subrange(lo as int, lo as int + 2) + es.skip(
            lo as int + 2,
        ));
        crate::node::lemma_recs_size_add(
            es.take(lo as int) + es.subrange(lo as int, lo as int + 2),
            es.skip(lo as int + 2),
        );
        crate::node::lemma_recs_size_add(
            es.take(lo as int),
            es.subrange(lo as int, lo as int + 2),
        );
        assert(es.subrange(lo as int, lo as int + 2) =~= seq![es[lo as int]] + seq![es[lo as int
            + 1]]);
        crate::node::lemma_recs_size_add(seq![es[lo as int]], seq![es[lo as int + 1]]);
        crate::node::lemma_recs_size_singleton(es[lo as int]);
        crate::node::lemma_recs_size_singleton(es[lo as int + 1]);
        crate::node::lemma_recs_size_add(
            es.take(lo as int) + refs_entries(seq![rfv]),
            es.skip(lo as int + 2),
        );
        crate::node::lemma_recs_size_add(es.take(lo as int), refs_entries(seq![rfv]));
        assert forall|t: int| 0 <= t < refs_entries(seq![rfv]).len() implies (
        #[trigger] refs_entries(seq![rfv])[t]).key.len() <= MAX_KEY_SIZE && refs_entries(
            seq![rfv],
        )[t].val.len() == 0 by {
            assert(newes[lo as int + t] == refs_entries(seq![rfv])[t]);
        }
        lemma_recs_size_bound(refs_entries(seq![rfv]));
        crate::node::lemma_recs_size_nonneg(newes);
        assert forall|t: int| 0 <= t < newes.len() implies entry_ok(#[trigger] newes[t]) by {}
        assert(node_pre_ok(ns2, parent@, h as nat));
        assert(node_kvs(ns2, parent@, h as nat) == kids_kvs(ns0, es, hc).remove(key));
        assert(ns2.submap_of(ns2));
    }
    let ghost ns3 = store.pages();
    let out = match alloc_node_parts(store, parent, Ghost(h as nat), Ghost(ns3)) {
        Ok(out) => out,
        Err(_) => {
            proof {
                lemma_submap_trans(ns1, ns3, store.pages());
            }
            return Err(BTreeError::PageStoreFailure);
        },
    };
    proof {
        lemma_submap_trans(ns1, ns3, store.pages());
    }
    Ok(Some(out))
}

/// Copy-on-write removal of `key` from the subtree at `p` of height
/// `h`: `None` when the key is absent (nothing touched), otherwise the
/// replacement parts, an empty list when the whole subtree vanished.
#[verifier::rlimit(100)]
fn delete_at<S: PageStore>(
    store: &mut S,
    p: u64,
    h: u64,
    key: &Vec<u8>,
    superseded: &mut Vec<u64>,
) -> (r: Result<Option<Vec<ChildRef>>, BTreeError>)
    requires
        subtree_wf(old(store).pages(), p, h as nat),
    ensures
        old(store).pages().submap_of(final(store).pages()),
        r matches Ok(o) && o is None ==> *final(store) == *old(store) && !subtree_kvs(
            old(store).pages(),
            p,
            h as nat,
        ).contains_key(key@),
        r matches Ok(Some(ps)) ==> subtree_kvs(old(store).pages(), p, h as nat).contains_key(
            key@,
        ),
        r matches Ok(Some(ps)) ==> (ps@.len() == 0 ==> *final(store) == *old(store)
            && subtree_kvs(old(store).pages(), p, h as nat).remove(key@) == Map::<
            Seq<u8>,
            Seq<u8>,
        >::empty()),
        r matches Ok(Some(ps)) ==> (ps@.len() >= 1 ==> parts_ok(
            final(store).pages(),
            h as nat,
            ps@.map_values(|c: ChildRef| c@),
            subtree_kvs(old(store).pages(), p, h as nat).remove(key@),
        )),
        r matches Err(e) ==> e == BTreeError::PageStoreFailure,
    decreases h,
{
    let ghost ns0 = store.pages();
    proof {
        assert(ns0.submap_of(ns0));
    }
    let n = match store.get(p) {
        Ok(n) => n,
        Err(_) => {
            return Err(BTreeError::PageStoreFailure);
        },
    };
    if h == 0 {
        match find_key_index(&n, key) {
            None => {
                proof {
                    lemma_entries_kvs_at(ns0[p].entries, key@);
                    if subtree_kvs(ns0, p, 0).contains_key(key@) {
                        let j = choose|j: int|
                            0 <= j < ns0[p].entries.len() && (#[trigger] ns0[p].entries[j]).key
                                == key@;
                        assert(false);
                    }
                }
                Ok(None)
            },
            Some(jx) => {
                let node = leaf_remove(&n, jx, Ghost(key@));
                superseded.push(p);
                proof {
                    lemma_entries_kvs_val(ns0[p].entries, jx as int);
                }
                if node.n_keys() == 0 {
                    proof {
                        assert(node@.entries =~= Seq::<EntryV>::empty());
                        assert(entries_kvs(node@.entries) =~= Map::<Seq<u8>, Seq<u8>>::empty());
                    }
                    Ok(Some(Vec::new()))
                } else {
                    proof {
                        crate::node::lemma_recs_size_nonneg(node@.entries);
                        assert(node_pre_ok(ns0, node@, 0));
                    }
                    match alloc_node_parts(store, node, Ghost(0nat), Ghost(ns0)) {
                        Ok(out) => Ok(Some(out)),
                        Err(_) => Err(BTreeError::PageStoreFailure),
                    }
                }
            },
        }
    } else {
        let i = find_child_index(&n, key);
        let ghost es = ns0[p].entries;
        let cptr = n.entries[i].ptr;
        proof {
            assert(es[i as int].ptr == cptr);
            assert(subtree_wf(ns0, cptr, (h - 1) as nat));
            lemma_descend(ns0, p, h as nat, key@, i as int);
        }
        let sub = match delete_at(store, cptr, h - 1, key, superseded) {
            Ok(None) => {
                return Ok(None);
            },
            Ok(Some(s)) => s,
            Err(_) => {
                return Err(BTreeError::PageStoreFailure);
            },
        };
        let ghost ns2 = store.pages();
        let ghost hc = (h - 1) as nat;
        superseded.push(p);
        if sub.len() == 0 {
            // The child vanished: drop its slot.
            let mut entries: Vec<Entry> = Vec::new();
            push_entry_range(&mut entries, &n, 0, i);
            let ghost s1 = entries@;
            push_entry_range(&mut entries, &n, i + 1, n.entries.len());
            let node = Node { kind: KIND_INTERNAL, entries };
            proof {
                let newes = node@.entries;
                let target = es.take(i as int) + es.skip(i as int + 1);
                assert forall|t: int| 0 <= t < newes.len() implies newes[t] == target[t] by {
                    assert(newes[t] == entries@[t]@);
                    if t < i {
                        assert(entries@[t] == s1[t]);
                        assert(s1[t]@ == es[t]);
                    } else {
                        assert(entries@[t]@ == es[i as int + 1 + (t - i)]);
                    }
                }
                assert(newes =~= target);
                lemma_drop_slot(ns0, es, hc, i as int, newes, key@);
            }
            if node.n_keys() == 0 {
                proof {
                    assert(node@.entries =~= Seq::<EntryV>::empty());
                    assert(kids_kvs(ns0, node@.entries, hc) =~= Map::<Seq<u8>, Seq<u8>>::empty());
                }
                Ok(Some(Vec::new()))
            } else {
                proof {
                    let newes = node@.entries;
                    crate::node::lemma_recs_size_nonneg(es);
                    assert(es =~= es.take(i as int) + es.subrange(i as int, i as int + 1)
                        + es.skip(i as int + 1));
                    crate::node::lemma_recs_size_add(
                        es.take(i as int) + es.subrange(i as int, i as int + 1),
                        es.skip(i as int + 1),
                    );
                    crate::node::lemma_recs_size_add(
                        es.take(i as int),
                        es.subrange(i as int, i as int + 1),
                    );
                    assert(es.subrange(i as int, i as int + 1) =~= seq![es[i as int]]);
                    crate::node::lemma_recs_size_singleton(es[i as int]);
                    crate::node::lemma_recs_size_add(es.take(i as int), es.skip(i as int + 1));
                    crate::node::lemma_recs_size_nonneg(newes);
                    assert forall|t: int| 0 <= t < newes.len() implies entry_ok(
                        #[trigger] newes[t],
                    ) by {}
                    assert(node_pre_ok(ns0, node@, h as nat));
                }
                match alloc_node_parts(store, node, Ghost(h as nat), Ghost(ns0)) {
                    Ok(out) => Ok(Some(out)),
                    Err(_) => Err(BTreeError::PageStoreFailure),
                }
            }
        } else {
            let ghost rs = sub@.map_values(|c: ChildRef| c@);
            let ghost hc2 = (h - 1) as nat;
            if sub.len() == 1 && n.n_keys() >= 2 {
                // A single shrunken replacement may be coalesced with an
                // adjacent sibling before the parent is rebuilt.
                let childref = ChildRef { key: clone_bytes(&sub[0].key), ptr: sub[0].ptr };
                proof {
                    assert(rs[0] == sub@[0]@);
                    assert(childref@ == rs[0]);
                    let re = refs_entries(rs);
                    assert(re.len() == 1);
                    assert(re.drop_last() =~= Seq::<EntryV>::empty());
                    assert(re.last().ptr == rs[0].ptr);
                    assert(kids_kvs(ns2, re.drop_last(), hc2) == Map::<
                        Seq<u8>,
                        Seq<u8>,
                    >::empty());
                    assert(Map::<Seq<u8>, Seq<u8>>::empty().union_prefer_right(
                        subtree_kvs(ns2, rs[0].ptr, hc2),
                    ) =~= subtree_kvs(ns2, rs[0].ptr, hc2));
                    assert(subtree_kvs(ns2, rs[0].ptr, hc2) == subtree_kvs(
                        ns0,
                        es[i as int].ptr,
                        hc2,
                    ).remove(key@));
                }
                match try_merge(store, &n, i, &childref, h, Ghost(ns0), Ghost(key@)) {
                    Ok(Some(out)) => {
                        proof {
                            lemma_submap_trans(ns0, ns2, store.pages());
                        }
                        return Ok(Some(out));
                    },
                    Ok(None) => {
                        proof {
                            assert(store.pages() == ns2);
                        }
                    },
                    Err(_) => {
                        proof {
                            lemma_submap_trans(ns0, ns2, store.pages());
                        }
                        return Err(BTreeError::PageStoreFailure);
                    },
                }
            }
            let mut entries: Vec<Entry> = Vec::new();
            push_entry_range(&mut entries, &n, 0, i);
            let ghost s1 = entries@;
            push_ref_entries(&mut entries, &sub);
            let ghost s2 = entries@;
            push_entry_range(&mut entries, &n, i + 1, n.entries.len());
            let node = Node { kind: KIND_INTERNAL, entries };
            proof {
                let newes = node@.entries;
                let target = es.take(i as int) + refs_entries(rs) + es.skip(i as int + 1);
                assert(s2.len() == i + rs.len());
                assert forall|t: int| 0 <= t < newes.len() implies newes[t] == target[t] by {
                    assert(newes[t] == entries@[t]@);
                    if t < i {
                        assert(entries@[t] == s2[t]);
                        assert(s2[t] == s1[t]);
                        assert(s1[t]@ == es[t]);
                    } else if t < i + rs.len() {
                        assert(entries@[t] == s2[t]);
                        assert(s2[t]@ == refs_entries(rs)[t - i]);
                    } else {
                        assert(entries@[t]@ == es[i as int + 1 + (t - s2.len())]);
                    }
                }
                assert(newes =~= target);
                lemma_delete_rebuild(ns0, ns2, es, hc, i as int, rs, newes, key@);
                crate::node::lemma_recs_size_nonneg(es);
                assert(es =~= es.take(i as int) + es.subrange(i as int, i as int + 1) + es.skip(
                    i as int + 1,
                ));
                crate::node::lemma_recs_size_add(
                    es.take(i as int) + es.subrange(i as int, i as int + 1),
                    es.skip(i as int + 1),
                );
                crate::node::lemma_recs_size_add(
                    es.take(i as int),
                    es.subrange(i as int, i as int + 1),
                );
                assert(es.subrange(i as int, i as int + 1) =~= seq![es[i as int]]);
                crate::node::lemma_recs_size_singleton(es[i as int]);
                crate::node::lemma_recs_size_add(
                    es.take(i as int) + refs_entries(rs),
                    es.skip(i as int + 1),
                );
                crate::node::lemma_recs_size_add(es.take(i as int), refs_entries(rs));
                assert forall|t: int| 0 <= t < refs_entries(rs).len() implies (
                #[trigger] refs_entries(rs)[t]).key.len() <= MAX_KEY_SIZE && refs_entries(
                    rs,
                )[t].val.len() == 0 by {
                    assert(newes[i + t] == refs_entries(rs)[t]);
                }
                lemma_recs_size_bound(refs_entries(rs));
                assert(node_size(node@) <= crate::planner::SPLIT_INPUT_MAX as int);
                crate::node::lemma_recs_size_nonneg(newes);
                assert forall|t: int| 0 <= t < newes.len() implies entry_ok(
                    #[trigger] newes[t],
                ) by {}
                assert(node_pre_ok(ns2, node@, h as nat));
                assert(node_kvs(ns2, node@, h as nat) == subtree_kvs(ns0, p, h as nat).remove(
                    key@,
                ));
                assert(ns2.submap_of(ns2));
            }
            let out = match alloc_node_parts(store, node, Ghost(h as nat), Ghost(ns2)) {
                Ok(out) => out,
                Err(_) => {
                    proof {
                        lemma_submap_trans(ns0, ns2, store.pages());
                    }
                    return Err(BTreeError::PageStoreFailure);
                },
            };
            proof {
                lemma_submap_trans(ns0, ns2, store.pages());
            }
            Ok(Some(out))
        }
    }
}

} // verus!
