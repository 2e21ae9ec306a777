//! Split and merge planning.
//!
//! `split_node` partitions an oversized node's ordered slots into one,
//! two or three contiguous, non-empty groups, each fitting a page. A
//! group is closed only when its next slot would not fit, so a two-way
//! split is produced whenever one suffices and a third group appears only
//! when two cannot hold the slots. `should_merge` decides whether two
//! adjacent siblings fit one page together; `merge_nodes` combines them.

use vstd::prelude::*;

use crate::codec::node_used_size;
use crate::node::{
    clone_entry, clone_entry_range, entries_sorted, entry_ok, lemma_recs_size_nonneg,
    lemma_recs_size_take_le, lemma_recs_size_take_succ, node_size, node_wf, rec_size, recs_size,
    Entry, EntryV, Node, NodeV, PAGE_SIZE,
};
use crate::order::{lemma_lex_lt_le_trans, lemma_lex_trans, lex_lt};

verus! {

/// The largest node the planner accepts: one page plus the cost of one
/// slot of maximum size (ten table bytes and a full record), the most a
/// single completed mutation can add.
pub const SPLIT_INPUT_MAX: usize = 8110;

/// The slots of a sequence of nodes, in order.
pub open spec fn parts_entries(ps: Seq<NodeV>) -> Seq<EntryV>
    decreases ps.len(),
{
    if ps.len() == 0 {
        Seq::empty()
    } else {
        parts_entries(ps.drop_last()) + ps.last().entries
    }
}

/// The node a merge would produce, as a view.
pub open spec fn merged_view(a: NodeV, b: NodeV) -> NodeV {
    NodeV { kind: a.kind, entries: a.entries + b.entries }
}

/// `cuts` are the boundaries of a partition of `es` into the slot runs of
/// the nodes `ps`: node `k` holds exactly `es[cuts[k] .. cuts[k + 1]]`.
pub open spec fn split_cuts_ok(es: Seq<EntryV>, ps: Seq<NodeV>, cuts: Seq<int>) -> bool {
    &&& cuts.len() == ps.len() + 1
    &&& cuts[0] == 0
    &&& cuts[ps.len() as int] == es.len()
    &&& forall|k: int|
        0 <= k < ps.len() ==> 0 <= #[trigger] cuts[k] <= cuts[k + 1] <= es.len()
            && ps[k].entries == es.subrange(cuts[k], cuts[k + 1])
}

/// Whether some cut sequence partitions `es` into the runs of `ps`.
pub open spec fn split_has_cuts(es: Seq<EntryV>, ps: Seq<NodeV>) -> bool {
    exists|cuts: Seq<int>| split_cuts_ok(es, ps, cuts)
}

/// Whether two adjacent siblings fit one page when combined.
pub fn should_merge(l: &Node, r: &Node) -> (ret: bool)
    requires
        l@.entries.len() <= 65535,
        r@.entries.len() <= 65535,
        forall|i: int| 0 <= i < l@.entries.len() ==> entry_ok(#[trigger] l@.entries[i]),
        forall|i: int| 0 <= i < r@.entries.len() ==> entry_ok(#[trigger] r@.entries[i]),
    ensures
        ret == (node_size(merged_view(l@, r@)) <= PAGE_SIZE as int),
{
    let sl = node_used_size(l);
    let sr = node_used_size(r);
    proof {
        crate::node::lemma_recs_size_add(l@.entries, r@.entries);
        lemma_recs_size_nonneg(l@.entries);
        lemma_recs_size_nonneg(r@.entries);
    }
    if sl > PAGE_SIZE || sr > PAGE_SIZE {
        return false;
    }
    sl + sr - 4 <= PAGE_SIZE
}

/// Two sorted slot runs concatenate to a sorted run when every left key
/// comes before the first right key.
pub proof fn lemma_sorted_concat(la: Seq<EntryV>, ra: Seq<EntryV>)
    requires
        entries_sorted(la),
        entries_sorted(ra),
        la.len() >= 1,
        ra.len() >= 1,
        lex_lt(la.last().key, ra[0].key),
    ensures
        entries_sorted(la + ra),
{
    let ms = la + ra;
    let nl = la.len() as int;
    assert forall|p: int, q: int| 0 <= p < q < ms.len() implies lex_lt(
        #[trigger] ms[p].key,
        #[trigger] ms[q].key,
    ) by {
        if q < nl {
            assert(lex_lt(la[p].key, la[q].key));
        } else if p >= nl {
            assert(lex_lt(ra[p - nl].key, ra[q - nl].key));
        } else {
            if p < nl - 1 {
                assert(lex_lt(la[p].key, la[nl - 1].key));
                lemma_lex_trans(la[p].key, la[nl - 1].key, ra[0].key);
            }
            assert(lex_lt(ms[p].key, ra[0].key));
            if q > nl {
                assert(lex_lt(ra[0].key, ra[q - nl].key));
                lemma_lex_trans(ms[p].key, ra[0].key, ra[q - nl].key);
            }
        }
    }
}

/// Combines two adjacent siblings, left slots first, into one node.
#[verifier::rlimit(100)]
#[verifier::spinoff_prover]
pub fn merge_nodes(l: &Node, r: &Node) -> (m: Node)
    requires
        node_wf(l@),
        node_wf(r@),
        l@.kind == r@.kind,
        l@.entries.len() >= 1,
        r@.entries.len() >= 1,
        lex_lt(l@.entries.last().key, r@.entries[0].key),
        node_size(merged_view(l@, r@)) <= PAGE_SIZE as int,
    ensures
        m@ == merged_view(l@, r@),
        node_wf(m@),
        node_size(m@) == node_size(l@) + node_size(r@) - 4,
        m@.entries.len() >= 1,
{
    let ghost la = l@.entries;
    let ghost ra = r@.entries;
    let mut entries = clone_entry_range(&l.entries, 0, l.entries.len());
    let more = clone_entry_range(&r.entries, 0, r.entries.len());
    proof {
        assert(entries@.map_values(|e: Entry| e@) =~= la);
        assert(more@.map_values(|e: Entry| e@) =~= ra);
    }
    let mut j: usize = 0;
    let mut more = more;
    let rlen = more.len();
    proof {
        assert(forall|m: int| 0 <= m < la.len() ==> entries@[m]@ == la[m]);
    }
    while j < rlen
        invariant
            j <= rlen,
            rlen == ra.len(),
            more@.map_values(|e: Entry| e@) == ra,
            entries@.len() == la.len() + j,
            forall|m: int| 0 <= m < la.len() ==> (#[trigger] entries@[m])@ == la[m],
            forall|m: int| 0 <= m < j ==> (#[trigger] entries@[la.len() + m])@ == ra[m],
        decreases rlen - j,
    {
        let e2 = clone_entry(&more[j]);
        proof {
            assert(e2@ == more@.map_values(|e: Entry| e@)[j as int]);
            assert(e2@ == ra[j as int]);
        }
        entries.push(e2);
        j = j + 1;
    }
    let m = Node { kind: l.kind, entries };
    proof {
        assert forall|k: int| 0 <= k < m@.entries.len() implies m@.entries[k] == (la + ra)[k] by {
            assert(m@.entries[k] == entries@[k]@);
            if k >= la.len() {
                assert(entries@[la.len() + (k - la.len())]@ == ra[k - la.len()]);
            }
        }
        assert(m@.entries =~= la + ra);
        lemma_sorted_concat(la, ra);
        crate::node::lemma_recs_size_add(la, ra);
        assert forall|k: int| 0 <= k < m@.entries.len() implies entry_ok(
            #[trigger] m@.entries[k],
        ) && (m@.kind == crate::node::KIND_INTERNAL ==> m@.entries[k].val.len() == 0) by {
            if k < la.len() {
                assert(m@.entries[k] == la[k]);
                assert(entry_ok(la[k]));
            } else {
                assert(m@.entries[k] == ra[k - la.len()]);
                assert(entry_ok(ra[k - la.len()]));
            }
        }
        lemma_recs_size_nonneg(la + ra);
        assert(node_wf(m@));
    }
    m
}

/// Partitions an oversized node into one, two or three nodes of the same
/// kind, each fitting a page, each non-empty, whose slots concatenated in
/// order are exactly the input's slots.
#[verifier::rlimit(100)]
#[verifier::spinoff_prover]
pub fn split_node(n: &Node) -> (parts: Vec<Node>)
    requires
        node_wf(n@),
        n@.entries.len() >= 1,
        node_size(n@) <= SPLIT_INPUT_MAX as int,
    ensures
        1 <= parts@.len() <= 3,
        parts_entries(parts@.map_values(|p: Node| p@)) == n@.entries,
        forall|k: int| 0 <= k < parts@.len() ==> (#[trigger] parts@[k])@.kind == n@.kind
            && node_wf(parts@[k]@) && node_size(parts@[k]@) <= PAGE_SIZE as int
            && parts@[k]@.entries.len() >= 1,
        split_has_cuts(n@.entries, parts@.map_values(|p: Node| p@)),
        forall|k: int|
            0 <= k < parts@.len() - 1 ==> node_size(
                merged_view((#[trigger] parts@[k])@, parts@[k + 1]@),
            ) > PAGE_SIZE as int,
{
    let ghost es = n@.entries;
    let cnt = n.entries.len();
    let mut parts: Vec<Node> = Vec::new();
    let mut cur: Vec<Entry> = Vec::new();
    let mut cur_size: usize = 4;
    let ghost mut closed_cost: int = 0;
    let ghost mut start: int = 0;
    let ghost mut cuts: Seq<int> = seq![0];
    let mut i: usize = 0;
    proof {
        lemma_recs_size_nonneg(es);
        assert(es.take(0) =~= Seq::<EntryV>::empty());
        assert(parts_entries(parts@.map_values(|p: Node| p@)) =~= Seq::<EntryV>::empty());
        assert(cur@.map_values(|e: Entry| e@) =~= es.subrange(0, 0));
    }
    while i < cnt
        invariant
            i <= cnt,
            cnt == es.len(),
            es == n@.entries,
            node_wf(n@),
            node_size(n@) <= SPLIT_INPUT_MAX as int,
            0 <= start <= i,
            cur@.map_values(|e: Entry| e@) == es.subrange(start, i as int),
            cur@.len() == i - start,
            cur_size == 4 + 10 * (i - start) + recs_size(es.subrange(start, i as int)),
            cur_size <= PAGE_SIZE,
            parts_entries(parts@.map_values(|p: Node| p@)) == es.take(start),
            closed_cost == 10 * start + recs_size(es.take(start)),
            parts@.len() <= 2,
            forall|k: int| 0 <= k < parts@.len() ==> (#[trigger] parts@[k])@.kind == n@.kind
                && node_wf(parts@[k]@) && node_size(parts@[k]@) <= PAGE_SIZE as int
                && parts@[k]@.entries.len() >= 1,
            parts@.len() == 1 && i > start ==> closed_cost + (cur_size - 4) > PAGE_SIZE - 4,
            parts@.len() == 2 ==> closed_cost > PAGE_SIZE - 4,
            parts@.len() >= 1 ==> i > start,
            parts@.len() == 0 ==> start == 0,
            forall|k: int|
                0 <= k < parts@.len() - 1 ==> node_size(
                    merged_view((#[trigger] parts@[k])@, parts@[k + 1]@),
                ) > PAGE_SIZE as int,
            parts@.len() >= 1 && i > start ==> node_size(parts@[parts@.len() - 1]@) + (cur_size
                - 4) > PAGE_SIZE as int,
            cuts.len() == parts@.len() + 1,
            cuts[0] == 0,
            cuts[parts@.len() as int] == start,
            forall|k: int|
                0 <= k < parts@.len() ==> 0 <= #[trigger] cuts[k] <= cuts[k + 1] <= es.len()
                    && (#[trigger] parts@[k])@.entries == es.subrange(cuts[k], cuts[k + 1]),
        decreases cnt - i,
    {
        proof {
            assert(entry_ok(es[i as int]));
            lemma_recs_size_take_succ(es, i as int);
            lemma_recs_size_take_le(es, i as int + 1);
        }
        let e = &n.entries[i];
        let c = 10 + 4 + e.key.len() + e.val.len();
        if cur.len() > 0 && cur_size + c > PAGE_SIZE {
            // Close the current group; this slot opens the next one.
            proof {
                assert(es.take(i as int) =~= es.take(start) + es.subrange(start, i as int));
                crate::node::lemma_recs_size_add(es.take(start), es.subrange(start, i as int));
                if parts@.len() == 2 {
                    // A fourth group would be needed; impossible, since the
                    // two closed groups and the open one each outweigh the
                    // closing threshold while the whole input fits a page
                    // plus one slot.
                    assert(10 * (i as int) + recs_size(es.take(i as int)) == closed_cost + (
                    cur_size - 4));
                    assert(10 * (i as int + 1) + recs_size(es.take(i as int + 1)) <= node_size(n@)
                        - 4);
                    assert(false);
                }
            }
            let ghost old_parts = parts@.map_values(|p: Node| p@);
            let part = Node { kind: n.kind, entries: cur };
            proof {
                let ps = part@.entries;
                assert(ps == es.subrange(start, i as int));
                assert forall|p: int, q: int| 0 <= p < q < ps.len() implies lex_lt(
                    #[trigger] ps[p].key,
                    #[trigger] ps[q].key,
                ) by {
                    assert(lex_lt(es[start + p].key, es[start + q].key));
                }
                assert forall|k: int| 0 <= k < ps.len() implies entry_ok(#[trigger] ps[k]) && (
                n@.kind == crate::node::KIND_INTERNAL ==> ps[k].val.len() == 0) by {
                    assert(ps[k] == es[start + k]);
                    assert(entry_ok(es[start + k]));
                }
                assert(node_wf(part@));
            }
            parts.push(part);
            proof {
                let new_parts = parts@.map_values(|p: Node| p@);
                assert(new_parts.drop_last() =~= old_parts);
                assert(parts_entries(new_parts) =~= es.take(i as int));
                closed_cost = closed_cost + (cur_size - 4);
            }
            cur = Vec::new();
            cur_size = 4;
            proof {
                cuts = cuts.push(i as int);
                start = i as int;
                assert(cur@.map_values(|e: Entry| e@) =~= es.subrange(start, i as int));
            }
        }
        cur.push(clone_entry(&n.entries[i]));
        cur_size = cur_size + c;
        proof {
            assert(cur@.map_values(|e: Entry| e@) =~= es.subrange(start, i as int + 1));
            assert(es.subrange(start, i as int + 1).drop_last() =~= es.subrange(start, i as int));
            lemma_recs_size_take_succ(es, i as int);
            assert(recs_size(es.subrange(start, i as int + 1)) == recs_size(
                es.subrange(start, i as int),
            ) + rec_size(es[i as int])) by {
                assert(es.subrange(start, i as int + 1).last() == es[i as int]);
            }
        }
        i = i + 1;
    }
    let part = Node { kind: n.kind, entries: cur };
    proof {
        let ps = part@.entries;
        assert(ps == es.subrange(start, cnt as int));
        assert forall|p: int, q: int| 0 <= p < q < ps.len() implies lex_lt(
            #[trigger] ps[p].key,
            #[trigger] ps[q].key,
        ) by {
            assert(lex_lt(es[start + p].key, es[start + q].key));
        }
        assert forall|k: int| 0 <= k < ps.len() implies entry_ok(#[trigger] ps[k]) && (n@.kind
            == crate::node::KIND_INTERNAL ==> ps[k].val.len() == 0) by {
            assert(ps[k] == es[start + k]);
            assert(entry_ok(es[start + k]));
        }
        assert(node_wf(part@));
    }
    let ghost old_parts = parts@.map_values(|p: Node| p@);
    let ghost parts_pre = parts@;
    let ghost last_size = node_size(part@);
    proof {
        assert(last_size == cur_size);
    }
    parts.push(part);
    proof {
        let new_parts = parts@.map_values(|p: Node| p@);
        assert(new_parts.drop_last() =~= old_parts);
        assert(es.take(cnt as int) =~= es);
        assert(parts_entries(new_parts) =~= es);
        let full_cuts = cuts.push(cnt as int);
        assert(split_cuts_ok(es, new_parts, full_cuts));
        // Adjacent output pairs never fit one page together: the closing
        // rule only starts a new group when the open one cannot take the
        // next slot, and groups only grow afterwards.
        assert forall|k: int| 0 <= k < parts@.len() - 1 implies node_size(
            merged_view((#[trigger] parts@[k])@, parts@[k + 1]@),
        ) > PAGE_SIZE as int by {
            crate::node::lemma_recs_size_add(parts@[k]@.entries, parts@[k + 1]@.entries);
            if k < parts_pre.len() - 1 {
                assert(parts@[k] == parts_pre[k]);
                assert(parts@[k + 1] == parts_pre[k + 1]);
                assert(node_size(merged_view(parts_pre[k]@, parts_pre[k + 1]@))
                    > PAGE_SIZE as int);
            } else {
                assert(parts@[k] == parts_pre[k]);
                assert(parts@[k + 1] == part);
                assert(node_size(parts_pre[k]@) + (cur_size - 4) > PAGE_SIZE as int);
                assert(node_size(merged_view(parts_pre[k]@, part@)) == node_size(parts_pre[k]@)
                    + last_size - 4);
            }
        }
    }
    parts
}

} // verus!
