//! The page binary format: encoding and decoding of one node.
//!
//! Layout, all fields little-endian: a four-byte header (kind tag, key
//! count), one eight-byte child pointer per slot, one two-byte cumulative
//! offset per slot (the offset of slot `i` is the number of record bytes
//! up to and including record `i`; the leading offset zero is implicit),
//! then the key-value records. Each record is a two-byte key length, a
//! two-byte value length, the key bytes and the value bytes.
//!
//! `spec_encode` is the format's definition; `encode_node` is proved to
//! produce it, and `decode_node` accepts a buffer only if re-encoding its
//! parse reproduces the buffer byte for byte, so every accepted buffer is
//! the canonical encoding of the node returned.

use vstd::prelude::*;

use crate::bytes::{append_bytes, le16, le64, push_le16, push_le64, read_u16, read_u64};
use crate::errors::BTreeError;
use crate::node::{
    clone_bytes, entries_sorted, entry_ok, lemma_recs_size_nonneg, lemma_recs_size_take_le,
    lemma_recs_size_take_succ, node_size, node_wf, rec_size, recs_size, Entry, EntryV, Node, NodeV,
    KIND_INTERNAL, KIND_LEAF, MAX_KEY_SIZE, MAX_VAL_SIZE, PAGE_SIZE,
};
use crate::order::{key_lt, lemma_lex_trans, lex_lt};

verus! {

/// The pointer array of the slots `es`.
pub open spec fn enc_ptrs(es: Seq<EntryV>) -> Seq<u8>
    decreases es.len(),
{
    if es.len() == 0 {
        Seq::empty()
    } else {
        enc_ptrs(es.drop_last()) + le64(es.last().ptr)
    }
}

/// The offset array of the slots `es`: after each slot, the cumulative
/// record bytes so far.
pub open spec fn enc_offs(es: Seq<EntryV>) -> Seq<u8>
    decreases es.len(),
{
    if es.len() == 0 {
        Seq::empty()
    } else {
        enc_offs(es.drop_last()) + le16(recs_size(es) as u16)
    }
}

/// One key-value record: both lengths, then the bytes.
pub open spec fn enc_rec(e: EntryV) -> Seq<u8> {
    le16(e.key.len() as u16) + le16(e.val.len() as u16) + e.key + e.val
}

/// The record region of the slots `es`.
pub open spec fn enc_recs(es: Seq<EntryV>) -> Seq<u8>
    decreases es.len(),
{
    if es.len() == 0 {
        Seq::empty()
    } else {
        enc_recs(es.drop_last()) + enc_rec(es.last())
    }
}

/// The encoded page image of node `n`: header, pointer array, offset
/// array, record region.
pub open spec fn spec_encode(n: NodeV) -> Seq<u8> {
    le16(n.kind) + le16(n.entries.len() as u16) + enc_ptrs(n.entries) + enc_offs(n.entries)
        + enc_recs(n.entries)
}

/// Region lengths of the encoding.
pub proof fn lemma_enc_lens(es: Seq<EntryV>)
    ensures
        enc_ptrs(es).len() == 8 * es.len(),
        enc_offs(es).len() == 2 * es.len(),
        enc_recs(es).len() == recs_size(es),
    decreases es.len(),
{
    if es.len() > 0 {
        lemma_enc_lens(es.drop_last());
    }
}

/// Extending the slot prefix by one extends each region by one cell.
proof fn lemma_enc_take_succ(es: Seq<EntryV>, i: int)
    requires
        0 <= i < es.len(),
    ensures
        enc_ptrs(es.take(i + 1)) == enc_ptrs(es.take(i)) + le64(es[i].ptr),
        enc_offs(es.take(i + 1)) == enc_offs(es.take(i)) + le16(recs_size(es.take(i + 1)) as u16),
        enc_recs(es.take(i + 1)) == enc_recs(es.take(i)) + enc_rec(es[i]),
{
    assert(es.take(i + 1).drop_last() =~= es.take(i));
    assert(es.take(i + 1).last() == es[i]);
}

/// Appends the pointer array of `n`'s slots.
fn write_ptrs(out: &mut Vec<u8>, n: &Node)
    ensures
        final(out)@ == old(out)@ + enc_ptrs(n@.entries),
{
    let ghost es = n@.entries;
    let cnt = n.entries.len();
    proof {
        assert(es.take(0) =~= Seq::<EntryV>::empty());
        assert(out@ =~= old(out)@ + enc_ptrs(es.take(0)));
    }
    let mut i: usize = 0;
    while i < cnt
        invariant
            i <= cnt,
            cnt == es.len(),
            es == n@.entries,
            out@ == old(out)@ + enc_ptrs(es.take(i as int)),
        decreases cnt - i,
    {
        push_le64(out, n.entries[i].ptr);
        proof {
            lemma_enc_take_succ(es, i as int);
            assert(out@ =~= old(out)@ + enc_ptrs(es.take(i as int + 1)));
        }
        i = i + 1;
    }
    proof {
        assert(es.take(cnt as int) =~= es);
    }
}

/// Appends the offset array of `n`'s slots.
fn write_offs(out: &mut Vec<u8>, n: &Node)
    requires
        node_wf(n@),
        node_size(n@) <= PAGE_SIZE as int,
    ensures
        final(out)@ == old(out)@ + enc_offs(n@.entries),
{
    let ghost es = n@.entries;
    let cnt = n.entries.len();
    proof {
        assert(es.take(0) =~= Seq::<EntryV>::empty());
        assert(out@ =~= old(out)@ + enc_offs(es.take(0)));
    }
    let mut off: usize = 0;
    let mut i: usize = 0;
    while i < cnt
        invariant
            i <= cnt,
            cnt == es.len(),
            es == n@.entries,
            node_wf(n@),
            node_size(n@) <= PAGE_SIZE as int,
            off == recs_size(es.take(i as int)),
            out@ == old(out)@ + enc_offs(es.take(i as int)),
        decreases cnt - i,
    {
        proof {
            lemma_recs_size_take_succ(es, i as int);
            lemma_recs_size_take_le(es, i as int + 1);
            lemma_recs_size_nonneg(es);
            assert(entry_ok(es[i as int]));
        }
        let e = &n.entries[i];
        off = off + 4 + e.key.len() + e.val.len();
        push_le16(out, off as u16);
        proof {
            lemma_enc_take_succ(es, i as int);
            assert(out@ =~= old(out)@ + enc_offs(es.take(i as int + 1)));
        }
        i = i + 1;
    }
    proof {
        assert(es.take(cnt as int) =~= es);
    }
}

/// Appends the record region of `n`'s slots.
fn write_recs(out: &mut Vec<u8>, n: &Node)
    requires
        node_wf(n@),
    ensures
        final(out)@ == old(out)@ + enc_recs(n@.entries),
{
    let ghost es = n@.entries;
    let cnt = n.entries.len();
    proof {
        assert(es.take(0) =~= Seq::<EntryV>::empty());
        assert(out@ =~= old(out)@ + enc_recs(es.take(0)));
    }
    let mut i: usize = 0;
    while i < cnt
        invariant
            i <= cnt,
            cnt == es.len(),
            es == n@.entries,
            node_wf(n@),
            out@ == old(out)@ + enc_recs(es.take(i as int)),
        decreases cnt - i,
    {
        proof {
            assert(entry_ok(es[i as int]));
        }
        let e = &n.entries[i];
        push_le16(out, e.key.len() as u16);
        push_le16(out, e.val.len() as u16);
        append_bytes(out, &e.key);
        append_bytes(out, &e.val);
        proof {
            lemma_enc_take_succ(es, i as int);
            assert(out@ =~= old(out)@ + enc_recs(es.take(i as int + 1)));
        }
        i = i + 1;
    }
    proof {
        assert(es.take(cnt as int) =~= es);
    }
}

/// Whether `b` is the canonical page image of the well-formed,
/// page-sized node `nv`.
pub open spec fn canonical_of(b: Seq<u8>, nv: NodeV) -> bool {
    node_wf(nv) && node_size(nv) <= PAGE_SIZE as int && b == spec_encode(nv)
}

/// The pointer cell of slot `i` within the pointer array.
proof fn lemma_enc_ptrs_at(es: Seq<EntryV>, i: int)
    requires
        0 <= i < es.len(),
    ensures
        enc_ptrs(es).len() == 8 * es.len(),
        enc_ptrs(es).subrange(8 * i, 8 * i + 8) == le64(es[i].ptr),
    decreases es.len(),
{
    lemma_enc_lens(es);
    lemma_enc_lens(es.drop_last());
    if i == es.len() - 1 {
        assert(enc_ptrs(es).subrange(8 * i, 8 * i + 8) =~= le64(es.last().ptr));
    } else {
        lemma_enc_ptrs_at(es.drop_last(), i);
        assert(es.drop_last()[i] == es[i]);
        assert(enc_ptrs(es).subrange(8 * i, 8 * i + 8) =~= enc_ptrs(es.drop_last()).subrange(
            8 * i,
            8 * i + 8,
        ));
    }
}

/// The record of slot `i` within the record region, between the
/// cumulative record sizes of its neighbours.
proof fn lemma_enc_recs_at(es: Seq<EntryV>, i: int)
    requires
        0 <= i < es.len(),
    ensures
        enc_recs(es).len() == recs_size(es),
        recs_size(es.take(i + 1)) == recs_size(es.take(i)) + rec_size(es[i]),
        0 <= recs_size(es.take(i)),
        recs_size(es.take(i + 1)) <= recs_size(es),
        enc_rec(es[i]).len() == rec_size(es[i]),
        enc_recs(es).subrange(recs_size(es.take(i)), recs_size(es.take(i + 1))) == enc_rec(
            es[i],
        ),
    decreases es.len(),
{
    lemma_enc_lens(es);
    lemma_enc_lens(es.drop_last());
    lemma_recs_size_take_succ(es, i);
    lemma_recs_size_take_le(es, i + 1);
    lemma_recs_size_nonneg(es.take(i));
    if i == es.len() - 1 {
        assert(es.take(i) =~= es.drop_last());
        assert(es.take(i + 1) =~= es);
        assert(enc_recs(es).subrange(recs_size(es.take(i)), recs_size(es.take(i + 1))) =~= enc_rec(
            es.last(),
        ));
    } else {
        lemma_enc_recs_at(es.drop_last(), i);
        assert(es.drop_last()[i] == es[i]);
        assert(es.drop_last().take(i) =~= es.take(i));
        assert(es.drop_last().take(i + 1) =~= es.take(i + 1));
        assert(enc_recs(es).subrange(recs_size(es.take(i)), recs_size(es.take(i + 1))) =~= enc_recs(
            es.drop_last(),
        ).subrange(recs_size(es.take(i)), recs_size(es.take(i + 1))));
    }
}

/// The header bytes of a canonical image.
proof fn lemma_canonical_header(b: Seq<u8>, nv: NodeV)
    requires
        canonical_of(b, nv),
    ensures
        b.len() == node_size(nv),
        nv.entries.len() <= 292,
        b[0] == (nv.kind % 256) as u8,
        b[1] == (nv.kind / 256) as u8,
        b[2] == ((nv.entries.len() as u16) % 256) as u8,
        b[3] == ((nv.entries.len() as u16) / 256) as u8,
{
    lemma_enc_lens(nv.entries);
    lemma_recs_size_nonneg(nv.entries);
    assert(le16(nv.kind).len() == 2);
    assert(le16(nv.entries.len() as u16).len() == 2);
    assert(b[0] == le16(nv.kind)[0]);
    assert(b[1] == le16(nv.kind)[1]);
    assert(b[2] == le16(nv.entries.len() as u16)[0]);
    assert(b[3] == le16(nv.entries.len() as u16)[1]);
}

/// The pointer bytes of slot `i` in a canonical image.
proof fn lemma_canonical_ptr(b: Seq<u8>, nv: NodeV, i: int)
    requires
        canonical_of(b, nv),
        0 <= i < nv.entries.len(),
    ensures
        forall|k: int| 0 <= k < 8 ==> b[4 + 8 * i + k] == le64(nv.entries[i].ptr)[k],
{
    lemma_enc_lens(nv.entries);
    lemma_enc_ptrs_at(nv.entries, i);
    assert(le64(nv.entries[i].ptr).len() == 8);
    assert forall|k: int| 0 <= k < 8 implies b[4 + 8 * i + k] == le64(nv.entries[i].ptr)[k] by {
        assert(b[4 + 8 * i + k] == enc_ptrs(nv.entries)[8 * i + k]);
        assert(enc_ptrs(nv.entries)[8 * i + k] == enc_ptrs(nv.entries).subrange(
            8 * i,
            8 * i + 8,
        )[k]);
    }
}

/// The record bytes of slot `i` in a canonical image, at its cumulative
/// offset past the tables.
proof fn lemma_canonical_rec(b: Seq<u8>, nv: NodeV, i: int)
    requires
        canonical_of(b, nv),
        0 <= i < nv.entries.len(),
    ensures
        recs_size(nv.entries.take(i + 1)) == recs_size(nv.entries.take(i)) + rec_size(
            nv.entries[i],
        ),
        0 <= recs_size(nv.entries.take(i)),
        recs_size(nv.entries.take(i + 1)) <= recs_size(nv.entries),
        forall|t: int|
            0 <= t < rec_size(nv.entries[i]) ==> b[4 + 10 * nv.entries.len() + recs_size(
                nv.entries.take(i),
            ) + t] == enc_rec(nv.entries[i])[t],
{
    let es = nv.entries;
    lemma_enc_lens(es);
    lemma_enc_recs_at(es, i);
    let base = 4 + 10 * es.len();
    assert forall|t: int| 0 <= t < rec_size(es[i]) implies b[base + recs_size(es.take(i)) + t]
        == enc_rec(es[i])[t] by {
        assert(b[base + recs_size(es.take(i)) + t] == enc_recs(es)[recs_size(es.take(i)) + t]);
        assert(enc_recs(es)[recs_size(es.take(i)) + t] == enc_recs(es).subrange(
            recs_size(es.take(i)),
            recs_size(es.take(i + 1)),
        )[t]);
    }
}

/// Encodes `n` into its page image.
pub fn encode_node(n: &Node) -> (r: Vec<u8>)
    requires
        node_wf(n@),
        node_size(n@) <= PAGE_SIZE as int,
    ensures
        r@ == spec_encode(n@),
        r@.len() == node_size(n@),
{
    let ghost es = n@.entries;
    let cnt = n.entries.len();
    let mut out: Vec<u8> = Vec::new();
    push_le16(&mut out, n.kind);
    push_le16(&mut out, cnt as u16);
    proof {
        assert(out@ =~= le16(n@.kind) + le16(es.len() as u16));
    }
    write_ptrs(&mut out, n);
    write_offs(&mut out, n);
    write_recs(&mut out, n);
    proof {
        assert(out@ =~= spec_encode(n@));
        lemma_enc_lens(es);
        assert(le16(n@.kind).len() == 2);
        assert(le16(es.len() as u16).len() == 2);
    }
    out
}

/// Computes the encoded size of `n` without encoding it.
pub fn node_used_size(n: &Node) -> (r: usize)
    requires
        n@.entries.len() <= 65535,
        forall|i: int| 0 <= i < n@.entries.len() ==> entry_ok(#[trigger] n@.entries[i]),
    ensures
        r == node_size(n@),
{
    let ghost es = n@.entries;
    let cnt = n.entries.len();
    let mut acc: usize = 4;
    let mut i: usize = 0;
    while i < cnt
        invariant
            i <= cnt,
            cnt == es.len(),
            es == n@.entries,
            cnt <= 65535,
            forall|j: int| 0 <= j < es.len() ==> entry_ok(#[trigger] es[j]),
            acc == 4 + 10 * i + recs_size(es.take(i as int)),
            acc <= 4 + 4016 * i,
        decreases cnt - i,
    {
        proof {
            lemma_recs_size_take_succ(es, i as int);
            assert(entry_ok(es[i as int]));
        }
        let e = &n.entries[i];
        acc = acc + 10 + 4 + e.key.len() + e.val.len();
        i = i + 1;
    }
    proof {
        assert(es.take(cnt as int) =~= es);
    }
    acc
}

/// Checks the whole well-formedness predicate of a node, with the page
/// size bound.
pub fn check_node(n: &Node) -> (r: bool)
    ensures
        r == (node_wf(n@) && node_size(n@) <= PAGE_SIZE as int),
{
    let ghost es = n@.entries;
    if !(n.kind == KIND_INTERNAL || n.kind == KIND_LEAF) {
        return false;
    }
    let cnt = n.entries.len();
    if cnt > 65535 {
        return false;
    }
    let mut i: usize = 0;
    while i < cnt
        invariant
            i <= cnt,
            cnt == es.len(),
            es == n@.entries,
            n@.kind == KIND_INTERNAL || n@.kind == KIND_LEAF,
            forall|j: int| 0 <= j < i ==> entry_ok(#[trigger] es[j]),
            n@.kind == KIND_INTERNAL ==> forall|j: int| 0 <= j < i ==> (#[trigger] es[j]).val.len() == 0,
        decreases cnt - i,
    {
        let e = &n.entries[i];
        if e.key.len() > MAX_KEY_SIZE || e.val.len() > MAX_VAL_SIZE {
            proof {
                assert(!entry_ok(es[i as int]));
                assert(!node_wf(n@));
            }
            return false;
        }
        if n.kind == KIND_INTERNAL && e.val.len() > 0 {
            proof {
                assert((#[trigger] es[i as int]).val.len() > 0);
                assert(!node_wf(n@));
            }
            return false;
        }
        i = i + 1;
    }
    if cnt > 0 {
        let mut i: usize = 0;
        while i + 1 < cnt
            invariant
                i < cnt,
                cnt == es.len(),
                es == n@.entries,
                entries_sorted(es.take(i as int + 1)),
            decreases cnt - i,
        {
            if !key_lt(&n.entries[i].key, &n.entries[i + 1].key) {
                proof {
                    assert(!lex_lt(
                        #[trigger] es[i as int].key,
                        #[trigger] es[i as int + 1].key,
                    ));
                    assert(!entries_sorted(es));
                    assert(!node_wf(n@));
                }
                return false;
            }
            proof {
                assert forall|p: int, q: int| 0 <= p < q < i + 2 implies lex_lt(
                    #[trigger] es[p].key,
                    #[trigger] es[q].key,
                ) by {
                    assert(lex_lt(es[i as int].key, es[i as int + 1].key));
                    if q <= i {
                        assert(lex_lt(es.take(i as int + 1)[p].key, es.take(i as int + 1)[q].key));
                    } else if p < i {
                        assert(lex_lt(es.take(i as int + 1)[p].key, es.take(i as int + 1)[i as int].key));
                        lemma_lex_trans(es[p].key, es[i as int].key, es[q].key);
                    }
                }
                assert(entries_sorted(es.take(i as int + 2)));
            }
            i = i + 1;
        }
        proof {
            assert(es.take(cnt as int) =~= es);
        }
    }
    proof {
        assert(entries_sorted(es));
        assert(node_wf(n@));
    }
    let size = node_used_size(n);
    size <= PAGE_SIZE
}

/// Decodes a page image.
///
/// The parse is validated by re-encoding: a buffer is accepted exactly
/// when it is byte for byte the canonical encoding of a well-formed node
/// that fits a page, and the node returned is that node; in particular
/// every canonical image decodes successfully to its node. A rejected
/// buffer signals corruption.
#[verifier::rlimit(100)]
#[verifier::spinoff_prover]
pub fn decode_node(b: &Vec<u8>) -> (r: Result<Node, BTreeError>)
    ensures
        r matches Ok(n) ==> node_wf(n@) && node_size(n@) <= PAGE_SIZE as int && spec_encode(n@)
            == b@ && b@.len() == node_size(n@),
        r is Err ==> r == Err::<Node, BTreeError>(BTreeError::IndexOutOfBounds),
        forall|nv: NodeV| #[trigger] canonical_of(b@, nv) ==> (r matches Ok(n) && n@ == nv),
{
    if b.len() < 4 || b.len() > PAGE_SIZE {
        proof {
            assert forall|nv: NodeV| !canonical_of(b@, nv) by {
                if canonical_of(b@, nv) {
                    lemma_canonical_header(b@, nv);
                    lemma_recs_size_nonneg(nv.entries);
                }
            }
        }
        return Err(BTreeError::IndexOutOfBounds);
    }
    let kind = read_u16(b, 0);
    let cnt = read_u16(b, 2) as usize;
    proof {
        assert forall|nv: NodeV| #[trigger] canonical_of(b@, nv) implies kind == nv.kind && cnt
            == nv.entries.len() by {
            lemma_canonical_header(b@, nv);
            let k16 = nv.kind;
            assert(k16 % 256 + k16 / 256 * 256 == k16) by (bit_vector);
            let c16 = nv.entries.len() as u16;
            assert(c16 % 256 + c16 / 256 * 256 == c16) by (bit_vector);
        }
    }
    if cnt > 341 {
        // A page cannot hold more: each slot takes at least 14 bytes.
        proof {
            assert forall|nv: NodeV| !canonical_of(b@, nv) by {
                if canonical_of(b@, nv) {
                    lemma_canonical_header(b@, nv);
                }
            }
        }
        return Err(BTreeError::IndexOutOfBounds);
    }
    let base = 4 + 10 * cnt;
    if base > b.len() {
        proof {
            assert forall|nv: NodeV| !canonical_of(b@, nv) by {
                if canonical_of(b@, nv) {
                    lemma_canonical_header(b@, nv);
                    lemma_recs_size_nonneg(nv.entries);
                }
            }
        }
        return Err(BTreeError::IndexOutOfBounds);
    }
    let mut entries: Vec<Entry> = Vec::new();
    let mut pos = base;
    let mut i: usize = 0;
    proof {
        assert forall|nv: NodeV| #[trigger] canonical_of(b@, nv) implies pos == 4 + 10
            * nv.entries.len() + recs_size(nv.entries.take(0)) by {
            assert(nv.entries.take(0) =~= Seq::<EntryV>::empty());
        }
    }
    while i < cnt
        invariant
            i <= cnt,
            cnt <= 341,
            base == 4 + 10 * cnt,
            base <= b@.len(),
            base <= pos <= b@.len(),
            b@.len() <= PAGE_SIZE as int,
            entries@.len() == i,
            forall|nv: NodeV| #[trigger] canonical_of(b@, nv) ==> kind == nv.kind && cnt
                == nv.entries.len() && pos == 4 + 10 * nv.entries.len() + recs_size(
                nv.entries.take(i as int),
            ),
            forall|nv: NodeV, m: int|
                #![trigger canonical_of(b@, nv), entries@[m]]
                canonical_of(b@, nv) && 0 <= m < i ==> entries@[m]@ == nv.entries[m],
        decreases cnt - i,
    {
        if pos + 4 > b.len() {
            proof {
                assert forall|nv: NodeV| !canonical_of(b@, nv) by {
                    if canonical_of(b@, nv) {
                        lemma_canonical_header(b@, nv);
                        lemma_canonical_rec(b@, nv, i as int);
                        assert(rec_size(nv.entries[i as int]) >= 4);
                    }
                }
            }
            return Err(BTreeError::IndexOutOfBounds);
        }
        let klen = read_u16(b, pos) as usize;
        let vlen = read_u16(b, pos + 2) as usize;
        proof {
            assert forall|nv: NodeV| #[trigger] canonical_of(b@, nv) implies klen
                == nv.entries[i as int].key.len() && vlen == nv.entries[i as int].val.len() by {
                lemma_canonical_header(b@, nv);
                lemma_canonical_rec(b@, nv, i as int);
                let e = nv.entries[i as int];
                let rec = enc_rec(e);
                assert(le16(e.key.len() as u16).len() == 2);
                assert(le16(e.val.len() as u16).len() == 2);
                assert(rec[0] == le16(e.key.len() as u16)[0]);
                assert(rec[1] == le16(e.key.len() as u16)[1]);
                assert(rec[2] == le16(e.val.len() as u16)[0]);
                assert(rec[3] == le16(e.val.len() as u16)[1]);
                let base0 = 4 + 10 * nv.entries.len() as int + recs_size(
                    nv.entries.take(i as int),
                );
                assert(b@[base0 + 0] == rec[0] && b@[base0 + 1] == rec[1] && b@[base0 + 2]
                    == rec[2] && b@[base0 + 3] == rec[3]);
                let kl = e.key.len() as u16;
                assert(kl % 256 + kl / 256 * 256 == kl) by (bit_vector);
                let vl = e.val.len() as u16;
                assert(vl % 256 + vl / 256 * 256 == vl) by (bit_vector);
            }
        }
        if klen + vlen > b.len() - pos - 4 {
            proof {
                assert forall|nv: NodeV| !canonical_of(b@, nv) by {
                    if canonical_of(b@, nv) {
                        lemma_canonical_header(b@, nv);
                        lemma_canonical_rec(b@, nv, i as int);
                    }
                }
            }
            return Err(BTreeError::IndexOutOfBounds);
        }
        let ptr = read_u64(b, 4 + 8 * i);
        proof {
            assert forall|nv: NodeV| #[trigger] canonical_of(b@, nv) implies ptr
                == nv.entries[i as int].ptr by {
                lemma_canonical_header(b@, nv);
                lemma_canonical_ptr(b@, nv, i as int);
                let x = nv.entries[i as int].ptr;
                assert(le64(x).len() == 8);
                assert(x % 256 + (x / 256 % 256) * 256 + (x / 0x10000 % 256) * 0x10000 + (x
                    / 0x1000000 % 256) * 0x1000000 + (x / 0x100000000 % 256) * 0x100000000 + (x
                    / 0x10000000000 % 256) * 0x10000000000 + (x / 0x1000000000000 % 256)
                    * 0x1000000000000 + (x / 0x100000000000000) * 0x100000000000000 == x)
                    by (bit_vector);
            }
        }
        let mut key: Vec<u8> = Vec::new();
        let mut j: usize = 0;
        while j < klen
            invariant
                j <= klen,
                pos + 4 + klen <= b@.len(),
                b@.len() <= PAGE_SIZE as int,
                key@ == b@.subrange(pos as int + 4, pos as int + 4 + j as int),
            decreases klen - j,
        {
            key.push(b[pos + 4 + j]);
            proof {
                assert(key@ =~= b@.subrange(pos as int + 4, pos as int + 4 + j as int + 1));
            }
            j = j + 1;
        }
        let mut val: Vec<u8> = Vec::new();
        let mut j: usize = 0;
        while j < vlen
            invariant
                j <= vlen,
                pos + 4 + klen + vlen <= b@.len(),
                b@.len() <= PAGE_SIZE as int,
                val@ == b@.subrange(
                    pos as int + 4 + klen as int,
                    pos as int + 4 + klen as int + j as int,
                ),
            decreases vlen - j,
        {
            val.push(b[pos + 4 + klen + j]);
            proof {
                assert(val@ =~= b@.subrange(
                    pos as int + 4 + klen as int,
                    pos as int + 4 + klen as int + j as int + 1,
                ));
            }
            j = j + 1;
        }
        let e2 = Entry { key, val, ptr };
        proof {
            assert forall|nv: NodeV| #[trigger] canonical_of(b@, nv) implies e2@
                == nv.entries[i as int] by {
                lemma_canonical_header(b@, nv);
                lemma_canonical_rec(b@, nv, i as int);
                let e = nv.entries[i as int];
                let rec = enc_rec(e);
                let base0 = 4 + 10 * nv.entries.len() as int + recs_size(
                    nv.entries.take(i as int),
                );
                assert(le16(e.key.len() as u16).len() == 2);
                assert(le16(e.val.len() as u16).len() == 2);
                assert forall|t: int| 0 <= t < e.key.len() implies e2@.key[t] == e.key[t] by {
                    assert(e2@.key[t] == b@[pos as int + 4 + t]);
                    assert(b@[base0 + (4 + t)] == rec[4 + t]);
                    assert(rec[4 + t] == e.key[t]);
                }
                assert(e2@.key =~= e.key);
                assert forall|t: int| 0 <= t < e.val.len() implies e2@.val[t] == e.val[t] by {
                    assert(e2@.val[t] == b@[pos as int + 4 + klen as int + t]);
                    assert(b@[base0 + (4 + e.key.len() + t)] == rec[4 + e.key.len() + t]);
                    assert(rec[4 + e.key.len() + t] == e.val[t]);
                }
                assert(e2@.val =~= e.val);
                assert(e2@ =~= e);
            }
        }
        let ghost prev = entries@;
        entries.push(e2);
        pos = pos + 4 + klen + vlen;
        proof {
            assert(entries@ == prev.push(e2));
            assert forall|nv: NodeV| #[trigger] canonical_of(b@, nv) implies pos == 4 + 10
                * nv.entries.len() + recs_size(nv.entries.take(i as int + 1)) by {
                lemma_canonical_header(b@, nv);
                lemma_canonical_rec(b@, nv, i as int);
            }
            assert forall|nv: NodeV, m: int|
                #![trigger canonical_of(b@, nv), entries@[m]]
                canonical_of(b@, nv) && 0 <= m < i + 1 implies entries@[m]@ == nv.entries[m] by {
                if m < i {
                    assert(entries@[m] == prev[m]);
                    assert(prev[m]@ == nv.entries[m]);
                } else {
                    assert(entries@[m] == e2);
                }
            }
        }
        i = i + 1;
    }
    let node = Node { kind, entries };
    proof {
        assert forall|nv: NodeV| #[trigger] canonical_of(b@, nv) implies node@ == nv by {
            assert(node@.kind == nv.kind);
            assert forall|m: int| 0 <= m < cnt implies node@.entries[m] == nv.entries[m] by {
                assert(node@.entries[m] == entries@[m]@);
                assert(entries@[m]@ == nv.entries[m]);
            }
            assert(node@.entries =~= nv.entries);
            assert(node@ =~= nv);
        }
    }
    if !check_node(&node) {
        proof {
            assert forall|nv: NodeV| !canonical_of(b@, nv) by {
                if canonical_of(b@, nv) {
                    assert(node@ == nv);
                }
            }
        }
        return Err(BTreeError::IndexOutOfBounds);
    }
    let image = encode_node(&node);
    if image.len() != b.len() {
        proof {
            assert forall|nv: NodeV| !canonical_of(b@, nv) by {
                if canonical_of(b@, nv) {
                    assert(node@ == nv);
                    assert(image@ == b@);
                }
            }
        }
        return Err(BTreeError::IndexOutOfBounds);
    }
    let mut k: usize = 0;
    while k < image.len()
        invariant
            k <= image@.len(),
            image@.len() == b@.len(),
            image@ == spec_encode(node@),
            node_wf(node@) && node_size(node@) <= PAGE_SIZE as int,
            forall|nv: NodeV| #[trigger] canonical_of(b@, nv) ==> node@ == nv,
            forall|j: int| 0 <= j < k ==> image@[j] == b@[j],
        decreases image@.len() - k,
    {
        if image[k] != b[k] {
            proof {
                assert forall|nv: NodeV| !canonical_of(b@, nv) by {
                    if canonical_of(b@, nv) {
                        assert(node@ == nv);
                        assert(image@ == b@);
                    }
                }
            }
            return Err(BTreeError::IndexOutOfBounds);
        }
        k = k + 1;
    }
    proof {
        assert(image@ =~= b@);
    }
    Ok(node)
}

} // verus!
