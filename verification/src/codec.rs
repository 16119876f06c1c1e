use vstd::prelude::*;
use vstd::bytes::{lemma_auto_spec_u16_to_from_le_bytes, lemma_auto_spec_u32_to_from_le_bytes,
    lemma_auto_spec_u64_to_from_le_bytes, spec_u16_from_le_bytes, spec_u16_to_le_bytes,
    spec_u32_from_le_bytes, spec_u32_to_le_bytes, spec_u64_from_le_bytes, spec_u64_to_le_bytes,
    u16_from_le_bytes, u16_to_le_bytes, u32_from_le_bytes, u32_to_le_bytes, u64_from_le_bytes,
    u64_to_le_bytes};
use vstd::slice::{slice_subrange, slice_to_vec};
use vstd::utf8::valid_utf8;

use crate::errors::DbError;
use crate::node::{BTreeNode, NodeView, PAGE_SIZE};

verus! {

/// `n` zero bytes.
pub open spec fn zero_bytes(n: int) -> Seq<u8> {
    Seq::new(n as nat, |i: int| 0u8)
}

/// The forward-region bytes of one key entry: the key length as a
/// little-endian u32, the data offset as a little-endian u64, then the
/// key bytes themselves.
pub open spec fn entry_bytes(k: Seq<u8>, d: u64) -> Seq<u8> {
    spec_u32_to_le_bytes(k.len() as u32) + spec_u64_to_le_bytes(d) + k
}

/// The forward-region bytes of all key entries, in key order.
pub open spec fn entries_bytes(ks: Seq<Seq<u8>>, ds: Seq<u64>) -> Seq<u8>
    decreases ks.len(),
{
    if ks.len() == 0 {
        Seq::empty()
    } else {
        entry_bytes(ks[0], ds[0]) + entries_bytes(ks.drop_first(), ds.drop_first())
    }
}

/// The length in bytes of the encoded key entries: twelve bytes of
/// header per entry plus the key bytes.
pub open spec fn entries_len(ks: Seq<Seq<u8>>) -> int
    decreases ks.len(),
{
    if ks.len() == 0 {
        0
    } else {
        12 + ks[0].len() + entries_len(ks.drop_first())
    }
}

/// The backward-region bytes: the child page offsets as consecutive
/// little-endian u64 values.
pub open spec fn children_bytes(cs: Seq<u64>) -> Seq<u8>
    decreases cs.len(),
{
    if cs.len() == 0 {
        Seq::empty()
    } else {
        spec_u64_to_le_bytes(cs[0]) + children_bytes(cs.drop_first())
    }
}

/// Whether a node's encoding fits in one page: leaf flag and key count
/// take three bytes, then the key entries, and the child offsets at the
/// end of the page.
pub open spec fn node_fits(v: NodeView) -> bool {
    3 + entries_len(v.keys) + 8 * v.child_page_offsets.len() <= PAGE_SIZE
}

/// The page image of a node: leaf flag, key count as little-endian u16,
/// the key entries growing forward, zeroes in the unused middle, and the
/// child page offsets packed against the end of the page.
pub open spec fn encode_node(v: NodeView) -> Seq<u8> {
    let fwd = seq![if v.is_leaf { 1u8 } else { 0u8 }] + spec_u16_to_le_bytes(v.keys.len() as u16)
        + entries_bytes(v.keys, v.data_offsets);
    let tail = children_bytes(v.child_page_offsets);
    fwd + zero_bytes(PAGE_SIZE - fwd.len() - tail.len()) + tail
}

/// Parse `n` key entries forward from `cursor`, refusing any entry that
/// would cross `tail` or whose key bytes are not valid UTF-8. Yields the
/// keys, the data offsets, and the cursor after the last entry.
pub open spec fn parse_entries(page: Seq<u8>, cursor: int, n: int, tail: int) -> Option<
    (Seq<Seq<u8>>, Seq<u64>, int)>
    decreases n,
{
    if n <= 0 {
        Some((Seq::empty(), Seq::empty(), cursor))
    } else if cursor + 12 > tail {
        None
    } else {
        let klen = spec_u32_from_le_bytes(page.subrange(cursor, cursor + 4)) as int;
        let d = spec_u64_from_le_bytes(page.subrange(cursor + 4, cursor + 12));
        if cursor + 12 + klen > tail {
            None
        } else {
            let k = page.subrange(cursor + 12, cursor + 12 + klen);
            if !valid_utf8(k) {
                None
            } else {
                match parse_entries(page, cursor + 12 + klen, n - 1, tail) {
                    None => None,
                    Some((ks, ds, end)) => Some((seq![k] + ks, seq![d] + ds, end)),
                }
            }
        }
    }
}

/// The `m` child page offsets packed against the end of the page:
/// child `i` sits at bytes `PAGE_SIZE - 8*(m-i) .. PAGE_SIZE - 8*(m-i-1)`.
pub open spec fn parse_children(page: Seq<u8>, m: int) -> Seq<u64> {
    Seq::new(m as nat, |i: int| spec_u64_from_le_bytes(
        page.subrange(PAGE_SIZE - 8 * (m - i), PAGE_SIZE - 8 * (m - i - 1))))
}

/// Decode one page into a node at `offset`, or nothing when the page is
/// corrupt: a leaf flag other than 0 or 1, a key entry crossing the
/// start of the child-offset region, a key that is not UTF-8, or a
/// child-offset region overlapping the three header bytes.
pub open spec fn decode_page(page: Seq<u8>, offset: u64) -> Option<NodeView> {
    if page.len() != PAGE_SIZE {
        None
    } else if page[0] != 0 && page[0] != 1 {
        None
    } else {
        let is_leaf = page[0] == 1;
        let n = spec_u16_from_le_bytes(page.subrange(1, 3)) as int;
        let tail = if is_leaf { PAGE_SIZE as int } else { PAGE_SIZE - 8 * (n + 1) };
        if tail < 3 {
            None
        } else {
            match parse_entries(page, 3, n, tail) {
                None => None,
                Some((ks, ds, end)) => Some(NodeView {
                    offset,
                    is_leaf,
                    keys: ks,
                    data_offsets: ds,
                    child_page_offsets: if is_leaf {
                        Seq::empty()
                    } else {
                        parse_children(page, n + 1)
                    },
                }),
            }
        }
    }
}

/// Splitting the key sequence splits its encoded length.
pub proof fn lemma_entries_len_append(ks1: Seq<Seq<u8>>, ks2: Seq<Seq<u8>>)
    ensures
        entries_len(ks1 + ks2) == entries_len(ks1) + entries_len(ks2),
    decreases ks1.len(),
{
    if ks1.len() == 0 {
        assert(ks1 + ks2 =~= ks2);
    } else {
        assert((ks1 + ks2).drop_first() =~= ks1.drop_first() + ks2);
        lemma_entries_len_append(ks1.drop_first(), ks2);
    }
}

/// The encoded length is at least twelve bytes per key, and covers each
/// key's own bytes.
pub proof fn lemma_entries_len_parts(ks: Seq<Seq<u8>>)
    ensures
        entries_len(ks) >= 12 * ks.len(),
        forall|i: int| 0 <= i < ks.len() ==> 12 + (#[trigger] ks[i]).len() <= entries_len(ks),
    decreases ks.len(),
{
    if ks.len() > 0 {
        lemma_entries_len_parts(ks.drop_first());
        assert forall|i: int| 0 <= i < ks.len() implies 12 + (#[trigger] ks[i]).len()
            <= entries_len(ks) by {
            if i > 0 {
                assert(ks[i] == ks.drop_first()[i - 1]);
            }
        }
    }
}

/// The encoded entry bytes are as long as `entries_len` says.
pub proof fn lemma_entries_bytes_len(ks: Seq<Seq<u8>>, ds: Seq<u64>)
    ensures
        entries_bytes(ks, ds).len() == entries_len(ks),
    decreases ks.len(),
{
    lemma_auto_spec_u32_to_from_le_bytes();
    lemma_auto_spec_u64_to_from_le_bytes();
    if ks.len() > 0 {
        lemma_entries_bytes_len(ks.drop_first(), ds.drop_first());
    }
}

/// Splitting the key sequence splits its encoded bytes.
pub proof fn lemma_entries_bytes_append(ks1: Seq<Seq<u8>>, ds1: Seq<u64>, ks2: Seq<Seq<u8>>,
    ds2: Seq<u64>)
    requires
        ds1.len() == ks1.len(),
    ensures
        entries_bytes(ks1 + ks2, ds1 + ds2) == entries_bytes(ks1, ds1) + entries_bytes(ks2, ds2),
    decreases ks1.len(),
{
    if ks1.len() == 0 {
        assert(ks1 + ks2 =~= ks2);
        assert(ds1 + ds2 =~= ds2);
        assert(entries_bytes(ks1, ds1) + entries_bytes(ks2, ds2) =~= entries_bytes(ks2, ds2));
    } else {
        assert((ks1 + ks2).drop_first() =~= ks1.drop_first() + ks2);
        assert((ds1 + ds2).drop_first() =~= ds1.drop_first() + ds2);
        assert((ks1 + ks2)[0] == ks1[0]);
        assert((ds1 + ds2)[0] == ds1[0]);
        lemma_entries_bytes_append(ks1.drop_first(), ds1.drop_first(), ks2, ds2);
        assert(entry_bytes(ks1[0], ds1[0]) + (entries_bytes(ks1.drop_first(), ds1.drop_first())
            + entries_bytes(ks2, ds2)) =~= (entry_bytes(ks1[0], ds1[0]) + entries_bytes(
            ks1.drop_first(), ds1.drop_first())) + entries_bytes(ks2, ds2));
    }
}

/// One more entry extends the encoded prefix by that entry's bytes.
pub proof fn lemma_entries_bytes_take_succ(ks: Seq<Seq<u8>>, ds: Seq<u64>, i: int)
    requires
        ds.len() == ks.len(),
        0 <= i < ks.len(),
    ensures
        entries_bytes(ks.take(i + 1), ds.take(i + 1)) == entries_bytes(ks.take(i), ds.take(i))
            + entry_bytes(ks[i], ds[i]),
        entries_len(ks.take(i + 1)) == entries_len(ks.take(i)) + 12 + ks[i].len(),
{
    let single_k = seq![ks[i]];
    let single_d = seq![ds[i]];
    assert(single_k.drop_first() =~= Seq::<Seq<u8>>::empty());
    assert(single_d.drop_first() =~= Seq::<u64>::empty());
    assert(single_k[0] == ks[i] && single_d[0] == ds[i]);
    assert(entries_bytes(Seq::<Seq<u8>>::empty(), Seq::<u64>::empty()) =~= Seq::<u8>::empty());
    assert(entries_len(Seq::<Seq<u8>>::empty()) == 0);
    assert(entries_bytes(single_k, single_d) =~= entry_bytes(ks[i], ds[i]));
    assert(entries_len(single_k) == 12 + ks[i].len());
    assert(ks.take(i + 1) =~= ks.take(i) + single_k);
    assert(ds.take(i + 1) =~= ds.take(i) + single_d);
    lemma_entries_bytes_append(ks.take(i), ds.take(i), single_k, single_d);
    lemma_entries_len_append(ks.take(i), single_k);
}

/// The child-offset bytes are eight per child.
pub proof fn lemma_children_bytes_len(cs: Seq<u64>)
    ensures
        children_bytes(cs).len() == 8 * cs.len(),
    decreases cs.len(),
{
    if cs.len() > 0 {
        lemma_children_bytes_len(cs.drop_first());
        lemma_auto_spec_u64_to_from_le_bytes();
    }
}

/// Child `i` occupies bytes `8*i .. 8*i + 8` of the child-offset bytes.
pub proof fn lemma_children_bytes_index(cs: Seq<u64>, i: int)
    requires
        0 <= i < cs.len(),
    ensures
        children_bytes(cs).subrange(8 * i, 8 * i + 8) == spec_u64_to_le_bytes(cs[i]),
    decreases i,
{
    lemma_children_bytes_len(cs);
    lemma_children_bytes_len(cs.drop_first());
    lemma_auto_spec_u64_to_from_le_bytes();
    if i == 0 {
        assert(children_bytes(cs).subrange(0, 8) =~= spec_u64_to_le_bytes(cs[0]));
    } else {
        lemma_children_bytes_index(cs.drop_first(), i - 1);
        assert(children_bytes(cs).subrange(8 * i, 8 * i + 8) =~= children_bytes(
            cs.drop_first()).subrange(8 * (i - 1), 8 * (i - 1) + 8));
        assert(cs.drop_first()[i - 1] == cs[i]);
    }
}

/// Splitting the child sequence splits its encoded bytes.
pub proof fn lemma_children_bytes_append(cs1: Seq<u64>, cs2: Seq<u64>)
    ensures
        children_bytes(cs1 + cs2) == children_bytes(cs1) + children_bytes(cs2),
    decreases cs1.len(),
{
    if cs1.len() == 0 {
        assert(cs1 + cs2 =~= cs2);
        assert(children_bytes(cs1) + children_bytes(cs2) =~= children_bytes(cs2));
    } else {
        assert((cs1 + cs2).drop_first() =~= cs1.drop_first() + cs2);
        assert((cs1 + cs2)[0] == cs1[0]);
        lemma_children_bytes_append(cs1.drop_first(), cs2);
        assert(spec_u64_to_le_bytes(cs1[0]) + (children_bytes(cs1.drop_first()) + children_bytes(
            cs2)) =~= (spec_u64_to_le_bytes(cs1[0]) + children_bytes(cs1.drop_first()))
            + children_bytes(cs2));
    }
}

/// Parsing the encoded entries from within a larger page yields the
/// entries back and leaves the cursor just past them.
pub proof fn lemma_parse_entries_round(page: Seq<u8>, cursor: int, ks: Seq<Seq<u8>>, ds: Seq<u64>,
    tail: int)
    requires
        ds.len() == ks.len(),
        forall|i: int| 0 <= i < ks.len() ==> valid_utf8(#[trigger] ks[i]),
        forall|i: int| 0 <= i < ks.len() ==> (#[trigger] ks[i]).len() < 0x1_0000_0000,
        0 <= cursor,
        cursor + entries_len(ks) <= tail <= page.len(),
        page.subrange(cursor, cursor + entries_len(ks)) == entries_bytes(ks, ds),
    ensures
        parse_entries(page, cursor, ks.len() as int, tail) == Some(
            (ks, ds, cursor + entries_len(ks))),
    decreases ks.len(),
{
    lemma_auto_spec_u32_to_from_le_bytes();
    lemma_auto_spec_u64_to_from_le_bytes();
    lemma_entries_bytes_len(ks, ds);
    lemma_entries_len_parts(ks);
    if ks.len() == 0 {
        assert(ks =~= Seq::<Seq<u8>>::empty());
        assert(ds =~= Seq::<u64>::empty());
    } else {
        let k0 = ks[0];
        let d0 = ds[0];
        let lb = spec_u32_to_le_bytes(k0.len() as u32);
        let db = spec_u64_to_le_bytes(d0);
        let eb = entry_bytes(k0, d0);
        let rest_ks = ks.drop_first();
        let rest_ds = ds.drop_first();
        let rest = entries_bytes(rest_ks, rest_ds);
        let whole = entries_bytes(ks, ds);
        lemma_entries_bytes_len(rest_ks, rest_ds);
        lemma_entries_len_parts(rest_ks);
        assert(whole == eb + rest);
        assert(eb.len() == 12 + k0.len());
        assert(forall|t: int| 0 <= t < whole.len() ==> page[cursor + t] == #[trigger] whole[t])
            by {
            assert(forall|t: int| 0 <= t < whole.len() ==> #[trigger] whole[t]
                == page.subrange(cursor, cursor + entries_len(ks))[t]);
        }
        assert(page.subrange(cursor, cursor + 4) =~= lb);
        assert(page.subrange(cursor + 4, cursor + 12) =~= db) by {
            assert forall|t: int| 0 <= t < 8 implies page[cursor + 4 + t] == db[t] by {
                assert(page[cursor + 4 + t] == whole[4 + t]);
                assert(whole[4 + t] == eb[4 + t]);
                assert(eb[4 + t] == db[t]);
            }
        }
        let klen = spec_u32_from_le_bytes(page.subrange(cursor, cursor + 4)) as int;
        assert(klen == k0.len());
        assert(cursor + 12 + klen <= tail);
        assert(page.subrange(cursor + 12, cursor + 12 + klen) =~= k0) by {
            assert forall|t: int| 0 <= t < k0.len() implies page[cursor + 12 + t] == k0[t] by {
                assert(page[cursor + 12 + t] == whole[12 + t]);
                assert(whole[12 + t] == eb[12 + t]);
                assert(eb[12 + t] == k0[t]);
            }
        }
        let cursor2 = cursor + 12 + klen;
        assert forall|i: int| 0 <= i < rest_ks.len() implies valid_utf8(#[trigger] rest_ks[i])
            && (#[trigger] rest_ks[i]).len() < 0x1_0000_0000 by {
            assert(rest_ks[i] == ks[i + 1]);
        }
        assert(page.subrange(cursor2, cursor2 + entries_len(rest_ks)) =~= rest) by {
            assert forall|t: int| 0 <= t < rest.len() implies page[cursor2 + t] == rest[t] by {
                assert(page[cursor + (eb.len() + t)] == whole[eb.len() + t]);
                assert(whole[eb.len() + t] == rest[t]);
            }
        }
        lemma_parse_entries_round(page, cursor2, rest_ks, rest_ds, tail);
        assert(seq![k0] + rest_ks =~= ks);
        assert(seq![d0] + rest_ds =~= ds);
        assert(parse_entries(page, cursor, ks.len() as int, tail) == Some(
            (ks, ds, cursor + entries_len(ks))));
    }
}

/// Decoding an encoded node yields the node back: the codec round-trips
/// on every node that fits in a page.
pub proof fn lemma_decode_encode(v: NodeView)
    requires
        v.wf_shape(),
        node_fits(v),
    ensures
        decode_page(encode_node(v), v.offset) == Some(v),
{
    lemma_auto_spec_u16_to_from_le_bytes();
    lemma_auto_spec_u32_to_from_le_bytes();
    lemma_auto_spec_u64_to_from_le_bytes();
    lemma_entries_bytes_len(v.keys, v.data_offsets);
    lemma_entries_len_parts(v.keys);
    lemma_children_bytes_len(v.child_page_offsets);
    let page = encode_node(v);
    let flag = if v.is_leaf { 1u8 } else { 0u8 };
    let nkeys = v.keys.len() as int;
    let u16b = spec_u16_to_le_bytes(v.keys.len() as u16);
    let ebytes = entries_bytes(v.keys, v.data_offsets);
    let fwd = seq![flag] + u16b + ebytes;
    let tailb = children_bytes(v.child_page_offsets);
    let gap = PAGE_SIZE - fwd.len() - tailb.len();
    assert(nkeys < 0x10000);
    assert(fwd.len() == 3 + entries_len(v.keys));
    assert(gap >= 0);
    assert(page == fwd + zero_bytes(gap) + tailb);
    assert(page.len() == PAGE_SIZE);
    assert(page[0] == flag);
    assert(page.subrange(1, 3) =~= u16b);
    let n = spec_u16_from_le_bytes(page.subrange(1, 3)) as int;
    assert(n == nkeys);
    let m = n + 1;
    let tail = if v.is_leaf { PAGE_SIZE as int } else { PAGE_SIZE - 8 * m };
    assert(tail >= 3 + entries_len(v.keys));
    assert(page.subrange(3, 3 + entries_len(v.keys)) =~= ebytes);
    assert forall|i: int| 0 <= i < v.keys.len() implies (#[trigger] v.keys[i]).len()
        < 0x1_0000_0000 by {
        assert(12 + v.keys[i].len() <= entries_len(v.keys));
    }
    lemma_parse_entries_round(page, 3, v.keys, v.data_offsets, tail);
    if !v.is_leaf {
        let tail_start = PAGE_SIZE - tailb.len();
        assert forall|i: int| 0 <= i < m implies #[trigger] parse_children(page, m)[i]
            == v.child_page_offsets[i] by {
            lemma_children_bytes_index(v.child_page_offsets, i);
            assert(page.subrange(PAGE_SIZE - 8 * (m - i), PAGE_SIZE - 8 * (m - i - 1))
                =~= tailb.subrange(8 * i, 8 * i + 8)) by {
                assert(forall|t: int| 0 <= t < tailb.len() ==> #[trigger] page[tail_start + t]
                    == tailb[t]);
            }
        }
        assert(parse_children(page, m) =~= v.child_page_offsets);
        assert(decode_page(page, v.offset) == Some(decode_page(page, v.offset)->Some_0));
        assert(decode_page(page, v.offset)->Some_0 =~= v);
    } else {
        assert(v.child_page_offsets =~= Seq::<u64>::empty());
        assert(decode_page(page, v.offset)->Some_0 =~= v);
    }
}

/// Appending one more child offset extends the child bytes.
pub proof fn lemma_children_bytes_take_succ(cs: Seq<u64>, i: int)
    requires
        0 <= i < cs.len(),
    ensures
        children_bytes(cs.take(i + 1)) == children_bytes(cs.take(i)) + spec_u64_to_le_bytes(cs[i]),
{
    let single = seq![cs[i]];
    assert(single.drop_first() =~= Seq::<u64>::empty());
    assert(single[0] == cs[i]);
    assert(children_bytes(Seq::<u64>::empty()) =~= Seq::<u8>::empty());
    assert(children_bytes(single) =~= spec_u64_to_le_bytes(cs[i]));
    assert(cs.take(i + 1) =~= cs.take(i) + single);
    lemma_children_bytes_append(cs.take(i), single);
}

/// A node that fits encodes to exactly one page of bytes.
pub proof fn lemma_encode_len(v: NodeView)
    requires
        node_fits(v),
    ensures
        encode_node(v).len() == PAGE_SIZE,
{
    lemma_auto_spec_u16_to_from_le_bytes();
    lemma_entries_bytes_len(v.keys, v.data_offsets);
    lemma_entries_len_parts(v.keys);
    lemma_children_bytes_len(v.child_page_offsets);
}

/// The encoded length grows by one entry's bytes when one more key is
/// taken, and never shrinks.
pub proof fn lemma_entries_len_take_bound(ks: Seq<Seq<u8>>, i: int)
    requires
        0 <= i < ks.len(),
    ensures
        entries_len(ks) >= entries_len(ks.take(i)) + 12 + ks[i].len(),
        entries_len(ks.take(i)) >= 0,
{
    assert(ks =~= ks.take(i) + ks.skip(i));
    lemma_entries_len_append(ks.take(i), ks.skip(i));
    lemma_entries_len_parts(ks.take(i));
    assert(ks.skip(i)[0] == ks[i]);
    lemma_entries_len_parts(ks.skip(i).drop_first());
}

/// Relies on std's `core::str::from_utf8`: it accepts exactly the byte
/// sequences that are valid UTF-8.
#[verifier::external_body]
fn utf8_valid(bytes: &[u8]) -> (r: bool)
    ensures
        r == valid_utf8(bytes@),
{
    core::str::from_utf8(bytes).is_ok()
}

impl BTreeNode {
    /// Encode this node as one page of bytes: leaf flag, key count,
    /// forward-packed key entries, zeroed middle, and child offsets at
    /// the page's end. Fails exactly when the node does not fit.
    pub fn serialize(&self) -> (r: Result<Vec<u8>, DbError>)
        requires
            self@.wf_shape(),
        ensures
            match r {
                Ok(buf) => node_fits(self@) && buf@ == encode_node(self@),
                Err(e) => e == DbError::EncodeTooLarge && !node_fits(self@),
            },
    {
        let ghost kv = self@.keys;
        let ghost dv = self@.data_offsets;
        let ghost cv = self@.child_page_offsets;
        let n = self.keys.len();

        // Measure the forward region first, so that nothing is built
        // for a node that cannot fit.
        let mut fwd: usize = 3;
        let mut idx: usize = 0;
        proof {
            assert(kv.take(0) =~= Seq::<Seq<u8>>::empty());
        }
        while idx < n
            invariant
                self@.wf_shape(),
                kv == self@.keys,
                dv == self@.data_offsets,
                n == kv.len(),
                0 <= idx <= n,
                fwd == 3 + entries_len(kv.take(idx as int)),
                fwd <= PAGE_SIZE,
            decreases n - idx,
        {
            let kl = self.keys[idx].len();
            proof {
                lemma_entries_len_take_bound(kv, idx as int);
            }
            if kl > PAGE_SIZE || fwd + 12 + kl > PAGE_SIZE {
                return Err(DbError::EncodeTooLarge);
            }
            proof {
                lemma_entries_bytes_take_succ(kv, dv, idx as int);
            }
            fwd = fwd + 12 + kl;
            idx = idx + 1;
        }
        proof {
            assert(kv.take(n as int) =~= kv);
        }

        let c = self.child_page_offsets.len();
        if c > PAGE_SIZE / 8 {
            return Err(DbError::EncodeTooLarge);
        }
        let tail_len: usize = 8 * c;
        if tail_len > PAGE_SIZE - fwd {
            return Err(DbError::EncodeTooLarge);
        }
        proof {
            lemma_entries_len_parts(kv);
            assert(3 + 12 * kv.len() <= PAGE_SIZE);
        }

        let ghost hdr = seq![if self@.is_leaf { 1u8 } else { 0u8 }] + spec_u16_to_le_bytes(
            kv.len() as u16);
        let mut buf: Vec<u8> = Vec::new();
        buf.push(if self.is_leaf { 1u8 } else { 0u8 });
        let mut nb = u16_to_le_bytes(n as u16);
        buf.append(&mut nb);
        proof {
            lemma_auto_spec_u16_to_from_le_bytes();
            assert(kv.take(0) =~= Seq::<Seq<u8>>::empty());
            assert(dv.take(0) =~= Seq::<u64>::empty());
            assert(buf@ =~= hdr + entries_bytes(kv.take(0), dv.take(0)));
        }
        let mut idx: usize = 0;
        while idx < n
            invariant
                self@.wf_shape(),
                kv == self@.keys,
                dv == self@.data_offsets,
                n == kv.len(),
                0 <= idx <= n,
                fwd == 3 + entries_len(kv),
                fwd <= PAGE_SIZE,
                hdr.len() == 3,
                buf@ == hdr + entries_bytes(kv.take(idx as int), dv.take(idx as int)),
                buf@.len() == 3 + entries_len(kv.take(idx as int)),
            decreases n - idx,
        {
            proof {
                lemma_entries_len_take_bound(kv, idx as int);
                lemma_auto_spec_u32_to_from_le_bytes();
                lemma_auto_spec_u64_to_from_le_bytes();
            }
            let kl = self.keys[idx].len();
            let mut lb = u32_to_le_bytes(kl as u32);
            buf.append(&mut lb);
            let mut db8 = u64_to_le_bytes(self.data_offsets[idx]);
            buf.append(&mut db8);
            buf.extend_from_slice(self.keys[idx].as_slice());
            proof {
                lemma_entries_bytes_take_succ(kv, dv, idx as int);
                lemma_entries_bytes_len(kv.take(idx as int), dv.take(idx as int));
                lemma_entries_bytes_len(kv.take(idx + 1), dv.take(idx + 1));
                assert(buf@ =~= hdr + entries_bytes(kv.take(idx + 1), dv.take(idx + 1)));
            }
            idx = idx + 1;
        }
        proof {
            assert(kv.take(n as int) =~= kv);
            assert(dv.take(n as int) =~= dv);
        }
        let ghost fwd_bytes = hdr + entries_bytes(kv, dv);

        let target = PAGE_SIZE - tail_len;
        let ghost fwd_len = fwd as int;
        while buf.len() < target
            invariant
                fwd_len <= buf@.len() <= target,
                target <= PAGE_SIZE,
                fwd_bytes.len() == fwd_len,
                buf@ == fwd_bytes + zero_bytes(buf@.len() - fwd_len),
            decreases target - buf.len(),
        {
            buf.push(0u8);
            proof {
                assert(buf@ =~= fwd_bytes + zero_bytes(buf@.len() - fwd_len));
            }
        }
        let ghost gap = target - fwd_len;

        let mut j: usize = 0;
        proof {
            assert(cv.take(0) =~= Seq::<u64>::empty());
            assert(buf@ =~= fwd_bytes + zero_bytes(gap) + children_bytes(cv.take(0)));
        }
        while j < c
            invariant
                cv == self@.child_page_offsets,
                c == cv.len(),
                0 <= j <= c,
                buf@ == fwd_bytes + zero_bytes(gap) + children_bytes(cv.take(j as int)),
            decreases c - j,
        {
            let mut cb = u64_to_le_bytes(self.child_page_offsets[j]);
            buf.append(&mut cb);
            proof {
                lemma_children_bytes_take_succ(cv, j as int);
                assert(buf@ =~= fwd_bytes + zero_bytes(gap) + children_bytes(cv.take(j + 1)));
            }
            j = j + 1;
        }
        proof {
            assert(cv.take(c as int) =~= cv);
            lemma_children_bytes_len(cv);
            lemma_entries_bytes_len(kv, dv);
            assert(buf@ =~= encode_node(self@));
        }
        Ok(buf)
    }

    /// Decode one page of bytes into the node stored at `offset`,
    /// failing with a corrupt-page error exactly when the page does not
    /// decode.
    pub fn deserialize(offset: u64, buf: &[u8]) -> (r: Result<BTreeNode, DbError>)
        requires
            buf@.len() == PAGE_SIZE,
        ensures
            match r {
                Ok(node) => {
                    &&& decode_page(buf@, offset) == Some(node@)
                    &&& node@.wf_shape()
                    &&& node_fits(node@)
                    &&& node@.offset == offset
                },
                Err(e) => e == DbError::CorruptPage && decode_page(buf@, offset) is None,
            },
    {
        let flag = buf[0];
        if flag != 0 && flag != 1 {
            return Err(DbError::CorruptPage);
        }
        let is_leaf = flag == 1;
        let nk = u16_from_le_bytes(slice_subrange(buf, 1, 3)) as usize;
        proof {
            assert(buf@.subrange(1, 3) == spec_u16_to_le_bytes(spec_u16_from_le_bytes(
                buf@.subrange(1, 3)))) by {
                lemma_auto_spec_u16_to_from_le_bytes();
            }
        }
        let tail: usize = if is_leaf {
            PAGE_SIZE
        } else {
            let need = 8 * (nk + 1);
            if need > PAGE_SIZE - 3 {
                return Err(DbError::CorruptPage);
            }
            PAGE_SIZE - need
        };
        let ghost stail: int = if is_leaf { PAGE_SIZE as int } else { PAGE_SIZE - 8 * (nk + 1) };
        proof {
            assert(spec_u16_from_le_bytes(buf@.subrange(1, 3)) == nk);
            assert(stail >= 3);
        }

        let mut keys: Vec<Vec<u8>> = Vec::new();
        let mut data_offsets: Vec<u64> = Vec::new();
        let mut cursor: usize = 3;
        let mut i: usize = 0;
        while i < nk
            invariant
                buf@.len() == PAGE_SIZE,
                3 <= cursor <= tail,
                tail as int == stail,
                tail <= PAGE_SIZE,
                0 <= i <= nk,
                keys@.len() == i,
                data_offsets@.len() == i,
                forall|t: int| 0 <= t < i ==> valid_utf8(#[trigger] keys@[t]@),
                entries_len(keys@.map_values(|k: Vec<u8>| k@)) == cursor - 3,
                parse_entries(buf@, 3, nk as int, stail) is None ==> decode_page(buf@, offset)
                    is None,
                ({
                    let whole = parse_entries(buf@, 3, nk as int, stail);
                    let rest = parse_entries(buf@, cursor as int, nk as int - i, stail);
                    match rest {
                        None => whole is None,
                        Some(r3) => whole == Some(
                            (keys@.map_values(|k: Vec<u8>| k@) + r3.0,
                            data_offsets@ + r3.1, r3.2)),
                    }
                }),
            decreases nk - i,
        {
            let ghost kv = keys@.map_values(|k: Vec<u8>| k@);
            if cursor + 12 > tail {
                return Err(DbError::CorruptPage);
            }
            let klen_word = u32_from_le_bytes(slice_subrange(buf, cursor, cursor + 4));
            let d = u64_from_le_bytes(slice_subrange(buf, cursor + 4, cursor + 12));
            let klen = klen_word as usize;
            if klen > tail - cursor - 12 {
                return Err(DbError::CorruptPage);
            }
            let kslice = slice_subrange(buf, cursor + 12, cursor + 12 + klen);
            if !utf8_valid(kslice) {
                return Err(DbError::CorruptPage);
            }
            let k = slice_to_vec(kslice);
            keys.push(k);
            data_offsets.push(d);
            proof {
                let kv2 = keys@.map_values(|kk: Vec<u8>| kk@);
                assert(kv2 =~= kv + seq![k@]);
                lemma_entries_len_append(kv, seq![k@]);
                assert(seq![k@].drop_first() =~= Seq::<Seq<u8>>::empty());
                assert(seq![k@][0] == k@);
                assert(entries_len(Seq::<Seq<u8>>::empty()) == 0);
                assert(k@.len() == klen);
                assert(entries_len(seq![k@]) == 12 + klen);
                let rest = parse_entries(buf@, cursor as int, nk as int - i, stail);
                let next = parse_entries(buf@, cursor as int + 12 + klen, nk as int - i - 1,
                    stail);
                if next is Some {
                    let r3 = next->Some_0;
                    assert(rest == Some((seq![k@] + r3.0, seq![d] + r3.1, r3.2)));
                    assert(kv + (seq![k@] + r3.0) =~= kv2 + r3.0);
                    assert(data_offsets@ + r3.1 =~= data_offsets@.subrange(0, i as int)
                        + (seq![d] + r3.1));
                }
            }
            cursor = cursor + 12 + klen;
            i = i + 1;
        }
        proof {
            let kv = keys@.map_values(|k: Vec<u8>| k@);
            assert(kv + Seq::<Seq<u8>>::empty() =~= kv);
            assert(data_offsets@ + Seq::<u64>::empty() =~= data_offsets@);
        }

        let mut child_page_offsets: Vec<u64> = Vec::new();
        if !is_leaf {
            let m = nk + 1;
            let mut j: usize = 0;
            while j < m
                invariant
                    buf@.len() == PAGE_SIZE,
                    m == nk + 1,
                    8 * m <= PAGE_SIZE - 3,
                    0 <= j <= m,
                    child_page_offsets@.len() == j,
                    forall|t: int| 0 <= t < j ==> child_page_offsets@[t]
                        == #[trigger] parse_children(buf@, m as int)[t],
                decreases m - j,
            {
                let base = PAGE_SIZE - 8 * (m - j);
                let co = u64_from_le_bytes(slice_subrange(buf, base, base + 8));
                child_page_offsets.push(co);
                j = j + 1;
            }
            proof {
                assert(child_page_offsets@ =~= parse_children(buf@, m as int));
            }
        }

        let node = BTreeNode { offset, is_leaf, keys, data_offsets, child_page_offsets };
        proof {
            let dec = decode_page(buf@, offset);
            assert(dec is Some);
            assert(node@ =~= dec->Some_0);
        }
        Ok(node)
    }
}

} // verus!
