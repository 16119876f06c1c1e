use vstd::prelude::*;
use vstd::utf8::valid_utf8;

use crate::keys::{bytes_eq, bytes_lt, keys_sorted, lemma_lex_asym, lemma_lex_total,
    lemma_lex_trans, lex_le, lex_lt};

verus! {

/// Size in bytes of one page of the database file.
pub const PAGE_SIZE: usize = 4096;

/// Minimum degree of the B-tree.
pub const MIN_DEGREE: usize = 3;

/// Largest number of keys a node may hold: one less than twice the
/// minimum degree.
pub const MAX_KEYS: usize = 5;

/// The mathematical content of a node: its page position, leaf flag,
/// and the parallel sequences of keys, data offsets and child pages.
#[verifier::ext_equal]
pub struct NodeView {
    pub offset: u64,
    pub is_leaf: bool,
    pub keys: Seq<Seq<u8>>,
    pub data_offsets: Seq<u64>,
    pub child_page_offsets: Seq<u64>,
}

impl NodeView {
    /// Structural well-formedness: the data offsets run parallel to the
    /// keys, a leaf has no children while an internal node has one child
    /// more than keys, and every key is valid UTF-8.
    pub open spec fn wf_shape(self) -> bool {
        &&& self.data_offsets.len() == self.keys.len()
        &&& if self.is_leaf {
            self.child_page_offsets.len() == 0
        } else {
            self.child_page_offsets.len() == self.keys.len() + 1
        }
        &&& forall|i: int| 0 <= i < self.keys.len() ==> valid_utf8(#[trigger] self.keys[i])
    }

    /// Full well-formedness: the shape above, keys in strictly
    /// increasing byte-wise order, and no more than `MAX_KEYS` keys.
    pub open spec fn wf(self) -> bool {
        &&& self.wf_shape()
        &&& keys_sorted(self.keys)
        &&& self.keys.len() <= MAX_KEYS
    }
}

/// One B-tree node. Its identity is its page offset in the file image;
/// keys and values-by-offset are held in sorted parallel vectors.
#[derive(Debug, Clone)]
pub struct BTreeNode {
    pub offset: u64,
    pub is_leaf: bool,
    pub keys: Vec<Vec<u8>>,
    pub data_offsets: Vec<u64>,
    pub child_page_offsets: Vec<u64>,
}

impl View for BTreeNode {
    type V = NodeView;

    open spec fn view(&self) -> NodeView {
        NodeView {
            offset: self.offset,
            is_leaf: self.is_leaf,
            keys: self.keys@.map_values(|k: Vec<u8>| k@),
            data_offsets: self.data_offsets@,
            child_page_offsets: self.child_page_offsets@,
        }
    }
}

/// The position at which `k` belongs in the sorted key sequence `ks`:
/// the smallest index whose key is not below `k`, or `ks.len()` when
/// every key is below `k`.
pub open spec fn insert_pos(ks: Seq<Seq<u8>>, k: Seq<u8>) -> int
    decreases ks.len(),
{
    if ks.len() == 0 {
        0
    } else if lex_le(k, ks[0]) {
        0
    } else {
        1 + insert_pos(ks.drop_first(), k)
    }
}

/// Every key left of the insert position is below `k`, and `k` is not
/// above any key from the position on.
pub proof fn lemma_insert_pos_range(ks: Seq<Seq<u8>>, k: Seq<u8>)
    ensures
        0 <= insert_pos(ks, k) <= ks.len(),
        forall|i: int| 0 <= i < insert_pos(ks, k) ==> lex_lt(#[trigger] ks[i], k),
        insert_pos(ks, k) < ks.len() ==> lex_le(k, ks[insert_pos(ks, k)]),
    decreases ks.len(),
{
    if ks.len() > 0 && !lex_le(k, ks[0]) {
        lemma_lex_total(ks[0], k);
        lemma_insert_pos_range(ks.drop_first(), k);
        assert forall|i: int| 0 <= i < insert_pos(ks, k) implies lex_lt(#[trigger] ks[i], k) by {
            if i > 0 {
                assert(ks[i] == ks.drop_first()[i - 1]);
            }
        }
    }
}

/// The insert position is the only index that splits `ks` into keys
/// below `k` and keys not below it.
pub proof fn lemma_insert_pos_unique(ks: Seq<Seq<u8>>, k: Seq<u8>, p: int)
    requires
        0 <= p <= ks.len(),
        forall|i: int| 0 <= i < p ==> lex_lt(#[trigger] ks[i], k),
        p < ks.len() ==> lex_le(k, ks[p]),
    ensures
        p == insert_pos(ks, k),
    decreases ks.len(),
{
    if ks.len() == 0 {
    } else if p == 0 {
        if !lex_le(k, ks[0]) {
            lemma_lex_total(ks[0], k);
        }
    } else {
        assert(lex_lt(ks[0], k));
        if lex_le(k, ks[0]) {
            lemma_lex_asym(ks[0], k);
        }
        assert forall|i: int| 0 <= i < p - 1 implies lex_lt(#[trigger] ks.drop_first()[i], k) by {
            assert(ks.drop_first()[i] == ks[i + 1]);
        }
        if p - 1 < ks.drop_first().len() {
            assert(ks.drop_first()[p - 1] == ks[p]);
        }
        lemma_insert_pos_unique(ks.drop_first(), k, p - 1);
    }
}

/// Inserting a fresh key at its insert position keeps the keys sorted.
pub proof fn lemma_sorted_insert(ks: Seq<Seq<u8>>, k: Seq<u8>, p: int)
    requires
        keys_sorted(ks),
        p == insert_pos(ks, k),
        p < ks.len() ==> ks[p] != k,
    ensures
        keys_sorted(ks.insert(p, k)),
{
    lemma_insert_pos_range(ks, k);
    let ks2 = ks.insert(p, k);
    assert forall|i: int, j: int| 0 <= i < j < ks2.len() implies lex_lt(ks2[i], ks2[j]) by {
        if i == p {
            assert(ks2[i] == k && ks2[j] == ks[j - 1]);
            assert(p < ks.len());
            assert(lex_lt(k, ks[p]));
            if j - 1 > p {
                lemma_lex_trans(k, ks[p], ks[j - 1]);
            }
        } else if j == p {
            assert(ks2[i] == ks[i] && ks2[j] == k);
        } else if i < p && j > p {
            assert(ks2[i] == ks[i] && ks2[j] == ks[j - 1]);
            assert(i < j - 1);
        } else if j < p {
            assert(ks2[i] == ks[i] && ks2[j] == ks[j]);
        } else {
            assert(i > p && j > p);
            assert(ks2[i] == ks[i - 1] && ks2[j] == ks[j - 1]);
        }
    }
}

/// A key just inserted at its position is itself that position's
/// occupant, so inserting the same key again overwrites in place
/// rather than duplicating it: the keys stay as they are and only the
/// data offset at that slot changes.
pub proof fn lemma_insert_then_overwrite(ks: Seq<Seq<u8>>, k: Seq<u8>, p: int)
    requires
        keys_sorted(ks),
        p == insert_pos(ks, k),
        p < ks.len() ==> ks[p] != k,
    ensures
        insert_pos(ks.insert(p, k), k) == p,
        ks.insert(p, k)[p] == k,
{
    lemma_insert_pos_range(ks, k);
    let ks2 = ks.insert(p, k);
    assert forall|i: int| 0 <= i < p implies lex_lt(#[trigger] ks2[i], k) by {
        assert(ks2[i] == ks[i]);
    }
    lemma_insert_pos_unique(ks2, k, p);
}

/// A leaf after one insert: a fresh key placed at its slot with its
/// data offset, or the data offset overwritten in place on an exact
/// match.
pub open spec fn leaf_inserted(v: NodeView, k: Seq<u8>, d: u64) -> NodeView {
    let p = insert_pos(v.keys, k);
    if 0 <= p < v.keys.len() && v.keys[p] == k {
        NodeView { data_offsets: v.data_offsets.update(p, d), ..v }
    } else {
        NodeView { keys: v.keys.insert(p, k), data_offsets: v.data_offsets.insert(p, d), ..v }
    }
}

/// What a single sorted node answers for a key: the data offset at the
/// key's slot when the slot holds exactly that key, and nothing
/// otherwise.
pub open spec fn leaf_lookup(ks: Seq<Seq<u8>>, ds: Seq<u64>, q: Seq<u8>) -> Option<u64> {
    let p = insert_pos(ks, q);
    if 0 <= p < ks.len() && ks[p] == q {
        Some(ds[p])
    } else {
        None
    }
}

/// After an insert into a leaf — a fresh key placed at its slot, or an
/// exact match overwritten in place — the inserted key maps to the new
/// data offset.
pub proof fn lemma_leaf_lookup_inserted(ks: Seq<Seq<u8>>, ds: Seq<u64>, k: Seq<u8>, d: u64)
    requires
        keys_sorted(ks),
        ds.len() == ks.len(),
    ensures
        ({
            let p = insert_pos(ks, k);
            if p < ks.len() && ks[p] == k {
                leaf_lookup(ks, ds.update(p, d), k) == Some(d)
            } else {
                leaf_lookup(ks.insert(p, k), ds.insert(p, d), k) == Some(d)
            }
        }),
{
    let p = insert_pos(ks, k);
    lemma_insert_pos_range(ks, k);
    if !(p < ks.len() && ks[p] == k) {
        lemma_insert_then_overwrite(ks, k, p);
    }
}

/// An insert into a leaf leaves every other key's answer as it was.
pub proof fn lemma_leaf_lookup_others(ks: Seq<Seq<u8>>, ds: Seq<u64>, k: Seq<u8>, d: u64,
    q: Seq<u8>)
    requires
        keys_sorted(ks),
        ds.len() == ks.len(),
        q != k,
    ensures
        ({
            let p = insert_pos(ks, k);
            if p < ks.len() && ks[p] == k {
                leaf_lookup(ks, ds.update(p, d), q) == leaf_lookup(ks, ds, q)
            } else {
                leaf_lookup(ks.insert(p, k), ds.insert(p, d), q) == leaf_lookup(ks, ds, q)
            }
        }),
{
    let p = insert_pos(ks, k);
    let pq = insert_pos(ks, q);
    lemma_insert_pos_range(ks, k);
    lemma_insert_pos_range(ks, q);
    if p < ks.len() && ks[p] == k {
        // overwrite: only slot p changed, and slot p does not hold q
        if pq < ks.len() && ks[pq] == q {
            assert(pq != p);
        }
    } else {
        let ks2 = ks.insert(p, k);
        let ds2 = ds.insert(p, d);
        lemma_lex_total(q, k);
        if lex_lt(q, k) {
            assert(pq <= p) by {
                if pq > p {
                    assert(lex_lt(ks[p], q));
                    assert(lex_le(k, ks[p]));
                    if k != ks[p] {
                        lemma_lex_trans(k, ks[p], q);
                    }
                    lemma_lex_asym(q, k);
                }
            }
            assert forall|i: int| 0 <= i < pq implies lex_lt(#[trigger] ks2[i], q) by {
                assert(ks2[i] == ks[i]);
            }
            assert(lex_le(q, ks2[pq])) by {
                if pq < p {
                    assert(ks2[pq] == ks[pq]);
                } else {
                    assert(ks2[pq] == k);
                }
            }
            lemma_insert_pos_unique(ks2, q, pq);
            if pq < p {
                assert(ks2[pq] == ks[pq] && ds2[pq] == ds[pq]);
            } else {
                // the slot now holds k, and before it held a key above q
                assert(ks2[pq] == k);
                if pq < ks.len() && ks[pq] == q {
                    assert(lex_lt(k, ks[p]));
                    lemma_lex_trans(q, k, ks[p]);
                    lemma_lex_asym(q, ks[p]);
                }
            }
        } else {
            assert(lex_lt(k, q));
            assert(pq >= p) by {
                if pq < p {
                    assert(lex_lt(ks[pq], k));
                    assert(lex_le(q, ks[pq]));
                    if q != ks[pq] {
                        lemma_lex_trans(q, ks[pq], k);
                    }
                    lemma_lex_asym(q, k);
                }
            }
            assert forall|i: int| 0 <= i < pq + 1 implies lex_lt(#[trigger] ks2[i], q) by {
                if i < p {
                    assert(ks2[i] == ks[i]);
                } else if i == p {
                    assert(ks2[i] == k);
                } else {
                    assert(ks2[i] == ks[i - 1]);
                }
            }
            if pq + 1 < ks2.len() {
                assert(ks2[pq + 1] == ks[pq]);
            }
            lemma_insert_pos_unique(ks2, q, pq + 1);
            if pq < ks.len() {
                assert(ks2[pq + 1] == ks[pq] && ds2[pq + 1] == ds[pq]);
            }
        }
    }
}

/// A strict order on adjacent keys extends to every pair.
pub proof fn lemma_sorted_chain(ks: Seq<Seq<u8>>, i: int, j: int)
    requires
        forall|t: int| 0 <= t < ks.len() - 1 ==> lex_lt(#[trigger] ks[t], ks[t + 1]),
        0 <= i < j < ks.len(),
    ensures
        lex_lt(ks[i], ks[j]),
    decreases j - i,
{
    if j > i + 1 {
        lemma_sorted_chain(ks, i, j - 1);
        lemma_lex_trans(ks[i], ks[j - 1], ks[j]);
    }
}

impl BTreeNode {
    /// A fresh, empty node at the given page offset.
    pub fn new(offset: u64, is_leaf: bool) -> (n: BTreeNode)
        ensures
            n@ == (NodeView {
                offset,
                is_leaf,
                keys: Seq::<Seq<u8>>::empty(),
                data_offsets: Seq::<u64>::empty(),
                child_page_offsets: Seq::<u64>::empty(),
            }),
            is_leaf ==> n@.wf(),
    {
        let n = BTreeNode {
            offset,
            is_leaf,
            keys: Vec::new(),
            data_offsets: Vec::new(),
            child_page_offsets: Vec::new(),
        };
        proof {
            assert(n@.keys =~= Seq::<Seq<u8>>::empty());
            assert(n@.keys.len() == 0);
            assert(keys_sorted(n@.keys));
            assert(n@ =~= NodeView {
                offset,
                is_leaf,
                keys: Seq::<Seq<u8>>::empty(),
                data_offsets: Seq::<u64>::empty(),
                child_page_offsets: Seq::<u64>::empty(),
            });
        }
        n
    }

    /// Whether this node's keys are strictly sorted and within the key
    /// cap, which together with the decoded shape makes it well-formed.
    pub fn check_wf(&self) -> (r: bool)
        ensures
            r == (keys_sorted(self@.keys) && self@.keys.len() <= MAX_KEYS),
    {
        if self.keys.len() > MAX_KEYS {
            return false;
        }
        let mut i: usize = 0;
        while i + 1 < self.keys.len()
            invariant
                self@.keys.len() <= MAX_KEYS,
                0 <= i <= self.keys.len(),
                forall|t: int| 0 <= t < i ==> lex_lt(#[trigger] self@.keys[t],
                    self@.keys[t + 1]),
            decreases self.keys.len() - i,
        {
            if !bytes_lt(self.keys[i].as_slice(), self.keys[i + 1].as_slice()) {
                proof {
                    assert(!lex_lt(self@.keys[i as int], self@.keys[i as int + 1]));
                }
                return false;
            }
            i = i + 1;
        }
        proof {
            assert forall|a: int, b: int| 0 <= a < b < self@.keys.len() implies lex_lt(
                self@.keys[a], self@.keys[b]) by {
                lemma_sorted_chain(self@.keys, a, b);
            }
        }
        true
    }

    /// The slot `key` belongs in: the index of the first key of this
    /// node that is not below `key`.
    pub fn find_slot(&self, key: &[u8]) -> (p: usize)
        ensures
            p == insert_pos(self@.keys, key@),
    {
        let mut p: usize = 0;
        while p < self.keys.len() && bytes_lt(self.keys[p].as_slice(), key)
            invariant
                0 <= p <= self.keys.len(),
                forall|i: int| 0 <= i < p ==> lex_lt(#[trigger] self@.keys[i], key@),
            decreases self.keys.len() - p,
        {
            p = p + 1;
        }
        proof {
            if p < self.keys.len() {
                lemma_lex_total(self@.keys[p as int], key@);
            }
            lemma_insert_pos_unique(self@.keys, key@, p as int);
        }
        p
    }

    /// Insert `key` with its data offset into a leaf that has room,
    /// keeping the keys sorted; an exact match overwrites the stored
    /// data offset in place.
    pub fn insert_in_leaf(&mut self, key: Vec<u8>, data_offset: u64) -> (updated: bool)
        requires
            old(self)@.wf(),
            old(self)@.is_leaf,
            old(self)@.keys.len() < MAX_KEYS,
            valid_utf8(key@),
        ensures
            final(self)@.wf(),
            final(self)@.offset == old(self)@.offset,
            final(self)@.is_leaf,
            final(self)@.child_page_offsets == old(self)@.child_page_offsets,
            ({
                let p = insert_pos(old(self)@.keys, key@);
                if updated {
                    &&& p < old(self)@.keys.len() && old(self)@.keys[p] == key@
                    &&& final(self)@.keys == old(self)@.keys
                    &&& final(self)@.data_offsets == old(self)@.data_offsets.update(p, data_offset)
                } else {
                    &&& !(p < old(self)@.keys.len() && old(self)@.keys[p] == key@)
                    &&& final(self)@.keys == old(self)@.keys.insert(p, key@)
                    &&& final(self)@.data_offsets == old(self)@.data_offsets.insert(p, data_offset)
                }
            }),
    {
        let ghost ks0 = self@.keys;
        let p = self.find_slot(key.as_slice());
        proof {
            lemma_insert_pos_range(ks0, key@);
        }
        if p < self.keys.len() && bytes_eq(self.keys[p].as_slice(), key.as_slice()) {
            self.data_offsets.set(p, data_offset);
            proof {
                assert(self@.keys =~= ks0);
                assert(self@.data_offsets =~= old(self)@.data_offsets.update(p as int, data_offset));
            }
            true
        } else {
            proof {
                lemma_sorted_insert(ks0, key@, p as int);
            }
            self.keys.insert(p, key);
            self.data_offsets.insert(p, data_offset);
            proof {
                assert(self@.keys =~= ks0.insert(p as int, key@));
            }
            false
        }
    }

    /// Split a full node in two around its median key. The node keeps
    /// its first `MIN_DEGREE - 1` keys, the returned sibling at
    /// `right_offset` takes the last `MIN_DEGREE - 1`, and the median
    /// key with its data offset is handed back for the parent.
    pub fn split(&mut self, right_offset: u64) -> (r: (Vec<u8>, u64, BTreeNode))
        requires
            old(self)@.wf(),
            old(self)@.keys.len() == MAX_KEYS,
        ensures
            final(self)@.wf(),
            final(self)@.offset == old(self)@.offset,
            final(self)@.is_leaf == old(self)@.is_leaf,
            final(self)@.keys == old(self)@.keys.take(MIN_DEGREE as int - 1),
            final(self)@.data_offsets == old(self)@.data_offsets.take(MIN_DEGREE as int - 1),
            final(self)@.child_page_offsets == if old(self)@.is_leaf {
                Seq::<u64>::empty()
            } else {
                old(self)@.child_page_offsets.take(MIN_DEGREE as int)
            },
            r.0@ == old(self)@.keys[MIN_DEGREE - 1],
            r.1 == old(self)@.data_offsets[MIN_DEGREE - 1],
            r.2@.wf(),
            r.2@.offset == right_offset,
            r.2@.is_leaf == old(self)@.is_leaf,
            r.2@.keys == old(self)@.keys.skip(MIN_DEGREE as int),
            r.2@.data_offsets == old(self)@.data_offsets.skip(MIN_DEGREE as int),
            r.2@.child_page_offsets == if old(self)@.is_leaf {
                Seq::<u64>::empty()
            } else {
                old(self)@.child_page_offsets.skip(MIN_DEGREE as int)
            },
            final(self)@.keys.len() == MIN_DEGREE - 1,
            r.2@.keys.len() == MIN_DEGREE - 1,
            forall|i: int| 0 <= i < final(self)@.keys.len()
                ==> lex_lt(#[trigger] final(self)@.keys[i], r.0@),
            forall|i: int| 0 <= i < r.2@.keys.len()
                ==> lex_lt(r.0@, #[trigger] r.2@.keys[i]),
    {
        let ghost old_keys = self@.keys;
        let right_keys = self.keys.split_off(MIN_DEGREE);
        let right_data = self.data_offsets.split_off(MIN_DEGREE);
        let mut right = BTreeNode {
            offset: right_offset,
            is_leaf: self.is_leaf,
            keys: right_keys,
            data_offsets: right_data,
            child_page_offsets: Vec::new(),
        };
        if !self.is_leaf {
            right.child_page_offsets = self.child_page_offsets.split_off(MIN_DEGREE);
        }
        let median_key = self.keys.pop().unwrap();
        let median_data = self.data_offsets.pop().unwrap();
        proof {
            assert(self@.keys =~= old_keys.take(MIN_DEGREE as int - 1));
            assert(right@.keys =~= old_keys.skip(MIN_DEGREE as int));
            assert(self@.data_offsets =~= old(self)@.data_offsets.take(MIN_DEGREE as int - 1));
            assert(right@.data_offsets =~= old(self)@.data_offsets.skip(MIN_DEGREE as int));
            if !old(self).is_leaf {
                assert(self@.child_page_offsets =~= old(self)@.child_page_offsets.take(
                    MIN_DEGREE as int));
                assert(right@.child_page_offsets =~= old(self)@.child_page_offsets.skip(
                    MIN_DEGREE as int));
            }
            assert(median_key@ == old_keys[MIN_DEGREE - 1]);
            assert forall|i: int| 0 <= i < self@.keys.len()
                implies lex_lt(#[trigger] self@.keys[i], median_key@) by {
                assert(self@.keys[i] == old_keys[i]);
            }
            assert forall|i: int| 0 <= i < right@.keys.len()
                implies lex_lt(median_key@, #[trigger] right@.keys[i]) by {
                assert(right@.keys[i] == old_keys[i + MIN_DEGREE]);
            }
            assert forall|i: int, j: int| 0 <= i < j < self@.keys.len()
                implies lex_lt(self@.keys[i], self@.keys[j]) by {
                assert(self@.keys[i] == old_keys[i] && self@.keys[j] == old_keys[j]);
            }
            assert forall|i: int, j: int| 0 <= i < j < right@.keys.len()
                implies lex_lt(right@.keys[i], right@.keys[j]) by {
                assert(right@.keys[i] == old_keys[i + MIN_DEGREE]);
                assert(right@.keys[j] == old_keys[j + MIN_DEGREE]);
            }
        }
        (median_key, median_data, right)
    }
}

} // verus!
