use vstd::prelude::*;
use vstd::arithmetic::div_mod::{lemma_fundamental_div_mod, lemma_mod_multiples_basic};
use vstd::bytes::{lemma_auto_spec_u32_to_from_le_bytes, lemma_auto_spec_u64_to_from_le_bytes,
    spec_u32_from_le_bytes, spec_u32_to_le_bytes, spec_u64_from_le_bytes, spec_u64_to_le_bytes,
    u32_from_le_bytes, u32_to_le_bytes, u64_from_le_bytes, u64_to_le_bytes};
use vstd::slice::{slice_subrange, slice_to_vec};
use vstd::utf8::valid_utf8;

use crate::codec::{decode_page, encode_node, lemma_decode_encode, lemma_encode_len, node_fits};
use crate::errors::DbError;
use crate::keys::{bytes_eq, bytes_lt, keys_sorted, lex_lt};
use crate::node::{insert_pos, BTreeNode, NodeView, MAX_KEYS, MIN_DEGREE, PAGE_SIZE};

verus! {

/// The four magic bytes `RDBX` that begin every database file.
pub open spec fn magic_bytes() -> Seq<u8> {
    seq![0x52u8, 0x44u8, 0x42u8, 0x58u8]
}

/// The node stored at a page offset of the file image: pages hold nodes
/// only at page-aligned offsets past the header page.
pub open spec fn node_at(image: Seq<u8>, off: u64) -> Option<NodeView> {
    if off as int % PAGE_SIZE as int == 0 && PAGE_SIZE <= off as int && off as int + PAGE_SIZE
        <= image.len() {
        decode_page(image.subrange(off as int, off as int + PAGE_SIZE), off)
    } else {
        None
    }
}

/// A page decodes the same in two images that agree on its bytes.
pub proof fn lemma_node_at_frame(img1: Seq<u8>, img2: Seq<u8>, off: u64)
    requires
        off as int + PAGE_SIZE <= img1.len(),
        off as int + PAGE_SIZE <= img2.len(),
        img1.subrange(off as int, off as int + PAGE_SIZE) == img2.subrange(off as int,
            off as int + PAGE_SIZE),
    ensures
        node_at(img1, off) == node_at(img2, off),
{
}

/// The bytes of one value-log record: key length and value length as
/// little-endian u32, then the key bytes, then the value bytes.
pub open spec fn record_bytes(key: Seq<u8>, value: Seq<u8>) -> Seq<u8> {
    spec_u32_to_le_bytes(key.len() as u32) + spec_u32_to_le_bytes(value.len() as u32) + key
        + value
}

/// The value held by the record at data offset `off` of the image, when
/// a whole record lies there.
pub open spec fn spec_read_value(image: Seq<u8>, off: u64) -> Option<Seq<u8>> {
    if off as int + 8 <= image.len() {
        let klen = spec_u32_from_le_bytes(image.subrange(off as int, off as int + 4)) as int;
        let vlen = spec_u32_from_le_bytes(image.subrange(off as int + 4, off as int + 8)) as int;
        if off as int + 8 + klen + vlen <= image.len() {
            Some(image.subrange(off as int + 8 + klen, off as int + 8 + klen + vlen))
        } else {
            None
        }
    } else {
        None
    }
}

/// What a record reads as depends only on the bytes from its offset on.
pub proof fn lemma_read_value_frame(img1: Seq<u8>, img2: Seq<u8>, off: u64)
    requires
        img1.len() == img2.len(),
        forall|t: int| off as int <= t < img1.len() ==> img1[t] == img2[t],
    ensures
        spec_read_value(img1, off) == spec_read_value(img2, off),
{
    let o = off as int;
    if o + 8 <= img1.len() {
        assert(img1.subrange(o, o + 4) =~= img2.subrange(o, o + 4));
        assert(img1.subrange(o + 4, o + 8) =~= img2.subrange(o + 4, o + 8));
        let klen = spec_u32_from_le_bytes(img1.subrange(o, o + 4)) as int;
        let vlen = spec_u32_from_le_bytes(img1.subrange(o + 4, o + 8)) as int;
        if o + 8 + klen + vlen <= img1.len() {
            assert(img1.subrange(o + 8 + klen, o + 8 + klen + vlen) =~= img2.subrange(
                o + 8 + klen, o + 8 + klen + vlen));
        }
    }
}

/// A record that read back successfully still does, in a longer image
/// that agrees on the bytes from its offset to the old end.
pub proof fn lemma_read_value_extend(img1: Seq<u8>, img2: Seq<u8>, off: u64)
    requires
        img1.len() <= img2.len(),
        forall|t: int| off as int <= t < img1.len() ==> img1[t] == img2[t],
        spec_read_value(img1, off) is Some,
    ensures
        spec_read_value(img2, off) == spec_read_value(img1, off),
{
    let o = off as int;
    assert(img1.subrange(o, o + 4) =~= img2.subrange(o, o + 4));
    assert(img1.subrange(o + 4, o + 8) =~= img2.subrange(o + 4, o + 8));
    let klen = spec_u32_from_le_bytes(img1.subrange(o, o + 4)) as int;
    let vlen = spec_u32_from_le_bytes(img1.subrange(o + 4, o + 8)) as int;
    assert(img1.subrange(o + 8 + klen, o + 8 + klen + vlen) =~= img2.subrange(o + 8 + klen,
        o + 8 + klen + vlen));
}

/// Reading a record straight after appending it to the image yields the
/// value back.
pub proof fn lemma_record_round_trip(image: Seq<u8>, key: Seq<u8>, value: Seq<u8>)
    requires
        key.len() < 0x1_0000_0000,
        value.len() < 0x1_0000_0000,
        image.len() <= u64::MAX,
    ensures
        spec_read_value(image + record_bytes(key, value), image.len() as u64) == Some(value),
{
    lemma_auto_spec_u32_to_from_le_bytes();
    let rec = record_bytes(key, value);
    let img2 = image + rec;
    let off = image.len() as int;
    assert(forall|t: int| 0 <= t < rec.len() ==> img2[off + t] == #[trigger] rec[t]);
    assert(img2.subrange(off, off + 4) =~= spec_u32_to_le_bytes(key.len() as u32));
    assert(img2.subrange(off + 4, off + 8) =~= spec_u32_to_le_bytes(value.len() as u32)) by {
        assert(forall|t: int| 0 <= t < 4 ==> img2[off + 4 + t] == #[trigger] rec[4 + t]);
        assert(forall|t: int| 0 <= t < 4 ==> #[trigger] rec[4 + t] == spec_u32_to_le_bytes(
            value.len() as u32)[t]);
    }
    assert(img2.subrange(off + 8 + key.len(), off + 8 + key.len() + value.len()) =~= value) by {
        assert(forall|t: int| 0 <= t < value.len() ==> img2[off + 8 + key.len() + t]
            == #[trigger] rec[8 + key.len() + t]);
        assert(forall|t: int| 0 <= t < value.len() ==> rec[8 + key.len() + t] == value[t]);
    }
}

/// The next page-aligned position at or after `n`.
pub open spec fn page_align_up(n: int) -> int {
    if n % (PAGE_SIZE as int) == 0 {
        n
    } else {
        n + (PAGE_SIZE as int - n % (PAGE_SIZE as int))
    }
}

/// Two distinct page-aligned offsets address disjoint page ranges.
pub proof fn lemma_pages_disjoint(a: u64, b: u64)
    requires
        a as int % PAGE_SIZE as int == 0,
        b as int % PAGE_SIZE as int == 0,
        a != b,
    ensures
        a as int + PAGE_SIZE <= b as int || b as int + PAGE_SIZE <= a as int,
{
    let ai = a as int;
    let bi = b as int;
    if ai < bi {
        assert(bi - ai >= PAGE_SIZE) by (nonlinear_arith)
            requires ai % (PAGE_SIZE as int) == 0, bi % (PAGE_SIZE as int) == 0, ai < bi,
                0 <= ai, 0 <= bi;
    } else {
        assert(ai - bi >= PAGE_SIZE) by (nonlinear_arith)
            requires ai % (PAGE_SIZE as int) == 0, bi % (PAGE_SIZE as int) == 0, bi < ai,
                0 <= ai, 0 <= bi;
    }
}

/// The result of descending the tree in the image from `off` looking
/// for `key`: the data offset it maps to, `Some(None)` when the key is
/// absent, and `None` when a page on the path cannot be read or the
/// descent does not reach a leaf within `fuel` steps.
pub open spec fn spec_search(image: Seq<u8>, off: u64, key: Seq<u8>, fuel: nat) -> Option<
    Option<u64>>
    decreases fuel,
{
    if fuel == 0 {
        None
    } else {
        match node_at(image, off) {
            None => None,
            Some(v) => {
                let p = insert_pos(v.keys, key);
                if 0 <= p < v.keys.len() && v.keys[p] == key {
                    Some(Some(v.data_offsets[p]))
                } else if v.is_leaf {
                    Some(None)
                } else if 0 <= p < v.child_page_offsets.len() {
                    spec_search(image, v.child_page_offsets[p], key, (fuel - 1) as nat)
                } else {
                    None
                }
            },
        }
    }
}

/// One step of the search through an internal node: an exact match on
/// one of its own keys answers immediately, anything else continues in
/// the child the key belongs under.
pub proof fn lemma_search_internal_step(img: Seq<u8>, off: u64, q: Seq<u8>, fuel: nat)
    requires
        fuel > 1,
        node_at(img, off) is Some,
        !node_at(img, off)->Some_0.is_leaf,
        node_at(img, off)->Some_0.wf_shape(),
    ensures
        ({
            let n = node_at(img, off)->Some_0;
            let p = insert_pos(n.keys, q);
            if 0 <= p < n.keys.len() && n.keys[p] == q {
                spec_search(img, off, q, fuel) == Some(Some(n.data_offsets[p]))
            } else {
                spec_search(img, off, q, fuel) == spec_search(img, n.child_page_offsets[p], q,
                    (fuel - 1) as nat)
            }
        }),
{
    let n = node_at(img, off)->Some_0;
    crate::node::lemma_insert_pos_range(n.keys, q);
}

/// Searching a tree whose root is a leaf is exactly the node-level
/// lookup in that leaf.
pub proof fn lemma_search_leaf_root(img: Seq<u8>, off: u64, q: Seq<u8>, fuel: nat)
    requires
        fuel > 0,
        node_at(img, off) is Some,
        node_at(img, off)->Some_0.is_leaf,
    ensures
        spec_search(img, off, q, fuel) == Some(crate::node::leaf_lookup(
            node_at(img, off)->Some_0.keys, node_at(img, off)->Some_0.data_offsets, q)),
{
}

/// While the root is a leaf, the store behaves as a flat sorted map:
/// after one insert into that leaf, searching finds the new data offset
/// under the inserted key, and every other key keeps the answer it had.
pub proof fn lemma_leaf_root_round_trip(img2: Seq<u8>, root: u64, v: NodeView, k: Seq<u8>,
    d: u64, q: Seq<u8>, fuel: nat)
    requires
        fuel > 0,
        v.is_leaf,
        keys_sorted(v.keys),
        v.data_offsets.len() == v.keys.len(),
        node_at(img2, root) == Some(crate::node::leaf_inserted(v, k, d)),
    ensures
        spec_search(img2, root, k, fuel) == Some(Some(d)),
        q != k ==> spec_search(img2, root, q, fuel) == Some(crate::node::leaf_lookup(v.keys,
            v.data_offsets, q)),
{
    lemma_search_leaf_root(img2, root, k, fuel);
    crate::node::lemma_leaf_lookup_inserted(v.keys, v.data_offsets, k, d);
    if q != k {
        lemma_search_leaf_root(img2, root, q, fuel);
        crate::node::lemma_leaf_lookup_others(v.keys, v.data_offsets, k, d, q);
    }
}

/// A freshly created database holds no key: searching its empty leaf
/// root reports every key absent.
pub proof fn lemma_fresh_db_has_no_keys(img: Seq<u8>, key: Seq<u8>, fuel: nat)
    requires
        fuel > 0,
        node_at(img, PAGE_SIZE as u64) == Some(NodeView {
            offset: PAGE_SIZE as u64,
            is_leaf: true,
            keys: Seq::<Seq<u8>>::empty(),
            data_offsets: Seq::<u64>::empty(),
            child_page_offsets: Seq::<u64>::empty(),
        }),
    ensures
        spec_search(img, PAGE_SIZE as u64, key, fuel) == Some(None::<u64>),
{
}

/// The engine: the name of the open database, the cached root page
/// offset from the header, and the database file held as a byte image.
pub struct DbEngine {
    pub active_name: Option<String>,
    pub root_offset: u64,
    pub image: Vec<u8>,
}

impl DbEngine {
    /// A fresh engine with no open database.
    pub fn new() -> (e: DbEngine)
        ensures
            e.active_name is None,
            e.root_offset == 0,
            e.image@.len() == 0,
    {
        DbEngine { active_name: None, root_offset: 0, image: Vec::new() }
    }

    /// The file name of the open database: its name followed by `.db`.
    pub fn active_path(&self) -> (r: String)
        requires
            self.active_name is Some,
        ensures
            r@ == self.active_name->0@ + ".db"@,
    {
        let name: &String = match &self.active_name {
            Some(n) => n,
            None => unreached(),
        };
        let mut path = name.clone();
        path.append(".db");
        path
    }

    /// The initial image of a freshly created database file: a header
    /// page carrying the magic and a root pointer to the page after it,
    /// then that page holding an empty leaf root.
    pub fn create_db() -> (img: Vec<u8>)
        ensures
            img@.len() == 2 * PAGE_SIZE,
            img@.subrange(0, 4) == magic_bytes(),
            img@.subrange(4, 8) == crate::codec::zero_bytes(4),
            img@.subrange(8, 16) == spec_u64_to_le_bytes(PAGE_SIZE as u64),
            img@.subrange(16, PAGE_SIZE as int) == crate::codec::zero_bytes(PAGE_SIZE - 16),
            node_at(img@, PAGE_SIZE as u64) == Some(NodeView {
                offset: PAGE_SIZE as u64,
                is_leaf: true,
                keys: Seq::<Seq<u8>>::empty(),
                data_offsets: Seq::<u64>::empty(),
                child_page_offsets: Seq::<u64>::empty(),
            }),
    {
        let mut img: Vec<u8> = vec![0u8; PAGE_SIZE];
        img.set(0, 0x52);
        img.set(1, 0x44);
        img.set(2, 0x42);
        img.set(3, 0x58);
        let rb = u64_to_le_bytes(PAGE_SIZE as u64);
        let mut j: usize = 0;
        while j < 8
            invariant
                rb@.len() == 8,
                img@.len() == PAGE_SIZE,
                0 <= j <= 8,
                forall|t: int| 0 <= t < 4 ==> img@[t] == magic_bytes()[t],
                forall|t: int| 4 <= t < 8 ==> img@[t] == 0u8,
                forall|t: int| 0 <= t < j ==> img@[8 + t] == rb@[t],
                forall|t: int| 8 + j <= t < PAGE_SIZE ==> img@[t] == 0u8,
            decreases 8 - j,
        {
            img.set(8 + j, rb[j]);
            j = j + 1;
        }
        let root = BTreeNode::new(PAGE_SIZE as u64, true);
        proof {
            assert(crate::codec::entries_len(root@.keys) == 0);
            assert(crate::codec::children_bytes(root@.child_page_offsets) =~= Seq::<u8>::empty());
            assert(node_fits(root@));
        }
        let mut page = match root.serialize() {
            Ok(buf) => buf,
            Err(_) => {
                proof {
                    assert(false);
                }
                Vec::new()
            },
        };
        let ghost header = img@;
        img.append(&mut page);
        proof {
            lemma_encode_len(root@);
            assert(img@.subrange(0, 4) =~= magic_bytes());
            assert(img@.subrange(4, 8) =~= crate::codec::zero_bytes(4));
            assert(img@.subrange(8, 16) =~= spec_u64_to_le_bytes(PAGE_SIZE as u64)) by {
                lemma_auto_spec_u64_to_from_le_bytes();
                assert(forall|t: int| 0 <= t < 8 ==> #[trigger] img@[8 + t] == header[8 + t]);
            }
            assert(img@.subrange(16, PAGE_SIZE as int) =~= crate::codec::zero_bytes(
                PAGE_SIZE - 16));
            assert(img@.subrange(PAGE_SIZE as int, 2 * PAGE_SIZE) =~= encode_node(root@));
            lemma_decode_encode(root@);
        }
        img
    }

    /// Open a database image: check the magic, cache the root pointer
    /// from the header, and take the image as the working file.
    pub fn use_db(&mut self, name: &str, image: Vec<u8>) -> (r: Result<(), DbError>)
        ensures
            match r {
                Ok(()) => {
                    &&& image@.len() >= 16
                    &&& image@.subrange(0, 4) == magic_bytes()
                    &&& final(self).active_name is Some
                    &&& final(self).active_name->0@ == name@
                    &&& final(self).root_offset == spec_u64_from_le_bytes(image@.subrange(8, 16))
                    &&& final(self).image@.subrange(8, 16) == spec_u64_to_le_bytes(
                        final(self).root_offset)
                    &&& final(self).image@ == image@
                },
                Err(e) => {
                    &&& e == DbError::BadMagic
                    &&& !(image@.len() >= 16 && image@.subrange(0, 4) == magic_bytes())
                    &&& *final(self) == *old(self)
                },
            },
    {
        if image.len() < 16 {
            return Err(DbError::BadMagic);
        }
        if !(image[0] == 0x52 && image[1] == 0x44 && image[2] == 0x42 && image[3] == 0x58) {
            proof {
                assert(image@.subrange(0, 4) != magic_bytes()) by {
                    if image@.subrange(0, 4) == magic_bytes() {
                        assert(image@[0] == 0x52 && image@[1] == 0x44 && image@[2] == 0x42
                            && image@[3] == 0x58) by {
                            assert(forall|t: int| 0 <= t < 4 ==> image@[t]
                                == #[trigger] image@.subrange(0, 4)[t]);
                        }
                    }
                }
            }
            return Err(DbError::BadMagic);
        }
        proof {
            assert(image@.subrange(0, 4) =~= magic_bytes());
        }
        let root = u64_from_le_bytes(slice_subrange(image.as_slice(), 8, 16));
        proof {
            lemma_auto_spec_u64_to_from_le_bytes();
            assert(image@.subrange(8, 16).len() == 8);
        }
        self.active_name = Some(name.to_owned());
        self.root_offset = root;
        self.image = image;
        Ok(())
    }

    /// Read and decode the node page at an absolute offset of the image.
    pub fn load_node(&self, off: u64) -> (r: Result<BTreeNode, DbError>)
        ensures
            match r {
                Ok(node) => {
                    &&& node_at(self.image@, off) == Some(node@)
                    &&& node@.wf_shape()
                    &&& node_fits(node@)
                    &&& node@.offset == off
                },
                Err(e) => {
                    &&& node_at(self.image@, off) is None
                    &&& e == if !(off as int % PAGE_SIZE as int == 0 && PAGE_SIZE <= off as int) {
                        DbError::CorruptPage
                    } else if off as int + PAGE_SIZE > self.image@.len() {
                        DbError::IoFailure
                    } else {
                        DbError::CorruptPage
                    }
                },
            },
    {
        if !(off % (PAGE_SIZE as u64) == 0 && (PAGE_SIZE as u64) <= off) {
            return Err(DbError::CorruptPage);
        }
        let len = self.image.len();
        if (len as u64) < PAGE_SIZE as u64 || off > len as u64 - PAGE_SIZE as u64 {
            return Err(DbError::IoFailure);
        }
        let start = off as usize;
        let page = slice_subrange(self.image.as_slice(), start, start + PAGE_SIZE);
        BTreeNode::deserialize(off, page)
    }

    /// Overwrite one page of the image with the given bytes.
    fn write_page(&mut self, off: u64, buf: &Vec<u8>)
        requires
            buf@.len() == PAGE_SIZE,
            off as int + PAGE_SIZE <= old(self).image@.len(),
        ensures
            final(self).image@.len() == old(self).image@.len(),
            final(self).image@ == old(self).image@.subrange(0, off as int) + buf@
                + old(self).image@.subrange(off as int + PAGE_SIZE, old(self).image@.len() as int),
            forall|t: int| 0 <= t < old(self).image@.len() && !(off as int <= t < off as int
                + PAGE_SIZE) ==> final(self).image@[t] == old(self).image@[t],
            final(self).image@.subrange(off as int, off as int + PAGE_SIZE) == buf@,
            final(self).active_name == old(self).active_name,
            final(self).root_offset == old(self).root_offset,
    {
        let len = self.image.len();
        let start = off as usize;
        let mut j: usize = 0;
        while j < PAGE_SIZE
            invariant
                buf@.len() == PAGE_SIZE,
                start + PAGE_SIZE <= self.image@.len(),
                self.image@.len() <= usize::MAX,
                start == off as int,
                0 <= j <= PAGE_SIZE,
                self.image@.len() == old(self).image@.len(),
                forall|t: int| 0 <= t < j ==> self.image@[start + t] == buf@[t],
                forall|t: int| 0 <= t < self.image@.len() && !(start <= t < start + j)
                    ==> self.image@[t] == old(self).image@[t],
                self.active_name == old(self).active_name,
                self.root_offset == old(self).root_offset,
            decreases PAGE_SIZE - j,
        {
            self.image.set(start + j, buf[j]);
            j = j + 1;
        }
        proof {
            assert(final(self).image@ =~= old(self).image@.subrange(0, off as int) + buf@
                + old(self).image@.subrange(off as int + PAGE_SIZE,
                old(self).image@.len() as int));
            assert(final(self).image@.subrange(off as int, off as int + PAGE_SIZE) =~= buf@);
        }
    }

    /// Encode a node and write it at its own page offset.
    pub fn save_node(&mut self, node: &BTreeNode) -> (r: Result<(), DbError>)
        requires
            node@.wf_shape(),
            node@.offset as int % PAGE_SIZE as int == 0,
            PAGE_SIZE <= node@.offset as int,
            node@.offset as int + PAGE_SIZE <= old(self).image@.len(),
        ensures
            match r {
                Ok(()) => {
                    &&& node_fits(node@)
                    &&& final(self).image@.len() == old(self).image@.len()
                    &&& final(self).image@.subrange(node@.offset as int, node@.offset as int
                        + PAGE_SIZE) == encode_node(node@)
                    &&& forall|t: int| 0 <= t < old(self).image@.len() && !(node@.offset as int
                        <= t < node@.offset as int + PAGE_SIZE) ==> final(self).image@[t]
                        == old(self).image@[t]
                    &&& node_at(final(self).image@, node@.offset) == Some(node@)
                    &&& final(self).active_name == old(self).active_name
                    &&& final(self).root_offset == old(self).root_offset
                },
                Err(e) => {
                    &&& e == DbError::EncodeTooLarge
                    &&& !node_fits(node@)
                    &&& *final(self) == *old(self)
                },
            },
    {
        let buf = match node.serialize() {
            Ok(b) => b,
            Err(e) => {
                return Err(e);
            },
        };
        proof {
            lemma_encode_len(node@);
        }
        self.write_page(node.offset, &buf);
        proof {
            lemma_decode_encode(node@);
        }
        Ok(())
    }

    /// Write a new root pointer into the header page and cache it.
    pub fn update_root_ptr(&mut self, new_offset: u64) -> (r: Result<(), DbError>)
        ensures
            match r {
                Ok(()) => {
                    &&& old(self).image@.len() >= 16
                    &&& final(self).image@.len() == old(self).image@.len()
                    &&& final(self).image@.subrange(8, 16) == spec_u64_to_le_bytes(new_offset)
                    &&& forall|t: int| 0 <= t < old(self).image@.len() && !(8 <= t < 16)
                        ==> final(self).image@[t] == old(self).image@[t]
                    &&& final(self).root_offset == new_offset
                    &&& final(self).active_name == old(self).active_name
                },
                Err(e) => {
                    &&& e == DbError::IoFailure
                    &&& old(self).image@.len() < 16
                    &&& *final(self) == *old(self)
                },
            },
    {
        if self.image.len() < 16 {
            return Err(DbError::IoFailure);
        }
        let rb = u64_to_le_bytes(new_offset);
        let mut j: usize = 0;
        while j < 8
            invariant
                rb@.len() == 8,
                rb@ == spec_u64_to_le_bytes(new_offset),
                self.image@.len() == old(self).image@.len(),
                self.image@.len() >= 16,
                0 <= j <= 8,
                forall|t: int| 0 <= t < j ==> self.image@[8 + t] == rb@[t],
                forall|t: int| 0 <= t < self.image@.len() && !(8 <= t < 8 + j)
                    ==> self.image@[t] == old(self).image@[t],
                self.active_name == old(self).active_name,
                self.root_offset == old(self).root_offset,
            decreases 8 - j,
        {
            self.image.set(8 + j, rb[j]);
            j = j + 1;
        }
        self.root_offset = new_offset;
        proof {
            assert(final(self).image@.subrange(8, 16) =~= spec_u64_to_le_bytes(new_offset));
        }
        Ok(())
    }

    /// Pad the image to a page boundary, reserve one fresh zeroed page
    /// there, and return that page's offset.
    pub fn allocate_page(&mut self) -> (r: Result<u64, DbError>)
        ensures
            match r {
                Ok(off) => {
                    &&& old(self).image@.len() <= usize::MAX - 2 * PAGE_SIZE
                    &&& off as int == page_align_up(old(self).image@.len() as int)
                    &&& off as int % PAGE_SIZE as int == 0
                    &&& old(self).image@.len() <= off as int
                    &&& (off as int) < old(self).image@.len() + PAGE_SIZE
                    &&& final(self).image@.len() == off as int + PAGE_SIZE
                    &&& final(self).image@.subrange(0, old(self).image@.len() as int)
                        == old(self).image@
                    &&& forall|t: int| old(self).image@.len() <= t < final(self).image@.len()
                        ==> final(self).image@[t] == 0u8
                    &&& final(self).active_name == old(self).active_name
                    &&& final(self).root_offset == old(self).root_offset
                },
                Err(e) => {
                    &&& e == DbError::IoFailure
                    &&& old(self).image@.len() > usize::MAX - 2 * PAGE_SIZE
                    &&& *final(self) == *old(self)
                },
            },
    {
        let len = self.image.len();
        if len > usize::MAX - 2 * PAGE_SIZE {
            return Err(DbError::IoFailure);
        }
        let q = len / PAGE_SIZE;
        let rem = len % PAGE_SIZE;
        proof {
            lemma_fundamental_div_mod(len as int, PAGE_SIZE as int);
        }
        let off = if rem == 0 {
            len
        } else {
            (q + 1) * PAGE_SIZE
        };
        proof {
            if rem != 0 {
                lemma_mod_multiples_basic(q as int + 1, PAGE_SIZE as int);
            } else {
                assert(off as int % PAGE_SIZE as int == 0);
            }
            assert(off as int == page_align_up(len as int));
        }
        let target = off + PAGE_SIZE;
        while self.image.len() < target
            invariant
                len <= off,
                target == off + PAGE_SIZE,
                len <= self.image@.len() <= target,
                self.image@.subrange(0, len as int) == old(self).image@,
                forall|t: int| len <= t < self.image@.len() ==> self.image@[t] == 0u8,
                self.active_name == old(self).active_name,
                self.root_offset == old(self).root_offset,
            decreases target - self.image.len(),
        {
            self.image.push(0u8);
            proof {
                assert(self.image@.subrange(0, len as int) =~= old(self).image@);
            }
        }
        Ok(off as u64)
    }

    /// Append one length-prefixed key/value record to the end of the
    /// image and return the data offset where it begins.
    pub fn append_record(&mut self, key: &Vec<u8>, value: &Vec<u8>) -> (r: Result<u64, DbError>)
        ensures
            match r {
                Ok(d) => {
                    &&& d as int == old(self).image@.len()
                    &&& key@.len() < 0x1_0000_0000
                    &&& value@.len() < 0x1_0000_0000
                    &&& final(self).image@ == old(self).image@ + record_bytes(key@, value@)
                    &&& final(self).active_name == old(self).active_name
                    &&& final(self).root_offset == old(self).root_offset
                },
                Err(e) => {
                    &&& e == DbError::IoFailure
                    &&& *final(self) == *old(self)
                    &&& !(key@.len() < 0x1_0000_0000 && value@.len() < 0x1_0000_0000
                        && old(self).image@.len() + 8 + key@.len() + value@.len() <= usize::MAX)
                },
            },
    {
        let len = self.image.len();
        if key.len() as u64 >= 0x1_0000_0000u64 || value.len() as u64 >= 0x1_0000_0000u64 {
            return Err(DbError::IoFailure);
        }
        if len > usize::MAX - 8 || key.len() > usize::MAX - 8 - len
            || value.len() > usize::MAX - 8 - len - key.len() {
            return Err(DbError::IoFailure);
        }
        let d = len as u64;
        let mut kl = u32_to_le_bytes(key.len() as u32);
        self.image.append(&mut kl);
        let mut vl = u32_to_le_bytes(value.len() as u32);
        self.image.append(&mut vl);
        self.image.extend_from_slice(key.as_slice());
        self.image.extend_from_slice(value.as_slice());
        proof {
            assert(final(self).image@ =~= old(self).image@ + record_bytes(key@, value@));
        }
        Ok(d)
    }

    /// Split the full child at slot `i` of `parent`: the child keeps its
    /// first `MIN_DEGREE - 1` keys, a fresh right sibling at a newly
    /// allocated page takes the last `MIN_DEGREE - 1`, and the median
    /// key moves up into `parent` at slot `i`. All three pages are
    /// encoded before anything is written, so a failure leaves the old
    /// file bytes untouched; on success the two halves are written
    /// before the parent, so a reader of the old parent still sees the
    /// tree as it was. The split succeeds exactly when the image can
    /// still grow by a page and the grown parent fits in one.
    pub fn split_child(&mut self, parent: &mut BTreeNode, i: usize) -> (r: Result<(), DbError>)
        requires
            old(parent)@.wf_shape(),
            old(parent)@.keys.len() < MAX_KEYS,
            i < old(parent)@.child_page_offsets.len(),
            node_at(old(self).image@, old(parent)@.child_page_offsets[i as int]) is Some,
            ({
                let c = node_at(old(self).image@,
                    old(parent)@.child_page_offsets[i as int])->Some_0;
                c.keys.len() == MAX_KEYS && keys_sorted(c.keys)
            }),
            old(parent)@.offset as int % PAGE_SIZE as int == 0,
            PAGE_SIZE <= old(parent)@.offset as int,
            old(parent)@.offset as int + PAGE_SIZE <= old(self).image@.len(),
            old(parent)@.offset != old(parent)@.child_page_offsets[i as int],
        ensures
            final(self).active_name == old(self).active_name,
            final(self).root_offset == old(self).root_offset,
            final(self).image@.len() >= old(self).image@.len(),
            ({
                let c = node_at(old(self).image@,
                    old(parent)@.child_page_offsets[i as int])->Some_0;
                let noff = page_align_up(old(self).image@.len() as int) as u64;
                let grown = NodeView {
                    offset: old(parent)@.offset,
                    is_leaf: old(parent)@.is_leaf,
                    keys: old(parent)@.keys.insert(i as int, c.keys[MIN_DEGREE as int - 1]),
                    data_offsets: old(parent)@.data_offsets.insert(i as int,
                        c.data_offsets[MIN_DEGREE as int - 1]),
                    child_page_offsets: old(parent)@.child_page_offsets.insert(i as int + 1,
                        noff),
                };
                &&& (old(self).image@.len() > usize::MAX - 2 * PAGE_SIZE ==> r == Err::<(),
                    DbError>(DbError::IoFailure) && *final(self) == *old(self)
                    && *final(parent) == *old(parent))
                &&& (old(self).image@.len() <= usize::MAX - 2 * PAGE_SIZE && !node_fits(grown)
                    ==> r == Err::<(), DbError>(DbError::EncodeTooLarge)
                    && final(parent)@ == grown)
                &&& (old(self).image@.len() <= usize::MAX - 2 * PAGE_SIZE && node_fits(grown)
                    ==> r is Ok)
            }),
            r is Err ==> {
                &&& (r->Err_0 == DbError::IoFailure || r->Err_0 == DbError::EncodeTooLarge)
                &&& forall|t: int| 0 <= t < old(self).image@.len()
                    ==> final(self).image@[t] == old(self).image@[t]
            },
            r is Ok ==> ({
                let coff = old(parent)@.child_page_offsets[i as int];
                let c = node_at(old(self).image@, coff)->Some_0;
                let noff = page_align_up(old(self).image@.len() as int) as u64;
                let left = NodeView {
                    offset: coff,
                    is_leaf: c.is_leaf,
                    keys: c.keys.take(MIN_DEGREE as int - 1),
                    data_offsets: c.data_offsets.take(MIN_DEGREE as int - 1),
                    child_page_offsets: if c.is_leaf {
                        Seq::<u64>::empty()
                    } else {
                        c.child_page_offsets.take(MIN_DEGREE as int)
                    },
                };
                let right = NodeView {
                    offset: noff,
                    is_leaf: c.is_leaf,
                    keys: c.keys.skip(MIN_DEGREE as int),
                    data_offsets: c.data_offsets.skip(MIN_DEGREE as int),
                    child_page_offsets: if c.is_leaf {
                        Seq::<u64>::empty()
                    } else {
                        c.child_page_offsets.skip(MIN_DEGREE as int)
                    },
                };
                &&& final(parent)@.offset == old(parent)@.offset
                &&& final(parent)@.is_leaf == old(parent)@.is_leaf
                &&& final(parent)@.keys == old(parent)@.keys.insert(i as int,
                    c.keys[MIN_DEGREE as int - 1])
                &&& final(parent)@.data_offsets == old(parent)@.data_offsets.insert(i as int,
                    c.data_offsets[MIN_DEGREE as int - 1])
                &&& final(parent)@.child_page_offsets
                    == old(parent)@.child_page_offsets.insert(i as int + 1, noff)
                &&& final(parent)@.wf_shape()
                &&& node_at(final(self).image@, coff) == Some(left)
                &&& node_at(final(self).image@, noff) == Some(right)
                &&& node_at(final(self).image@, old(parent)@.offset) == Some(final(parent)@)
                &&& final(self).image@.len() == noff as int + PAGE_SIZE
                &&& forall|t: int| 0 <= t < old(self).image@.len()
                    && !(coff as int <= t < coff as int + PAGE_SIZE)
                    && !(old(parent)@.offset as int <= t < old(parent)@.offset as int + PAGE_SIZE)
                    ==> final(self).image@[t] == old(self).image@[t]
            }),
    {
        let ghost img0 = self.image@;
        let coff = parent.child_page_offsets[i];
        let mut child = match self.load_node(coff) {
            Ok(c) => c,
            Err(e) => {
                proof {
                    assert(false);
                }
                return Err(e);
            },
        };
        let ghost c = child@;
        let noff = match self.allocate_page() {
            Ok(o) => o,
            Err(e) => {
                return Err(e);
            },
        };
        let ghost img1 = self.image@;
        let (median_key, median_data, right) = child.split(noff);
        parent.keys.insert(i, median_key);
        parent.data_offsets.insert(i, median_data);
        parent.child_page_offsets.insert(i + 1, noff);
        proof {
            // Both halves of a node that came off a page fit in a page.
            crate::codec::lemma_entries_len_parts(c.keys);
            assert(c.keys =~= c.keys.take(MIN_DEGREE as int - 1) + c.keys.skip(
                MIN_DEGREE as int - 1));
            crate::codec::lemma_entries_len_append(c.keys.take(MIN_DEGREE as int - 1),
                c.keys.skip(MIN_DEGREE as int - 1));
            crate::codec::lemma_entries_len_parts(c.keys.take(MIN_DEGREE as int - 1));
            crate::codec::lemma_entries_len_parts(c.keys.skip(MIN_DEGREE as int - 1));
            assert(c.keys =~= c.keys.take(MIN_DEGREE as int) + c.keys.skip(MIN_DEGREE as int));
            crate::codec::lemma_entries_len_append(c.keys.take(MIN_DEGREE as int),
                c.keys.skip(MIN_DEGREE as int));
            crate::codec::lemma_entries_len_parts(c.keys.take(MIN_DEGREE as int));
            crate::codec::lemma_entries_len_parts(c.keys.skip(MIN_DEGREE as int));
            assert(node_fits(child@));
            assert(node_fits(right@));
        }
        proof {
            assert(parent@.keys =~= old(parent)@.keys.insert(i as int,
                c.keys[MIN_DEGREE as int - 1]));
            assert forall|t: int| 0 <= t < parent@.keys.len() implies valid_utf8(
                #[trigger] parent@.keys[t]) by {
                if t < i {
                    assert(parent@.keys[t] == old(parent)@.keys[t]);
                } else if t == i {
                    assert(parent@.keys[t] == c.keys[MIN_DEGREE as int - 1]);
                } else {
                    assert(parent@.keys[t] == old(parent)@.keys[t - 1]);
                }
            }
            assert(parent@.wf_shape());
        }
        // Encode all three pages before anything is written, so that an
        // oversized parent leaves the old file bytes untouched.
        let child_buf = match child.serialize() {
            Ok(b) => b,
            Err(_) => {
                proof {
                    assert(false);
                }
                return Err(DbError::EncodeTooLarge);
            },
        };
        let right_buf = match right.serialize() {
            Ok(b) => b,
            Err(_) => {
                proof {
                    assert(false);
                }
                return Err(DbError::EncodeTooLarge);
            },
        };
        let parent_buf = match parent.serialize() {
            Ok(b) => b,
            Err(e) => {
                proof {
                    assert forall|t: int| 0 <= t < img0.len() implies self.image@[t]
                        == img0[t] by {
                        assert(img1.subrange(0, img0.len() as int) == img0);
                        assert(self.image@[t] == img1.subrange(0, img0.len() as int)[t]);
                    }
                }
                return Err(e);
            },
        };
        proof {
            lemma_encode_len(child@);
            lemma_encode_len(right@);
            lemma_encode_len(parent@);
        }
        self.write_page(coff, &child_buf);
        let ghost img2 = self.image@;
        self.write_page(noff, &right_buf);
        let ghost img3 = self.image@;
        self.write_page(parent.offset, &parent_buf);
        proof {
            let poff = parent@.offset;
            lemma_pages_disjoint(coff, poff);
            lemma_pages_disjoint(noff, poff);
            assert(coff as int + PAGE_SIZE <= img0.len());
            assert(noff as int >= img0.len());
            lemma_decode_encode(child@);
            lemma_decode_encode(right@);
            lemma_decode_encode(parent@);
            // the child's page survives the two later writes
            assert(self.image@.subrange(coff as int, coff as int + PAGE_SIZE)
                =~= child_buf@) by {
                assert(forall|t: int| coff as int <= t < coff as int + PAGE_SIZE
                    ==> img3[t] == img2[t]);
                assert(forall|t: int| coff as int <= t < coff as int + PAGE_SIZE
                    ==> self.image@[t] == img3[t]);
                assert(forall|t: int| 0 <= t < PAGE_SIZE ==> img2[coff as int + t]
                    == #[trigger] child_buf@[t]) by {
                    assert(forall|t: int| coff as int <= t < coff as int + PAGE_SIZE
                        ==> img2[t] == #[trigger] img2.subrange(coff as int,
                        coff as int + PAGE_SIZE)[t - coff as int]);
                }
            }
            assert(node_at(self.image@, coff) == Some(child@));
            // the sibling's page survives the parent write
            assert(self.image@.subrange(noff as int, noff as int + PAGE_SIZE)
                =~= right_buf@) by {
                assert(forall|t: int| noff as int <= t < noff as int + PAGE_SIZE
                    ==> self.image@[t] == img3[t]);
                assert(forall|t: int| 0 <= t < PAGE_SIZE ==> img3[noff as int + t]
                    == #[trigger] right_buf@[t]) by {
                    assert(forall|t: int| noff as int <= t < noff as int + PAGE_SIZE
                        ==> img3[t] == #[trigger] img3.subrange(noff as int,
                        noff as int + PAGE_SIZE)[t - noff as int]);
                }
            }
            assert(node_at(self.image@, noff) == Some(right@));
            assert(self.image@.subrange(poff as int, poff as int + PAGE_SIZE) == parent_buf@);
            assert(node_at(self.image@, poff) == Some(parent@));
            assert(child@ =~= node_at(self.image@, coff)->Some_0);
            // bytes outside the child's and parent's pages are as before
            assert forall|t: int| 0 <= t < img0.len() && !(coff as int <= t
                < coff as int + PAGE_SIZE) && !(poff as int <= t < poff as int + PAGE_SIZE)
                implies self.image@[t] == img0[t] by {
                assert(img1[t] == img0[t]) by {
                    assert(img1.subrange(0, img0.len() as int) == img0);
                }
                assert(img2[t] == img1[t]);
                assert(img3[t] == img2[t]);
                assert(self.image@[t] == img3[t]);
            }
        }
        Ok(())
    }

    /// Insert a key and its data offset below the node at `node_offset`:
    /// descend towards a leaf, pre-emptively splitting any full child on
    /// the way down, and place the entry in the leaf at its sorted slot,
    /// overwriting the stored data offset on an exact key match. The
    /// node descended from must not be full.
    pub fn insert_non_full(&mut self, node_offset: u64, key: Vec<u8>, data_offset: u64) -> (r:
        Result<(), DbError>)
        requires
            valid_utf8(key@),
        ensures
            final(self).active_name == old(self).active_name,
            final(self).root_offset == old(self).root_offset,
            final(self).image@.len() >= old(self).image@.len(),
            forall|t: int| 0 <= t < old(self).image@.len() && t < PAGE_SIZE
                ==> final(self).image@[t] == old(self).image@[t],
            r is Err ==> (r->Err_0 == DbError::CorruptPage || r->Err_0 == DbError::IoFailure
                || r->Err_0 == DbError::EncodeTooLarge),
            r is Ok ==> exists|loff: u64| ({
                let v = #[trigger] node_at(final(self).image@, loff);
                &&& v is Some
                &&& v->Some_0.is_leaf
                &&& exists|i: int| 0 <= i < v->Some_0.keys.len()
                    && #[trigger] v->Some_0.keys[i] == key@
                    && v->Some_0.data_offsets[i] == data_offset
            }),
            node_at(old(self).image@, node_offset) matches Some(v) ==> ((v.is_leaf
                && keys_sorted(v.keys) && v.keys.len() < MAX_KEYS && r is Ok) ==> {
                &&& node_at(final(self).image@, node_offset) == Some(
                    crate::node::leaf_inserted(v, key@, data_offset))
                &&& final(self).image@.len() == old(self).image@.len()
                &&& forall|t: int| 0 <= t < old(self).image@.len()
                    && !(node_offset as int <= t < node_offset as int + PAGE_SIZE)
                    ==> final(self).image@[t] == old(self).image@[t]
            }),
            node_at(old(self).image@, node_offset) matches Some(v) ==> ((v.is_leaf
                && keys_sorted(v.keys) && v.keys.len() < MAX_KEYS
                && node_fits(crate::node::leaf_inserted(v, key@, data_offset))) ==> r is Ok),
            node_at(old(self).image@, node_offset) matches Some(n) ==> ((!n.is_leaf
                && keys_sorted(n.keys) && n.keys.len() <= MAX_KEYS) ==> ({
                let slot = insert_pos(n.keys, key@);
                let coff = n.child_page_offsets[slot];
                node_at(old(self).image@, coff) matches Some(c) ==> ((c.is_leaf
                    && keys_sorted(c.keys) && c.keys.len() < MAX_KEYS
                    && node_fits(crate::node::leaf_inserted(c, key@, data_offset))) ==> {
                    &&& r is Ok
                    &&& node_at(final(self).image@, coff) == Some(crate::node::leaf_inserted(c,
                        key@, data_offset))
                    &&& final(self).image@.len() == old(self).image@.len()
                    &&& forall|t: int| 0 <= t < old(self).image@.len()
                        && !(coff as int <= t < coff as int + PAGE_SIZE)
                        ==> final(self).image@[t] == old(self).image@[t]
                })
            })),
    {
        let mut off = node_offset;
        let mut steps = self.image.len() / PAGE_SIZE + 1;
        while steps > 0
            invariant
                valid_utf8(key@),
                self.active_name == old(self).active_name,
                self.root_offset == old(self).root_offset,
                self.image@.len() >= old(self).image@.len(),
                forall|t: int| 0 <= t < old(self).image@.len() && t < PAGE_SIZE
                    ==> self.image@[t] == old(self).image@[t],
                (node_at(old(self).image@, node_offset) matches Some(v) && v.is_leaf)
                    ==> (off == node_offset && self.image@ == old(self).image@),
                (node_at(old(self).image@, node_offset) matches Some(v) && v.is_leaf
                    && keys_sorted(v.keys) && v.keys.len() < MAX_KEYS
                    && node_fits(crate::node::leaf_inserted(v, key@, data_offset)))
                    ==> steps >= 1,
                ({
                    let n = node_at(old(self).image@, node_offset)->Some_0;
                    let coff = n.child_page_offsets[insert_pos(n.keys, key@)];
                    let c = node_at(old(self).image@, coff)->Some_0;
                    (node_at(old(self).image@, node_offset) is Some && !n.is_leaf
                        && keys_sorted(n.keys) && n.keys.len() <= MAX_KEYS
                        && node_at(old(self).image@, coff) is Some
                        && c.is_leaf && keys_sorted(c.keys) && c.keys.len() < MAX_KEYS
                        && node_fits(crate::node::leaf_inserted(c, key@, data_offset)))
                        ==> (self.image@ == old(self).image@ && ((off == node_offset
                        && steps >= 2) || (off == coff && steps >= 1)))
                }),
            decreases steps,
        {
            steps = steps - 1;
            let ghost kview = key@;
            let mut node = match self.load_node(off) {
                Ok(n) => n,
                Err(e) => {
                    return Err(e);
                },
            };
            if !node.check_wf() {
                return Err(DbError::CorruptPage);
            }
            if node.is_leaf {
                if node.keys.len() >= MAX_KEYS {
                    return Err(DbError::CorruptPage);
                }
                let ghost v0 = node@;
                let ghost ks0 = node@.keys;
                let updated = node.insert_in_leaf(key, data_offset);
                proof {
                    crate::node::lemma_insert_pos_range(ks0, kview);
                    assert(node@ =~= crate::node::leaf_inserted(v0, kview, data_offset));
                }
                return match self.save_node(&node) {
                    Ok(()) => {
                        proof {
                            let p0 = insert_pos(ks0, kview);
                            let v = node_at(self.image@, off)->Some_0;
                            assert(v == node@);
                            if updated {
                                assert(v.keys[p0] == ks0[p0] && ks0[p0] == kview);
                            } else {
                                assert(v.keys == ks0.insert(p0, kview));
                                assert(v.keys[p0] == kview);
                            }
                            assert(v.data_offsets[p0] == data_offset);
                        }
                        Ok(())
                    },
                    Err(e) => Err(e),
                };
            }
            let p = node.find_slot(key.as_slice());
            proof {
                crate::node::lemma_insert_pos_range(node@.keys, key@);
            }
            let coff = node.child_page_offsets[p];
            let child = match self.load_node(coff) {
                Ok(c) => c,
                Err(e) => {
                    return Err(e);
                },
            };
            if child.keys.len() == MAX_KEYS {
                if !child.check_wf() {
                    return Err(DbError::CorruptPage);
                }
                if node.keys.len() >= MAX_KEYS || node.offset == coff {
                    return Err(DbError::CorruptPage);
                }
                match self.split_child(&mut node, p) {
                    Ok(()) => {},
                    Err(e) => {
                        return Err(e);
                    },
                }
                let next = if p < node.keys.len() && bytes_lt(node.keys[p].as_slice(),
                    key.as_slice()) {
                    p + 1
                } else {
                    p
                };
                off = node.child_page_offsets[next];
            } else {
                off = coff;
            }
            proof {
                // a leaf at the target offset is handled in its own
                // iteration, so the descent path never reaches here
                if node_at(old(self).image@, node_offset) is Some && node_at(old(self).image@,
                    node_offset)->Some_0.is_leaf {
                    assert(false);
                }
            }
        }
        Err(DbError::CorruptPage)
    }

    /// Look up the data offset stored for `key` and return the value
    /// bytes of the record there: descend from the root, taking at each
    /// internal node the child the key belongs under, until the key is
    /// found or a leaf proves it absent.
    pub fn get(&self, key: &str) -> (r: Result<Option<Vec<u8>>, DbError>)
        ensures
            self.active_name is None <==> r == Err::<Option<Vec<u8>>, DbError>(
                DbError::NoActiveDatabase),
            self.active_name is Some ==> ({
                let sr = spec_search(self.image@, self.root_offset,
                    vstd::utf8::encode_utf8(key@),
                    (self.image@.len() as int / (PAGE_SIZE as int) + 1) as nat);
                &&& (sr is None ==> r is Err && (r->Err_0 == DbError::CorruptPage
                    || r->Err_0 == DbError::IoFailure))
                &&& (sr == Some(None::<u64>) ==> r is Ok && r->Ok_0 is None)
                &&& (sr matches Some(Some(d)) ==> match spec_read_value(self.image@, d) {
                    Some(v) => r is Ok && r->Ok_0 is Some && r->Ok_0->0@ == v,
                    None => r == Err::<Option<Vec<u8>>, DbError>(DbError::IoFailure),
                })
            }),
    {
        if self.active_name.is_none() {
            return Err(DbError::NoActiveDatabase);
        }
        let kb = key.as_bytes();
        let ghost kspec = vstd::utf8::encode_utf8(key@);
        let ghost fuel0: nat = (self.image@.len() as int / (PAGE_SIZE as int) + 1) as nat;
        let mut off = self.root_offset;
        let mut steps = self.image.len() / PAGE_SIZE + 1;
        while steps > 0
            invariant
                kb@ == kspec,
                kspec == vstd::utf8::encode_utf8(key@),
                fuel0 == (self.image@.len() as int / (PAGE_SIZE as int) + 1) as nat,
                self.active_name is Some,
                0 <= steps,
                spec_search(self.image@, self.root_offset, kspec, fuel0) == spec_search(
                    self.image@, off, kspec, steps as nat),
            decreases steps,
        {
            let node = match self.load_node(off) {
                Ok(n) => n,
                Err(e) => {
                    proof {
                        assert(spec_search(self.image@, off, kspec, steps as nat) is None);
                    }
                    return Err(e);
                },
            };
            let p = node.find_slot(kb);
            proof {
                crate::node::lemma_insert_pos_range(node@.keys, kspec);
            }
            if p < node.keys.len() && bytes_eq(node.keys[p].as_slice(), kb) {
                let d = node.data_offsets[p];
                proof {
                    assert(node@.keys[p as int] == kspec);
                    assert(spec_search(self.image@, off, kspec, steps as nat) == Some(Some(d)));
                }
                return match self.read_value_at(d) {
                    Ok(v) => Ok(Some(v)),
                    Err(e) => Err(e),
                };
            }
            if node.is_leaf {
                proof {
                    assert(spec_search(self.image@, off, kspec, steps as nat)
                        == Some(None::<u64>));
                }
                return Ok(None);
            }
            proof {
                assert(spec_search(self.image@, off, kspec, steps as nat) == spec_search(
                    self.image@, node@.child_page_offsets[p as int], kspec, (steps - 1) as nat));
            }
            off = node.child_page_offsets[p];
            steps = steps - 1;
        }
        Err(DbError::CorruptPage)
    }

    /// Store `value` under `key`: append the value record to the end of
    /// the file image, then insert the key with the record's offset into
    /// the tree, first growing a new root when the old root is full.
    #[verifier::rlimit(100)]
    pub fn set(&mut self, key: &str, value: &str) -> (r: Result<(), DbError>)
        ensures
            old(self).active_name is None <==> r == Err::<(), DbError>(
                DbError::NoActiveDatabase),
            final(self).active_name == old(self).active_name,
            r == Err::<(), DbError>(DbError::NoActiveDatabase) ==> *final(self) == *old(self),
            final(self).image@.len() >= old(self).image@.len(),
            forall|t: int| 0 <= t < old(self).image@.len() && t < 8 ==> final(self).image@[t]
                == old(self).image@[t],
            r is Err ==> (r->Err_0 == DbError::NoActiveDatabase || r->Err_0 == DbError::CorruptPage
                || r->Err_0 == DbError::IoFailure || r->Err_0 == DbError::EncodeTooLarge),
            r is Ok ==> final(self).image@.len() >= old(self).image@.len() + 8
                + vstd::utf8::encode_utf8(key@).len() + vstd::utf8::encode_utf8(value@).len(),
            r is Ok ==> exists|loff: u64| ({
                let v = #[trigger] node_at(final(self).image@, loff);
                &&& v is Some
                &&& v->Some_0.is_leaf
                &&& exists|i: int| 0 <= i < v->Some_0.keys.len()
                    && #[trigger] v->Some_0.keys[i] == vstd::utf8::encode_utf8(key@)
                    && v->Some_0.data_offsets[i] == old(self).image@.len()
            }),
            node_at(old(self).image@, old(self).root_offset) matches Some(v) ==> ((v.is_leaf
                && keys_sorted(v.keys) && v.keys.len() < MAX_KEYS && r is Ok) ==> {
                &&& final(self).root_offset == old(self).root_offset
                &&& node_at(final(self).image@, old(self).root_offset) == Some(
                    crate::node::leaf_inserted(v, vstd::utf8::encode_utf8(key@),
                    old(self).image@.len() as u64))
                &&& spec_read_value(final(self).image@, old(self).image@.len() as u64)
                    == Some(vstd::utf8::encode_utf8(value@))
                &&& forall|t: int| 0 <= t < old(self).image@.len()
                    && !(old(self).root_offset as int <= t < old(self).root_offset as int
                    + PAGE_SIZE) ==> final(self).image@[t] == old(self).image@[t]
            }),
            ({
                let kbs = vstd::utf8::encode_utf8(key@);
                let vbs = vstd::utf8::encode_utf8(value@);
                node_at(old(self).image@, old(self).root_offset) matches Some(v)
                    && old(self).active_name is Some
                    && kbs.len() < 0x1_0000_0000
                    && vbs.len() < 0x1_0000_0000
                    && old(self).image@.len() + 8 + kbs.len() + vbs.len() <= usize::MAX
                    && v.is_leaf && keys_sorted(v.keys) && v.keys.len() < MAX_KEYS
                    && node_fits(crate::node::leaf_inserted(v, kbs,
                    old(self).image@.len() as u64)) ==> r is Ok
            }),
            (old(self).image@.len() >= 16 && old(self).image@.subrange(8, 16)
                == spec_u64_to_le_bytes(old(self).root_offset) && r is Ok)
                ==> final(self).image@.subrange(8, 16) == spec_u64_to_le_bytes(
                final(self).root_offset),
            ({
                let kbs = vstd::utf8::encode_utf8(key@);
                let vbs = vstd::utf8::encode_utf8(value@);
                let d = old(self).image@.len() as u64;
                let roff = old(self).root_offset;
                let v = node_at(old(self).image@, roff)->Some_0;
                let median = v.keys[MIN_DEGREE as int - 1];
                let len1 = old(self).image@.len() + 8 + kbs.len() + vbs.len();
                let nroff = page_align_up(len1 as int) as u64;
                let rtoff = (page_align_up(len1 as int) + PAGE_SIZE) as u64;
                let left = NodeView {
                    offset: roff,
                    is_leaf: true,
                    keys: v.keys.take(MIN_DEGREE as int - 1),
                    data_offsets: v.data_offsets.take(MIN_DEGREE as int - 1),
                    child_page_offsets: Seq::<u64>::empty(),
                };
                let right = NodeView {
                    offset: rtoff,
                    is_leaf: true,
                    keys: v.keys.skip(MIN_DEGREE as int),
                    data_offsets: v.data_offsets.skip(MIN_DEGREE as int),
                    child_page_offsets: Seq::<u64>::empty(),
                };
                let slot = insert_pos(seq![median], kbs);
                (node_at(old(self).image@, roff) is Some && old(self).active_name is Some
                    && v.is_leaf && keys_sorted(v.keys) && v.keys.len() == MAX_KEYS
                    && kbs.len() < 0x1_0000_0000 && vbs.len() < 0x1_0000_0000
                    && len1 + 6 * PAGE_SIZE <= usize::MAX
                    && node_fits(crate::node::leaf_inserted(left, kbs, d))
                    && node_fits(crate::node::leaf_inserted(right, kbs, d))) ==> {
                    &&& r is Ok
                    &&& final(self).root_offset == nroff
                    &&& node_at(final(self).image@, nroff) == Some(NodeView {
                        offset: nroff,
                        is_leaf: false,
                        keys: seq![median],
                        data_offsets: seq![v.data_offsets[MIN_DEGREE as int - 1]],
                        child_page_offsets: seq![roff, rtoff],
                    })
                    &&& node_at(final(self).image@, if slot == 0 { roff } else { rtoff })
                        == Some(crate::node::leaf_inserted(if slot == 0 { left } else { right },
                        kbs, d))
                    &&& node_at(final(self).image@, if slot == 0 { rtoff } else { roff })
                        == Some(if slot == 0 { right } else { left })
                    &&& spec_read_value(final(self).image@, d) == Some(vbs)
                    &&& forall|t: int| 0 <= t < old(self).image@.len() && !(8 <= t < 16)
                        && !(roff as int <= t < roff as int + PAGE_SIZE)
                        ==> final(self).image@[t] == old(self).image@[t]
                }
            }),
    {
        if self.active_name.is_none() {
            return Err(DbError::NoActiveDatabase);
        }
        let kb = key.as_bytes_vec();
        let vb = value.as_bytes_vec();
        proof {
            vstd::utf8::encode_utf8_valid_utf8(key@);
        }
        let ghost o = old(self).image@;
        let data_pos = match self.append_record(&kb, &vb) {
            Ok(d) => d,
            Err(e) => {
                return Err(e);
            },
        };
        proof {
            assert(forall|t: int| 0 <= t < o.len() && t < 8 ==> #[trigger] self.image@[t]
                == o[t]);
            lemma_auto_spec_u32_to_from_le_bytes();
            assert(self.image@.len() == o.len() + 8 + kb@.len() + vb@.len());
        }
        let ghost img1 = self.image@;
        proof {
            if node_at(o, old(self).root_offset) is Some {
                let roff = old(self).root_offset;
                assert(img1.subrange(roff as int, roff as int + PAGE_SIZE) =~= o.subrange(
                    roff as int, roff as int + PAGE_SIZE)) by {
                    assert(forall|t: int| 0 <= t < o.len() ==> img1[t] == #[trigger] o[t]);
                }
                lemma_node_at_frame(o, img1, roff);
            }
        }
        let root = match self.load_node(self.root_offset) {
            Ok(n) => n,
            Err(e) => {
                return Err(e);
            },
        };
        if root.keys.len() == MAX_KEYS {
            proof {
                if node_at(o, old(self).root_offset) matches Some(v) && v.is_leaf
                    && keys_sorted(v.keys) && v.keys.len() < MAX_KEYS {
                    assert(false);
                }
            }
            if !root.check_wf() {
                return Err(DbError::CorruptPage);
            }
            let old_root_offset = self.root_offset;
            let ghost roff_g = old(self).root_offset;
            let ghost vspec = node_at(o, roff_g)->Some_0;
            let ghost d_g = o.len() as u64;
            let ghost left_g = NodeView {
                offset: roff_g,
                is_leaf: true,
                keys: vspec.keys.take(MIN_DEGREE as int - 1),
                data_offsets: vspec.data_offsets.take(MIN_DEGREE as int - 1),
                child_page_offsets: Seq::<u64>::empty(),
            };
            let ghost right_g = NodeView {
                offset: (page_align_up(img1.len() as int) + PAGE_SIZE) as u64,
                is_leaf: true,
                keys: vspec.keys.skip(MIN_DEGREE as int),
                data_offsets: vspec.data_offsets.skip(MIN_DEGREE as int),
                child_page_offsets: Seq::<u64>::empty(),
            };
            let ghost ante = node_at(o, roff_g) is Some && old(self).active_name is Some
                && vspec.is_leaf && keys_sorted(vspec.keys) && vspec.keys.len() == MAX_KEYS
                && kb@.len() < 0x1_0000_0000 && vb@.len() < 0x1_0000_0000
                && img1.len() + 6 * PAGE_SIZE <= usize::MAX
                && node_fits(crate::node::leaf_inserted(left_g, kb@, d_g))
                && node_fits(crate::node::leaf_inserted(right_g, kb@, d_g));
            let new_root_offset = match self.allocate_page() {
                Ok(noff) => noff,
                Err(e) => {
                    return Err(e);
                },
            };
            proof {
                assert forall|t: int| 0 <= t < o.len() && t < 8 implies #[trigger] self.image@[t]
                    == o[t] by {
                    assert(self.image@[t] == self.image@.subrange(0, img1.len() as int)[t]);
                }
            }
            let mut new_root = BTreeNode::new(new_root_offset, false);
            new_root.child_page_offsets.push(old_root_offset);
            proof {
                assert(self.image@.subrange(old_root_offset as int, old_root_offset as int
                    + PAGE_SIZE) =~= img1.subrange(old_root_offset as int, old_root_offset as int
                    + PAGE_SIZE)) by {
                    assert(self.image@.subrange(0, img1.len() as int) == img1);
                    assert(forall|t: int| old_root_offset as int <= t < old_root_offset as int
                        + PAGE_SIZE ==> self.image@[t] == #[trigger] img1[t]);
                }
                lemma_node_at_frame(img1, self.image@, old_root_offset);
                assert(new_root@.child_page_offsets =~= seq![old_root_offset]);
                assert(new_root@.wf_shape());
            }
            let ghost img2 = self.image@;
            proof {
                if ante {
                    assert(node_at(img2, roff_g) == Some(vspec));
                    assert(root@ == vspec);
                    // the median of a node that fits leaves ample room in a
                    // one-key internal root
                    let ck = vspec.keys;
                    assert(ck =~= ck.take(MIN_DEGREE as int - 1) + ck.skip(MIN_DEGREE as int
                        - 1));
                    crate::codec::lemma_entries_len_append(ck.take(MIN_DEGREE as int - 1),
                        ck.skip(MIN_DEGREE as int - 1));
                    crate::codec::lemma_entries_len_parts(ck.take(MIN_DEGREE as int - 1));
                    assert(ck.skip(MIN_DEGREE as int - 1)[0] == ck[MIN_DEGREE as int - 1]);
                    crate::codec::lemma_entries_len_parts(ck.skip(MIN_DEGREE as int
                        - 1).drop_first());
                    assert(crate::codec::entries_len(ck) >= 48 + 12 + ck[MIN_DEGREE as int
                        - 1].len());
                    assert(seq![ck[MIN_DEGREE as int - 1]].drop_first()
                        =~= Seq::<Seq<u8>>::empty());
                    assert(crate::codec::entries_len(Seq::<Seq<u8>>::empty()) == 0);
                    assert(crate::codec::entries_len(seq![ck[MIN_DEGREE as int - 1]])
                        == 12 + ck[MIN_DEGREE as int - 1].len());
                    let noff2 = page_align_up(img2.len() as int) as u64;
                    let grown = NodeView {
                        offset: new_root@.offset,
                        is_leaf: new_root@.is_leaf,
                        keys: new_root@.keys.insert(0, vspec.keys[MIN_DEGREE as int - 1]),
                        data_offsets: new_root@.data_offsets.insert(0,
                            vspec.data_offsets[MIN_DEGREE as int - 1]),
                        child_page_offsets: new_root@.child_page_offsets.insert(1, noff2),
                    };
                    assert(grown.keys =~= seq![ck[MIN_DEGREE as int - 1]]);
                    assert(grown.child_page_offsets.len() == 2);
                    assert(node_fits(grown));
                    assert(img2.len() <= usize::MAX - 2 * PAGE_SIZE);
                }
            }
            let res_split = self.split_child(&mut new_root, 0);
            proof {
                assert(forall|t: int| 0 <= t < o.len() && t < 8 ==> #[trigger] self.image@[t]
                    == o[t]) by {
                    assert(forall|t: int| 0 <= t < img2.len() && t < 8 ==> #[trigger]
                        self.image@[t] == img2[t]);
                }
            }
            match res_split {
                Ok(()) => {},
                Err(e) => {
                    return Err(e);
                },
            }
            let ghost img_sp = self.image@;
            let res_upd = self.update_root_ptr(new_root_offset);
            proof {
                assert(forall|t: int| 0 <= t < o.len() && t < 8 ==> #[trigger] self.image@[t]
                    == o[t]);
            }
            match res_upd {
                Ok(()) => {},
                Err(e) => {
                    return Err(e);
                },
            }
            let ghost img_upd = self.image@;
            proof {
                if ante {
                    let noff2 = page_align_up(img2.len() as int) as u64;
                    assert(noff2 == new_root_offset + PAGE_SIZE as u64) by {
                        assert((new_root_offset as int + PAGE_SIZE) % (PAGE_SIZE as int) == 0)
                            by (nonlinear_arith)
                            requires new_root_offset as int % (PAGE_SIZE as int) == 0;
                    }
                    // the root-pointer write touches no node page
                    assert forall|x: u64| x == new_root_offset || x == roff_g || x == noff2
                        implies node_at(img_upd, x) == node_at(img_sp, x) by {
                        assert(PAGE_SIZE <= x as int);
                        assert(x as int + PAGE_SIZE <= img_sp.len());
                        assert(img_upd.subrange(x as int, x as int + PAGE_SIZE)
                            =~= img_sp.subrange(x as int, x as int + PAGE_SIZE)) by {
                            assert(forall|t: int| x as int <= t < x as int + PAGE_SIZE
                                ==> #[trigger] img_upd[t] == img_sp[t]);
                        }
                        lemma_node_at_frame(img_sp, img_upd, x);
                    }
                    // identify the split products with the regime's views
                    assert(new_root@.keys =~= seq![vspec.keys[MIN_DEGREE as int - 1]]);
                    assert(new_root@.child_page_offsets =~= seq![roff_g, noff2]);
                    assert(node_at(img_upd, new_root_offset) == Some(new_root@));
                    assert(node_at(img_sp, roff_g) == Some(left_g)) by {
                        assert(node_at(img_sp, roff_g)->Some_0 =~= left_g);
                    }
                    assert(node_at(img_sp, noff2) == Some(right_g)) by {
                        assert(node_at(img_sp, noff2)->Some_0 =~= right_g);
                    }
                    // both halves are sorted two-key leaves
                    assert(keys_sorted(new_root@.keys));
                    assert forall|a: int, b: int| 0 <= a < b < left_g.keys.len()
                        implies lex_lt(left_g.keys[a], left_g.keys[b]) by {
                        assert(left_g.keys[a] == vspec.keys[a]);
                        assert(left_g.keys[b] == vspec.keys[b]);
                    }
                    assert forall|a: int, b: int| 0 <= a < b < right_g.keys.len()
                        implies lex_lt(right_g.keys[a], right_g.keys[b]) by {
                        assert(right_g.keys[a] == vspec.keys[a + MIN_DEGREE]);
                        assert(right_g.keys[b] == vspec.keys[b + MIN_DEGREE]);
                    }
                    crate::node::lemma_insert_pos_range(new_root@.keys, kb@);
                    assert(data_pos == d_g);
                }
            }
            let res_ins = self.insert_non_full(self.root_offset, kb, data_pos);
            proof {
                assert(forall|t: int| 0 <= t < o.len() && t < 8 ==> #[trigger] self.image@[t]
                    == o[t]);
                if res_ins is Ok {
                    assert(self.image@.subrange(8, 16) =~= spec_u64_to_le_bytes(
                        new_root_offset)) by {
                        assert(forall|t: int| 8 <= t < 16 ==> #[trigger] self.image@[t]
                            == img_upd[t]);
                        assert(forall|t: int| 0 <= t < 8 ==> img_upd[8 + t]
                            == #[trigger] img_upd.subrange(8, 16)[t]);
                    }
                }
                if ante {
                    let noff2 = page_align_up(img2.len() as int) as u64;
                    assert((new_root_offset as int + PAGE_SIZE) % (PAGE_SIZE as int) == 0)
                        by (nonlinear_arith)
                        requires new_root_offset as int % (PAGE_SIZE as int) == 0;
                    assert(noff2 as int == new_root_offset as int + PAGE_SIZE);
                    assert(noff2 as int % PAGE_SIZE as int == 0);
                    let slot = insert_pos(new_root@.keys, kb@);
                    crate::node::lemma_insert_pos_range(new_root@.keys, kb@);
                    let coff_h2 = new_root@.child_page_offsets[slot];
                    assert(res_ins is Ok);
                    assert(node_at(self.image@, coff_h2) == Some(crate::node::leaf_inserted(
                        node_at(img_upd, coff_h2)->Some_0, kb@, data_pos)));
                    // the new root's page and the untouched half survive the
                    // leaf write
                    let other = new_root@.child_page_offsets[1 - slot];
                    assert(coff_h2 == roff_g || coff_h2 == noff2);
                    assert(new_root_offset != coff_h2 && other != coff_h2);
                    assert forall|x: u64| x == new_root_offset || x == other
                        implies node_at(self.image@, x) == node_at(img_upd, x) by {
                        lemma_pages_disjoint(x, coff_h2);
                        assert(self.image@.subrange(x as int, x as int + PAGE_SIZE)
                            =~= img_upd.subrange(x as int, x as int + PAGE_SIZE)) by {
                            assert(forall|t: int| x as int <= t < x as int + PAGE_SIZE
                                ==> #[trigger] self.image@[t] == img_upd[t]);
                        }
                        lemma_node_at_frame(img_upd, self.image@, x);
                    }
                    // tie the final pages to the stated shape
                    assert(node_at(self.image@, new_root_offset) == Some(new_root@));
                    assert(new_root@ =~= NodeView {
                        offset: new_root_offset,
                        is_leaf: false,
                        keys: seq![vspec.keys[MIN_DEGREE as int - 1]],
                        data_offsets: seq![vspec.data_offsets[MIN_DEGREE as int - 1]],
                        child_page_offsets: seq![roff_g, noff2],
                    });
                    if slot == 0 {
                        assert(coff_h2 == roff_g && other == noff2);
                        assert(node_at(img_upd, coff_h2) == Some(left_g));
                        assert(node_at(self.image@, other) == Some(right_g));
                    } else {
                        assert(slot == 1);
                        assert(coff_h2 == noff2 && other == roff_g);
                        assert(node_at(img_upd, coff_h2) == Some(right_g));
                        assert(node_at(self.image@, other) == Some(left_g));
                    }
                    assert(new_root_offset as int == page_align_up(img1.len() as int));
                    assert(img1.len() == o.len() + 8 + kb@.len() + vb@.len());
                    // the fresh record survives and reads back as the value
                    assert(spec_read_value(self.image@, data_pos) == Some(vb@)) by {
                        lemma_record_round_trip(o, kb@, vb@);
                        assert forall|t: int| data_pos as int <= t < img1.len()
                            implies img1[t] == self.image@[t] by {
                            assert(roff_g as int + PAGE_SIZE <= o.len());
                            assert(img2[t] == img1[t]) by {
                                assert(img2.subrange(0, img1.len() as int) == img1);
                            }
                            assert(img_sp[t] == img2[t]);
                            assert(img_upd[t] == img_sp[t]);
                            assert(self.image@[t] == img_upd[t]);
                        }
                        lemma_read_value_extend(img1, self.image@, data_pos);
                    }
                    // everything below the old end of file other than the
                    // root pointer and the old root's page is untouched
                    assert forall|t: int| 0 <= t < o.len() && !(8 <= t < 16)
                        && !(roff_g as int <= t < roff_g as int + PAGE_SIZE)
                        implies self.image@[t] == o[t] by {
                        assert(img1[t] == o[t]);
                        assert(img2[t] == img1[t]) by {
                            assert(img2.subrange(0, img1.len() as int) == img1);
                        }
                        assert(img_sp[t] == img2[t]);
                        assert(img_upd[t] == img_sp[t]);
                        assert(self.image@[t] == img_upd[t]);
                    }
                }
            }
            match res_ins {
                Ok(()) => Ok(()),
                Err(e) => Err(e),
            }
        } else {
            let ghost kbv = kb@;
            let ghost vbv = vb@;
            let res_ins = self.insert_non_full(self.root_offset, kb, data_pos);
            proof {
                assert(forall|t: int| 0 <= t < o.len() && t < 8 ==> #[trigger] self.image@[t]
                    == o[t]);
                let roff = old(self).root_offset;
                if node_at(o, roff) is Some && node_at(o, roff)->Some_0.is_leaf && keys_sorted(
                    node_at(o, roff)->Some_0.keys) && node_at(o, roff)->Some_0.keys.len()
                    < MAX_KEYS && res_ins is Ok {
                    lemma_record_round_trip(o, kbv, vbv);
                    assert(spec_read_value(img1, data_pos) == Some(vbv));
                    assert forall|t: int| data_pos as int <= t < img1.len()
                        implies self.image@[t] == img1[t] by {
                        assert(roff as int + PAGE_SIZE <= o.len());
                    }
                    lemma_read_value_frame(self.image@, img1, data_pos);
                }
                if node_at(o, roff) is Some && node_at(o, roff)->Some_0.is_leaf && keys_sorted(
                    node_at(o, roff)->Some_0.keys) && node_at(o, roff)->Some_0.keys.len()
                    < MAX_KEYS && res_ins is Ok {
                    assert forall|t: int| 0 <= t < o.len() && !(roff as int <= t < roff as int
                        + PAGE_SIZE) implies self.image@[t] == o[t] by {
                        assert(img1[t] == o[t]);
                        assert(self.image@[t] == img1[t]);
                    }
                }
                if res_ins is Ok && o.len() >= 16 {
                    assert(self.image@.subrange(8, 16) =~= o.subrange(8, 16)) by {
                        assert(forall|t: int| 8 <= t < 16 ==> #[trigger] self.image@[t]
                            == img1[t]);
                        assert(forall|t: int| 8 <= t < 16 ==> img1[t] == #[trigger] o[t]);
                        assert(forall|t: int| 0 <= t < 8 ==> o[8 + t]
                            == #[trigger] o.subrange(8, 16)[t]);
                    }
                }
            }
            match res_ins {
                Ok(()) => Ok(()),
                Err(e) => Err(e),
            }
        }
    }

    /// Read the value bytes of the record at a data offset of the image.
    pub fn read_value_at(&self, offset: u64) -> (r: Result<Vec<u8>, DbError>)
        ensures
            match r {
                Ok(v) => spec_read_value(self.image@, offset) == Some(v@),
                Err(e) => e == DbError::IoFailure && spec_read_value(self.image@, offset) is None,
            },
    {
        let len = self.image.len();
        if len < 8 || offset > (len - 8) as u64 {
            return Err(DbError::IoFailure);
        }
        let start = offset as usize;
        let klen = u32_from_le_bytes(slice_subrange(self.image.as_slice(), start, start + 4))
            as usize;
        let vlen = u32_from_le_bytes(slice_subrange(self.image.as_slice(), start + 4, start + 8))
            as usize;
        if klen > len - start - 8 || vlen > len - start - 8 - klen {
            return Err(DbError::IoFailure);
        }
        let v = slice_to_vec(slice_subrange(self.image.as_slice(), start + 8 + klen,
            start + 8 + klen + vlen));
        Ok(v)
    }
}

} // verus!
