//! B-tree nodes and their on-page codec.
//!
//! A [`Node`] holds an ordered run of key/value [`Item`]s and, when it is an
//! internal node, one child page number per gap around the items.  The codec
//! packs a node into a fixed page buffer with a two-pointer layout: header
//! and offset array grow from the left, key/value blobs grow from the right.
//! [`spec_decode`] is the specification of the on-page format; the encoder
//! is proved to produce buffers that decode back to the encoded node.

use crate::dal::{NODE_HEADER_SIZE, PAGE_NUM_SIZE};
use crate::endian::{read_u16_at, read_u64_at, write_bytes_at, write_u16_at, write_u64_at};
use crate::keys::{compare_keys, key_lt, keys_sorted, lemma_key_lt_irreflexive};
use crate::{ByteString, KvError, PageNum};
use vstd::bytes::{
    lemma_auto_spec_u16_to_from_le_bytes, lemma_auto_spec_u64_to_from_le_bytes,
    spec_u16_from_le_bytes, spec_u16_to_le_bytes, spec_u64_from_le_bytes, spec_u64_to_le_bytes,
};
use vstd::prelude::*;
use vstd::slice::slice_to_vec;

verus! {

/// A single key/value pair stored in a node.
#[derive(Debug, Clone)]
pub struct Item {
    pub key: ByteString,
    pub value: ByteString,
}

/// Mathematical model of an [`Item`]: its key and value as byte sequences.
#[verifier::ext_equal]
pub struct ItemModel {
    pub key: Seq<u8>,
    pub value: Seq<u8>,
}

impl View for Item {
    type V = ItemModel;

    open spec fn view(&self) -> ItemModel {
        ItemModel { key: self.key@, value: self.value@ }
    }
}

/// A B-tree node materialized in memory from a page.
///
/// `page_num == 0` means "unassigned; allocate on first write".  A node is a
/// leaf iff `children` is empty; an internal node with `n` items has `n + 1`
/// children.
#[derive(Debug, Clone)]
pub struct Node {
    pub page_num: PageNum,
    pub items: Vec<Item>,
    pub children: Vec<PageNum>,
}

/// Mathematical model of a node's payload: the part the codec stores.
#[verifier::ext_equal]
pub struct NodeModel {
    pub items: Seq<ItemModel>,
    pub children: Seq<PageNum>,
}

impl View for Node {
    type V = NodeModel;

    open spec fn view(&self) -> NodeModel {
        NodeModel {
            items: self.items@.map_values(|it: Item| it@),
            children: self.children@,
        }
    }
}

/// The keys of a run of items, in order.
pub open spec fn keys_of(items: Seq<ItemModel>) -> Seq<Seq<u8>> {
    items.map_values(|it: ItemModel| it.key)
}

impl NodeModel {
    /// A node is a leaf iff it has no children.
    pub open spec fn is_leaf(self) -> bool {
        self.children.len() == 0
    }

    /// Fan-out discipline: a leaf has no children; an internal node with
    /// `n` items has exactly `n + 1` children.
    pub open spec fn wf_shape(self) -> bool {
        self.children.len() == 0 || self.children.len() == self.items.len() + 1
    }

    /// Keys within the node are strictly increasing.
    pub open spec fn sorted(self) -> bool {
        keys_sorted(keys_of(self.items))
    }
}

/// Key and value each fit the codec's single-byte length prefix.
pub open spec fn item_fits(it: ItemModel) -> bool {
    it.key.len() <= 255 && it.value.len() <= 255
}

/// Contribution of one item to the size estimator: key, value, and one
/// page-number width of overhead.
pub open spec fn spec_element_size(it: ItemModel) -> int {
    it.key.len() + it.value.len() + PAGE_NUM_SIZE
}

/// Estimated size of the header plus the first `k` items.
pub open spec fn spec_size_prefix(items: Seq<ItemModel>, k: int) -> int
    decreases k,
{
    if k <= 0 {
        NODE_HEADER_SIZE as int
    } else {
        spec_size_prefix(items, k - 1) + spec_element_size(items[k - 1])
    }
}

/// The size estimator used for threshold comparisons:
/// `3 + sum(klen + vlen + 8) + 8`.
pub open spec fn spec_size(m: NodeModel) -> int {
    spec_size_prefix(m.items, m.items.len() as int) + PAGE_NUM_SIZE
}

/// The split position chosen while scanning from `idx`: one past the first
/// prefix whose estimated size exceeds `min_th`, provided at least one item
/// is left to its right; `None` when no prefix qualifies.
pub open spec fn spec_split_scan(items: Seq<ItemModel>, min_th: int, idx: int) -> Option<int>
    decreases items.len() - idx,
{
    if idx < 0 || idx >= items.len() {
        None
    } else if spec_size_prefix(items, idx + 1) > min_th && idx < items.len() - 1 {
        Some(idx + 1)
    } else {
        spec_split_scan(items, min_th, idx + 1)
    }
}

/// Where to split a node with these items under minimum threshold `min_th`.
pub open spec fn spec_split_index(items: Seq<ItemModel>, min_th: int) -> Option<int> {
    spec_split_scan(items, min_th, 0)
}

/// First index whose key is not below `key`; `items.len()` if every key is.
pub open spec fn spec_scan(items: Seq<ItemModel>, key: Seq<u8>) -> int
    decreases items.len(),
{
    if items.len() == 0 {
        0
    } else if !key_lt(items[0].key, key) {
        0
    } else {
        1 + spec_scan(items.skip(1), key)
    }
}

/// What [`spec_scan`] returns: the scan position is in range, every key
/// before it is below `key`, and the key at it (if any) is not.
pub proof fn lemma_spec_scan_props(items: Seq<ItemModel>, key: Seq<u8>)
    ensures
        0 <= spec_scan(items, key) <= items.len(),
        forall|j: int| 0 <= j < spec_scan(items, key) ==> key_lt(items[j].key, key),
        spec_scan(items, key) < items.len() ==> !key_lt(items[spec_scan(items, key)].key, key),
    decreases items.len(),
{
    if items.len() > 0 && key_lt(items[0].key, key) {
        lemma_spec_scan_props(items.skip(1), key);
        assert forall|j: int| 0 <= j < spec_scan(items, key) implies key_lt(
            items[j].key,
            key,
        ) by {
            if j > 0 {
                assert(items.skip(1)[j - 1] == items[j]);
            }
        }
        if spec_scan(items, key) < items.len() {
            assert(items.skip(1)[spec_scan(items, key) - 1] == items[spec_scan(items, key)]);
        }
    }
}

/// Any position with the properties of [`lemma_spec_scan_props`] is the scan
/// position.
pub proof fn lemma_spec_scan_unique(items: Seq<ItemModel>, key: Seq<u8>, k: int)
    requires
        0 <= k <= items.len(),
        forall|j: int| 0 <= j < k ==> key_lt(#[trigger] items[j].key, key),
        k < items.len() ==> !key_lt(items[k].key, key),
    ensures
        spec_scan(items, key) == k,
{
    lemma_spec_scan_props(items, key);
    let s = spec_scan(items, key);
    if s < k {
        assert(key_lt(items[s].key, key));
    } else if k < s {
        assert(key_lt(items[k].key, key));
    }
}

impl Item {
    /// Pair a key with a value.
    pub fn new(key: ByteString, value: ByteString) -> (r: Item)
        ensures
            r@.key == key@,
            r@.value == value@,
    {
        Item { key, value }
    }
}

impl Node {
    /// An empty, unassigned leaf.
    pub fn new() -> (r: Node)
        ensures
            r.page_num == 0,
            r@.items.len() == 0,
            r@.children.len() == 0,
    {
        Node { page_num: 0, items: Vec::new(), children: Vec::new() }
    }

    /// A node is a leaf iff it has no children.
    pub fn is_leaf(&self) -> (r: bool)
        ensures
            r == self@.is_leaf(),
    {
        self.children.len() == 0
    }

    /// Size estimator contribution of item `i`.
    pub fn element_size(&self, i: usize) -> (r: usize)
        requires
            i < self@.items.len(),
            spec_element_size(self@.items[i as int]) <= usize::MAX,
        ensures
            r == spec_element_size(self@.items[i as int]),
    {
        self.items[i].key.len() + self.items[i].value.len() + PAGE_NUM_SIZE
    }

    /// Size estimator for the whole node: header, items, and one extra
    /// page-number width.  Used only for threshold comparisons.
    pub fn size(&self) -> (r: usize)
        requires
            self@.items.len() <= 0x10000,
            forall|i: int| 0 <= i < self@.items.len() ==> item_fits(#[trigger] self@.items[i]),
        ensures
            r == spec_size(self@),
    {
        let mut size: usize = NODE_HEADER_SIZE;
        let mut i: usize = 0;
        while i < self.items.len()
            invariant
                i <= self@.items.len(),
                self@.items.len() <= 0x10000,
                forall|j: int| 0 <= j < self@.items.len() ==> item_fits(#[trigger] self@.items[j]),
                size == spec_size_prefix(self@.items, i as int),
                size <= NODE_HEADER_SIZE + 518 * i,
            decreases self@.items.len() - i,
        {
            let e = self.element_size(i);
            proof {
                assert(item_fits(self@.items[i as int]));
                assert(e <= 518);
                assert(NODE_HEADER_SIZE + 518 * (i + 1) == NODE_HEADER_SIZE + 518 * i + 518);
            }
            size = size + e;
            i = i + 1;
        }
        size + PAGE_NUM_SIZE
    }

    /// Look for `key` among the node's items.
    ///
    /// Returns `(found, idx)`: `idx` is the first position whose key is not
    /// below `key` (or the item count if every key is), and `found` says
    /// whether the key at `idx` matches exactly.
    pub fn key_in_node(&self, key: &[u8]) -> (r: (bool, usize))
        ensures
            r.1 == spec_scan(self@.items, key@),
            r.0 == (r.1 < self@.items.len() && self@.items[r.1 as int].key == key@),
    {
        proof {
            lemma_spec_scan_props(self@.items, key@);
        }
        let mut i: usize = 0;
        while i < self.items.len()
            invariant
                i <= self@.items.len(),
                forall|j: int| 0 <= j < i ==> key_lt(#[trigger] self@.items[j].key, key@),
            decreases self@.items.len() - i,
        {
            proof {
                crate::keys::lemma_key_lt_trichotomy(self@.items[i as int].key, key@);
            }
            let cmp = compare_keys(self.items[i].key.as_slice(), key);
            if cmp == 0 {
                proof {
                    lemma_key_lt_irreflexive(key@);
                    lemma_spec_scan_unique(self@.items, key@, i as int);
                }
                return (true, i);
            }
            if cmp == 1 {
                proof {
                    lemma_spec_scan_unique(self@.items, key@, i as int);
                }
                return (false, i);
            }
            i = i + 1;
        }
        proof {
            lemma_spec_scan_unique(self@.items, key@, i as int);
        }
        (false, i)
    }

    /// Insert `item` at `insertion_idx`, shifting later items right.
    ///
    /// Returns the insertion index.
    pub fn add_item(&mut self, item: Item, insertion_idx: usize) -> (r: usize)
        requires
            insertion_idx <= old(self)@.items.len(),
            old(self)@.items.len() < usize::MAX,
        ensures
            final (self)@.items == old(self)@.items.insert(insertion_idx as int, item@),
            final (self)@.children == old(self)@.children,
            final (self).page_num == old(self).page_num,
            r == insertion_idx,
    {
        self.items.insert(insertion_idx, item);
        proof {
            assert(final (self)@.items =~= old(self)@.items.insert(insertion_idx as int, item@));
        }
        insertion_idx
    }
}

/// Decoding of `count` items starting at byte `pos`, plus the trailing child
/// page number when the node is internal.
///
/// For each item the decoder reads, left to right: the child page number
/// (internal nodes only, 8 bytes), then a 2-byte offset pointing into the
/// blob area, where a 1-byte key length, the key, a 1-byte value length and
/// the value sit.  `None` means a read would leave the buffer.
pub open spec fn spec_decode_items(buf: Seq<u8>, leaf: bool, count: nat, pos: int) -> Option<
    (Seq<ItemModel>, Seq<PageNum>),
>
    decreases count,
{
    if count == 0 {
        if leaf {
            Some((Seq::empty(), Seq::empty()))
        } else if 0 <= pos && pos + 8 <= buf.len() {
            Some((Seq::empty(), seq![spec_u64_from_le_bytes(buf.subrange(pos, pos + 8))]))
        } else {
            None
        }
    } else {
        let pos1 = if leaf {
            pos
        } else {
            pos + 8
        };
        if !(0 <= pos && pos1 + 2 <= buf.len()) {
            None
        } else {
            let off = spec_u16_from_le_bytes(buf.subrange(pos1, pos1 + 2)) as int;
            if off >= buf.len() {
                None
            } else {
                let klen = buf[off] as int;
                if off + klen + 2 > buf.len() {
                    None
                } else {
                    let vlen = buf[off + 1 + klen] as int;
                    if off + 2 + klen + vlen > buf.len() {
                        None
                    } else {
                        let item = ItemModel {
                            key: buf.subrange(off + 1, off + 1 + klen),
                            value: buf.subrange(off + 2 + klen, off + 2 + klen + vlen),
                        };
                        match spec_decode_items(buf, leaf, (count - 1) as nat, pos1 + 2) {
                            None => None,
                            Some(rest) => {
                                let ch0: Seq<PageNum> = if leaf {
                                    Seq::empty()
                                } else {
                                    seq![spec_u64_from_le_bytes(buf.subrange(pos, pos + 8))]
                                };
                                Some((seq![item] + rest.0, ch0 + rest.1))
                            },
                        }
                    }
                }
            }
        }
    }
}

/// The on-page node format: a 1-byte leaf flag, a 2-byte little-endian item
/// count, then the items as read by [`spec_decode_items`].
pub open spec fn spec_decode(buf: Seq<u8>) -> Option<NodeModel> {
    if buf.len() < 3 {
        None
    } else {
        let leaf = buf[0] != 0;
        let count = spec_u16_from_le_bytes(buf.subrange(1, 3)) as nat;
        match spec_decode_items(buf, leaf, count, 3) {
            None => None,
            Some(parts) => Some(NodeModel { items: parts.0, children: parts.1 }),
        }
    }
}

proof fn lemma_decode_items_counts(buf: Seq<u8>, leaf: bool, count: nat, pos: int)
    requires
        spec_decode_items(buf, leaf, count, pos) is Some,
    ensures
        spec_decode_items(buf, leaf, count, pos).unwrap().0.len() == count,
        spec_decode_items(buf, leaf, count, pos).unwrap().1.len() == if leaf {
            0int
        } else {
            count + 1int
        },
    decreases count,
{
    if count > 0 {
        let pos1 = if leaf {
            pos
        } else {
            pos + 8
        };
        lemma_decode_items_counts(buf, leaf, (count - 1) as nat, pos1 + 2);
    }
}

/// Fan-out holds of every decoded node: a leaf has no children, and an
/// internal node with `n` items has exactly `n + 1` children.
pub proof fn lemma_decoded_fanout(buf: Seq<u8>)
    requires
        spec_decode(buf) is Some,
    ensures
        spec_decode(buf).unwrap().wf_shape(),
        spec_decode(buf).unwrap().children.len() == 0 || spec_decode(buf).unwrap().children.len()
            == spec_decode(buf).unwrap().items.len() + 1,
{
    let leaf = buf[0] != 0;
    let count = spec_u16_from_le_bytes(buf.subrange(1, 3)) as nat;
    lemma_decode_items_counts(buf, leaf, count, 3);
}

/// Bytes one item occupies on the left side of the layout: the 2-byte
/// offset, preceded in internal nodes by an 8-byte child page number.
pub open spec fn spec_entry_size(leaf: bool) -> int {
    if leaf {
        2int
    } else {
        10int
    }
}

/// Where item `i`'s left-side entry starts: past the header and `i` entries.
pub open spec fn spec_left_pos(leaf: bool, i: int) -> int {
    if leaf {
        3 + 2 * i
    } else {
        3 + 10 * i
    }
}

/// Bytes one item occupies in the blob area: two length prefixes plus the
/// key and value themselves.
pub open spec fn spec_blob_size(it: ItemModel) -> int {
    it.key.len() + it.value.len() + 2int
}

/// Total blob bytes of the first `k` items.
pub open spec fn spec_blob_prefix(items: Seq<ItemModel>, k: int) -> int
    decreases k,
{
    if k <= 0 {
        0
    } else {
        spec_blob_prefix(items, k - 1) + spec_blob_size(items[k - 1])
    }
}

/// Lower edge of the blob area once `k` items are placed.  Blobs grow
/// leftward from the next-to-last byte: item `j` occupies
/// `[floor(j + 1), floor(j))`, and the buffer's last byte stays unused.
pub open spec fn spec_blob_floor(items: Seq<ItemModel>, len: int, k: int) -> int {
    len - 1 - spec_blob_prefix(items, k)
}

/// Exact byte count of the encoding: header, left-side entries, trailing
/// child (internal nodes), blobs, and the unused last byte.
pub open spec fn spec_encoded_bytes(m: NodeModel) -> int {
    let leaf = m.is_leaf();
    spec_left_pos(leaf, m.items.len() as int) + (if leaf {
        0int
    } else {
        8int
    }) + spec_blob_prefix(m.items, m.items.len() as int) + 1
}

/// The node can be encoded into a page of `page_size` bytes: the item count
/// fits its 2-byte field, the fan-out discipline holds, every item fits the
/// codec's 1-byte length prefixes, the encoding fits the page, and the page
/// is small enough for 2-byte blob offsets.
pub open spec fn spec_encodable(m: NodeModel, page_size: int) -> bool {
    &&& m.items.len() <= 0xffff
    &&& m.wf_shape()
    &&& (forall|i: int| 0 <= i < m.items.len() ==> item_fits(#[trigger] m.items[i]))
    &&& spec_encoded_bytes(m) <= page_size
    &&& page_size <= 0x10000
}

proof fn lemma_leaf_blob_vs_size(items: Seq<ItemModel>, k: int)
    requires
        0 <= k,
    ensures
        2 * k + spec_blob_prefix(items, k) <= spec_size_prefix(items, k) + 1,
    decreases k,
{
    if k > 0 {
        lemma_leaf_blob_vs_size(items, k - 1);
    }
}

proof fn lemma_size_prefix_lower(items: Seq<ItemModel>, k: int)
    requires
        0 <= k,
    ensures
        spec_size_prefix(items, k) >= 3 + 8 * k,
    decreases k,
{
    if k > 0 {
        lemma_size_prefix_lower(items, k - 1);
    }
}

/// A leaf whose size estimate fits a page can be encoded into it: the
/// estimate over-counts a leaf's actual encoding.
pub proof fn lemma_leaf_encodable_from_size(m: NodeModel, ps: int)
    requires
        m.children.len() == 0,
        forall|i: int| 0 <= i < m.items.len() ==> item_fits(#[trigger] m.items[i]),
        spec_size(m) <= ps,
        32 <= ps <= 0x10000,
    ensures
        spec_encodable(m, ps),
{
    let n = m.items.len() as int;
    lemma_leaf_blob_vs_size(m.items, n);
    lemma_size_prefix_lower(m.items, n);
    assert(spec_size_prefix(m.items, n) == spec_size(m) - 8);
    assert(3 + 8 * n <= ps - 8);
    assert(m.items.len() <= 0xffff);
    assert(spec_encoded_bytes(m) == 3 + 2 * n + spec_blob_prefix(m.items, n) + 1);
    assert(spec_encoded_bytes(m) <= spec_size_prefix(m.items, n) + 8);
}

/// Whether a node can be encoded depends on its items and its child count,
/// never on which page numbers the children are.
pub proof fn lemma_encodable_ignores_child_values(m1: NodeModel, m2: NodeModel, ps: int)
    requires
        m1.items == m2.items,
        m1.children.len() == m2.children.len(),
    ensures
        spec_encodable(m1, ps) == spec_encodable(m2, ps),
{
    assert(m1.is_leaf() == m2.is_leaf());
    assert(spec_encoded_bytes(m1) == spec_encoded_bytes(m2));
}

proof fn lemma_blob_prefix_monotonic(items: Seq<ItemModel>, j: int, k: int)
    requires
        0 <= j <= k,
    ensures
        spec_blob_prefix(items, j) <= spec_blob_prefix(items, k),
        0 <= spec_blob_prefix(items, j),
    decreases k,
{
    if k > 0 && j < k {
        lemma_blob_prefix_monotonic(items, j, k - 1);
    } else if k > 0 {
        lemma_blob_prefix_monotonic(items, 0, j - 1);
    }
}

/// Item `j` is laid out in `buf`: its left-side entry holds the child page
/// number (internal nodes) and the offset of its blob, and the blob holds
/// the length-prefixed key and value.
pub open spec fn spec_item_encoded_at(
    buf: Seq<u8>,
    items: Seq<ItemModel>,
    children: Seq<PageNum>,
    leaf: bool,
    j: int,
) -> bool {
    let lp = spec_left_pos(leaf, j);
    let ob = spec_blob_floor(items, buf.len() as int, j + 1);
    let klen = items[j].key.len() as int;
    let vlen = items[j].value.len() as int;
    &&& (leaf || buf.subrange(lp, lp + 8) == spec_u64_to_le_bytes(children[j]))
    &&& buf.subrange(lp + spec_entry_size(leaf) - 2, lp + spec_entry_size(leaf))
        == spec_u16_to_le_bytes(ob as u16)
    &&& buf[ob] == items[j].key.len() as u8
    &&& buf.subrange(ob + 1, ob + 1 + klen) == items[j].key
    &&& buf[ob + 1 + klen] == items[j].value.len() as u8
    &&& buf.subrange(ob + 2 + klen, ob + 2 + klen + vlen) == items[j].value
}

/// The first `i` items are laid out in `buf`.
pub open spec fn spec_encoded_upto(
    buf: Seq<u8>,
    items: Seq<ItemModel>,
    children: Seq<PageNum>,
    leaf: bool,
    i: int,
) -> bool
    decreases i,
{
    i <= 0 || (spec_encoded_upto(buf, items, children, leaf, i - 1) && spec_item_encoded_at(
        buf,
        items,
        children,
        leaf,
        i - 1,
    ))
}

proof fn lemma_encoded_upto_index(
    buf: Seq<u8>,
    items: Seq<ItemModel>,
    children: Seq<PageNum>,
    leaf: bool,
    i: int,
    j: int,
)
    requires
        spec_encoded_upto(buf, items, children, leaf, i),
        0 <= j < i,
    ensures
        spec_item_encoded_at(buf, items, children, leaf, j),
    decreases i,
{
    if j < i - 1 {
        lemma_encoded_upto_index(buf, items, children, leaf, i - 1, j);
    }
}

/// Laid-out items stay laid out under writes confined to the free middle of
/// the buffer: the part at or past `spec_left_pos(leaf, i)` and below the
/// blob floor of the first `i` items.
proof fn lemma_encoded_upto_stable(
    buf1: Seq<u8>,
    buf2: Seq<u8>,
    items: Seq<ItemModel>,
    children: Seq<PageNum>,
    leaf: bool,
    i: int,
)
    requires
        spec_encoded_upto(buf1, items, children, leaf, i),
        buf2.len() == buf1.len(),
        0 <= i <= items.len(),
        spec_left_pos(leaf, i) <= spec_blob_floor(items, buf1.len() as int, i),
        forall|k: int|
            0 <= k < buf1.len() && (k < spec_left_pos(leaf, i) || k >= spec_blob_floor(
                items,
                buf1.len() as int,
                i,
            )) ==> buf2[k] == buf1[k],
    ensures
        spec_encoded_upto(buf2, items, children, leaf, i),
    decreases i,
{
    if i > 0 {
        let len = buf1.len() as int;
        lemma_blob_prefix_monotonic(items, i - 1, i);
        lemma_blob_prefix_monotonic(items, 0, i - 1);
        // Region bounds: the left entries end before the blob floor, which
        // itself sits below the buffer's end.
        assert(spec_left_pos(leaf, i - 1) + spec_entry_size(leaf) == spec_left_pos(leaf, i));
        assert(spec_blob_floor(items, len, i) >= spec_left_pos(leaf, i) >= 3);
        assert(spec_blob_floor(items, len, i - 1) <= spec_blob_floor(items, len, 0) == len - 1);
        assert forall|k: int|
            0 <= k < buf1.len() && (k < spec_left_pos(leaf, i - 1) || k >= spec_blob_floor(
                items,
                buf1.len() as int,
                i - 1,
            )) implies buf2[k] == buf1[k] by {}
        lemma_encoded_upto_stable(buf1, buf2, items, children, leaf, i - 1);
        let lp = spec_left_pos(leaf, i - 1);
        let ob = spec_blob_floor(items, len, i);
        let klen = items[i - 1].key.len() as int;
        let vlen = items[i - 1].value.len() as int;
        assert(ob + 2 + klen + vlen == spec_blob_floor(items, len, i - 1));
        if !leaf {
            assert(buf2.subrange(lp, lp + 8) =~= buf1.subrange(lp, lp + 8));
        }
        assert(buf2.subrange(lp + spec_entry_size(leaf) - 2, lp + spec_entry_size(leaf))
            =~= buf1.subrange(lp + spec_entry_size(leaf) - 2, lp + spec_entry_size(leaf)));
        assert(buf2.subrange(ob + 1, ob + 1 + klen) =~= buf1.subrange(ob + 1, ob + 1 + klen));
        assert(buf2.subrange(ob + 2 + klen, ob + 2 + klen + vlen) =~= buf1.subrange(
            ob + 2 + klen,
            ob + 2 + klen + vlen,
        ));
    }
}

/// A buffer whose items are all laid out as [`spec_encoded_upto`] says, with
/// the trailing child in place for internal nodes, decodes back to exactly
/// those items and children from position `spec_left_pos(leaf, i)` on.
#[verifier::spinoff_prover]
#[verifier::rlimit(30)]
proof fn lemma_decode_of_encoded(
    buf: Seq<u8>,
    items: Seq<ItemModel>,
    children: Seq<PageNum>,
    leaf: bool,
    i: int,
)
    requires
        0 <= i <= items.len(),
        items.len() <= 0xffff,
        buf.len() <= 0x10000,
        leaf ==> children.len() == 0,
        !leaf ==> children.len() == items.len() + 1,
        forall|j: int| 0 <= j < items.len() ==> item_fits(#[trigger] items[j]),
        spec_left_pos(leaf, items.len() as int) + (if leaf {
            0int
        } else {
            8int
        }) <= spec_blob_floor(items, buf.len() as int, items.len() as int),
        spec_encoded_upto(buf, items, children, leaf, items.len() as int),
        !leaf ==> buf.subrange(
            spec_left_pos(leaf, items.len() as int),
            spec_left_pos(leaf, items.len() as int) + 8,
        ) == spec_u64_to_le_bytes(children[items.len() as int]),
    ensures
        spec_decode_items(buf, leaf, (items.len() - i) as nat, spec_left_pos(leaf, i)) == Some(
            (
                items.skip(i),
                if leaf {
                    Seq::<PageNum>::empty()
                } else {
                    children.skip(i)
                },
            ),
        ),
    decreases items.len() - i,
{
    let n = items.len() as int;
    let len = buf.len() as int;
    lemma_auto_spec_u16_to_from_le_bytes();
    lemma_auto_spec_u64_to_from_le_bytes();
    lemma_blob_prefix_monotonic(items, 0, n);
    if i == n {
        if leaf {
            assert(items.skip(i) =~= Seq::<ItemModel>::empty());
        } else {
            assert(spec_blob_floor(items, len, n) <= spec_blob_floor(items, len, 0));
            assert(spec_left_pos(leaf, n) + 8 <= len - 1);
            let trailing = spec_u64_from_le_bytes(
                buf.subrange(spec_left_pos(leaf, n), spec_left_pos(leaf, n) + 8),
            );
            assert(trailing == children[n]);
            assert(items.skip(i) =~= Seq::<ItemModel>::empty());
            assert(seq![children[n]] =~= children.skip(n));
        }
    } else {
        lemma_encoded_upto_index(buf, items, children, leaf, n, i);
        lemma_blob_prefix_monotonic(items, i + 1, n);
        lemma_blob_prefix_monotonic(items, i, i + 1);
        let lp = spec_left_pos(leaf, i);
        let pos1 = if leaf {
            lp
        } else {
            lp + 8
        };
        let ob = spec_blob_floor(items, len, i + 1);
        let klen = items[i].key.len() as int;
        let vlen = items[i].value.len() as int;
        // The guards of one decoding step all pass.
        assert(spec_left_pos(leaf, i + 1) <= spec_left_pos(leaf, n));
        assert(pos1 + 2 == spec_left_pos(leaf, i + 1));
        assert(spec_blob_floor(items, len, n) <= spec_blob_floor(items, len, i + 1));
        assert(ob <= spec_blob_floor(items, len, 0) == len - 1);
        assert(3 <= spec_left_pos(leaf, n) <= ob);
        assert(buf.subrange(pos1, pos1 + 2) == spec_u16_to_le_bytes(ob as u16));
        assert(spec_u16_to_le_bytes(ob as u16).len() == 2);
        assert(spec_u16_from_le_bytes(spec_u16_to_le_bytes(ob as u16)) == ob as u16);
        assert(spec_u16_from_le_bytes(buf.subrange(pos1, pos1 + 2)) == ob as u16);
        assert((ob as u16) as int == ob);
        assert(buf[ob] == items[i].key.len() as u8);
        assert((items[i].key.len() as u8) as int == klen);
        assert(ob + 2 + klen + vlen == spec_blob_floor(items, len, i));
        assert(spec_blob_floor(items, len, i) <= len - 1);
        assert(buf[ob + 1 + klen] == items[i].value.len() as u8);
        let item = ItemModel {
            key: buf.subrange(ob + 1, ob + 1 + klen),
            value: buf.subrange(ob + 2 + klen, ob + 2 + klen + vlen),
        };
        assert(item =~= items[i]);
        lemma_decode_of_encoded(buf, items, children, leaf, i + 1);
        assert(seq![items[i]] + items.skip(i + 1) =~= items.skip(i));
        if leaf {
            assert(spec_decode_items(buf, leaf, (n - i) as nat, lp) == Some(
                (seq![item] + items.skip(i + 1), Seq::<PageNum>::empty() + Seq::<PageNum>::empty()),
            ));
            assert(Seq::<PageNum>::empty() + Seq::<PageNum>::empty() =~= Seq::<
                PageNum,
            >::empty());
        } else {
            let child = spec_u64_from_le_bytes(buf.subrange(lp, lp + 8));
            assert(buf.subrange(lp, lp + 8) == spec_u64_to_le_bytes(children[i]));
            assert(child == children[i]);
            assert(seq![children[i]] + children.skip(i + 1) =~= children.skip(i));
        }
    }
}

impl Node {
    /// Decode a node from a page buffer, appending its items and children to
    /// this node's.  [`spec_decode`] is the reference for the format; on a
    /// malformed buffer the node is left unchanged.
    pub fn deserialize(&mut self, buf: &[u8]) -> (r: Result<(), KvError>)
        ensures
            match r {
                Ok(_) => match spec_decode(buf@) {
                    Some(m) => {
                        &&& final (self)@.items == old(self)@.items + m.items
                        &&& final (self)@.children == old(self)@.children + m.children
                        &&& final (self).page_num == old(self).page_num
                    },
                    None => false,
                },
                Err(e) => {
                    &&& e == KvError::MalformedPage
                    &&& spec_decode(buf@) is None
                    &&& *final (self) == *old(self)
                },
            },
    {
        if buf.len() < 3 {
            return Err(KvError::MalformedPage);
        }
        let leaf = buf[0] != 0;
        let count = read_u16_at(buf, 1) as usize;
        let ghost gcount = count as nat;
        let mut items_acc: Vec<Item> = Vec::new();
        let mut children_acc: Vec<PageNum> = Vec::new();
        let mut pos: usize = 3;
        let mut i: usize = 0;
        proof {
            assert(spec_decode(buf@) == match spec_decode_items(buf@, leaf, gcount, 3) {
                None => None::<NodeModel>,
                Some(parts) => Some(NodeModel { items: parts.0, children: parts.1 }),
            });
            assert(items_acc@.map_values(|it: Item| it@) =~= Seq::<ItemModel>::empty());
        }
        while i < count
            invariant
                i <= count,
                gcount == count,
                3 <= pos <= buf@.len(),
                items_acc@.len() == i,
                spec_decode(buf@) == (match spec_decode_items(buf@, leaf, gcount, 3) {
                    None => None::<NodeModel>,
                    Some(parts) => Some(NodeModel { items: parts.0, children: parts.1 }),
                }),
                spec_decode_items(buf@, leaf, gcount, 3) == (match spec_decode_items(
                    buf@,
                    leaf,
                    (count - i) as nat,
                    pos as int,
                ) {
                    None => None::<(Seq<ItemModel>, Seq<PageNum>)>,
                    Some(rest) => Some(
                        (
                            items_acc@.map_values(|it: Item| it@) + rest.0,
                            children_acc@ + rest.1,
                        ),
                    ),
                }),
            decreases count - i,
        {
            let ghost remaining = (count - i) as nat;
            let ghost pos0 = pos as int;
            let entry: usize = if leaf {
                2
            } else {
                10
            };
            if buf.len() - pos < entry {
                return Err(KvError::MalformedPage);
            }
            let mut child: PageNum = 0;
            if !leaf {
                child = read_u64_at(buf, pos);
            }
            let off_pos: usize = if leaf {
                pos
            } else {
                pos + 8
            };
            let off = read_u16_at(buf, off_pos) as usize;
            if off >= buf.len() {
                return Err(KvError::MalformedPage);
            }
            let klen = buf[off] as usize;
            if buf.len() - off < klen + 2 {
                return Err(KvError::MalformedPage);
            }
            let vlen = buf[off + 1 + klen] as usize;
            if buf.len() - off < klen + vlen + 2 {
                return Err(KvError::MalformedPage);
            }
            let key = slice_to_vec(&buf[off + 1..off + 1 + klen]);
            let value = slice_to_vec(&buf[off + 2 + klen..off + 2 + klen + vlen]);
            let ghost old_items = items_acc@;
            let ghost old_children = children_acc@;
            items_acc.push(Item::new(key, value));
            if !leaf {
                children_acc.push(child);
            }
            pos = off_pos + 2;
            i = i + 1;
            proof {
                let itm = ItemModel {
                    key: buf@.subrange(off as int + 1, off + 1 + klen),
                    value: buf@.subrange(off + 2 + klen, off + 2 + klen + vlen),
                };
                assert(items_acc@.map_values(|it: Item| it@) =~= old_items.map_values(
                    |it: Item| it@,
                ).push(itm));
                match spec_decode_items(buf@, leaf, (count - i) as nat, pos as int) {
                    None => {
                        assert(spec_decode_items(buf@, leaf, remaining, pos0) is None);
                    },
                    Some(rest) => {
                        let ch0: Seq<PageNum> = if leaf {
                            Seq::empty()
                        } else {
                            seq![spec_u64_from_le_bytes(buf@.subrange(pos0, pos0 + 8))]
                        };
                        assert(spec_decode_items(buf@, leaf, remaining, pos0) == Some(
                            (seq![itm] + rest.0, ch0 + rest.1),
                        ));
                        assert(old_items.map_values(|it: Item| it@) + (seq![itm] + rest.0)
                            =~= items_acc@.map_values(|it: Item| it@) + rest.0);
                        assert(old_children + (ch0 + rest.1) =~= children_acc@ + rest.1);
                    },
                }
            }
        }
        if !leaf {
            if buf.len() - pos < 8 {
                return Err(KvError::MalformedPage);
            }
            let trailing = read_u64_at(buf, pos);
            children_acc.push(trailing);
            proof {
                assert(spec_decode_items(buf@, leaf, 0nat, pos as int) == Some(
                    (
                        Seq::<ItemModel>::empty(),
                        seq![spec_u64_from_le_bytes(buf@.subrange(pos as int, pos + 8))],
                    ),
                ));
            }
        }
        proof {
            match spec_decode_items(buf@, leaf, gcount, 3) {
                None => {
                    assert(false);
                },
                Some(parts) => {
                    assert(parts.0 =~= items_acc@.map_values(|it: Item| it@));
                    assert(parts.1 =~= children_acc@);
                },
            }
        }
        let ghost self_before = *self;
        self.items.append(&mut items_acc);
        self.children.append(&mut children_acc);
        proof {
            let m = spec_decode(buf@).unwrap();
            assert(final (self)@.items =~= self_before@.items + m.items);
        }
        Ok(())
    }

    /// Whether the node can be encoded into a page of `page_size` bytes;
    /// the runtime counterpart of [`spec_encodable`].
    pub fn encodable(&self, page_size: usize) -> (r: bool)
        requires
            page_size <= 0x10000,
        ensures
            r == spec_encodable(self@, page_size as int),
    {
        let n = self.items.len();
        if n > 0xffff {
            return false;
        }
        if !(self.children.len() == 0 || self.children.len() == n + 1) {
            return false;
        }
        let leaf = self.is_leaf();
        let entry: usize = if leaf {
            2
        } else {
            10
        };
        let mut blob_total: usize = 0;
        let mut i: usize = 0;
        while i < n
            invariant
                i <= n,
                n == self@.items.len(),
                n <= 0xffff,
                forall|j: int| 0 <= j < i ==> item_fits(#[trigger] self@.items[j]),
                blob_total == spec_blob_prefix(self@.items, i as int),
                blob_total <= 512 * i,
            decreases n - i,
        {
            let klen = self.items[i].key.len();
            let vlen = self.items[i].value.len();
            if klen > 255 || vlen > 255 {
                proof {
                    assert(!item_fits(self@.items[i as int]));
                }
                return false;
            }
            blob_total = blob_total + klen + vlen + 2;
            i = i + 1;
        }
        let total = NODE_HEADER_SIZE + entry * n + (if leaf {
            0
        } else {
            PAGE_NUM_SIZE
        }) + blob_total + 1;
        total <= page_size
    }

    /// Encode the node into a page buffer.
    ///
    /// Header and offset array grow from the left, length-prefixed keys and
    /// values from the right.  The exact layout is pinned: the leaf flag and
    /// item count of the header, every left-side entry and every blob (per
    /// [`spec_item_encoded_at`]), and the trailing child of an internal
    /// node.  The buffer therefore decodes back to exactly this node:
    /// `spec_decode` of the result is `Some(self@)`.
    #[verifier::spinoff_prover]
    #[verifier::rlimit(60)]
    pub fn serialize(&self, page_buffer: &mut Vec<u8>) -> (r: Result<(), KvError>)
        requires
            spec_encodable(self@, old(page_buffer)@.len() as int),
        ensures
            r is Ok,
            final (page_buffer)@.len() == old(page_buffer)@.len(),
            spec_decode(final (page_buffer)@) == Some(self@),
            final (page_buffer)@[0] == (if self@.is_leaf() {
                1u8
            } else {
                0u8
            }),
            final (page_buffer)@.subrange(1, 3) == spec_u16_to_le_bytes(
                self@.items.len() as u16,
            ),
            spec_encoded_upto(
                final (page_buffer)@,
                self@.items,
                self@.children,
                self@.is_leaf(),
                self@.items.len() as int,
            ),
            !self@.is_leaf() ==> final (page_buffer)@.subrange(
                spec_left_pos(false, self@.items.len() as int),
                spec_left_pos(false, self@.items.len() as int) + 8,
            ) == spec_u64_to_le_bytes(self@.children[self@.items.len() as int]),
    {
        let ghost items_g = self@.items;
        let ghost children_g = self@.children;
        let ghost big_l = old(page_buffer)@.len() as int;
        let n = self.items.len();
        let leaf = self.is_leaf();
        let entry: usize = if leaf {
            2
        } else {
            10
        };
        proof {
            lemma_blob_prefix_monotonic(items_g, 0, n as int);
        }
        let flag: u8 = if leaf {
            1
        } else {
            0
        };
        page_buffer[0] = flag;
        write_u16_at(page_buffer, 1, n as u16);
        let mut left_pos: usize = 3;
        let mut right_pos: usize = page_buffer.len() - 1;
        let mut idx: usize = 0;
        while idx < n
            invariant
                spec_encodable(self@, big_l),
                big_l == old(page_buffer)@.len(),
                items_g == self@.items,
                children_g == self@.children,
                n == self@.items.len(),
                leaf == self@.is_leaf(),
                entry == spec_entry_size(leaf),
                page_buffer@.len() == big_l,
                idx <= n,
                left_pos == spec_left_pos(leaf, idx as int),
                right_pos == spec_blob_floor(items_g, big_l, idx as int),
                page_buffer@[0] == (if leaf {
                    1u8
                } else {
                    0u8
                }),
                page_buffer@[1] == spec_u16_to_le_bytes(n as u16)[0],
                page_buffer@[2] == spec_u16_to_le_bytes(n as u16)[1],
                spec_encoded_upto(page_buffer@, items_g, children_g, leaf, idx as int),
            decreases n - idx,
        {
            let ghost b0 = page_buffer@;
            proof {
                lemma_auto_spec_u16_to_from_le_bytes();
                lemma_blob_prefix_monotonic(items_g, idx + 1, n as int);
                lemma_blob_prefix_monotonic(items_g, idx as int, idx + 1);
                lemma_blob_prefix_monotonic(items_g, 0, idx as int);
                assert(item_fits(items_g[idx as int]));
                // Left entries stay below the blob floor reached at the end.
                assert(spec_left_pos(leaf, idx + 1) <= spec_left_pos(leaf, n as int));
                assert(spec_left_pos(leaf, n as int) + (if leaf {
                    0int
                } else {
                    8int
                }) <= spec_blob_floor(items_g, big_l, n as int));
                assert(spec_blob_floor(items_g, big_l, n as int) <= spec_blob_floor(
                    items_g,
                    big_l,
                    idx + 1,
                ));
                assert(spec_blob_floor(items_g, big_l, idx + 1) + spec_blob_size(
                    items_g[idx as int],
                ) == spec_blob_floor(items_g, big_l, idx as int));
                assert(spec_blob_floor(items_g, big_l, idx as int) <= big_l - 1);
            }
            if !leaf {
                write_u64_at(page_buffer, left_pos, self.children[idx]);
            }
            let ghost b1 = page_buffer@;
            let klen = self.items[idx].key.len();
            let vlen = self.items[idx].value.len();
            let off = right_pos - (klen + vlen + 2);
            proof {
                assert(off == spec_blob_floor(items_g, big_l, idx + 1));
            }
            write_u16_at(page_buffer, left_pos + entry - 2, off as u16);
            let ghost b2 = page_buffer@;
            let mut blob: Vec<u8> = Vec::new();
            blob.push(klen as u8);
            blob.extend_from_slice(self.items[idx].key.as_slice());
            blob.push(vlen as u8);
            blob.extend_from_slice(self.items[idx].value.as_slice());
            proof {
                assert(blob@ =~= seq![klen as u8] + items_g[idx as int].key + seq![vlen as u8]
                    + items_g[idx as int].value);
            }
            write_bytes_at(page_buffer, off, blob.as_slice());
            proof {
                let b3 = page_buffer@;
                let lp = spec_left_pos(leaf, idx as int);
                let ob = off as int;
                let ki = items_g[idx as int].key.len() as int;
                let vi = items_g[idx as int].value.len() as int;
                assert forall|k: int|
                    0 <= k < b0.len() && (k < lp || k >= spec_blob_floor(
                        items_g,
                        big_l,
                        idx as int,
                    )) implies b3[k] == b0[k] by {}
                lemma_encoded_upto_stable(b0, b3, items_g, children_g, leaf, idx as int);
                // The freshly written regions hold this item's entry and blob.
                if !leaf {
                    assert(b3.subrange(lp, lp + 8) =~= b1.subrange(lp, lp + 8));
                }
                assert(b3.subrange(lp + spec_entry_size(leaf) - 2, lp + spec_entry_size(leaf))
                    =~= b2.subrange(lp + spec_entry_size(leaf) - 2, lp + spec_entry_size(leaf)));
                let kv = items_g[idx as int];
                let bs = spec_blob_size(kv);
                assert(b3.subrange(ob, ob + bs) == blob@);
                assert forall|k2: int| 0 <= k2 < bs implies b3[ob + k2] == blob@[k2] by {
                    assert(b3.subrange(ob, ob + bs)[k2] == blob@[k2]);
                }
                let c1 = seq![klen as u8] + kv.key;
                let c2 = c1 + seq![vlen as u8];
                assert(blob@ == c2 + kv.value);
                assert(blob@[0] == klen as u8);
                assert(b3[ob] == kv.key.len() as u8);
                assert forall|k2: int| 0 <= k2 < ki implies b3[ob + 1 + k2] == kv.key[k2] by {
                    assert(c1[1 + k2] == kv.key[k2]);
                    assert(c2[1 + k2] == c1[1 + k2]);
                    assert(blob@[1 + k2] == c2[1 + k2]);
                }
                assert(b3.subrange(ob + 1, ob + 1 + ki) =~= kv.key);
                assert(blob@[1 + ki] == c2[1 + ki]);
                assert(c2[1 + ki] == vlen as u8);
                assert(b3[ob + 1 + ki] == kv.value.len() as u8);
                assert forall|k2: int| 0 <= k2 < vi implies b3[ob + 2 + ki + k2] == kv.value[k2] by {
                    assert((c2 + kv.value)[2 + ki + k2] == kv.value[k2]);
                }
                assert(b3.subrange(ob + 2 + ki, ob + 2 + ki + vi) =~= kv.value);
                assert(spec_item_encoded_at(b3, items_g, children_g, leaf, idx as int));
            }
            left_pos = left_pos + entry;
            right_pos = off;
            idx = idx + 1;
        }
        if !leaf {
            let ghost b_pre = page_buffer@;
            proof {
                assert(spec_left_pos(leaf, n as int) + 8 <= spec_blob_floor(
                    items_g,
                    big_l,
                    n as int,
                ));
                assert(spec_blob_floor(items_g, big_l, n as int) <= big_l - 1);
            }
            write_u64_at(page_buffer, left_pos, self.children[self.children.len() - 1]);
            proof {
                let b4 = page_buffer@;
                assert(children_g[n as int] == self@.children[self@.children.len() - 1]);
                assert forall|k: int|
                    0 <= k < b_pre.len() && (k < spec_left_pos(leaf, n as int) || k
                        >= spec_blob_floor(items_g, big_l, n as int)) implies b4[k] == b_pre[k] by {}
                lemma_encoded_upto_stable(b_pre, b4, items_g, children_g, leaf, n as int);
            }
        }
        proof {
            let b = page_buffer@;
            lemma_auto_spec_u16_to_from_le_bytes();
            lemma_decode_of_encoded(b, items_g, children_g, leaf, 0);
            assert(items_g.skip(0) =~= items_g);
            assert(b.subrange(1, 3) =~= spec_u16_to_le_bytes(n as u16));
            assert(spec_u16_from_le_bytes(b.subrange(1, 3)) == n as u16);
            assert((b[0] != 0) == leaf);
            assert(spec_left_pos(leaf, 0) == 3);
            if leaf {
                assert(children_g =~= Seq::<PageNum>::empty());
                assert(spec_decode(b) == Some(NodeModel { items: items_g, children: children_g }));
            } else {
                assert(children_g.skip(0) =~= children_g);
                assert(spec_decode(b) == Some(NodeModel { items: items_g, children: children_g }));
            }
            assert(NodeModel { items: items_g, children: children_g } =~= self@);
        }
        Ok(())
    }

    /// Write this node through the pager, taking over the page number the
    /// pager assigned when the node had none.
    pub fn write_node(&mut self, dal: &mut crate::dal::DataAccessLayer) -> (r: Result<
        (),
        KvError,
    >)
        requires
            old(dal).wf(),
        ensures
            final (dal).wf(),
            old(dal).same_config(*final (dal)),
            final (self)@.items == old(self)@.items,
            final (self)@.children == old(self)@.children,
            match r {
                Ok(_) => {
                    &&& spec_encodable(old(self)@, old(dal).page_size as int)
                    &&& final (self).page_num != 0 && final (self).page_num <= 0xffff
                    &&& (old(self).page_num != 0 ==> final (self).page_num == old(self).page_num
                        && final (dal).freelist == old(dal).freelist)
                    &&& (old(self).page_num == 0 ==> crate::dal::spec_alloc(
                        old(dal).freelist@,
                        final (dal).freelist@,
                        final (self).page_num,
                    ))
                    &&& spec_decode(final (dal).image()[final (self).page_num as int]) == Some(
                        old(self)@,
                    )
                    &&& final (dal).image() == crate::dal::spec_grown(
                        old(dal).image(),
                        old(dal).page_size as int,
                        final (self).page_num + 1,
                    ).update(
                        final (self).page_num as int,
                        final (dal).image()[final (self).page_num as int],
                    )
                },
                Err(e) => {
                    &&& *final (self) == *old(self)
                    &&& *final (dal) == *old(dal)
                    &&& match e {
                        KvError::MalformedPage => !spec_encodable(
                            old(self)@,
                            old(dal).page_size as int,
                        ),
                        KvError::IoError => {
                            &&& spec_encodable(old(self)@, old(dal).page_size as int)
                            &&& (old(self).page_num > 0xffff || (old(self).page_num == 0 && old(
                                dal,
                            ).freelist@.released.len() == 0 && old(dal).freelist@.max_page
                                == 0xffff))
                        },
                        _ => false,
                    }
                },
            },
    {
        let pgnum = dal.write_node(self)?;
        if self.page_num == 0 {
            self.page_num = pgnum;
        }
        Ok(())
    }
}

impl Node {
    /// Split the over-populated node `to_split`, this node's child at
    /// `n_to_split_idx`: the items past the split point move to a fresh
    /// right sibling, the item at the split point is promoted into this
    /// node, the sibling's page number is inserted right after the child's,
    /// and sibling, parent and child are written back through the pager.
    ///
    /// Each error names its cause: `NotSplittable` when the child has no
    /// split point and `IoError` when no sibling page can be allocated, both
    /// leaving everything unchanged; `MalformedPage` when one of the three
    /// rewritten nodes does not fit a page, in which case pages already
    /// written stay written but the pager stays well formed.
    pub fn split(
        &mut self,
        to_split: &mut Node,
        n_to_split_idx: usize,
        dal: &mut crate::dal::DataAccessLayer,
    ) -> (r: Result<(), KvError>)
        requires
            old(dal).wf(),
            n_to_split_idx <= old(self)@.items.len(),
            n_to_split_idx + 1 <= old(self)@.children.len(),
            old(self)@.items.len() <= 0x10000,
            old(to_split)@.items.len() <= 0x10000,
            forall|i: int|
                0 <= i < old(to_split)@.items.len() ==> item_fits(
                    #[trigger] old(to_split)@.items[i],
                ),
            old(to_split)@.wf_shape(),
            old(to_split).page_num != 0,
            old(to_split).page_num <= 0xffff,
            old(self).page_num != 0,
            old(self).page_num <= 0xffff,
        ensures
            final (dal).wf(),
            old(dal).same_config(*final (dal)),
            // At most pages were taken off the free list, none released.
            crate::dal::spec_released_prefix(final (dal).freelist@, old(dal).freelist@),
            match r {
                Ok(_) => {
                    let min_th = old(dal).spec_min_threshold();
                    let child0 = old(to_split)@;
                    let si = spec_split_index(child0.items, min_th).unwrap();
                    let leaf = child0.is_leaf();
                    let sib = final (self)@.children[n_to_split_idx + 1];
                    let sib_model = NodeModel {
                        items: child0.items.skip(si + 1),
                        children: if leaf {
                            Seq::<PageNum>::empty()
                        } else {
                            child0.children.skip(si + 1)
                        },
                    };
                    &&& spec_split_index(child0.items, min_th) is Some
                    &&& 1 <= si < child0.items.len()
                    &&& final (to_split)@.items == child0.items.take(si)
                    &&& final (to_split)@.children == (if leaf {
                        child0.children
                    } else {
                        child0.children.take(si + 1)
                    })
                    &&& final (to_split).page_num == old(to_split).page_num
                    &&& final (self)@.items == old(self)@.items.insert(
                        n_to_split_idx as int,
                        child0.items[si],
                    )
                    &&& final (self)@.children == old(self)@.children.insert(
                        n_to_split_idx + 1,
                        sib,
                    )
                    &&& final (self).page_num == old(self).page_num
                    &&& sib != 0 && sib <= 0xffff
                    &&& crate::dal::spec_alloc(old(dal).freelist@, final (dal).freelist@, sib)
                    &&& spec_node_at(final (dal).image(), final (to_split).page_num) == Some(
                        final (to_split)@,
                    )
                    &&& (final (self).page_num != final (to_split).page_num ==> spec_node_at(
                        final (dal).image(),
                        final (self).page_num,
                    ) == Some(final (self)@))
                    &&& (sib != final (self).page_num && sib != final (to_split).page_num
                        ==> spec_node_at(final (dal).image(), sib) == Some(sib_model))
                    &&& final (dal).image().len() >= old(dal).image().len()
                    &&& forall|q: int|
                        0 <= q < old(dal).image().len() && q != sib && q != final (self).page_num
                            && q != final (to_split).page_num ==> final (dal).image()[q] == old(
                            dal,
                        ).image()[q]
                },
                Err(e) => {
                    let min_th = old(dal).spec_min_threshold();
                    let child0 = old(to_split)@;
                    let ps = old(dal).page_size as int;
                    match e {
                        KvError::NotSplittable => {
                            // the child has no split point
                            &&& spec_split_index(child0.items, min_th) is None
                            &&& *final (self) == *old(self)
                            &&& *final (to_split) == *old(to_split)
                            &&& *final (dal) == *old(dal)
                        },
                        KvError::IoError => {
                            // the free list could not allocate a sibling page
                            &&& spec_split_index(child0.items, min_th) is Some
                            &&& old(dal).freelist@.released.len() == 0
                            &&& old(dal).freelist@.max_page == 0xffff
                            &&& *final (self) == *old(self)
                            &&& *final (to_split) == *old(to_split)
                            &&& *final (dal) == *old(dal)
                        },
                        KvError::MalformedPage => {
                            // one of the three rewritten nodes does not fit a
                            // page (a child's worth of children stands in for
                            // the sibling's page number, which the fit does
                            // not depend on)
                            let si = spec_split_index(child0.items, min_th).unwrap();
                            let leaf = child0.is_leaf();
                            &&& spec_split_index(child0.items, min_th) is Some
                            &&& (!spec_encodable(
                                NodeModel {
                                    items: child0.items.skip(si + 1),
                                    children: if leaf {
                                        Seq::<PageNum>::empty()
                                    } else {
                                        child0.children.skip(si + 1)
                                    },
                                },
                                ps,
                            ) || !spec_encodable(
                                NodeModel {
                                    items: old(self)@.items.insert(
                                        n_to_split_idx as int,
                                        child0.items[si],
                                    ),
                                    children: old(self)@.children.insert(n_to_split_idx + 1, 0),
                                },
                                ps,
                            ) || !spec_encodable(
                                NodeModel {
                                    items: child0.items.take(si),
                                    children: if leaf {
                                        child0.children
                                    } else {
                                        child0.children.take(si + 1)
                                    },
                                },
                                ps,
                            ))
                        },
                        _ => false,
                    }
                },
            },
    {
        let ghost child0 = to_split@;
        let ghost parent0 = self@;
        let split_idx = dal.get_split_index(to_split)?;
        if !dal.freelist.can_allocate() {
            return Err(KvError::IoError);
        }
        let sibling_items = to_split.items.split_off(split_idx + 1);
        let middle = to_split.items.pop().unwrap();
        let mut sibling_children: Vec<PageNum> = Vec::new();
        if !to_split.is_leaf() {
            sibling_children = to_split.children.split_off(split_idx + 1);
        }
        proof {
            assert(to_split@.items =~= child0.items.take(split_idx as int));
            assert(middle@ == child0.items[split_idx as int]);
            assert(sibling_items@.map_values(|it: Item| it@) =~= child0.items.skip(
                split_idx + 1,
            ));
            if child0.is_leaf() {
                assert(to_split@.children =~= child0.children);
            } else {
                assert(to_split@.children =~= child0.children.take(split_idx + 1));
                assert(sibling_children@ =~= child0.children.skip(split_idx + 1));
            }
        }
        let mut node = dal.new_node(sibling_items, sibling_children);
        proof {
            assert(node@ =~= NodeModel {
                items: child0.items.skip(split_idx + 1),
                children: if child0.is_leaf() {
                    Seq::<PageNum>::empty()
                } else {
                    child0.children.skip(split_idx + 1)
                },
            });
        }
        node.write_node(dal)?;
        let ghost img1 = dal.image();
        let ghost sib_page = node.page_num;
        self.add_item(middle, n_to_split_idx);
        self.children.insert(n_to_split_idx + 1, node.page_num);
        proof {
            assert(self@.children =~= parent0.children.insert(
                n_to_split_idx + 1,
                sib_page,
            ));
            assert(self@.items =~= parent0.items.insert(
                n_to_split_idx as int,
                child0.items[split_idx as int],
            ));
            lemma_encodable_ignores_child_values(
                self@,
                NodeModel {
                    items: parent0.items.insert(n_to_split_idx as int, child0.items[split_idx as int]),
                    children: parent0.children.insert(n_to_split_idx + 1, 0),
                },
                old(dal).page_size as int,
            );
        }
        self.write_node(dal)?;
        let ghost img2 = dal.image();
        to_split.write_node(dal)?;
        proof {
            let img3 = final (dal).image();
            let c = final (to_split).page_num as int;
            let p = final (self).page_num as int;
            let s = sib_page as int;
            // Each write grows the image at most and rewrites one page, so
            // earlier writes survive at distinct page numbers.
            if p != c {
                assert(img3[p] == img2[p]);
            }
            if s != p && s != c {
                assert(img3[s] == img2[s]);
                assert(img2[s] == img1[s]);
            }
            assert forall|q: int|
                0 <= q < old(dal).image().len() && q != s && q != p && q != c implies img3[q]
                == old(dal).image()[q] by {
                assert(img3[q] == img2[q]);
                assert(img2[q] == img1[q]);
                assert(img1[q] == old(dal).image()[q]);
            }
        }
        Ok(())
    }
}

/// The node stored on page `page`, if the page exists and decodes.
pub open spec fn spec_node_at(pages: Seq<Seq<u8>>, page: PageNum) -> Option<NodeModel> {
    if page < pages.len() {
        spec_decode(pages[page as int])
    } else {
        None
    }
}

/// What a descent from page `page` concludes about `key`: `Some(Some(v))`
/// when the key is stored with value `v`, `Some(None)` when a leaf is
/// reached without it, and `None` on a fault — an unreadable or malformed
/// page, a fan-out violation, or a descent deeper than `fuel`.
pub open spec fn spec_find_from(
    pages: Seq<Seq<u8>>,
    page: PageNum,
    key: Seq<u8>,
    fuel: nat,
) -> Option<Option<Seq<u8>>>
    decreases fuel,
{
    if fuel == 0 {
        None
    } else {
        match spec_node_at(pages, page) {
            None => None,
            Some(m) => {
                let idx = spec_scan(m.items, key);
                if idx < m.items.len() && m.items[idx].key == key {
                    Some(Some(m.items[idx].value))
                } else if m.children.len() == 0 {
                    Some(None)
                } else if idx < m.children.len() {
                    spec_find_from(pages, m.children[idx], key, (fuel - 1) as nat)
                } else {
                    None
                }
            },
        }
    }
}

/// Search depth that cannot cut an honest descent short: a tree without a
/// page cycle is at most as deep as the image has pages.
pub open spec fn spec_fuel(pages: Seq<Seq<u8>>) -> nat {
    (pages.len() + 1) as nat
}

/// The page reached by following the recorded child indices from `page`,
/// starting at entry `k`: `None` when a page fails to decode or an index
/// is out of range.
pub open spec fn spec_path_end(
    pages: Seq<Seq<u8>>,
    page: PageNum,
    idxs: Seq<usize>,
    k: int,
) -> Option<PageNum>
    decreases idxs.len() - k,
{
    if !(spec_node_at(pages, page) is Some) {
        None
    } else if !(0 <= k < idxs.len()) {
        Some(page)
    } else {
        let m = spec_node_at(pages, page).unwrap();
        if (idxs[k] as int) < m.children.len() {
            spec_path_end(pages, m.children[idxs[k] as int], idxs, k + 1)
        } else {
            None
        }
    }
}

/// Appending one in-range index to a path that ends at a decodable node
/// extends the path's end to that node's selected child.
proof fn lemma_path_end_push(pages: Seq<Seq<u8>>, page: PageNum, idxs: Seq<usize>, k: int, i: usize)
    requires
        0 <= k <= idxs.len(),
        spec_path_end(pages, page, idxs, k) is Some,
        ({
            let q = spec_path_end(pages, page, idxs, k).unwrap();
            let m = spec_node_at(pages, q).unwrap();
            &&& (i as int) < m.children.len()
            &&& spec_node_at(pages, m.children[i as int]) is Some
        }),
    ensures
        spec_path_end(pages, page, idxs.push(i), k) == Some(
            spec_node_at(
                pages,
                spec_path_end(pages, page, idxs, k).unwrap(),
            ).unwrap().children[i as int],
        ),
    decreases idxs.len() - k,
{
    let m = spec_node_at(pages, page).unwrap();
    if k >= idxs.len() {
        assert(spec_path_end(pages, page, idxs, k) == Some(page));
        let child = m.children[i as int];
        assert(idxs.push(i)[k] == i);
        assert(spec_path_end(pages, child, idxs.push(i), k + 1) == Some(child));
        assert(spec_path_end(pages, page, idxs.push(i), k) == Some(child));
    } else {
        let next = m.children[idxs[k] as int];
        assert(spec_path_end(pages, page, idxs, k) == spec_path_end(pages, next, idxs, k + 1));
        assert(idxs.push(i)[k] == idxs[k]);
        lemma_path_end_push(pages, next, idxs, k + 1, i);
        assert(spec_path_end(pages, page, idxs.push(i), k) == spec_path_end(
            pages,
            next,
            idxs.push(i),
            k + 1,
        ));
    }
}

/// The keys of the subtree rooted at `page`, gathered by an in-order walk:
/// each child's keys come before the item that separates it from the next.
/// `None` on an unreadable page, a fan-out violation, or a walk deeper than
/// `fuel`.
pub open spec fn spec_inorder(pages: Seq<Seq<u8>>, page: PageNum, fuel: nat) -> Option<
    Seq<Seq<u8>>,
>
    decreases fuel, 0int,
{
    if fuel == 0 {
        None
    } else {
        match spec_node_at(pages, page) {
            None => None,
            Some(m) => {
                if m.children.len() == 0 {
                    Some(keys_of(m.items))
                } else if m.children.len() == m.items.len() + 1 {
                    spec_inorder_walk(pages, m, 0, (fuel - 1) as nat)
                } else {
                    None
                }
            },
        }
    }
}

/// The in-order keys of an internal node from child `i` on: child `i`'s
/// subtree, then item `i`'s key, and so on through the trailing child.
pub open spec fn spec_inorder_walk(pages: Seq<Seq<u8>>, m: NodeModel, i: int, fuel: nat) -> Option<
    Seq<Seq<u8>>,
>
    decreases fuel, m.items.len() - i + 1int,
{
    if !(0 <= i <= m.items.len() && m.children.len() == m.items.len() + 1) {
        None
    } else if i == m.items.len() {
        spec_inorder(pages, m.children[i], fuel)
    } else {
        match spec_inorder(pages, m.children[i], fuel) {
            None => None,
            Some(left) => match spec_inorder_walk(pages, m, i + 1, fuel) {
                None => None,
                Some(rest) => Some(left + seq![m.items[i].key] + rest),
            },
        }
    }
}

/// Every key of `keys` lies strictly between `lo` and `hi`, where `None`
/// means unbounded.
pub open spec fn keys_between(keys: Seq<Seq<u8>>, lo: Option<Seq<u8>>, hi: Option<Seq<u8>>) -> bool {
    forall|j: int|
        0 <= j < keys.len() ==> (match lo {
            Some(l) => crate::keys::key_lt(l, #[trigger] keys[j]),
            None => true,
        } && match hi {
            Some(h) => crate::keys::key_lt(keys[j], h),
            None => true,
        })
}

/// The order invariant of the tree rooted at `page`: every node decodes,
/// keeps the fan-out discipline and strictly increasing keys, and each
/// subtree's keys lie strictly between the items around its child pointer.
pub open spec fn spec_tree_ordered(pages: Seq<Seq<u8>>, page: PageNum, fuel: nat) -> bool
    decreases fuel, 0int,
{
    &&& fuel > 0
    &&& match spec_node_at(pages, page) {
        None => false,
        Some(m) => {
            &&& m.sorted()
            &&& m.wf_shape()
            &&& (m.children.len() > 0 ==> spec_subtrees_ordered(pages, m, 0, (fuel - 1) as nat))
        },
    }
}

/// The order invariant of an internal node's subtrees from child `i` on.
pub open spec fn spec_subtrees_ordered(pages: Seq<Seq<u8>>, m: NodeModel, i: int, fuel: nat) -> bool
    decreases fuel, m.items.len() - i + 1int,
{
    &&& 0 <= i <= m.items.len()
    &&& m.children.len() == m.items.len() + 1
    &&& spec_tree_ordered(pages, m.children[i], fuel)
    &&& match spec_inorder(pages, m.children[i], fuel) {
        None => false,
        Some(ks) => keys_between(
            ks,
            if i > 0 {
                Some(m.items[i - 1].key)
            } else {
                None
            },
            if i < m.items.len() {
                Some(m.items[i].key)
            } else {
                None
            },
        ),
    }
    &&& (i < m.items.len() ==> spec_subtrees_ordered(pages, m, i + 1, fuel))
}

proof fn lemma_sorted_concat_pivot(left: Seq<Seq<u8>>, pivot: Seq<u8>, rest: Seq<Seq<u8>>)
    requires
        keys_sorted(left),
        keys_sorted(rest),
        forall|j: int| 0 <= j < left.len() ==> crate::keys::key_lt(#[trigger] left[j], pivot),
        forall|j: int| 0 <= j < rest.len() ==> crate::keys::key_lt(pivot, #[trigger] rest[j]),
    ensures
        keys_sorted(left + seq![pivot] + rest),
{
    let all = left + seq![pivot] + rest;
    let p = left.len() as int;
    assert forall|i: int, j: int| 0 <= i < j < all.len() implies crate::keys::key_lt(
        all[i],
        all[j],
    ) by {
        if i < p && j < p {
            assert(all[i] == left[i] && all[j] == left[j]);
        } else if i < p && j == p {
            assert(all[i] == left[i] && all[j] == pivot);
        } else if i < p && j > p {
            assert(all[i] == left[i] && all[j] == rest[j - p - 1]);
            crate::keys::lemma_key_lt_transitive(left[i], pivot, rest[j - p - 1]);
        } else if i == p {
            assert(all[i] == pivot && all[j] == rest[j - p - 1]);
        } else {
            assert(all[i] == rest[i - p - 1] && all[j] == rest[j - p - 1]);
        }
    }
}

/// Ordering: under the tree-order invariant, an in-order traversal is
/// defined and yields keys in strictly increasing lexicographic order.
pub proof fn lemma_inorder_sorted(pages: Seq<Seq<u8>>, page: PageNum, fuel: nat)
    requires
        spec_tree_ordered(pages, page, fuel),
    ensures
        spec_inorder(pages, page, fuel) is Some,
        keys_sorted(spec_inorder(pages, page, fuel).unwrap()),
    decreases fuel, 0int,
{
    let m = spec_node_at(pages, page).unwrap();
    if m.children.len() == 0 {
        assert(spec_inorder(pages, page, fuel) == Some(keys_of(m.items)));
        assert forall|i: int, j: int|
            0 <= i < j < keys_of(m.items).len() implies crate::keys::key_lt(
            keys_of(m.items)[i],
            keys_of(m.items)[j],
        ) by {}
    } else {
        lemma_inorder_walk_sorted(pages, m, 0, (fuel - 1) as nat);
    }
}

/// The walk from child `i` on is defined, sorted, and bounded below by the
/// item before child `i` and above by nothing the caller does not add.
proof fn lemma_inorder_walk_sorted(pages: Seq<Seq<u8>>, m: NodeModel, i: int, fuel: nat)
    requires
        spec_subtrees_ordered(pages, m, i, fuel),
        m.sorted(),
    ensures
        spec_inorder_walk(pages, m, i, fuel) is Some,
        keys_sorted(spec_inorder_walk(pages, m, i, fuel).unwrap()),
        keys_between(
            spec_inorder_walk(pages, m, i, fuel).unwrap(),
            if i > 0 {
                Some(m.items[i - 1].key)
            } else {
                None
            },
            None,
        ),
    decreases fuel, m.items.len() - i + 1int,
{
    lemma_inorder_sorted(pages, m.children[i], fuel);
    let left = spec_inorder(pages, m.children[i], fuel).unwrap();
    if i == m.items.len() {
        assert(spec_inorder_walk(pages, m, i, fuel) == Some(left));
    } else {
        lemma_inorder_walk_sorted(pages, m, i + 1, fuel);
        let pivot = m.items[i].key;
        let rest = spec_inorder_walk(pages, m, i + 1, fuel).unwrap();
        // Keys right of the pivot lie above it; keys left of it lie below.
        assert forall|j: int| 0 <= j < rest.len() implies crate::keys::key_lt(
            pivot,
            #[trigger] rest[j],
        ) by {}
        lemma_sorted_concat_pivot(left, pivot, rest);
        let all = left + seq![pivot] + rest;
        assert(spec_inorder_walk(pages, m, i, fuel) == Some(all));
        if i > 0 {
            let lo = m.items[i - 1].key;
            assert(keys_of(m.items)[i - 1] == m.items[i - 1].key);
            assert(keys_of(m.items)[i] == m.items[i].key);
            assert(crate::keys::key_lt(lo, pivot));
            assert forall|j: int| 0 <= j < all.len() implies crate::keys::key_lt(
                lo,
                #[trigger] all[j],
            ) by {
                let p = left.len() as int;
                if j < p {
                    assert(all[j] == left[j]);
                } else if j == p {
                    assert(all[j] == pivot);
                } else {
                    assert(all[j] == rest[j - p - 1]);
                    crate::keys::lemma_key_lt_transitive(lo, pivot, rest[j - p - 1]);
                }
            }
        }
    }
}

proof fn lemma_subtrees_index(pages: Seq<Seq<u8>>, m: NodeModel, i: int, j: int, fuel: nat)
    requires
        spec_subtrees_ordered(pages, m, i, fuel),
        i <= j <= m.items.len(),
    ensures
        spec_subtrees_ordered(pages, m, j, fuel),
    decreases j - i,
{
    if i < j {
        lemma_subtrees_index(pages, m, i + 1, j, fuel);
    }
}

proof fn lemma_walk_contains_item(pages: Seq<Seq<u8>>, m: NodeModel, i: int, j: int, fuel: nat)
    requires
        spec_subtrees_ordered(pages, m, i, fuel),
        m.sorted(),
        i <= j < m.items.len(),
    ensures
        spec_inorder_walk(pages, m, i, fuel) is Some,
        spec_inorder_walk(pages, m, i, fuel).unwrap().contains(m.items[j].key),
    decreases j - i,
{
    lemma_inorder_walk_sorted(pages, m, i, fuel);
    lemma_inorder_sorted(pages, m.children[i], fuel);
    let left = spec_inorder(pages, m.children[i], fuel).unwrap();
    let pivot = m.items[i].key;
    let rest = spec_inorder_walk(pages, m, i + 1, fuel).unwrap();
    let all = left + seq![pivot] + rest;
    if j == i {
        assert(all[left.len() as int] == pivot);
        assert(all.contains(pivot));
    } else {
        lemma_walk_contains_item(pages, m, i + 1, j, fuel);
        vstd::seq_lib::lemma_seq_concat_contains_all_elements(
            left + seq![pivot],
            rest,
            m.items[j].key,
        );
        assert((left + seq![pivot]) + rest =~= all);
    }
}

/// Whether `key` can possibly live in the subtree hanging at child `idx`:
/// all items before it are below `key` and the item at it (if any) is above.
spec fn scan_facts(m: NodeModel, idx: int, key: Seq<u8>) -> bool {
    &&& 0 <= idx <= m.items.len()
    &&& (forall|j: int| 0 <= j < idx ==> crate::keys::key_lt(#[trigger] m.items[j].key, key))
    &&& (idx < m.items.len() ==> crate::keys::key_lt(key, m.items[idx].key))
}

proof fn lemma_walk_locate(
    pages: Seq<Seq<u8>>,
    m: NodeModel,
    i: int,
    idx: int,
    key: Seq<u8>,
    fuel: nat,
)
    requires
        spec_subtrees_ordered(pages, m, i, fuel),
        m.sorted(),
        0 <= i <= idx <= m.items.len(),
        scan_facts(m, idx, key),
    ensures
        spec_inorder_walk(pages, m, i, fuel) is Some,
        spec_inorder(pages, m.children[idx], fuel) is Some,
        spec_inorder_walk(pages, m, i, fuel).unwrap().contains(key) == spec_inorder(
            pages,
            m.children[idx],
            fuel,
        ).unwrap().contains(key),
    decreases idx - i,
{
    lemma_inorder_walk_sorted(pages, m, i, fuel);
    lemma_subtrees_index(pages, m, i, idx, fuel);
    lemma_inorder_sorted(pages, m.children[idx], fuel);
    crate::keys::lemma_key_lt_irreflexive(key);
    if i == idx {
        if i == m.items.len() {
            // the walk is exactly the trailing child's traversal
        } else {
            lemma_inorder_sorted(pages, m.children[i], fuel);
            lemma_inorder_walk_sorted(pages, m, i + 1, fuel);
            let left = spec_inorder(pages, m.children[i], fuel).unwrap();
            let pivot = m.items[i].key;
            let rest = spec_inorder_walk(pages, m, i + 1, fuel).unwrap();
            let all = left + seq![pivot] + rest;
            vstd::seq_lib::lemma_seq_concat_contains_all_elements(left, seq![pivot], key);
            vstd::seq_lib::lemma_seq_concat_contains_all_elements(left + seq![pivot], rest, key);
            assert((left + seq![pivot]) + rest =~= all);
            // The pivot is above the key, and so is everything right of it.
            assert(crate::keys::key_lt(key, pivot));
            if seq![pivot].contains(key) {
                assert(false);
            }
            if rest.contains(key) {
                let t = choose|t: int| 0 <= t < rest.len() && rest[t] == key;
                assert(crate::keys::key_lt(pivot, rest[t]));
                crate::keys::lemma_key_lt_transitive(key, pivot, rest[t]);
                assert(false);
            }
        }
    } else {
        // The key lies beyond item i: neither child i's subtree nor the
        // pivot can hold it.
        lemma_inorder_sorted(pages, m.children[i], fuel);
        lemma_inorder_walk_sorted(pages, m, i + 1, fuel);
        lemma_walk_locate(pages, m, i + 1, idx, key, fuel);
        let left = spec_inorder(pages, m.children[i], fuel).unwrap();
        let pivot = m.items[i].key;
        let rest = spec_inorder_walk(pages, m, i + 1, fuel).unwrap();
        let all = left + seq![pivot] + rest;
        vstd::seq_lib::lemma_seq_concat_contains_all_elements(left, seq![pivot], key);
        vstd::seq_lib::lemma_seq_concat_contains_all_elements(left + seq![pivot], rest, key);
        assert((left + seq![pivot]) + rest =~= all);
        assert(crate::keys::key_lt(pivot, key));
        if seq![pivot].contains(key) {
            assert(false);
        }
        if left.contains(key) {
            let t = choose|t: int| 0 <= t < left.len() && left[t] == key;
            assert(crate::keys::key_lt(left[t], pivot));
            crate::keys::lemma_key_lt_transitive(left[t], pivot, key);
            assert(false);
        }
    }
}

/// Coverage: under the tree-order invariant, a search concludes, and it
/// finds exactly the keys that the in-order traversal yields — every stored
/// key is retrievable, every other key is absent.
pub proof fn lemma_find_reflects_inorder(
    pages: Seq<Seq<u8>>,
    page: PageNum,
    key: Seq<u8>,
    fuel: nat,
)
    requires
        spec_tree_ordered(pages, page, fuel),
    ensures
        spec_inorder(pages, page, fuel) is Some,
        spec_find_from(pages, page, key, fuel) is Some,
        (spec_find_from(pages, page, key, fuel).unwrap() is Some) == spec_inorder(
            pages,
            page,
            fuel,
        ).unwrap().contains(key),
    decreases fuel,
{
    lemma_inorder_sorted(pages, page, fuel);
    crate::keys::lemma_key_lt_irreflexive(key);
    let m = spec_node_at(pages, page).unwrap();
    let idx = spec_scan(m.items, key);
    lemma_spec_scan_props(m.items, key);
    let found = idx < m.items.len() && m.items[idx].key == key;
    if idx < m.items.len() && !found {
        crate::keys::lemma_key_lt_trichotomy(key, m.items[idx].key);
    }
    if m.children.len() == 0 {
        let ks = keys_of(m.items);
        if found {
            assert(ks[idx] == key);
            assert(ks.contains(key));
        } else {
            if ks.contains(key) {
                let t = choose|t: int| 0 <= t < ks.len() && ks[t] == key;
                assert(ks[t] == m.items[t].key);
                if t < idx {
                    assert(crate::keys::key_lt(m.items[t].key, key));
                } else if t > idx {
                    assert(crate::keys::key_lt(ks[idx], ks[t]));
                    crate::keys::lemma_key_lt_transitive(key, m.items[idx].key, m.items[t].key);
                } else {
                    assert(false);
                }
                assert(false);
            }
        }
    } else {
        let walk_fuel = (fuel - 1) as nat;
        if found {
            lemma_walk_contains_item(pages, m, 0, idx, walk_fuel);
        } else {
            lemma_walk_locate(pages, m, 0, idx, key, walk_fuel);
            lemma_subtrees_index(pages, m, 0, idx, walk_fuel);
            lemma_find_reflects_inorder(pages, m.children[idx], key, walk_fuel);
        }
    }
}

/// Ordering: inserting an absent key at its scan position keeps the node's
/// keys strictly increasing.
pub proof fn lemma_scan_insert_sorted(items: Seq<ItemModel>, it: ItemModel)
    requires
        keys_sorted(keys_of(items)),
        spec_scan(items, it.key) < items.len() ==> items[spec_scan(items, it.key)].key != it.key,
    ensures
        keys_sorted(keys_of(items.insert(spec_scan(items, it.key), it))),
{
    let s = spec_scan(items, it.key);
    lemma_spec_scan_props(items, it.key);
    if s < items.len() {
        crate::keys::lemma_key_lt_trichotomy(items[s].key, it.key);
    }
    let items2 = items.insert(s, it);
    let keys2 = keys_of(items2);
    assert forall|i: int, j: int| 0 <= i < j < keys2.len() implies crate::keys::key_lt(
        keys2[i],
        keys2[j],
    ) by {
        assert(keys2[i] == items2[i].key);
        assert(keys2[j] == items2[j].key);
        if i == s {
            // the new item against a later, old one
            assert(items2[j] == items[j - 1]);
            assert(crate::keys::key_lt(it.key, items[s].key));
            if j - 1 > s {
                assert(keys_of(items)[s] == items[s].key);
                assert(keys_of(items)[j - 1] == items[j - 1].key);
                assert(crate::keys::key_lt(keys_of(items)[s], keys_of(items)[j - 1]));
                crate::keys::lemma_key_lt_transitive(it.key, items[s].key, items[j - 1].key);
            }
        } else if j == s {
            // an old item before the scan position against the new one
            assert(items2[i] == items[i]);
            assert(crate::keys::key_lt(items[i].key, it.key));
        } else {
            // two old items keep their relative order
            let oi = if i < s {
                i
            } else {
                i - 1
            };
            let oj = if j < s {
                j
            } else {
                j - 1
            };
            assert(items2[i] == items[oi]);
            assert(items2[j] == items[oj]);
            assert(keys_of(items)[oi] == items[oi].key);
            assert(keys_of(items)[oj] == items[oj].key);
            assert(crate::keys::key_lt(keys_of(items)[oi], keys_of(items)[oj]));
        }
    }
}

/// Coverage, at the node: a key just inserted at its scan position is the
/// item the scan finds afterwards.
pub proof fn lemma_insert_then_scan_finds(items: Seq<ItemModel>, it: ItemModel)
    requires
        keys_sorted(keys_of(items)),
        spec_scan(items, it.key) < items.len() ==> items[spec_scan(items, it.key)].key != it.key,
    ensures
        spec_scan(items.insert(spec_scan(items, it.key), it), it.key) == spec_scan(
            items,
            it.key,
        ),
        items.insert(spec_scan(items, it.key), it)[spec_scan(items, it.key)] == it,
{
    let s = spec_scan(items, it.key);
    lemma_spec_scan_props(items, it.key);
    let items2 = items.insert(s, it);
    crate::keys::lemma_key_lt_irreflexive(it.key);
    assert forall|j: int| 0 <= j < s implies crate::keys::key_lt(
        #[trigger] items2[j].key,
        it.key,
    ) by {
        assert(items2[j] == items[j]);
    }
    lemma_spec_scan_unique(items2, it.key, s);
}

/// Idempotent replace, at the node: storing a new value under a key the
/// node already holds changes neither the key sequence nor the item count,
/// and the key's scan position is unchanged.
pub proof fn lemma_replace_keeps_keys(items: Seq<ItemModel>, idx: int, it: ItemModel)
    requires
        0 <= idx < items.len(),
        items[idx].key == it.key,
    ensures
        keys_of(items.update(idx, it)) == keys_of(items),
        items.update(idx, it).len() == items.len(),
        forall|key: Seq<u8>| spec_scan(items.update(idx, it), key) == spec_scan(items, key),
{
    assert(keys_of(items.update(idx, it)) =~= keys_of(items));
    assert forall|key: Seq<u8>| spec_scan(items.update(idx, it), key) == spec_scan(
        items,
        key,
    ) by {
        lemma_scan_depends_on_keys(items.update(idx, it), items, key);
    }
}

proof fn lemma_scan_depends_on_keys(a: Seq<ItemModel>, b: Seq<ItemModel>, key: Seq<u8>)
    requires
        keys_of(a) == keys_of(b),
    ensures
        spec_scan(a, key) == spec_scan(b, key),
    decreases a.len(),
{
    assert(a.len() == keys_of(a).len());
    assert(b.len() == keys_of(b).len());
    if a.len() > 0 {
        assert(a[0].key == keys_of(a)[0]);
        assert(b[0].key == keys_of(b)[0]);
        assert(keys_of(a.skip(1)) =~= keys_of(a).skip(1));
        assert(keys_of(b.skip(1)) =~= keys_of(b).skip(1));
        lemma_scan_depends_on_keys(a.skip(1), b.skip(1), key);
    }
}

proof fn lemma_decode_items_bounds(buf: Seq<u8>, leaf: bool, count: nat, pos: int)
    requires
        spec_decode_items(buf, leaf, count, pos) is Some,
    ensures
        forall|i: int|
            0 <= i < spec_decode_items(buf, leaf, count, pos).unwrap().0.len() ==> item_fits(
                #[trigger] spec_decode_items(buf, leaf, count, pos).unwrap().0[i],
            ),
    decreases count,
{
    if count > 0 {
        let pos1 = if leaf {
            pos
        } else {
            pos + 8
        };
        lemma_decode_items_bounds(buf, leaf, (count - 1) as nat, pos1 + 2);
        let rest = spec_decode_items(buf, leaf, (count - 1) as nat, pos1 + 2).unwrap();
        assert forall|i: int|
            0 <= i < spec_decode_items(buf, leaf, count, pos).unwrap().0.len() implies item_fits(
            #[trigger] spec_decode_items(buf, leaf, count, pos).unwrap().0[i],
        ) by {
            if i > 0 {
                assert(spec_decode_items(buf, leaf, count, pos).unwrap().0[i] == rest.0[i - 1]);
            }
        }
    }
}

/// Every decoded node respects the codec's own limits: at most `0xffff`
/// items, each with single-byte key and value lengths, and the fan-out
/// discipline between items and children.
pub proof fn lemma_decoded_node_bounds(buf: Seq<u8>)
    requires
        spec_decode(buf) is Some,
    ensures
        spec_decode(buf).unwrap().items.len() <= 0xffff,
        forall|i: int|
            0 <= i < spec_decode(buf).unwrap().items.len() ==> item_fits(
                #[trigger] spec_decode(buf).unwrap().items[i],
            ),
        spec_decode(buf).unwrap().wf_shape(),
{
    let leaf = buf[0] != 0;
    let count = spec_u16_from_le_bytes(buf.subrange(1, 3)) as nat;
    lemma_decode_items_counts(buf, leaf, count, 3);
    lemma_decode_items_bounds(buf, leaf, count, 3);
}

impl Node {
    /// Descend from this node toward `key`, recording the child index taken
    /// at each level.
    ///
    /// Returns the scan index at the node reached, the node itself, and the
    /// ancestor indices (whose first entry is `0`, standing for the root).
    /// The descent stops at the node holding the key or at a leaf; an
    /// unreadable page, a fan-out violation or a cyclic descent is a fault.
    pub fn find_path(&self, key: &[u8], dal: &crate::dal::DataAccessLayer) -> (r: Result<
        (usize, Node, Vec<usize>),
        KvError,
    >)
        requires
            dal.wf(),
            spec_node_at(dal.image(), self.page_num) == Some(
                NodeModel { items: self@.items, children: self@.children },
            ),
        ensures
            match r {
                Ok((idx, node, anc)) => {
                    &&& spec_node_at(dal.image(), node.page_num) == Some(
                        NodeModel { items: node@.items, children: node@.children },
                    )
                    &&& idx == spec_scan(node@.items, key@)
                    &&& idx <= node@.items.len()
                    &&& anc@.len() >= 1 && anc@[0] == 0
                    // the recorded indices retrace the descent: following
                    // them down from this node reaches the node returned
                    &&& spec_path_end(dal.image(), self.page_num, anc@, 1) == Some(node.page_num)
                    &&& if idx < node@.items.len() && node@.items[idx as int].key == key@ {
                        spec_find_from(dal.image(), self.page_num, key@, spec_fuel(dal.image()))
                            == Some(Some(node@.items[idx as int].value))
                    } else {
                        &&& node@.children.len() == 0
                        &&& spec_find_from(
                            dal.image(),
                            self.page_num,
                            key@,
                            spec_fuel(dal.image()),
                        ) == Some(None::<Seq<u8>>)
                    }
                },
                Err(e) => {
                    &&& (e == KvError::MalformedPage || e == KvError::IoError)
                    &&& spec_find_from(dal.image(), self.page_num, key@, spec_fuel(dal.image()))
                        is None
                },
            },
            // A descent from a leaf stops right there.
            self@.children.len() == 0 ==> match r {
                Ok((idx, node, anc)) => {
                    &&& node.page_num == self.page_num
                    &&& node@.items == self@.items
                    &&& node@.children == self@.children
                    &&& anc@.len() == 1
                },
                Err(_) => false,
            },
    {
        let ghost fuel0 = spec_fuel(dal.image());
        let mut ancestor_idxs: Vec<usize> = Vec::new();
        ancestor_idxs.push(0);
        let mut current = match dal.get_node(self.page_num) {
            Ok(n) => n,
            Err(e) => {
                proof {
                    assert(false);
                }
                return Err(e);
            },
        };
        let limit = dal.pages.len() + 1;
        let mut steps: usize = 0;
        while steps < limit
            invariant
                dal.wf(),
                limit == dal.image().len() + 1,
                fuel0 == spec_fuel(dal.image()),
                fuel0 == limit,
                steps < limit,
                ancestor_idxs@.len() >= 1,
                ancestor_idxs@[0] == 0,
                spec_node_at(dal.image(), current.page_num) == Some(
                    NodeModel { items: current@.items, children: current@.children },
                ),
                spec_find_from(dal.image(), self.page_num, key@, fuel0) == spec_find_from(
                    dal.image(),
                    current.page_num,
                    key@,
                    (limit - steps) as nat,
                ),
                spec_path_end(dal.image(), self.page_num, ancestor_idxs@, 1) == Some(
                    current.page_num,
                ),
                self@.children.len() == 0 ==> {
                    &&& current.page_num == self.page_num
                    &&& current@.items == self@.items
                    &&& current@.children == self@.children
                    &&& ancestor_idxs@.len() == 1
                },
            decreases limit - steps,
        {
            proof {
                lemma_spec_scan_props(current@.items, key@);
            }
            let (found, idx) = current.key_in_node(key);
            if found {
                return Ok((idx, current, ancestor_idxs));
            }
            if current.is_leaf() {
                return Ok((idx, current, ancestor_idxs));
            }
            proof {
                lemma_decoded_fanout(dal.image()[current.page_num as int]);
            }
            let ghost anc0 = ancestor_idxs@;
            ancestor_idxs.push(idx);
            let next_page = current.children[idx];
            let ghost prev_page = current.page_num;
            current = match dal.get_node(next_page) {
                Ok(n) => n,
                Err(e) => {
                    proof {
                        assert(spec_find_from(
                            dal.image(),
                            prev_page,
                            key@,
                            (limit - steps) as nat,
                        ) == spec_find_from(
                            dal.image(),
                            next_page,
                            key@,
                            (limit - steps - 1) as nat,
                        ));
                    }
                    return Err(e);
                },
            };
            proof {
                assert(spec_find_from(dal.image(), prev_page, key@, (limit - steps) as nat)
                    == spec_find_from(dal.image(), next_page, key@, (limit - steps - 1) as nat));
                lemma_path_end_push(dal.image(), self.page_num, anc0, 1, idx);
                assert(spec_path_end(dal.image(), self.page_num, ancestor_idxs@, 1) == Some(
                    current.page_num,
                ));
            }
            steps = steps + 1;
            if steps >= limit {
                // As many descents as there are pages and one more: the
                // image must contain a page cycle.
                return Err(KvError::MalformedPage);
            }
        }
        proof {
            assert(false);
        }
        Err(KvError::MalformedPage)
    }

    /// Search for `key` from this node, per the descent of
    /// [`Node::find_path`]; a missing key is `NotFound`.
    pub fn find_key(&self, key: &[u8], dal: &crate::dal::DataAccessLayer) -> (r: Result<
        (usize, Node, Vec<usize>),
        KvError,
    >)
        requires
            dal.wf(),
            spec_node_at(dal.image(), self.page_num) == Some(
                NodeModel { items: self@.items, children: self@.children },
            ),
        ensures
            match r {
                Ok((idx, node, anc)) => {
                    &&& idx < node@.items.len()
                    &&& node@.items[idx as int].key == key@
                    &&& spec_find_from(dal.image(), self.page_num, key@, spec_fuel(dal.image()))
                        == Some(Some(node@.items[idx as int].value))
                    &&& anc@.len() >= 1 && anc@[0] == 0
                    &&& spec_path_end(dal.image(), self.page_num, anc@, 1) == Some(node.page_num)
                },
                Err(e) => match e {
                    KvError::NotFound => spec_find_from(
                        dal.image(),
                        self.page_num,
                        key@,
                        spec_fuel(dal.image()),
                    ) == Some(None::<Seq<u8>>),
                    KvError::MalformedPage | KvError::IoError => spec_find_from(
                        dal.image(),
                        self.page_num,
                        key@,
                        spec_fuel(dal.image()),
                    ) is None,
                    _ => false,
                },
            },
    {
        let (idx, node, anc) = self.find_path(key, dal)?;
        if idx < node.items.len() {
            let cmp = crate::keys::compare_keys(node.items[idx].key.as_slice(), key);
            if cmp == 0 {
                return Ok((idx, node, anc));
            }
        }
        Err(KvError::NotFound)
    }
}

} // verus!
