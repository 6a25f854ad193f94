//! The tree engine: search, insertion, splitting and root promotion over
//! the page manager.
//!
//! A [`Collection`] caches the root page number from the meta record and
//! drives every operation through its [`DataAccessLayer`].

use crate::dal::{DataAccessLayer, PAGE_NUM_SIZE};
use crate::keys::compare_keys;
use crate::node::{
    item_fits, lemma_decoded_node_bounds, lemma_spec_scan_props, spec_find_from, spec_fuel,
    spec_node_at, Item, Node, NodeModel,
};
use crate::{KvError, PageNum};
use vstd::prelude::*;
use vstd::slice::slice_to_vec;

verus! {

/// What a search of the whole store concludes: an empty tree holds no key;
/// otherwise the descent from the root decides.
pub open spec fn spec_find(
    pages: Seq<Seq<u8>>,
    root: PageNum,
    key: Seq<u8>,
    fuel: nat,
) -> Option<Option<Seq<u8>>> {
    if root == 0 {
        Some(None)
    } else {
        spec_find_from(pages, root, key, fuel)
    }
}

/// The items a leaf holds after `put(key, value)`: the value replaced in
/// place when the key is present, the new item at its scan position when
/// not.
pub open spec fn spec_leaf_put_result(m: NodeModel, key: Seq<u8>, value: Seq<u8>) -> Seq<
    crate::node::ItemModel,
> {
    let idx = crate::node::spec_scan(m.items, key);
    let it = crate::node::ItemModel { key, value };
    if idx < m.items.len() && m.items[idx].key == key {
        m.items.update(idx, it)
    } else {
        m.items.insert(idx, it)
    }
}

/// The recorded path is intact from position `k` on: the node at `page`
/// decodes, and each remaining index selects a nonzero child page whose own
/// chain is intact in turn.
pub open spec fn spec_chain_ok(
    pages: Seq<Seq<u8>>,
    page: PageNum,
    idxs: Seq<usize>,
    k: int,
) -> bool
    decreases idxs.len() - k,
{
    &&& spec_node_at(pages, page) is Some
    &&& (0 <= k < idxs.len() ==> {
        let m = spec_node_at(pages, page).unwrap();
        &&& (idxs[k] as int) < m.children.len()
        &&& m.children[idxs[k] as int] != 0
        &&& spec_chain_ok(pages, m.children[idxs[k] as int], idxs, k + 1)
    })
}

/// An ordered mapping from byte keys to byte values, stored as a B-tree in
/// the pages of its data access layer.
pub struct Collection {
    pub name: String,
    pub root_page: PageNum,
    pub dal: DataAccessLayer,
}

impl Collection {
    /// The pager is well formed and the cached root page agrees with the
    /// meta record.
    pub open spec fn wf(self) -> bool {
        &&& self.dal.wf()
        &&& self.root_page == self.dal.meta.root
    }

    /// A collection over `dal`, rooted where its meta record says.
    pub fn new(name: String, dal: DataAccessLayer) -> (r: Collection)
        requires
            dal.wf(),
        ensures
            r.wf(),
            r.name == name,
            r.root_page == dal.meta.root,
            r.dal == dal,
    {
        let root_page = dal.meta.root;
        Collection { name, root_page, dal }
    }

    /// Look `key` up in the tree.
    ///
    /// Returns the stored item when the key is present, `NotFound` when the
    /// tree does not hold it, and `IoError` or `MalformedPage` when a page
    /// of the descent cannot be read or decoded.
    pub fn find(&self, key: &[u8]) -> (r: Result<Item, KvError>)
        requires
            self.wf(),
        ensures
            match r {
                Ok(item) => {
                    &&& item@.key == key@
                    &&& spec_find(
                        self.dal.image(),
                        self.root_page,
                        key@,
                        spec_fuel(self.dal.image()),
                    ) == Some(Some(item@.value))
                },
                Err(e) => match e {
                    KvError::NotFound => spec_find(
                        self.dal.image(),
                        self.root_page,
                        key@,
                        spec_fuel(self.dal.image()),
                    ) == Some(None::<Seq<u8>>),
                    KvError::IoError | KvError::MalformedPage => spec_find(
                        self.dal.image(),
                        self.root_page,
                        key@,
                        spec_fuel(self.dal.image()),
                    ) is None,
                    _ => false,
                },
            },
    {
        if self.root_page == 0 {
            return Err(KvError::NotFound);
        }
        let node = self.dal.get_node(self.root_page)?;
        let (idx, found_node, _) = node.find_key(key, &self.dal)?;
        let item = Item::new(
            slice_to_vec(found_node.items[idx].key.as_slice()),
            slice_to_vec(found_node.items[idx].value.as_slice()),
        );
        Ok(item)
    }

    /// Re-materialize the node chain from the root along the child indices
    /// `idxs` (whose first entry stands for the root itself).
    ///
    /// Succeeds exactly when the recorded path is intact.  Every returned
    /// node is decoded from the current image, carries its page number, and
    /// is linked to its predecessor by the index taken.
    pub fn get_nodes(&self, idxs: &[usize]) -> (r: Result<Vec<Node>, KvError>)
        requires
            self.wf(),
            idxs@.len() >= 1,
            self.root_page != 0,
        ensures
            match r {
                Ok(nodes) => {
                    &&& nodes@.len() == idxs@.len()
                    &&& forall|i: int|
                        0 <= i < nodes@.len() ==> spec_node_at(
                            self.dal.image(),
                            (#[trigger] nodes@[i]).page_num,
                        ) == Some(
                            NodeModel { items: nodes@[i]@.items, children: nodes@[i]@.children },
                        )
                    &&& forall|i: int| 0 <= i < nodes@.len() ==> (#[trigger] nodes@[i]).page_num != 0
                    &&& nodes@[0].page_num == self.root_page
                    &&& forall|i: int|
                        1 <= i < nodes@.len() ==> idxs@[i] < (#[trigger] nodes@[i - 1])@.children.len()
                            && nodes@[i].page_num == nodes@[i - 1]@.children[idxs@[i] as int]
                },
                Err(e) => e == KvError::IoError || e == KvError::MalformedPage,
            },
            // Success exactly when the recorded path is intact.
            r is Ok <==> spec_chain_ok(self.dal.image(), self.root_page, idxs@, 1),
    {
        let root = self.dal.get_node(self.root_page)?;
        let mut nodes: Vec<Node> = Vec::new();
        nodes.push(root);
        let mut i: usize = 1;
        while i < idxs.len()
            invariant
                self.wf(),
                self.root_page != 0,
                1 <= i <= idxs@.len(),
                nodes@.len() == i,
                spec_chain_ok(self.dal.image(), self.root_page, idxs@, 1) <==> spec_chain_ok(
                    self.dal.image(),
                    nodes@[i - 1].page_num,
                    idxs@,
                    i as int,
                ),
                forall|j: int|
                    0 <= j < nodes@.len() ==> spec_node_at(
                        self.dal.image(),
                        (#[trigger] nodes@[j]).page_num,
                    ) == Some(NodeModel { items: nodes@[j]@.items, children: nodes@[j]@.children }),
                forall|j: int| 0 <= j < nodes@.len() ==> (#[trigger] nodes@[j]).page_num != 0,
                nodes@[0].page_num == self.root_page,
                forall|j: int|
                    1 <= j < nodes@.len() ==> idxs@[j] < (#[trigger] nodes@[j - 1])@.children.len()
                        && nodes@[j].page_num == nodes@[j - 1]@.children[idxs@[j] as int],
            decreases idxs@.len() - i,
        {
            let prev = &nodes[i - 1];
            if idxs[i] >= prev.children.len() {
                return Err(KvError::MalformedPage);
            }
            let child_page = prev.children[idxs[i]];
            if child_page == 0 {
                return Err(KvError::MalformedPage);
            }
            let child = match self.dal.get_node(child_page) {
                Ok(c) => c,
                Err(e) => {
                    proof {
                        assert(spec_node_at(self.dal.image(), child_page) is None);
                        if spec_chain_ok(self.dal.image(), nodes@[i - 1].page_num, idxs@, i as int) {
                            let m = spec_node_at(
                                self.dal.image(),
                                nodes@[i - 1].page_num,
                            ).unwrap();
                            assert(m.children == nodes@[i - 1]@.children);
                            assert(m.children[idxs@[i as int] as int] == child_page);
                            assert(spec_chain_ok(self.dal.image(), child_page, idxs@, i + 1));
                            assert(false);
                        }
                    }
                    return Err(e);
                },
            };
            nodes.push(child);
            i = i + 1;
        }
        Ok(nodes)
    }

    /// Insert `key` with `value`, replacing the value of a key already
    /// present.
    ///
    /// Keys and values are limited to 255 bytes each by the node codec, and
    /// an item may take at most a quarter of a page; larger items are
    /// rejected with `ItemTooLarge`.  A completed insertion leaves the tree
    /// non-empty, splits every node the descent left over-populated, and on
    /// root promotion rewrites the meta record.  Success is owed — and the
    /// resulting root leaf pinned exactly — when the tree is empty or a
    /// single sorted leaf with room for the updated items.
    pub fn put(&mut self, key: &[u8], value: &[u8]) -> (r: Result<(), KvError>)
        requires
            old(self).wf(),
        ensures
            final (self).wf(),
            final (self).name == old(self).name,
            final (self).dal.page_size == old(self).dal.page_size,
            final (self).dal.min_fill_bp == old(self).dal.min_fill_bp,
            final (self).dal.max_fill_bp == old(self).dal.max_fill_bp,
            r == Err::<(), KvError>(KvError::ItemTooLarge) <==> (key@.len() > 255 || value@.len()
                > 255 || key@.len() + value@.len() + PAGE_NUM_SIZE > old(self).dal.page_size as int
                / 4),
            r is Ok ==> final (self).root_page != 0,
            // After every completed insertion the root page holds a
            // decodable node.
            r is Ok ==> spec_node_at(final (self).dal.image(), final (self).root_page) is Some,
            // Root promotion: when a completed put moves the root of a
            // non-empty tree, the new root is an internal node holding
            // exactly the promoted middle item and its two halves.
            (r is Ok && old(self).root_page != 0 && final (self).root_page != old(
                self,
            ).root_page) ==> ({
                let m = spec_node_at(final (self).dal.image(), final (self).root_page).unwrap();
                &&& m.items.len() == 1
                &&& m.children.len() == 2
            }),
            // An insertion only ever takes pages off the free list, never
            // releases one: the released pages afterwards are a prefix of
            // those before.
            crate::dal::spec_released_prefix(final (self).dal.freelist@, old(self).dal.freelist@),
            // A put into an empty tree is owed success whenever the item is
            // within bounds and the allocator has room.
            (old(self).root_page == 0 && !(key@.len() > 255 || value@.len() > 255 || key@.len()
                + value@.len() + PAGE_NUM_SIZE > old(self).dal.page_size as int / 4) && (old(
                self,
            ).dal.freelist@.released.len() > 0 || old(self).dal.freelist@.max_page < 0xffff))
                ==> r is Ok,
            // A completed put into an empty tree writes a fresh leaf holding
            // exactly the one item, roots the tree there, and touches no
            // other page but the meta page — so the key finds its value, any
            // other key is absent, and the order invariant holds.
            old(self).root_page == 0 && r is Ok ==> ({
                let p = final (self).root_page;
                let img2 = final (self).dal.image();
                &&& p != 0 && p <= 0xffff
                &&& crate::dal::spec_alloc(
                    old(self).dal.freelist@,
                    final (self).dal.freelist@,
                    p,
                )
                &&& spec_node_at(img2, p) == Some(
                    NodeModel {
                        items: seq![crate::node::ItemModel { key: key@, value: value@ }],
                        children: Seq::<PageNum>::empty(),
                    },
                )
                &&& forall|q: int|
                    0 <= q < old(self).dal.image().len() && q != p && q != 0 ==> img2[q] == old(
                        self,
                    ).dal.image()[q]
                &&& spec_find(img2, p, key@, spec_fuel(img2)) == Some(Some(value@))
                &&& crate::node::spec_tree_ordered(img2, p, spec_fuel(img2))
            }),
            // Idempotent replace, and coverage, on a one-leaf tree: when the
            // root is a sorted leaf, the item is within bounds and the
            // updated leaf stays within the maximum threshold, the put is
            // owed success and leaves the root in place holding exactly the
            // updated items — so the key finds its new value, a replaced key
            // adds no item, and the order invariant is kept.
            ({
                let img0 = old(self).dal.image();
                let root = old(self).root_page;
                &&& root != 0
                &&& !(key@.len() > 255 || value@.len() > 255 || key@.len() + value@.len()
                    + PAGE_NUM_SIZE > old(self).dal.page_size as int / 4)
                &&& spec_node_at(img0, root) is Some
                &&& spec_node_at(img0, root).unwrap().is_leaf()
                &&& spec_node_at(img0, root).unwrap().sorted()
                &&& crate::node::spec_size(
                    NodeModel {
                        items: spec_leaf_put_result(
                            spec_node_at(img0, root).unwrap(),
                            key@,
                            value@,
                        ),
                        children: Seq::<PageNum>::empty(),
                    },
                ) <= old(self).dal.spec_max_threshold()
            }) ==> ({
                let m = spec_node_at(old(self).dal.image(), old(self).root_page).unwrap();
                let items2 = spec_leaf_put_result(m, key@, value@);
                let img2 = final (self).dal.image();
                &&& r is Ok
                &&& final (self).root_page == old(self).root_page
                &&& spec_node_at(img2, final (self).root_page) == Some(
                    NodeModel { items: items2, children: Seq::<PageNum>::empty() },
                )
                &&& spec_find(img2, final (self).root_page, key@, spec_fuel(img2)) == Some(
                    Some(value@),
                )
                &&& crate::node::spec_tree_ordered(
                    img2,
                    final (self).root_page,
                    spec_fuel(img2),
                )
            }),
    {
        if key.len() > 255 || value.len() > 255 || key.len() + value.len() + PAGE_NUM_SIZE
            > self.page_size_quarter() {
            return Err(KvError::ItemTooLarge);
        }
        let item = Item::new(slice_to_vec(key), slice_to_vec(value));
        if self.root_page == 0 {
            if !self.dal.freelist.can_allocate() {
                return Err(KvError::IoError);
            }
            let mut items: Vec<Item> = Vec::new();
            items.push(item);
            let mut node = self.dal.new_node(items, Vec::new());
            proof {
                // A single in-bounds item always fits a fresh leaf page.
                assert(node@.items =~= seq![
                    crate::node::ItemModel { key: key@, value: value@ },
                ]);
                vstd::arithmetic::div_mod::lemma_fundamental_div_mod(
                    self.dal.page_size as int,
                    4,
                );
                assert(node@.items.len() == 1);
                assert(node@.items[0] == crate::node::ItemModel { key: key@, value: value@ });
                assert(crate::node::spec_size_prefix(node@.items, 0) == 3);
                assert(crate::node::spec_size_prefix(node@.items, 1) == 3 + (key@.len()
                    + value@.len() + 8));
                assert(crate::node::spec_size(node@) == key@.len() + value@.len() + 19);
                assert(crate::node::spec_size(node@) <= self.dal.page_size);
                crate::node::lemma_leaf_encodable_from_size(node@, self.dal.page_size as int);
            }
            node.write_node(&mut self.dal)?;
            let ghost img1 = self.dal.image();
            let ghost root_model = NodeModel { items: node@.items, children: node@.children };
            self.root_page = node.page_num;
            self.dal.meta.root = node.page_num;
            let meta_clone = self.dal.meta;
            self.dal.write_meta(&meta_clone)?;
            proof {
                // The fresh leaf survives the meta write untouched, and a
                // descent into it finds the new key at once.
                let p = node.page_num;
                let img2 = final (self).dal.image();
                assert(img2[p as int] == img1[p as int]);
                assert(spec_node_at(img2, p) == Some(root_model));
                crate::keys::lemma_key_lt_irreflexive(key@);
                assert(root_model.items[0].key == key@);
                assert(crate::node::spec_scan(root_model.items, key@) == 0);
                assert(spec_find_from(img2, p, key@, spec_fuel(img2)) == Some(
                    Some(root_model.items[0].value),
                ));
                assert(crate::node::keys_of(root_model.items) =~= seq![key@]);
                assert(root_model.sorted());
                assert(crate::node::spec_tree_ordered(img2, p, spec_fuel(img2)));
                // Only the leaf's page and the meta page were written.
                assert(root_model =~= NodeModel {
                    items: seq![crate::node::ItemModel { key: key@, value: value@ }],
                    children: Seq::<PageNum>::empty(),
                });
                assert forall|q: int|
                    0 <= q < old(self).dal.image().len() && q != p && q != 0 implies img2[q]
                    == old(self).dal.image()[q] by {
                    assert(img2[q] == img1[q]);
                    assert(img1[q] == old(self).dal.image()[q]);
                }
            }
            return Ok(());
        }
        let ghost img0 = old(self).dal.image();
        let ghost root0 = old(self).root_page;
        let ghost leaf_case = root0 != 0 && !(key@.len() > 255 || value@.len() > 255 || key@.len()
            + value@.len() + PAGE_NUM_SIZE > old(self).dal.page_size as int / 4) && spec_node_at(
            img0,
            root0,
        ) is Some && spec_node_at(img0, root0).unwrap().is_leaf() && spec_node_at(
            img0,
            root0,
        ).unwrap().sorted() && crate::node::spec_size(
            NodeModel {
                items: spec_leaf_put_result(spec_node_at(img0, root0).unwrap(), key@, value@),
                children: Seq::<PageNum>::empty(),
            },
        ) <= old(self).dal.spec_max_threshold();
        let ghost item_model = item@;
        let root_node = self.dal.get_node(self.root_page)?;
        proof {
            if leaf_case {
                assert(root_node@.children.len() == 0);
            }
        }
        let (idx, mut node, ancestors) = root_node.find_path(key, &self.dal)?;
        proof {
            lemma_decoded_node_bounds(self.dal.image()[node.page_num as int]);
            lemma_spec_scan_props(node@.items, key@);
        }
        let ghost node_items0 = node@.items;
        let mut key_present = false;
        if idx < node.items.len() {
            key_present = compare_keys(node.items[idx].key.as_slice(), key) == 0;
        }
        if key_present {
            node.items[idx] = item;
            proof {
                assert(node@.items =~= node_items0.update(idx as int, item_model));
            }
        } else {
            node.add_item(item, idx);
        }
        proof {
            if leaf_case {
                // On a one-leaf tree the descent stayed at the root, so the
                // mutated node is the root leaf with the updated items.
                let m = spec_node_at(img0, root0).unwrap();
                assert(item_model =~= crate::node::ItemModel { key: key@, value: value@ });
                assert(root_node@.items == m.items && root_node@.children == m.children);
                assert(node.page_num == root0);
                assert(node_items0 == m.items);
                assert(key_present == (idx < m.items.len() && m.items[idx as int].key == key@));
                assert(node@.items == spec_leaf_put_result(m, key@, value@));
                assert(node@.children.len() == 0);
                // The updated leaf fits its page, so the write cannot fail.
                vstd::arithmetic::div_mod::lemma_div_multiples_vanish(
                    self.dal.page_size as int,
                    10000,
                );
                assert(
                    (self.dal.page_size as int) * (self.dal.max_fill_bp as int) <= (
                    self.dal.page_size as int) * 10000) by (nonlinear_arith)
                    requires
                        self.dal.max_fill_bp <= 10000,
                        self.dal.page_size >= 0,
                ;
                assert((self.dal.page_size as int) * 10000 == 10000 * (
                self.dal.page_size as int)) by (nonlinear_arith);
                vstd::arithmetic::div_mod::lemma_div_is_ordered(
                    (self.dal.page_size as int) * (self.dal.max_fill_bp as int),
                    (self.dal.page_size as int) * 10000,
                    10000,
                );
                assert(self.dal.spec_max_threshold() <= self.dal.page_size);
                crate::node::lemma_leaf_encodable_from_size(node@, self.dal.page_size as int);
            }
        }
        node.write_node(&mut self.dal)?;
        proof {
            if leaf_case {
                let m = spec_node_at(img0, root0).unwrap();
                let items2 = spec_leaf_put_result(m, key@, value@);
                assert(root0 < img0.len());
                assert(spec_node_at(self.dal.image(), root0) == Some(
                    NodeModel { items: items2, children: Seq::<PageNum>::empty() },
                ));
                // The single-link chain from the root is intact, so the
                // re-fetch cannot fail either.
                assert(ancestors@.len() == 1);
                assert(spec_chain_ok(self.dal.image(), self.root_page, ancestors@, 1));
            }
        }
        // Rebalance up: re-fetch the ancestor chain and split every node
        // the insertion left over-populated, deepest first.
        let mut chain = self.get_nodes(ancestors.as_slice())?;
        proof {
            assert forall|j: int|
                0 <= j < chain@.len() implies (#[trigger] chain@[j])@.items.len() <= 0xffff
                && (forall|t: int|
                0 <= t < chain@[j]@.items.len() ==> item_fits(#[trigger] chain@[j]@.items[t]))
                && chain@[j]@.wf_shape() && chain@[j].page_num <= 0xffff by {
                lemma_decoded_node_bounds(self.dal.image()[chain@[j].page_num as int]);
                assert(chain@[j].page_num < self.dal.image().len());
            }
        }
        let ghost chain0 = chain@;
        let ghost dal1 = self.dal;
        while chain.len() >= 2
            invariant
                1 <= chain@.len() <= chain0.len(),
                chain@.len() == chain0.len() ==> chain@ == chain0 && self.dal == dal1,
                old(self).root_page != 0,
                self.root_page == old(self).root_page,
                spec_node_at(self.dal.image(), self.root_page) is Some,
                // In the one-leaf case the chain never has two nodes, so
                // the loop body can never run.
                (spec_node_at(old(self).dal.image(), old(self).root_page) is Some && spec_node_at(
                    old(self).dal.image(),
                    old(self).root_page,
                ).unwrap().is_leaf() && crate::node::spec_size(
                    NodeModel {
                        items: spec_leaf_put_result(
                            spec_node_at(old(self).dal.image(), old(self).root_page).unwrap(),
                            key@,
                            value@,
                        ),
                        children: Seq::<PageNum>::empty(),
                    },
                ) <= old(self).dal.spec_max_threshold()) ==> chain@.len() == 1,
                self.wf(),
                self.name == old(self).name,
                self.dal.page_size == old(self).dal.page_size,
                self.dal.min_fill_bp == old(self).dal.min_fill_bp,
                self.dal.max_fill_bp == old(self).dal.max_fill_bp,
                self.root_page != 0,
                !(key@.len() > 255 || value@.len() > 255 || key@.len() + value@.len()
                    + PAGE_NUM_SIZE > old(self).dal.page_size as int / 4),
                crate::dal::spec_released_prefix(self.dal.freelist@, old(self).dal.freelist@),
                chain@.len() <= ancestors@.len(),
                forall|j: int| 0 <= j < chain@.len() ==> (#[trigger] chain@[j]).page_num != 0,
                forall|j: int| 0 <= j < chain@.len() ==> (#[trigger] chain@[j]).page_num <= 0xffff,
                forall|j: int|
                    0 <= j < chain@.len() - 1 ==> (#[trigger] chain@[j])@.items.len() <= 0xffff,
                chain@.len() >= 1 ==> chain@[chain@.len() - 1]@.items.len() <= 0x10000,
                forall|j: int, t: int|
                    0 <= j < chain@.len() && 0 <= t < (#[trigger] chain@[j])@.items.len()
                        ==> item_fits(#[trigger] chain@[j]@.items[t]),
                forall|j: int| 0 <= j < chain@.len() ==> (#[trigger] chain@[j])@.wf_shape(),
                forall|j: int|
                    1 <= j < chain@.len() ==> ancestors@[j] < (#[trigger] chain@[j
                        - 1])@.children.len(),
            decreases chain@.len(),
        {
            let mut child = chain.pop().unwrap();
            let over = self.dal.is_over_populated(&child);
            if over {
                let anc_idx = ancestors[chain.len()];
                let ghost child0 = child@;
                let mut parent = chain.pop().unwrap();
                let ghost parent0 = parent@;
                proof {
                    assert(parent@.children.len() > 0);
                    assert(parent@.children.len() == parent@.items.len() + 1);
                }
                let ghost img_pre = self.dal.image();
                parent.split(&mut child, anc_idx, &mut self.dal)?;
                proof {
                    // The root page still holds a node: either one of the
                    // three pages just rewritten (each holds a fresh
                    // encoding) or an untouched page.
                    let img = self.dal.image();
                    let rp = self.root_page;
                    let s = parent@.children[anc_idx + 1];
                    if rp == child.page_num {
                        assert(spec_node_at(img, rp) is Some);
                    } else if rp == parent.page_num {
                        assert(spec_node_at(img, rp) is Some);
                    } else if rp == s {
                        assert(spec_node_at(img, rp) is Some);
                    } else {
                        assert(rp < img_pre.len());
                        assert(img[rp as int] == img_pre[rp as int]);
                        assert(spec_node_at(img, rp) is Some);
                    }
                }
                proof {
                    // The promoted middle item came from the child, so it
                    // fits; the parent stays internal with one more item and
                    // one more child.
                    let si = crate::node::spec_split_index(
                        child0.items,
                        old(self).dal.spec_min_threshold(),
                    ).unwrap();
                    assert(item_fits(child0.items[si]));
                    assert forall|t: int| 0 <= t < parent@.items.len() implies item_fits(
                        #[trigger] parent@.items[t],
                    ) by {
                        assert(parent@.items == parent0.items.insert(
                            anc_idx as int,
                            child0.items[si],
                        ));
                    }
                    assert(parent@.children.len() == parent@.items.len() + 1);
                }
                chain.push(parent);
            }
        }
        let mut root_node2 = match chain.pop() {
            Some(n) => n,
            None => {
                return Err(KvError::MalformedPage);
            },
        };
        proof {
            if leaf_case {
                // The chain was the single updated root leaf, already under
                // the maximum threshold: no root split can trigger.
                let m = spec_node_at(img0, root0).unwrap();
                let items2 = spec_leaf_put_result(m, key@, value@);
                let model2 = NodeModel { items: items2, children: Seq::<PageNum>::empty() };
                assert(chain0.len() == 1);
                assert(self.dal == dal1);
                assert(root_node2 == chain0[0]);
                assert(root_node2.page_num == self.root_page);
                assert(spec_node_at(self.dal.image(), root_node2.page_num) == Some(model2));
                assert(NodeModel {
                    items: root_node2@.items,
                    children: root_node2@.children,
                } == model2);
                assert(root_node2@ =~= model2);
                assert(crate::node::spec_size(root_node2@)
                    <= self.dal.spec_max_threshold());
            }
        }
        if self.dal.is_over_populated(&root_node2) {
            if !self.dal.freelist.can_allocate() {
                return Err(KvError::IoError);
            }
            let mut root_children: Vec<PageNum> = Vec::new();
            root_children.push(root_node2.page_num);
            let mut new_root = self.dal.new_node(Vec::new(), root_children);
            proof {
                assert forall|i: int|
                    0 <= i < self.dal.freelist@.released.len() implies self.dal.freelist@.released[i]
                    == old(self).dal.freelist@.released[i] by {}
            }
            new_root.split(&mut root_node2, 0, &mut self.dal)?;
            proof {
                // The promoted root carries exactly the middle item and the
                // two halves of the old root.
                assert(new_root@.items.len() == 1);
                assert(new_root@.children.len() == 2);
            }
            new_root.write_node(&mut self.dal)?;
            let ghost img_w = self.dal.image();
            self.root_page = new_root.page_num;
            self.dal.meta.root = new_root.page_num;
            let meta_clone = self.dal.meta;
            self.dal.write_meta(&meta_clone)?;
            proof {
                let p = new_root.page_num;
                assert(final (self).dal.image()[p as int] == img_w[p as int]);
                assert(spec_node_at(final (self).dal.image(), p) == Some(
                    NodeModel { items: new_root@.items, children: new_root@.children },
                ));
            }
        }
        proof {
            if leaf_case {
                // The chain was the single updated root leaf, already under
                // the maximum threshold: the rebalance loop and the root
                // split both stood down, so the image still holds exactly
                // the updated leaf, which answers the search with the new
                // value and keeps the order invariant.
                let m = spec_node_at(img0, root0).unwrap();
                let items2 = spec_leaf_put_result(m, key@, value@);
                let model2 = NodeModel { items: items2, children: Seq::<PageNum>::empty() };
                assert(chain0.len() == 1);
                assert(self.dal == dal1);
                assert(self.root_page == root0);
                let img2 = self.dal.image();
                assert(spec_node_at(img2, root0) == Some(model2));
                let sidx = crate::node::spec_scan(m.items, key@);
                lemma_spec_scan_props(m.items, key@);
                if idx < m.items.len() && m.items[idx as int].key == key@ {
                    crate::node::lemma_replace_keeps_keys(m.items, idx as int, item_model);
                    assert(crate::node::spec_scan(items2, key@) == sidx);
                    assert(items2[sidx].key == key@ && items2[sidx].value == value@);
                    assert(crate::node::keys_of(items2) == crate::node::keys_of(m.items));
                    assert(model2.sorted());
                } else {
                    crate::node::lemma_insert_then_scan_finds(m.items, item_model);
                    crate::node::lemma_scan_insert_sorted(m.items, item_model);
                    assert(crate::node::spec_scan(items2, key@) == sidx);
                    assert(items2[sidx].key == key@ && items2[sidx].value == value@);
                    assert(model2.sorted());
                }
                assert(spec_find_from(img2, root0, key@, spec_fuel(img2)) == Some(
                    Some(value@),
                ));
                assert(crate::node::spec_tree_ordered(img2, root0, spec_fuel(img2)));
            }
        }
        Ok(())
    }

    /// A quarter of the page size: the largest item the store accepts.
    fn page_size_quarter(&self) -> (r: usize)
        ensures
            r == self.dal.page_size as int / 4,
    {
        self.dal.page_size / 4
    }
}

} // verus!