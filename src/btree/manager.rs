//! The B-tree manager: search and insert with preemptive splits, over nodes
//! stored one per encrypted page.
use crate::btree::node::{enc_node, keys_fit, lemma_node_injective, BTreeNode, NodeType, NodeView};
use crate::error::StoreError;
use crate::order::{
    compare_keys, key_lt, key_seq, lemma_key_irreflexive, lemma_key_transitive, lower_bound, upper_bound,
};
use crate::page::{Page, DATA_SIZE, KIND_DATA};
use crate::pager::{lemma_read_after_write, Pager};
use vstd::prelude::*;

verus! {

/// Page `id` of the pager holds the well-formed node `n`.
pub open spec fn node_stored(p: &Pager, id: u32, n: NodeView) -> bool {
    &&& p.read_outcome(id) matches Some(pg)
    &&& pg.used_space <= DATA_SIZE
    &&& enc_node(n) == pg.data.subrange(0, pg.used_space as int)
    &&& n.wf()
    &&& keys_fit(n.keys)
    &&& n.id == id
}

/// The node stored in page `id`, if the page holds one.
pub open spec fn node_at(p: &Pager, id: u32) -> Option<NodeView> {
    if exists|n: NodeView| node_stored(p, id, n) {
        Some(choose|n: NodeView| node_stored(p, id, n))
    } else {
        None
    }
}

/// A page holds at most one node.
pub proof fn lemma_node_at(p: &Pager, id: u32, n: NodeView)
    requires
        node_stored(p, id, n),
    ensures
        node_at(p, id) == Some(n),
{
    let m = choose|m: NodeView| node_stored(p, id, m);
    lemma_node_injective(m, n);
}

/// The child position that `key` descends to: the first key greater than it.
pub open spec fn descend_at(keys: Seq<Seq<char>>, key: Seq<char>) -> int {
    choose|idx: int| #[trigger] splits_at(keys, key, idx)
}

/// No key before `idx` sorts after `key`; every key from `idx` on does.
pub open spec fn splits_at(keys: Seq<Seq<char>>, key: Seq<char>, idx: int) -> bool {
    &&& 0 <= idx <= keys.len()
    &&& forall|i: int| 0 <= i < idx ==> !key_lt(key, #[trigger] keys[i])
    &&& forall|i: int| idx <= i < keys.len() ==> key_lt(key, #[trigger] keys[i])
}

/// The value a leaf holds under `key`.
pub open spec fn leaf_value(n: NodeView, key: Seq<char>) -> Option<u32> {
    if exists|i: int| 0 <= i < n.keys.len() && n.keys[i] == key {
        Some(n.children[choose|i: int| 0 <= i < n.keys.len() && n.keys[i] == key])
    } else {
        None
    }
}

/// What the tree below page `id` maps `key` to, found by descending at most
/// `fuel` internal nodes: `Some(v)` with the leaf's answer `v`, or `None`
/// where a page on the way holds no node or the descent runs out.
pub open spec fn tree_get(p: &Pager, id: u32, key: Seq<char>, fuel: nat) -> Option<Option<u32>>
    decreases fuel,
{
    match node_at(p, id) {
        None => None,
        Some(n) => if n.node_type == NodeType::Leaf {
            Some(leaf_value(n, key))
        } else if fuel == 0 {
            None
        } else {
            tree_get(p, n.children[descend_at(n.keys, key)], key, (fuel - 1) as nat)
        },
    }
}

/// Some page of the pager, reachable from a root or not, holds a leaf that
/// maps `key` to `value`.
pub open spec fn leaf_holds(p: &Pager, key: Seq<char>, value: u32) -> bool {
    exists|id: u32, n: NodeView, i: int|
        #![trigger node_stored(p, id, n), n.keys[i]]
        node_stored(p, id, n) && n.node_type == NodeType::Leaf && 0 <= i < n.keys.len()
            && n.keys[i] == key && n.children[i] == value
}

/// The halves of a full node split at `mid = |keys| / 2`: the left keeps
/// `keys[..mid]`; the right gets `keys[mid..]` in a leaf and `keys[mid+1..]`
/// in an internal node, whose `keys[mid]` moves up.
pub open spec fn left_half(c: NodeView) -> NodeView {
    let mid = (c.keys.len() / 2) as int;
    NodeView {
        keys: c.keys.subrange(0, mid),
        children: if c.node_type == NodeType::Leaf {
            c.children.subrange(0, mid)
        } else {
            c.children.subrange(0, mid + 1)
        },
        ..c
    }
}

pub open spec fn right_half(c: NodeView, id: u32, parent: u32) -> NodeView {
    let mid = (c.keys.len() / 2) as int;
    NodeView {
        id,
        parent: Some(parent),
        node_type: c.node_type,
        keys: if c.node_type == NodeType::Leaf {
            c.keys.subrange(mid, c.keys.len() as int)
        } else {
            c.keys.subrange(mid + 1, c.keys.len() as int)
        },
        children: if c.node_type == NodeType::Leaf {
            c.children.subrange(mid, c.children.len() as int)
        } else {
            c.children.subrange(mid + 1, c.children.len() as int)
        },
    }
}

/// The page a pager hands out next.
pub open spec fn next_free(p: &Pager) -> u32 {
    if p.total() == 0 {
        1u32
    } else {
        p.total()
    }
}

/// What a split of `child` under `parent` at `idx` leaves: the sibling in
/// the next free page; the parent with the separator `keys[mid]` at `idx`
/// and the sibling right after the child; and, where the pages differ, the
/// two halves and the parent stored.
pub open spec fn split_done(p0: &Pager, p1: &Pager, parent0: NodeView, parent1: NodeView, idx: int, child: NodeView) -> bool {
    let sib = next_free(p0);
    &&& parent1.keys == parent0.keys.insert(idx, child.keys[(child.keys.len() / 2) as int])
    &&& parent1.children == parent0.children.insert(idx + 1, sib)
    &&& node_stored(p1, parent1.id, parent1)
    &&& sib != parent1.id ==> node_stored(p1, sib, right_half(child, sib, parent1.id))
    &&& child.id != sib && child.id != parent1.id ==> node_stored(p1, child.id, left_half(child))
}

/// A node stays stored while its page's record, the key and the pages
/// before it stay as they are.
proof fn lemma_stored_kept(p0: &Pager, p1: &Pager, id: u32, n: NodeView)
    requires
        node_stored(p0, id, n),
        p1.key() == p0.key(),
        p1.total() >= p0.total(),
        p1.records().len() >= p0.records().len(),
        p1.records()[id as int] == p0.records()[id as int],
    ensures
        node_stored(p1, id, n),
{
}

/// Page `id` holds a node whose parent pointer is `parent`.
pub open spec fn points_to(p: &Pager, id: u32, parent: u32) -> bool {
    exists|n: NodeView| node_stored(p, id, n) && n.parent == Some(parent)
}

/// `ids[k]` occurs once in `ids`.
pub open spec fn occurs_once(ids: Seq<u32>, k: int) -> bool {
    forall|k2: int| 0 <= k2 < ids.len() && k2 != k ==> #[trigger] ids[k2] != ids[k]
}

/// The children that an internal split moves to the sibling `sib` point at
/// it, each where its page is not also the child's, the sibling's or the
/// parent's, and occurs once.
pub open spec fn moved_point_to(p1: &Pager, child: NodeView, sib: u32, parent_id: u32) -> bool {
    let moved = right_half(child, sib, parent_id).children;
    child.node_type == NodeType::Internal ==> forall|k: int|
        0 <= k < moved.len() && occurs_once(moved, k) && moved[k] != child.id && moved[k] != sib && moved[k]
            != parent_id ==> #[trigger] points_to(p1, moved[k], sib)
}

proof fn lemma_points_kept(p0: &Pager, p1: &Pager, id: u32, parent: u32, written: u32)
    requires
        points_to(p0, id, parent),
        id != written,
        p1.key() == p0.key(),
        p1.total() >= p0.total(),
        p1.records().len() >= p0.records().len(),
        forall|i: int|
            0 <= i < p0.records().len() && i != written ==> #[trigger] p1.records()[i] == p0.records()[i],
    ensures
        points_to(p1, id, parent),
{
    let n = choose|n: NodeView| node_stored(p0, id, n) && n.parent == Some(parent);
    assert(p1.records()[id as int] == p0.records()[id as int]);
    lemma_stored_kept(p0, p1, id, n);
}

/// Borrows the pager for the length of a tree operation; `root_id` is the
/// page of the current root.
pub struct BTreeManager<'a> {
    pub pager: &'a mut Pager,
    pub root_id: u32,
}

impl<'a> BTreeManager<'a> {
    /// The pager as it stands.
    pub open spec fn store(&self) -> &Pager {
        &*self.pager
    }

    /// A manager over the tree whose root node is in page `root_id`.
    pub fn new(pager: &'a mut Pager, root_id: u32) -> (r: BTreeManager<'a>)
        ensures
            *r.pager == *old(pager),
            r.root_id == root_id,
    {
        BTreeManager { pager, root_id }
    }

    /// Reads the node stored in page `node_id`. Fails where the page does not
    /// read or does not hold a well-formed node of that id.
    fn read_node(&self, node_id: u32) -> (r: Result<BTreeNode, StoreError>)
        requires
            self.pager.wf(),
        ensures
            r matches Ok(n) ==> node_stored(self.store(), node_id, n@),
            node_at(self.store(), node_id) is Some ==> r is Ok,
    {
        proof {
            if node_at(self.store(), node_id) is Some {
                let n = choose|n: NodeView| node_stored(self.store(), node_id, n);
                assert(node_stored(self.store(), node_id, n));
            }
        }
        let page = self.pager.read_page(node_id)?;
        if page.used_space as usize > DATA_SIZE {
            return Err(StoreError::Serialization("Node Corrupt".to_owned()));
        }
        let bytes = page.used_bytes();
        let ghost n0 = choose|n: NodeView| node_stored(self.store(), node_id, n);
        proof {
            if node_at(self.store(), node_id) is Some {
                assert(enc_node(n0) == bytes@);
            }
        }
        let node = BTreeNode::from_bytes(bytes.as_slice())?;
        proof {
            if node_at(self.store(), node_id) is Some {
                lemma_node_injective(node@, n0);
            }
        }
        if node.id != node_id {
            return Err(StoreError::Serialization("Node Corrupt".to_owned()));
        }
        Ok(node)
    }

    /// Encodes the node into the payload of a data page and writes it to the
    /// node's own page.
    fn write_node(&mut self, node: &BTreeNode) -> (r: Result<(), StoreError>)
        requires
            old(self).pager.wf(),
            node@.shape_ok(),
        ensures
            final(self).pager.wf(),
            final(self).pager.key() == old(self).pager.key(),
            final(self).pager.index == old(self).pager.index,
            final(self).pager.total() >= old(self).pager.total(),
            final(self).root_id == old(self).root_id,
            final(self).pager.records().len() >= old(self).pager.records().len(),
            forall|i: int|
                0 <= i < old(self).pager.records().len() && i != node.id ==> #[trigger] final(
                    self).pager.records()[i] == old(self).pager.records()[i],
            r is Ok ==> node_stored(final(self).store(), node.id, node@),
    {
        let bytes = node.to_bytes()?;
        if bytes.len() > DATA_SIZE {
            return Err(StoreError::Serialization("Node too big for Page".to_owned()));
        }
        if node.id == u32::MAX {
            return Err(StoreError::Serialization("Node id out of range".to_owned()));
        }
        let page = Page::with_payload(node.id, KIND_DATA, bytes.as_slice());
        self.pager.write_page(&page)?;
        proof {
            lemma_read_after_write(self.pager, page@);
            assert(page@.data.subrange(0, page@.used_space as int) =~= bytes@);
        }
        Ok(())
    }

    /// Hands out a fresh page from the pager, failing when ids run out.
    fn allocate(&mut self) -> (r: Result<u32, StoreError>)
        requires
            old(self).pager.wf(),
        ensures
            final(self).pager.wf(),
            final(self).pager.key() == old(self).pager.key(),
            final(self).pager.index == old(self).pager.index,
            final(self).pager.total() >= old(self).pager.total(),
            final(self).root_id == old(self).root_id,
            r matches Ok(id) ==> id < u32::MAX && id == (if old(self).pager.total() == 0 {
                1u32
            } else {
                old(self).pager.total()
            }),
            final(self).pager.records() == old(self).pager.records(),
    {
        if self.pager.total_pages() >= u32::MAX - 2 {
            return Err(StoreError::Serialization("No page ids left".to_owned()));
        }
        Ok(self.pager.allocate_page())
    }

    /// Splits the full `child`, which is `parent.children[child_idx]`: its
    /// upper half moves to a new sibling page placed right after it in
    /// `parent`. A leaf's separator is copied up (it stays in the sibling);
    /// an internal node's is moved up, and the children that move are
    /// re-pointed at the sibling. Child, sibling and parent are written.
    fn split_child(&mut self, parent: &mut BTreeNode, child_idx: usize, child: BTreeNode) -> (r: Result<(), StoreError>)
        requires
            old(self).pager.wf(),
            old(parent)@.shape_ok(),
            old(parent).node_type == NodeType::Internal,
            !old(parent)@.is_full(),
            child_idx < old(parent).children@.len(),
            child@.shape_ok(),
            child@.is_full(),
        ensures
            final(self).pager.wf(),
            final(self).pager.key() == old(self).pager.key(),
            final(self).pager.index == old(self).pager.index,
            final(self).pager.total() >= old(self).pager.total(),
            final(self).root_id == old(self).root_id,
            r is Ok ==> final(parent)@.shape_ok() && final(parent).node_type == NodeType::Internal
                && final(parent).id == old(parent).id && final(parent).keys@.len() == old(
                parent,
            ).keys@.len() + 1,
            r is Ok ==> split_done(old(self).store(), final(self).store(), old(parent)@, final(parent)@, child_idx as int, child@),
            r is Ok ==> moved_point_to(
                final(self).store(),
                child@,
                next_free(old(self).store()),
                old(parent).id,
            ),
    {
        let ghost c0 = child@;
        let ghost parent0 = parent@;
        let ghost p0 = *self.store();
        let mut child = child;
        let new_page_id = self.allocate()?;
        let mid = child.keys.len() / 2;
        let ghost ck = child.keys@;
        let mut right_keys = child.keys.split_off(mid);
        proof {
            assert(key_seq(child.keys@) =~= c0.keys.subrange(0, mid as int));
            assert(key_seq(right_keys@) =~= c0.keys.subrange(mid as int, c0.keys.len() as int));
            assert(right_keys@[0]@ == c0.keys[mid as int]);
        }
        let mut sibling = BTreeNode {
            id: new_page_id,
            parent: Some(parent.id),
            node_type: child.node_type,
            keys: Vec::new(),
            children: Vec::new(),
        };
        match child.node_type {
            NodeType::Leaf => {
                sibling.children = child.children.split_off(mid);
                let separator = right_keys[0].clone();
                sibling.keys = right_keys;
                parent.keys.insert(child_idx, separator);
            },
            NodeType::Internal => {
                let key_to_parent = right_keys.remove(0);
                proof {
                    assert(key_seq(right_keys@) =~= c0.keys.subrange(mid + 1, c0.keys.len() as int));
                }
                sibling.keys = right_keys;
                sibling.children = child.children.split_off(mid + 1);
                let mut g: usize = 0;
                while g < sibling.children.len()
                    invariant
                        self.pager.wf(),
                        self.pager.key() == old(self).pager.key(),
                        self.pager.index == old(self).pager.index,
                        self.pager.total() >= old(self).pager.total(),
                        self.root_id == old(self).root_id,
                        *parent == *old(parent),
                        g <= sibling.children@.len(),
                        forall|k: int|
                            0 <= k < g && occurs_once(sibling.children@, k) ==> #[trigger] points_to(
                                self.store(),
                                sibling.children@[k],
                                sibling.id,
                            ),
                    decreases sibling.children@.len() - g,
                {
                    let mut grandchild = self.read_node(sibling.children[g])?;
                    grandchild.parent = Some(sibling.id);
                    let ghost before = *self.store();
                    self.write_node(&grandchild)?;
                    proof {
                        assert(node_stored(self.store(), grandchild.id, grandchild@));
                        assert(points_to(self.store(), sibling.children@[g as int], sibling.id));
                        assert forall|k: int|
                            0 <= k < g + 1 && occurs_once(sibling.children@, k) implies #[trigger] points_to(
                                self.store(),
                                sibling.children@[k],
                                sibling.id,
                            ) by {
                            if k < g {
                                assert(sibling.children@[k] != sibling.children@[g as int]);
                                lemma_points_kept(&before, self.store(), sibling.children@[k], sibling.id, grandchild.id);
                            }
                        }
                    }
                    g = g + 1;
                }
                parent.keys.insert(child_idx, key_to_parent);
            },
        }
        parent.children.insert(child_idx + 1, sibling.id);
        proof {
            assert(parent@.keys =~= parent0.keys.insert(child_idx as int, c0.keys[mid as int]));
            assert(child@ == left_half(c0)) by {
                assert(child@.keys =~= left_half(c0).keys);
                assert(child@.children =~= left_half(c0).children);
            }
            assert(sibling@ == right_half(c0, sibling.id, parent@.id)) by {
                assert(sibling@.keys =~= right_half(c0, sibling.id, parent@.id).keys);
                assert(sibling@.children =~= right_half(c0, sibling.id, parent@.id).children);
            }
        }
        let ghost p0b = *self.store();
        self.write_node(&child)?;
        let ghost p1 = *self.store();
        self.write_node(&sibling)?;
        let ghost p2 = *self.store();
        self.write_node(parent)?;
        proof {
            if child.id != sibling.id && child.id != parent.id {
                lemma_stored_kept(&p1, &p2, child.id, child@);
                lemma_stored_kept(&p2, self.store(), child.id, child@);
            }
            if sibling.id != parent.id {
                lemma_stored_kept(&p2, self.store(), sibling.id, sibling@);
            }
            if c0.node_type == NodeType::Internal {
                let moved = right_half(c0, sibling.id, parent.id).children;
                assert(moved == sibling.children@);
                assert forall|k: int|
                    0 <= k < moved.len() && occurs_once(moved, k) && moved[k] != c0.id && moved[k] != sibling.id
                        && moved[k] != parent.id implies #[trigger] points_to(self.store(), moved[k], sibling.id) by {
                    assert(points_to(&p0b, moved[k], sibling.id));
                    lemma_points_kept(&p0b, &p1, moved[k], sibling.id, child.id);
                    lemma_points_kept(&p1, &p2, moved[k], sibling.id, sibling.id);
                    lemma_points_kept(&p2, self.store(), moved[k], sibling.id, parent.id);
                }
            }
        }
        Ok(())
    }

    /// Inserts into the subtree at `node_id`, which is not full: into the leaf
    /// in key order (replacing the value of an equal key), or down the child
    /// that covers `key`, splitting that child first when it is full.
    fn insert_non_full(&mut self, node_id: u32, key: String, value: u32, fuel: u32) -> (r: Result<(), StoreError>)
        requires
            old(self).pager.wf(),
        ensures
            final(self).pager.wf(),
            final(self).pager.key() == old(self).pager.key(),
            final(self).pager.index == old(self).pager.index,
            final(self).pager.total() >= old(self).pager.total(),
            final(self).root_id == old(self).root_id,
            r is Ok ==> leaf_holds(final(self).store(), key@, value),
        decreases fuel,
    {
        let ghost k = key@;
        let mut node = self.read_node(node_id)?;
        if node.is_full() {
            return Err(StoreError::Serialization("Node full before insert".to_owned()));
        }
        match node.node_type {
            NodeType::Leaf => {
                let idx = lower_bound(&node.keys, key.as_str());
                if idx < node.keys.len() && compare_keys(node.keys[idx].as_str(), key.as_str()) == 0 {
                    node.children.set(idx, value);
                } else {
                    node.keys.insert(idx, key);
                    node.children.insert(idx, value);
                }
                proof {
                    assert(node@.keys[idx as int] == k);
                    assert(node@.children[idx as int] == value);
                }
                self.write_node(&node)?;
                proof {
                    assert(node_stored(self.store(), node.id, node@));
                    assert(node@.keys[idx as int] == k);
                }
                Ok(())
            },
            NodeType::Internal => {
                if fuel == 0 {
                    return Err(StoreError::Serialization("Tree deeper than its pages".to_owned()));
                }
                let mut idx = lower_bound(&node.keys, key.as_str());
                let child = self.read_node(node.children[idx])?;
                if child.is_full() {
                    self.split_child(&mut node, idx, child)?;
                    if compare_keys(key.as_str(), node.keys[idx].as_str()) > 0 {
                        idx = idx + 1;
                    }
                }
                self.insert_non_full(node.children[idx], key, value, fuel - 1)
            },
        }
    }

    /// Inserts `key` with `data_page_id`. A full root is split first under a
    /// new internal root, which becomes the tree's root. Afterwards a stored
    /// leaf maps `key` to `data_page_id`.
    pub fn insert(&mut self, key: String, data_page_id: u32) -> (r: Result<(), StoreError>)
        requires
            old(self).pager.wf(),
        ensures
            final(self).pager.wf(),
            final(self).pager.key() == old(self).pager.key(),
            final(self).pager.index == old(self).pager.index,
            r is Ok ==> leaf_holds(final(self).store(), key@, data_page_id),
            node_at(old(self).store(), old(self).root_id) matches Some(n) && !n.is_full() ==> final(self).root_id
                == old(self).root_id,
            node_at(old(self).store(), old(self).root_id) matches Some(n) && n.is_full() && r is Ok ==> final(
                self).root_id == next_free(old(self).store()),
    {
        let root = self.read_node(self.root_id)?;
        proof {
            lemma_node_at(old(self).store(), old(self).root_id, root@);
        }
        if root.is_full() {
            let new_root_id = self.allocate()?;
            let mut new_root = BTreeNode {
                id: new_root_id,
                parent: None,
                node_type: NodeType::Internal,
                keys: Vec::new(),
                children: Vec::new(),
            };
            new_root.children.push(self.root_id);
            self.write_node(&new_root)?;
            let mut old_root = root;
            old_root.parent = Some(new_root_id);
            self.write_node(&old_root)?;
            self.split_child(&mut new_root, 0, old_root)?;
            self.root_id = new_root_id;
            let fuel = self.pager.total_pages();
            self.insert_non_full(new_root_id, key, data_page_id, fuel)
        } else {
            let fuel = self.pager.total_pages();
            self.insert_non_full(self.root_id, key, data_page_id, fuel)
        }
    }

    /// Looks `key` up: descends from the root along the first separator
    /// greater than `key` to a leaf, and returns the value stored there under
    /// `key`. A value returned is one that a stored leaf maps `key` to.
    pub fn search(&self, key: &str) -> (r: Result<Option<u32>, StoreError>)
        requires
            self.pager.wf(),
        ensures
            r matches Ok(Some(v)) ==> leaf_holds(self.store(), key@, v),
            r is Ok ==> tree_get(self.store(), self.root_id, key@, self.store().total() as nat) == Some(r->Ok_0),
            tree_get(self.store(), self.root_id, key@, self.store().total() as nat) matches Some(v) ==> r == Ok::<
                Option<u32>,
                StoreError,
            >(v),
    {
        let mut current_id = self.root_id;
        let mut fuel: u32 = self.pager.total_pages();
        loop
            invariant
                self.pager.wf(),
                tree_get(self.store(), current_id, key@, fuel as nat) == tree_get(
                    self.store(),
                    self.root_id,
                    key@,
                    self.store().total() as nat,
                ),
            decreases fuel,
        {
            let node = self.read_node(current_id)?;
            proof { lemma_node_at(self.store(), current_id, node@); }
            match node.node_type {
                NodeType::Leaf => {
                    let idx = lower_bound(&node.keys, key);
                    if idx < node.keys.len() && compare_keys(node.keys[idx].as_str(), key) == 0 {
                        proof {
                            assert(node@.keys[idx as int] == key@);
                            assert(node_stored(self.store(), current_id, node@));
                            let j = choose|j: int| 0 <= j < node@.keys.len() && node@.keys[j] == key@;
                            if j != idx as int {
                                if j < idx as int {
                                    assert(key_lt(node@.keys[j], node@.keys[idx as int]));
                                } else {
                                    assert(key_lt(node@.keys[idx as int], node@.keys[j]));
                                }
                                lemma_key_irreflexive(key@);
                            }
                        }
                        return Ok(Some(node.children[idx]));
                    } else {
                        proof {
                            if exists|i: int| 0 <= i < node@.keys.len() && node@.keys[i] == key@ {
                                let j = choose|j: int| 0 <= j < node@.keys.len() && node@.keys[j] == key@;
                                assert(node.keys@[j]@ == key@);
                                lemma_key_irreflexive(key@);
                                if j > idx as int {
                                    assert(key_lt(node@.keys[idx as int], node@.keys[j]));
                                    crate::order::lemma_key_total(node@.keys[idx as int], key@);
                                    crate::order::lemma_key_asymmetric(node@.keys[idx as int], key@);
                                }
                            }
                        }
                        return Ok(None);
                    }
                },
                NodeType::Internal => {
                    if fuel == 0 {
                        return Err(StoreError::Serialization("Tree deeper than its pages".to_owned()));
                    }
                    let idx = upper_bound(&node.keys, key);
                    proof {
                        let d = descend_at(node@.keys, key@);
                        assert(splits_at(node@.keys, key@, idx as int));
                        if d != idx as int {
                            if d < idx as int {
                                assert(key_lt(key@, node@.keys[d]));
                            } else {
                                assert(key_lt(key@, node@.keys[idx as int]));
                            }
                        }
                    }
                    current_id = node.children[idx];
                    fuel = fuel - 1;
                },
            }
        }
    }

}

} // verus!
