//! Tree nodes: leaf pages of sorted key/record cells and internal pages of
//! sorted key/child-pointer cells, with the cell operations and the
//! insertion-position search the engine runs on them.

use vstd::prelude::*;
use crate::PAGE_SIZE;
use crate::ROW_SIZE;

verus! {

/// Width in bytes of the node-type tag in a page header.
pub const NODE_TYPE_SIZE: usize = 1;

/// Width in bytes of the root flag in a page header.
pub const IS_ROOT_SIZE: usize = 1;

/// Width in bytes of the parent pointer in a page header.
pub const PARENT_SIZE: usize = 4;

/// Width in bytes of the cell count in a page header.
pub const NUM_CELLS_SIZE: usize = 4;

/// Width in bytes of a leaf page header.
pub const NODE_HEADER_SIZE: usize = NODE_TYPE_SIZE + IS_ROOT_SIZE + PARENT_SIZE + NUM_CELLS_SIZE;

/// Width in bytes of a cell key.
pub const NODE_KEY_SIZE: usize = 4;

/// Width in bytes of one leaf cell: a key and one encoded row.
pub const NODE_CELL_SIZE: usize = NODE_KEY_SIZE + ROW_SIZE;

/// Bytes of a page left for leaf cells after the header.
pub const NODE_SPACE_FOR_CELLS: usize = PAGE_SIZE - NODE_HEADER_SIZE;

/// How many cells a leaf page holds at most.
pub const NODE_MAX_CELLS: usize = NODE_SPACE_FOR_CELLS / NODE_CELL_SIZE;

/// Width in bytes of the rightmost-child pointer in an internal page header.
pub const RIGHT_CHILD_SIZE: usize = 4;

/// Width in bytes of an internal page header.
pub const INTERNAL_HEADER_SIZE: usize = NODE_TYPE_SIZE + IS_ROOT_SIZE + PARENT_SIZE
    + NUM_CELLS_SIZE + RIGHT_CHILD_SIZE;

/// Bytes of a page left for internal cells after the header.
pub const INTERNAL_SPACE_FOR_CELLS: usize = PAGE_SIZE - INTERNAL_HEADER_SIZE;

/// Width in bytes of one internal cell: a child pointer and a key.
pub const INTERNAL_CELL_SIZE: usize = 8;

/// How many cells an internal page holds at most.
pub const INTERNAL_MAX_CELLS: usize = INTERNAL_SPACE_FOR_CELLS / INTERNAL_CELL_SIZE;

/// The tag distinguishing the two page kinds.
#[derive(Clone, Copy, Debug, PartialEq, Eq, Structural)]
pub enum NodeType {
    Leaf,
    Internal,
}

/// The byte a node type is stored as in a page header.
pub open spec fn spec_node_type_byte(t: NodeType) -> u8 {
    match t {
        NodeType::Leaf => 0,
        NodeType::Internal => 1,
    }
}

impl NodeType {
    /// Decode a node-type tag byte; bytes other than the two tags are refused.
    pub fn try_from(value: u8) -> (r: Option<NodeType>)
        ensures
            value == spec_node_type_byte(NodeType::Leaf) ==> r == Some(NodeType::Leaf),
            value == spec_node_type_byte(NodeType::Internal) ==> r == Some(NodeType::Internal),
            value >= 2 ==> r is None,
    {
        if value == 0 {
            Some(NodeType::Leaf)
        } else if value == 1 {
            Some(NodeType::Internal)
        } else {
            None
        }
    }
}

/// One leaf cell: a key and the encoded row stored under it.
#[derive(Debug)]
pub struct KV {
    pub key: u32,
    pub value: Vec<u8>,
}

impl View for KV {
    type V = (u32, Seq<u8>);

    open spec fn view(&self) -> (u32, Seq<u8>) {
        (self.key, self.value@)
    }
}

/// One internal cell: a child page number and the largest key of its subtree.
#[derive(Clone, Copy, Debug, PartialEq, Eq, Structural)]
pub struct KC {
    pub child: u32,
    pub key: u32,
}

impl View for KC {
    type V = (u32, u32);

    open spec fn view(&self) -> (u32, u32) {
        (self.child, self.key)
    }
}

/// Mathematical value of a leaf page.
pub struct LeafV {
    pub is_root: bool,
    pub parent: u32,
    pub cells: Seq<(u32, Seq<u8>)>,
}

/// Mathematical value of an internal page; a cell is `(child, key)`.
pub struct InternalV {
    pub is_root: bool,
    pub parent: u32,
    pub right_child: u32,
    pub cells: Seq<(u32, u32)>,
}

/// Mathematical value of a page.
pub enum NodeV {
    Leaf(LeafV),
    Internal(InternalV),
}

/// A leaf page: sorted key/record cells.
#[derive(Debug)]
pub struct BTreeLeafNode {
    pub is_root: bool,
    pub parent: u32,
    pub key_values: Vec<KV>,
}

impl View for BTreeLeafNode {
    type V = LeafV;

    open spec fn view(&self) -> LeafV {
        LeafV {
            is_root: self.is_root,
            parent: self.parent,
            cells: self.key_values@.map_values(|kv: KV| kv@),
        }
    }
}

/// An internal page: sorted key/child cells plus the rightmost child.
#[derive(Debug)]
pub struct BTreeInternalNode {
    pub is_root: bool,
    pub parent: u32,
    pub right_child: u32,
    pub key_children: Vec<KC>,
}

impl View for BTreeInternalNode {
    type V = InternalV;

    open spec fn view(&self) -> InternalV {
        InternalV {
            is_root: self.is_root,
            parent: self.parent,
            right_child: self.right_child,
            cells: self.key_children@.map_values(|kc: KC| kc@),
        }
    }
}

/// A page of the tree: one of the two node kinds.
#[derive(Debug)]
pub enum BTreeNode {
    Leaf(BTreeLeafNode),
    Internal(BTreeInternalNode),
}

impl View for BTreeNode {
    type V = NodeV;

    open spec fn view(&self) -> NodeV {
        match self {
            BTreeNode::Leaf(l) => NodeV::Leaf(l@),
            BTreeNode::Internal(n) => NodeV::Internal(n@),
        }
    }
}

/// The key column of a leaf page's cells.
pub open spec fn leaf_keys(cells: Seq<(u32, Seq<u8>)>) -> Seq<u32> {
    cells.map_values(|c: (u32, Seq<u8>)| c.0)
}

/// The key column of an internal page's cells.
pub open spec fn internal_keys(cells: Seq<(u32, u32)>) -> Seq<u32> {
    cells.map_values(|c: (u32, u32)| c.1)
}

/// Strictly ascending keys: no duplicates, ascending order.
pub open spec fn spec_keys_sorted(keys: Seq<u32>) -> bool {
    forall|i: int, j: int| 0 <= i < j < keys.len() ==> keys[i] < keys[j]
}

/// A well-formed leaf: cells fit the page, every row has the fixed width,
/// keys strictly ascending.
pub open spec fn leaf_wf(l: LeafV) -> bool {
    &&& l.cells.len() <= NODE_MAX_CELLS
    &&& forall|i: int| 0 <= i < l.cells.len() ==> (#[trigger] l.cells[i]).1.len() == ROW_SIZE
    &&& spec_keys_sorted(leaf_keys(l.cells))
}

/// A well-formed internal page: cells fit the page, keys strictly ascending.
pub open spec fn internal_wf(n: InternalV) -> bool {
    &&& n.cells.len() <= INTERNAL_MAX_CELLS
    &&& spec_keys_sorted(internal_keys(n.cells))
}

/// A well-formed page of either kind.
pub open spec fn node_wf(n: NodeV) -> bool {
    match n {
        NodeV::Leaf(l) => leaf_wf(l),
        NodeV::Internal(i) => internal_wf(i),
    }
}

/// The insertion position of `key` in a key array: the length of the
/// longest prefix of keys below `key`.  On a sorted array this is the first
/// index whose key is at least `key`.
pub open spec fn spec_lower_bound(keys: Seq<u32>, key: u32) -> int
    decreases keys.len(),
{
    if keys.len() == 0 {
        0
    } else if keys[0] < key {
        1 + spec_lower_bound(keys.drop_first(), key)
    } else {
        0
    }
}

/// Every key before the insertion position is below the target, and the key
/// at the position (when there is one) is not.
pub proof fn lemma_lower_bound_bounds(keys: Seq<u32>, key: u32)
    ensures
        0 <= spec_lower_bound(keys, key) <= keys.len(),
        forall|j: int| 0 <= j < spec_lower_bound(keys, key) ==> keys[j] < key,
        spec_lower_bound(keys, key) < keys.len() ==> keys[spec_lower_bound(keys, key)] >= key,
    decreases keys.len(),
{
    if keys.len() != 0 && keys[0] < key {
        lemma_lower_bound_bounds(keys.drop_first(), key);
        assert forall|j: int| 0 <= j < spec_lower_bound(keys, key) implies keys[j] < key by {
            if j > 0 {
                assert(keys.drop_first()[j - 1] < key);
            }
        }
    }
}

/// Any index with those two properties is the insertion position.
pub proof fn lemma_lower_bound_unique(keys: Seq<u32>, key: u32, i: int)
    requires
        0 <= i <= keys.len(),
        forall|j: int| 0 <= j < i ==> keys[j] < key,
        i < keys.len() ==> keys[i] >= key,
    ensures
        spec_lower_bound(keys, key) == i,
    decreases keys.len(),
{
    if keys.len() != 0 && keys[0] < key {
        assert(i >= 1);
        lemma_lower_bound_unique(keys.drop_first(), key, i - 1);
    }
}

/// Law: on a strictly ascending key array, the insertion position `i` of a
/// key splits the array so that every key before `i` is below the target and
/// every key from `i` on is at least the target.
pub proof fn lemma_find_insert_position_splits(keys: Seq<u32>, key: u32)
    requires
        spec_keys_sorted(keys),
    ensures
        0 <= spec_lower_bound(keys, key) <= keys.len(),
        forall|j: int| 0 <= j < spec_lower_bound(keys, key) ==> keys[j] < key,
        forall|j: int| spec_lower_bound(keys, key) <= j < keys.len() ==> keys[j] >= key,
{
    lemma_lower_bound_bounds(keys, key);
    let i = spec_lower_bound(keys, key);
    assert forall|j: int| i <= j < keys.len() implies keys[j] >= key by {
        if j > i {
            assert(keys[i] < keys[j]);
        }
    }
}

/// Inserting a fresh key at its insertion position keeps the keys strictly
/// ascending.
pub proof fn lemma_sorted_insert(keys: Seq<u32>, key: u32)
    requires
        spec_keys_sorted(keys),
        forall|j: int| 0 <= j < keys.len() ==> keys[j] != key,
    ensures
        spec_keys_sorted(keys.insert(spec_lower_bound(keys, key), key)),
{
    lemma_find_insert_position_splits(keys, key);
    let i = spec_lower_bound(keys, key);
    let out = keys.insert(i, key);
    assert forall|p: int, q: int| 0 <= p < q < out.len() implies out[p] < out[q] by {
        if p < i {
            assert(out[p] == keys[p]);
        } else if p == i {
            assert(out[p] == key);
        } else {
            assert(out[p] == keys[p - 1]);
        }
        if q < i {
            assert(out[q] == keys[q]);
        } else if q == i {
            assert(out[q] == key);
        } else {
            assert(out[q] == keys[q - 1]);
        }
    }
}

impl BTreeLeafNode {
    /// Read the row stored in one cell.
    pub fn get_row(&self, cell_num: usize) -> (r: &Vec<u8>)
        requires
            cell_num < self@.cells.len(),
        ensures
            r@ == self@.cells[cell_num as int].1,
    {
        &self.key_values[cell_num].value
    }

    /// Overwrite the row stored in one cell, keeping its key.
    pub fn set_row(&mut self, cell_num: usize, row: Vec<u8>)
        requires
            cell_num < old(self)@.cells.len(),
        ensures
            final(self)@.cells == old(self)@.cells.update(
                cell_num as int,
                (old(self)@.cells[cell_num as int].0, row@),
            ),
            final(self)@.is_root == old(self)@.is_root,
            final(self)@.parent == old(self)@.parent,
    {
        let kv = &mut self.key_values[cell_num];
        kv.value = row;
        assert(final(self)@.cells =~= old(self)@.cells.update(
            cell_num as int,
            (old(self)@.cells[cell_num as int].0, row@),
        ));
    }

    /// Append a cell at the tail.
    pub fn insert(&mut self, key: u32, value: Vec<u8>)
        requires
            old(self)@.cells.len() < NODE_MAX_CELLS,
        ensures
            final(self)@.cells == old(self)@.cells.push((key, value@)),
            final(self)@.is_root == old(self)@.is_root,
            final(self)@.parent == old(self)@.parent,
    {
        let ghost v = value@;
        self.key_values.push(KV { key, value });
        assert(final(self)@.cells =~= old(self)@.cells.push((key, v)));
    }

    /// Insert a cell at the given position, shifting the tail up.  A full
    /// leaf may take one cell past its capacity; the caller then splits it.
    pub fn insert_at(&mut self, index: usize, key: u32, value: Vec<u8>)
        requires
            index <= old(self)@.cells.len(),
            old(self)@.cells.len() <= NODE_MAX_CELLS,
        ensures
            final(self)@.cells == old(self)@.cells.insert(index as int, (key, value@)),
            final(self)@.is_root == old(self)@.is_root,
            final(self)@.parent == old(self)@.parent,
    {
        let ghost v = value@;
        self.key_values.insert(index, KV { key, value });
        assert(final(self)@.cells =~= old(self)@.cells.insert(index as int, (key, v)));
    }

    /// How many cells the leaf holds.
    pub fn num_cells(&self) -> (r: usize)
        ensures
            r == self@.cells.len(),
    {
        self.key_values.len()
    }

    /// How many cells a leaf page holds at most.
    pub fn max_cells() -> (r: u32)
        ensures
            r == NODE_MAX_CELLS,
    {
        NODE_MAX_CELLS as u32
    }

    /// Whether the leaf is full, so that the next insertion must split it.
    pub fn is_max(&self) -> (r: bool)
        ensures
            r <==> self@.cells.len() >= NODE_MAX_CELLS,
    {
        self.key_values.len() >= NODE_MAX_CELLS
    }

    /// The largest key on the leaf, or zero when it is empty.
    pub fn max_key(&self) -> (r: u32)
        ensures
            self@.cells.len() > 0 ==> r == self@.cells.last().0,
            self@.cells.len() == 0 ==> r == 0,
    {
        match self.key_values.last() {
            Some(kv) => kv.key,
            None => 0,
        }
    }

    /// The insertion position of `key` among the leaf's cells.
    pub fn find_insert_position(&self, key: u32) -> (r: usize)
        requires
            spec_keys_sorted(leaf_keys(self@.cells)),
        ensures
            r == spec_lower_bound(leaf_keys(self@.cells), key),
    {
        let ghost keys = leaf_keys(self@.cells);
        let mut left: usize = 0;
        let mut right: usize = self.key_values.len();
        while left != right
            invariant
                0 <= left <= right <= self@.cells.len(),
                keys == leaf_keys(self@.cells),
                spec_keys_sorted(keys),
                forall|j: int| 0 <= j < left ==> keys[j] < key,
                forall|j: int| right <= j < keys.len() ==> keys[j] >= key,
            decreases right - left,
        {
            let index = left + (right - left) / 2;
            let key_at_index = self.key_values[index].key;
            assert(key_at_index == keys[index as int]);
            if key_at_index >= key {
                right = index;
                assert forall|j: int| right <= j < keys.len() implies keys[j] >= key by {
                    if j > index {
                        assert(keys[index as int] < keys[j]);
                    }
                }
            } else {
                left = index + 1;
            }
        }
        proof {
            lemma_lower_bound_unique(keys, key, left as int);
        }
        left
    }
}

impl BTreeInternalNode {
    /// A fresh empty internal page.
    pub fn new(is_root: bool, parent: u32) -> (r: Self)
        ensures
            r@.is_root == is_root,
            r@.parent == parent,
            r@.right_child == 0,
            r@.cells == Seq::<(u32, u32)>::empty(),
    {
        let r = BTreeInternalNode { is_root, parent, right_child: 0, key_children: Vec::new() };
        proof {
            assert(r@.cells =~= Seq::<(u32, u32)>::empty());
        }
        r
    }

    /// How many cells the page holds.
    pub fn num_keys(&self) -> (r: usize)
        ensures
            r == self@.cells.len(),
    {
        self.key_children.len()
    }

    /// The largest key on the page, or zero when it holds none.
    pub fn max_key(&self) -> (r: u32)
        ensures
            self@.cells.len() > 0 ==> r == self@.cells.last().1,
            self@.cells.len() == 0 ==> r == 0,
    {
        match self.key_children.last() {
            Some(kc) => kc.key,
            None => 0,
        }
    }

    /// Insert a `(child, key)` cell at the key's sorted position.
    pub fn insert(&mut self, key: u32, child: u32)
        requires
            spec_keys_sorted(internal_keys(old(self)@.cells)),
            old(self)@.cells.len() < INTERNAL_MAX_CELLS,
        ensures
            final(self)@.cells == old(self)@.cells.insert(
                spec_lower_bound(internal_keys(old(self)@.cells), key),
                (child, key),
            ),
            final(self)@.is_root == old(self)@.is_root,
            final(self)@.parent == old(self)@.parent,
            final(self)@.right_child == old(self)@.right_child,
    {
        let index = self.find_insert_position(key);
        proof {
            lemma_lower_bound_bounds(internal_keys(old(self)@.cells), key);
        }
        self.key_children.insert(index, KC { child, key });
        assert(final(self)@.cells =~= old(self)@.cells.insert(index as int, (child, key)));
    }

    /// The page to descend into for `key`: the child of the first cell whose
    /// key is at least `key`, or the rightmost child when every key is below.
    pub fn find_key(&self, key: u32) -> (r: u32)
        requires
            spec_keys_sorted(internal_keys(self@.cells)),
        ensures
            r == spec_pick_child(self@, key),
    {
        let index = self.find_insert_position(key);
        proof {
            lemma_lower_bound_bounds(internal_keys(self@.cells), key);
        }
        if index < self.key_children.len() {
            self.key_children[index].child
        } else {
            self.right_child
        }
    }

    /// The insertion position of `key` among the page's cells.
    pub fn find_insert_position(&self, key: u32) -> (r: usize)
        requires
            spec_keys_sorted(internal_keys(self@.cells)),
        ensures
            r == spec_lower_bound(internal_keys(self@.cells), key),
    {
        let ghost keys = internal_keys(self@.cells);
        let mut left: usize = 0;
        let mut right: usize = self.key_children.len();
        while left != right
            invariant
                0 <= left <= right <= self@.cells.len(),
                keys == internal_keys(self@.cells),
                spec_keys_sorted(keys),
                forall|j: int| 0 <= j < left ==> keys[j] < key,
                forall|j: int| right <= j < keys.len() ==> keys[j] >= key,
            decreases right - left,
        {
            let index = left + (right - left) / 2;
            let key_to_right = self.key_children[index].key;
            assert(key_to_right == keys[index as int]);
            if key_to_right >= key {
                right = index;
                assert forall|j: int| right <= j < keys.len() implies keys[j] >= key by {
                    if j > index {
                        assert(keys[index as int] < keys[j]);
                    }
                }
            } else {
                left = index + 1;
            }
        }
        proof {
            lemma_lower_bound_unique(keys, key, left as int);
        }
        left
    }
}

/// The child page an internal page routes `key` to.
pub open spec fn spec_pick_child(n: InternalV, key: u32) -> u32 {
    let i = spec_lower_bound(internal_keys(n.cells), key);
    if i < n.cells.len() {
        n.cells[i].0
    } else {
        n.right_child
    }
}

impl Default for BTreeInternalNode {
    /// A fresh empty internal page that is not a root and has no parent.
    fn default() -> (r: Self)
        ensures
            r@.is_root == false,
            r@.parent == 0,
            r@.right_child == 0,
            r@.cells == Seq::<(u32, u32)>::empty(),
    {
        BTreeInternalNode::new(false, 0)
    }
}

impl BTreeNode {
    /// Whether the page carries the root flag.
    pub fn is_root(&self) -> (r: bool)
        ensures
            r == spec_is_root(self@),
    {
        match self {
            BTreeNode::Leaf(node) => node.is_root,
            BTreeNode::Internal(node) => node.is_root,
        }
    }

    /// The page number of the node's parent.
    pub fn get_parent(&self) -> (r: u32)
        ensures
            r == spec_parent(self@),
    {
        match self {
            BTreeNode::Leaf(node) => node.parent,
            BTreeNode::Internal(node) => node.parent,
        }
    }

    /// The largest key on the page, or zero when it holds none.
    pub fn max_key(&self) -> (r: u32)
        ensures
            match self@ {
                NodeV::Leaf(l) => (l.cells.len() > 0 ==> r == l.cells.last().0) && (l.cells.len()
                    == 0 ==> r == 0),
                NodeV::Internal(n) => (n.cells.len() > 0 ==> r == n.cells.last().1) && (
                n.cells.len() == 0 ==> r == 0),
            },
    {
        match self {
            BTreeNode::Leaf(node) => node.max_key(),
            BTreeNode::Internal(node) => node.max_key(),
        }
    }
}

/// The root flag of a page of either kind.
pub open spec fn spec_is_root(n: NodeV) -> bool {
    match n {
        NodeV::Leaf(l) => l.is_root,
        NodeV::Internal(i) => i.is_root,
    }
}

/// The parent page number of a page of either kind.
pub open spec fn spec_parent(n: NodeV) -> u32 {
    match n {
        NodeV::Leaf(l) => l.parent,
        NodeV::Internal(i) => i.parent,
    }
}

/// The derived cell capacities evaluate to thirteen leaf cells and five
/// hundred ten internal cells.
pub proof fn lemma_capacities()
    ensures
        NODE_MAX_CELLS == 13,
        INTERNAL_MAX_CELLS == 510,
{
    assert(NODE_SPACE_FOR_CELLS == 4086);
    assert(4086int / 295int == 13);
    assert(INTERNAL_SPACE_FOR_CELLS == 4082);
    assert(4082int / 8int == 510);
}

/// Inserting a leaf cell inserts its key at the same position in the key
/// column.
pub proof fn lemma_leaf_keys_insert(cells: Seq<(u32, Seq<u8>)>, i: int, cell: (u32, Seq<u8>))
    requires
        0 <= i <= cells.len(),
    ensures
        leaf_keys(cells.insert(i, cell)) == leaf_keys(cells).insert(i, cell.0),
{
    assert(leaf_keys(cells.insert(i, cell)) =~= leaf_keys(cells).insert(i, cell.0));
}

/// Inserting an internal cell inserts its key at the same position in the
/// key column.
pub proof fn lemma_internal_keys_insert(cells: Seq<(u32, u32)>, i: int, cell: (u32, u32))
    requires
        0 <= i <= cells.len(),
    ensures
        internal_keys(cells.insert(i, cell)) == internal_keys(cells).insert(i, cell.1),
    {
    assert(internal_keys(cells.insert(i, cell)) =~= internal_keys(cells).insert(i, cell.1));
}

/// A key whose insertion position does not hold it is nowhere in a
/// strictly ascending key array.
pub proof fn lemma_key_fresh(keys: Seq<u32>, key: u32)
    requires
        spec_keys_sorted(keys),
        spec_lower_bound(keys, key) < keys.len() ==> keys[spec_lower_bound(keys, key)] != key,
    ensures
        forall|j: int| 0 <= j < keys.len() ==> keys[j] != key,
{
    lemma_find_insert_position_splits(keys, key);
    let i = spec_lower_bound(keys, key);
    assert forall|j: int| 0 <= j < keys.len() implies keys[j] != key by {
        if j >= i {
            if j > i {
                assert(keys[i] < keys[j]);
            }
        }
    }
}

/// Each key below its successor carries to every later key.
proof fn lemma_sorted_chain(keys: Seq<u32>, i: int, j: int)
    requires
        forall|x: int| 0 < x < keys.len() ==> keys[x - 1] < #[trigger] keys[x],
        0 <= i < j < keys.len(),
    ensures
        keys[i] < keys[j],
    decreases j - i,
{
    if j > i + 1 {
        lemma_sorted_chain(keys, i, j - 1);
    }
}

/// Keys each below their successor are strictly ascending throughout.
pub proof fn lemma_adjacent_implies_sorted(keys: Seq<u32>)
    requires
        forall|x: int| 0 < x < keys.len() ==> keys[x - 1] < #[trigger] keys[x],
    ensures
        spec_keys_sorted(keys),
{
    assert forall|i: int, j: int| 0 <= i < j < keys.len() implies keys[i] < keys[j] by {
        lemma_sorted_chain(keys, i, j);
    }
}

} // verus!
