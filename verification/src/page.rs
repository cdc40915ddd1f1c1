//! Page format: the fixed-size binary layout of one tree node, and the
//! (de)serialization between a node and its page buffer.
//!
//! A leaf page is `type:u8, is_root:u8, parent:u32, num_cells:u32` followed
//! by `num_cells` cells of `key:u32, row`, zero-padded to the page size.  An
//! internal page is `type:u8, is_root:u8, parent:u32, num_keys:u32,
//! right_child:u32` followed by `num_keys` cells of `child:u32, key:u32`,
//! zero-padded the same way.

use vstd::prelude::*;
use crate::le::lemma_u32_le_round_trip;
use crate::le::lemma_u32_le_zero;
use crate::le::push_u32_le;
use crate::le::read_u32_le;
use crate::le::spec_u32_le;
use crate::le::spec_u32_of_le;
use crate::tree::BTreeInternalNode;
use crate::tree::BTreeLeafNode;
use crate::tree::BTreeNode;
use crate::tree::InternalV;
use crate::tree::KC;
use crate::tree::KV;
use crate::tree::LeafV;
use crate::tree::NodeV;
use crate::tree::INTERNAL_CELL_SIZE;
use crate::tree::INTERNAL_HEADER_SIZE;
use crate::tree::INTERNAL_MAX_CELLS;
use crate::tree::NODE_CELL_SIZE;
use crate::tree::NODE_HEADER_SIZE;
use crate::tree::NODE_KEY_SIZE;
use crate::tree::NODE_MAX_CELLS;
use crate::PAGE_SIZE;
use crate::ROW_SIZE;

verus! {

/// The byte a root flag is stored as.
pub open spec fn spec_bool_byte(b: bool) -> u8 {
    if b {
        1
    } else {
        0
    }
}

/// Whether a node's cells fit one page: the cell count within its capacity
/// and, on a leaf, every row of the fixed width.
pub open spec fn node_fits(n: NodeV) -> bool {
    match n {
        NodeV::Leaf(l) => l.cells.len() <= NODE_MAX_CELLS && forall|i: int|
            0 <= i < l.cells.len() ==> (#[trigger] l.cells[i]).1.len() == ROW_SIZE,
        NodeV::Internal(v) => v.cells.len() <= INTERNAL_MAX_CELLS,
    }
}

/// The concatenated bytes of a leaf's cells.
pub open spec fn spec_leaf_cells_bytes(cells: Seq<(u32, Seq<u8>)>) -> Seq<u8>
    decreases cells.len(),
{
    if cells.len() == 0 {
        Seq::empty()
    } else {
        spec_leaf_cells_bytes(cells.drop_last()) + spec_u32_le(cells.last().0) + cells.last().1
    }
}

/// The concatenated bytes of an internal page's cells.
pub open spec fn spec_internal_cells_bytes(cells: Seq<(u32, u32)>) -> Seq<u8>
    decreases cells.len(),
{
    if cells.len() == 0 {
        Seq::empty()
    } else {
        spec_internal_cells_bytes(cells.drop_last()) + spec_u32_le(cells.last().0) + spec_u32_le(
            cells.last().1,
        )
    }
}

/// The bytes of a node before zero padding: header, then cells.
pub open spec fn spec_node_content(n: NodeV) -> Seq<u8> {
    match n {
        NodeV::Leaf(l) => seq![0u8, spec_bool_byte(l.is_root)] + spec_u32_le(l.parent)
            + spec_u32_le(l.cells.len() as u32) + spec_leaf_cells_bytes(l.cells),
        NodeV::Internal(v) => seq![1u8, spec_bool_byte(v.is_root)] + spec_u32_le(v.parent)
            + spec_u32_le(v.cells.len() as u32) + spec_u32_le(v.right_child)
            + spec_internal_cells_bytes(v.cells),
    }
}

/// The full page a node serializes to: its content, zero-padded.
pub open spec fn spec_serialize_node(n: NodeV) -> Seq<u8> {
    spec_node_content(n) + Seq::new((PAGE_SIZE - spec_node_content(n).len()) as nat, |i: int| 0u8)
}

/// A leaf's cells serialize to one fixed-width span per cell.
pub proof fn lemma_leaf_cells_bytes_len(cells: Seq<(u32, Seq<u8>)>)
    requires
        forall|i: int| 0 <= i < cells.len() ==> (#[trigger] cells[i]).1.len() == ROW_SIZE,
    ensures
        spec_leaf_cells_bytes(cells).len() == NODE_CELL_SIZE * cells.len(),
    decreases cells.len(),
{
    if cells.len() > 0 {
        let k = cells.len() as int;
        assert forall|i: int| 0 <= i < cells.drop_last().len() implies (#[trigger] cells.drop_last()[i]).1.len()
            == ROW_SIZE by {
            assert(cells.drop_last()[i] == cells[i]);
        }
        lemma_leaf_cells_bytes_len(cells.drop_last());
        assert(cells.last() == cells[k - 1]);
        assert(cells[k - 1].1.len() == ROW_SIZE);
        assert(spec_leaf_cells_bytes(cells).len() == NODE_CELL_SIZE * (k - 1) + NODE_KEY_SIZE
            + ROW_SIZE);
        assert(NODE_CELL_SIZE * k == NODE_CELL_SIZE * (k - 1) + NODE_CELL_SIZE)
            by (nonlinear_arith);
    }
}

/// An internal page's cells serialize to one fixed-width span per cell.
pub proof fn lemma_internal_cells_bytes_len(cells: Seq<(u32, u32)>)
    ensures
        spec_internal_cells_bytes(cells).len() == INTERNAL_CELL_SIZE * cells.len(),
    decreases cells.len(),
{
    if cells.len() > 0 {
        lemma_internal_cells_bytes_len(cells.drop_last());
    }
}

/// A node that fits serializes to exactly one page.
pub proof fn lemma_node_content_len(n: NodeV)
    requires
        node_fits(n),
    ensures
        match n {
            NodeV::Leaf(l) => spec_node_content(n).len() == NODE_HEADER_SIZE + NODE_CELL_SIZE
                * l.cells.len(),
            NodeV::Internal(v) => spec_node_content(n).len() == INTERNAL_HEADER_SIZE
                + INTERNAL_CELL_SIZE * v.cells.len(),
        },
        spec_node_content(n).len() <= PAGE_SIZE,
        spec_serialize_node(n).len() == PAGE_SIZE,
{
    crate::tree::lemma_capacities();
    match n {
        NodeV::Leaf(l) => {
            lemma_leaf_cells_bytes_len(l.cells);
            assert(NODE_CELL_SIZE * l.cells.len() <= NODE_CELL_SIZE * (NODE_MAX_CELLS as int))
                by (nonlinear_arith)
                requires l.cells.len() <= NODE_MAX_CELLS;
        },
        NodeV::Internal(v) => {
            lemma_internal_cells_bytes_len(v.cells);
            assert(INTERNAL_CELL_SIZE * v.cells.len() <= INTERNAL_CELL_SIZE * (
            INTERNAL_MAX_CELLS as int)) by (nonlinear_arith)
                requires v.cells.len() <= INTERNAL_MAX_CELLS;
        },
    }
}

/// Append a row's bytes to the buffer.
pub(crate) fn push_bytes(buf: &mut Vec<u8>, bytes: &Vec<u8>)
    ensures
        final(buf)@ == old(buf)@ + bytes@,
{
    let ghost prefix = buf@;
    let mut i: usize = 0;
    while i < bytes.len()
        invariant
            i <= bytes@.len(),
            buf@ == prefix + bytes@.take(i as int),
        decreases bytes@.len() - i,
    {
        buf.push(bytes[i]);
        i += 1;
        assert(buf@ =~= prefix + bytes@.take(i as int));
    }
    assert(buf@ =~= prefix + bytes@);
}

impl BTreeNode {
    /// Serialize the node into an empty buffer, zero-padded to one page.
    pub fn serialize(&self, buf: &mut Vec<u8>)
        requires
            old(buf)@.len() == 0,
            node_fits(self@),
        ensures
            final(buf)@ == spec_serialize_node(self@),
            final(buf)@.len() == PAGE_SIZE,
    {
        proof {
            lemma_node_content_len(self@);
        }
        match self {
            BTreeNode::Leaf(page) => {
                buf.push(0u8);
                buf.push(if page.is_root { 1u8 } else { 0u8 });
                push_u32_le(buf, page.parent);
                push_u32_le(buf, page.key_values.len() as u32);
                let ghost hdr = buf@;
                proof {
                    assert(hdr =~= seq![0u8, spec_bool_byte(page@.is_root)]
                        + spec_u32_le(page@.parent) + spec_u32_le(page@.cells.len() as u32));
                }
                let mut i: usize = 0;
                while i < page.key_values.len()
                    invariant
                        i <= page@.cells.len(),
                        buf@ == hdr + spec_leaf_cells_bytes(page@.cells.take(i as int)),
                    decreases page@.cells.len() - i,
                {
                    push_u32_le(buf, page.key_values[i].key);
                    push_bytes(buf, &page.key_values[i].value);
                    i += 1;
                    proof {
                        assert(page@.cells.take(i as int).drop_last() =~= page@.cells.take(
                            i - 1,
                        ));
                        assert(page@.cells.take(i as int).last() == page@.cells[i - 1]);
                        assert(buf@ =~= hdr + spec_leaf_cells_bytes(page@.cells.take(i as int)));
                    }
                }
                proof {
                    assert(page@.cells.take(page@.cells.len() as int) =~= page@.cells);
                    assert(buf@ =~= spec_node_content(self@));
                }
            },
            BTreeNode::Internal(page) => {
                buf.push(1u8);
                buf.push(if page.is_root { 1u8 } else { 0u8 });
                push_u32_le(buf, page.parent);
                push_u32_le(buf, page.key_children.len() as u32);
                push_u32_le(buf, page.right_child);
                let ghost hdr = buf@;
                proof {
                    assert(hdr =~= seq![1u8, spec_bool_byte(page@.is_root)]
                        + spec_u32_le(page@.parent) + spec_u32_le(page@.cells.len() as u32)
                        + spec_u32_le(page@.right_child));
                }
                let mut i: usize = 0;
                while i < page.key_children.len()
                    invariant
                        i <= page@.cells.len(),
                        buf@ == hdr + spec_internal_cells_bytes(page@.cells.take(i as int)),
                    decreases page@.cells.len() - i,
                {
                    push_u32_le(buf, page.key_children[i].child);
                    push_u32_le(buf, page.key_children[i].key);
                    i += 1;
                    proof {
                        assert(page@.cells.take(i as int).drop_last() =~= page@.cells.take(
                            i - 1,
                        ));
                        assert(page@.cells.take(i as int).last() == page@.cells[i - 1]);
                        assert(buf@ =~= hdr + spec_internal_cells_bytes(
                            page@.cells.take(i as int),
                        ));
                    }
                }
                proof {
                    assert(page@.cells.take(page@.cells.len() as int) =~= page@.cells);
                    assert(buf@ =~= spec_node_content(self@));
                }
            },
        }
        let ghost content = spec_node_content(self@);
        while buf.len() < PAGE_SIZE
            invariant
                content == spec_node_content(self@),
                content.len() <= buf@.len() <= PAGE_SIZE,
                buf@ == content + Seq::new((buf@.len() - content.len()) as nat, |j: int| 0u8),
            decreases PAGE_SIZE - buf@.len(),

        {
            buf.push(0u8);
            assert(buf@ =~= content + Seq::new((buf@.len() - content.len()) as nat, |j: int| 0u8));
        }
        assert(buf@ =~= spec_serialize_node(self@));
    }
}


/// The page header bytes are all zero: the mark of a never-written page.
pub open spec fn spec_header_zero(b: Seq<u8>) -> bool {
    forall|i: int| 0 <= i < NODE_HEADER_SIZE ==> b[i] == 0
}

/// The node a fresh file bootstraps from: an empty root leaf.
pub open spec fn spec_bootstrap_leaf() -> NodeV {
    NodeV::Leaf(LeafV { is_root: true, parent: 0, cells: Seq::empty() })
}

/// The leaf cell stored at byte offset `p`.
pub open spec fn spec_leaf_cell_at(b: Seq<u8>, p: int) -> (u32, Seq<u8>) {
    (
        spec_u32_of_le(b.subrange(p, p + NODE_KEY_SIZE)),
        b.subrange(p + NODE_KEY_SIZE, p + NODE_CELL_SIZE),
    )
}

/// The first `n` leaf cells read out of a page buffer.
pub open spec fn spec_parse_leaf_cells(b: Seq<u8>, n: nat) -> Seq<(u32, Seq<u8>)>
    decreases n,
{
    if n == 0 {
        Seq::empty()
    } else {
        spec_parse_leaf_cells(b, (n - 1) as nat).push(
            spec_leaf_cell_at(b, NODE_HEADER_SIZE + NODE_CELL_SIZE * (n - 1)),
        )
    }
}

/// The internal cell stored at byte offset `p`.
pub open spec fn spec_internal_cell_at(b: Seq<u8>, p: int) -> (u32, u32) {
    (
        spec_u32_of_le(b.subrange(p, p + NODE_KEY_SIZE)),
        spec_u32_of_le(b.subrange(p + NODE_KEY_SIZE, p + INTERNAL_CELL_SIZE)),
    )
}

/// The first `n` internal cells read out of a page buffer.
pub open spec fn spec_parse_internal_cells(b: Seq<u8>, n: nat) -> Seq<(u32, u32)>
    decreases n,
{
    if n == 0 {
        Seq::empty()
    } else {
        spec_parse_internal_cells(b, (n - 1) as nat).push(
            spec_internal_cell_at(b, INTERNAL_HEADER_SIZE + INTERNAL_CELL_SIZE * (n - 1)),
        )
    }
}

/// The node read back from a page buffer.  A short or never-written page
/// yields the bootstrap root leaf; an unknown type tag or an impossible
/// cell count yields nothing.
pub open spec fn spec_deserialize(b: Seq<u8>) -> Option<NodeV> {
    if b.len() < NODE_HEADER_SIZE || spec_header_zero(b) {
        Some(spec_bootstrap_leaf())
    } else if b[0] == 0 {
        let num = spec_u32_of_le(b.subrange(6, 10)) as int;
        if NODE_HEADER_SIZE + NODE_CELL_SIZE * num <= b.len() {
            Some(
                NodeV::Leaf(
                    LeafV {
                        is_root: b[1] != 0,
                        parent: spec_u32_of_le(b.subrange(2, 6)),
                        cells: spec_parse_leaf_cells(b, num as nat),
                    },
                ),
            )
        } else {
            None
        }
    } else if b[0] == 1 {
        if b.len() < INTERNAL_HEADER_SIZE {
            None
        } else {
            let num = spec_u32_of_le(b.subrange(6, 10)) as int;
            if INTERNAL_HEADER_SIZE + INTERNAL_CELL_SIZE * num <= b.len() {
                Some(
                    NodeV::Internal(
                        InternalV {
                            is_root: b[1] != 0,
                            parent: spec_u32_of_le(b.subrange(2, 6)),
                            right_child: spec_u32_of_le(b.subrange(10, 14)),
                            cells: spec_parse_internal_cells(b, num as nat),
                        },
                    ),
                )
            } else {
                None
            }
        }
    } else {
        None
    }
}


/// A subrange taken inside the first part of a concatenation.
pub(crate) proof fn lemma_subrange_of_prefix(a: Seq<u8>, b: Seq<u8>, i: int, j: int)
    requires
        0 <= i <= j <= a.len(),
    ensures
        (a + b).subrange(i, j) == a.subrange(i, j),
{
    assert((a + b).subrange(i, j) =~= a.subrange(i, j));
}

/// A subrange taken inside the second part of a concatenation.
pub(crate) proof fn lemma_subrange_of_suffix(a: Seq<u8>, b: Seq<u8>, i: int, j: int)
    requires
        0 <= i <= j <= b.len(),
    ensures
        (a + b).subrange(a.len() + i, a.len() + j) == b.subrange(i, j),
{
    assert((a + b).subrange(a.len() + i, a.len() + j) =~= b.subrange(i, j));
}

/// Where cell `j` sits inside the serialized run of a leaf's cells.
proof fn lemma_leaf_cells_bytes_index(cells: Seq<(u32, Seq<u8>)>, j: int)
    requires
        forall|i: int| 0 <= i < cells.len() ==> (#[trigger] cells[i]).1.len() == ROW_SIZE,
        0 <= j < cells.len(),
    ensures
        spec_leaf_cells_bytes(cells).subrange(
            NODE_CELL_SIZE * j,
            NODE_CELL_SIZE * j + NODE_KEY_SIZE,
        ) == spec_u32_le(cells[j].0),
        spec_leaf_cells_bytes(cells).subrange(
            NODE_CELL_SIZE * j + NODE_KEY_SIZE,
            NODE_CELL_SIZE * (j + 1),
        ) == cells[j].1,
    decreases cells.len(),
{
    let c = NODE_CELL_SIZE as int;
    let k = cells.len() as int;
    let bytes = spec_leaf_cells_bytes(cells);
    let pre = spec_leaf_cells_bytes(cells.drop_last());
    let key_bytes = spec_u32_le(cells.last().0);
    let row = cells.last().1;
    assert forall|i: int| 0 <= i < cells.drop_last().len() implies (#[trigger] cells.drop_last()[i]).1.len()
        == ROW_SIZE by {
        assert(cells.drop_last()[i] == cells[i]);
    }
    lemma_leaf_cells_bytes_len(cells);
    lemma_leaf_cells_bytes_len(cells.drop_last());
    assert(cells[k - 1].1.len() == ROW_SIZE);
    assert(bytes == (pre + key_bytes) + row);
    assert(c * (k - 1) + c == c * k) by (nonlinear_arith);
    assert(c * j + c == c * (j + 1)) by (nonlinear_arith);
    if j == k - 1 {
        lemma_subrange_of_suffix(pre + key_bytes, row, 0, ROW_SIZE as int);
        lemma_subrange_of_prefix(pre + key_bytes, row, c * j, c * j + NODE_KEY_SIZE);
        lemma_subrange_of_suffix(pre, key_bytes, 0, NODE_KEY_SIZE as int);
        assert(key_bytes.subrange(0, NODE_KEY_SIZE as int) =~= key_bytes);
        assert(row.subrange(0, ROW_SIZE as int) =~= row);
        assert(bytes.subrange(c * j, c * j + NODE_KEY_SIZE) == key_bytes);
        assert(bytes.subrange(c * j + NODE_KEY_SIZE, c * (j + 1)) == row);
    } else {
        lemma_leaf_cells_bytes_index(cells.drop_last(), j);
        assert(c * (j + 1) <= c * (k - 1)) by (nonlinear_arith)
            requires
                0 <= j,
                j + 1 <= k - 1,
                c >= 0,
        ;
        lemma_subrange_of_prefix(pre + key_bytes, row, c * j, c * j + NODE_KEY_SIZE);
        lemma_subrange_of_prefix(pre, key_bytes, c * j, c * j + NODE_KEY_SIZE);
        lemma_subrange_of_prefix(pre + key_bytes, row, c * j + NODE_KEY_SIZE, c * (j + 1));
        lemma_subrange_of_prefix(pre, key_bytes, c * j + NODE_KEY_SIZE, c * (j + 1));
        assert(cells.drop_last()[j] == cells[j]);
    }
}

/// Where cell `j` sits inside the serialized run of an internal page's cells.
proof fn lemma_internal_cells_bytes_index(cells: Seq<(u32, u32)>, j: int)
    requires
        0 <= j < cells.len(),
    ensures
        spec_internal_cells_bytes(cells).subrange(
            INTERNAL_CELL_SIZE * j,
            INTERNAL_CELL_SIZE * j + NODE_KEY_SIZE,
        ) == spec_u32_le(cells[j].0),
        spec_internal_cells_bytes(cells).subrange(
            INTERNAL_CELL_SIZE * j + NODE_KEY_SIZE,
            INTERNAL_CELL_SIZE * (j + 1),
        ) == spec_u32_le(cells[j].1),
    decreases cells.len(),
{
    let c = INTERNAL_CELL_SIZE as int;
    let k = cells.len() as int;
    let bytes = spec_internal_cells_bytes(cells);
    let pre = spec_internal_cells_bytes(cells.drop_last());
    let child_bytes = spec_u32_le(cells.last().0);
    let key_bytes = spec_u32_le(cells.last().1);
    lemma_internal_cells_bytes_len(cells);
    lemma_internal_cells_bytes_len(cells.drop_last());
    assert(bytes == (pre + child_bytes) + key_bytes);
    assert(c * (k - 1) + c == c * k) by (nonlinear_arith);
    assert(c * j + c == c * (j + 1)) by (nonlinear_arith);
    if j == k - 1 {
        lemma_subrange_of_suffix(pre + child_bytes, key_bytes, 0, NODE_KEY_SIZE as int);
        lemma_subrange_of_prefix(pre + child_bytes, key_bytes, c * j, c * j + NODE_KEY_SIZE);
        lemma_subrange_of_suffix(pre, child_bytes, 0, NODE_KEY_SIZE as int);
        assert(child_bytes.subrange(0, NODE_KEY_SIZE as int) =~= child_bytes);
        assert(key_bytes.subrange(0, NODE_KEY_SIZE as int) =~= key_bytes);
        assert(bytes.subrange(c * j, c * j + NODE_KEY_SIZE) == child_bytes);
        assert(bytes.subrange(c * j + NODE_KEY_SIZE, c * (j + 1)) == key_bytes);
    } else {
        lemma_internal_cells_bytes_index(cells.drop_last(), j);
        assert(c * (j + 1) <= c * (k - 1)) by (nonlinear_arith)
            requires
                0 <= j,
                j + 1 <= k - 1,
                c >= 0,
        ;
        lemma_subrange_of_prefix(pre + child_bytes, key_bytes, c * j, c * j + NODE_KEY_SIZE);
        lemma_subrange_of_prefix(pre, child_bytes, c * j, c * j + NODE_KEY_SIZE);
        lemma_subrange_of_prefix(pre + child_bytes, key_bytes, c * j + NODE_KEY_SIZE, c * (j + 1));
        lemma_subrange_of_prefix(pre, child_bytes, c * j + NODE_KEY_SIZE, c * (j + 1));
        assert(cells.drop_last()[j] == cells[j]);
    }
}

/// Parsing the first `m` cells of a serialized leaf gives its first `m` cells.
proof fn lemma_parse_leaf_of_serialized(l: LeafV, m: nat)
    requires
        node_fits(NodeV::Leaf(l)),
        m <= l.cells.len(),
    ensures
        spec_parse_leaf_cells(spec_serialize_node(NodeV::Leaf(l)), m) == l.cells.take(m as int),
    decreases m,
{
    let c = NODE_CELL_SIZE as int;
    let h = NODE_HEADER_SIZE as int;
    let k = l.cells.len() as int;
    let n = NodeV::Leaf(l);
    let s = spec_serialize_node(n);
    let content = spec_node_content(n);
    let cb = spec_leaf_cells_bytes(l.cells);
    let hp = seq![0u8, spec_bool_byte(l.is_root)] + spec_u32_le(l.parent) + spec_u32_le(
        l.cells.len() as u32,
    );
    let pad = Seq::new((PAGE_SIZE - content.len()) as nat, |i: int| 0u8);
    lemma_node_content_len(n);
    lemma_leaf_cells_bytes_len(l.cells);
    assert(content == hp + cb);
    assert(hp.len() == h);
    assert(s == content + pad);
    if m == 0 {
        assert(l.cells.take(0) =~= Seq::<(u32, Seq<u8>)>::empty());
    } else {
        lemma_parse_leaf_of_serialized(l, (m - 1) as nat);
        let j = m - 1;
        lemma_leaf_cells_bytes_index(l.cells, j as int);
        assert(c * (j as int) + c == c * (m as int)) by (nonlinear_arith)
            requires
                j == m - 1,
        ;
        assert(c * (m as int) <= c * k) by (nonlinear_arith)
            requires
                m <= k,
                c >= 0,
        ;
        let off = h + c * (j as int);
        lemma_subrange_of_prefix(content, pad, off, off + NODE_KEY_SIZE);
        lemma_subrange_of_suffix(hp, cb, c * (j as int), c * (j as int) + NODE_KEY_SIZE);
        lemma_subrange_of_prefix(content, pad, off + NODE_KEY_SIZE, off + c);
        lemma_subrange_of_suffix(hp, cb, c * (j as int) + NODE_KEY_SIZE, c * (m as int));
        lemma_u32_le_round_trip(l.cells[j as int].0);
        assert(s.subrange(off, off + NODE_KEY_SIZE) == spec_u32_le(l.cells[j as int].0));
        assert(s.subrange(off + NODE_KEY_SIZE, off + c) == l.cells[j as int].1);
        assert(spec_leaf_cell_at(s, off) == l.cells[j as int]);
        assert(spec_parse_leaf_cells(s, m) =~= l.cells.take(m as int));
    }
}

/// Parsing the first `m` cells of a serialized internal page gives its
/// first `m` cells.
proof fn lemma_parse_internal_of_serialized(v: InternalV, m: nat)
    requires
        node_fits(NodeV::Internal(v)),
        m <= v.cells.len(),
    ensures
        spec_parse_internal_cells(spec_serialize_node(NodeV::Internal(v)), m) == v.cells.take(
            m as int,
        ),
    decreases m,
{
    let c = INTERNAL_CELL_SIZE as int;
    let h = INTERNAL_HEADER_SIZE as int;
    let k = v.cells.len() as int;
    let n = NodeV::Internal(v);
    let s = spec_serialize_node(n);
    let content = spec_node_content(n);
    let cb = spec_internal_cells_bytes(v.cells);
    let hp = seq![1u8, spec_bool_byte(v.is_root)] + spec_u32_le(v.parent) + spec_u32_le(
        v.cells.len() as u32,
    ) + spec_u32_le(v.right_child);
    let pad = Seq::new((PAGE_SIZE - content.len()) as nat, |i: int| 0u8);
    lemma_node_content_len(n);
    lemma_internal_cells_bytes_len(v.cells);
    assert(content == hp + cb);
    assert(hp.len() == h);
    assert(s == content + pad);
    if m == 0 {
        assert(v.cells.take(0) =~= Seq::<(u32, u32)>::empty());
    } else {
        lemma_parse_internal_of_serialized(v, (m - 1) as nat);
        let j = m - 1;
        lemma_internal_cells_bytes_index(v.cells, j as int);
        assert(c * (j as int) + c == c * (m as int)) by (nonlinear_arith)
            requires
                j == m - 1,
        ;
        assert(c * (m as int) <= c * k) by (nonlinear_arith)
            requires
                m <= k,
                c >= 0,
        ;
        let off = h + c * (j as int);
        lemma_subrange_of_prefix(content, pad, off, off + NODE_KEY_SIZE);
        lemma_subrange_of_suffix(hp, cb, c * (j as int), c * (j as int) + NODE_KEY_SIZE);
        lemma_subrange_of_prefix(content, pad, off + NODE_KEY_SIZE, off + c);
        lemma_subrange_of_suffix(hp, cb, c * (j as int) + NODE_KEY_SIZE, c * (m as int));
        lemma_u32_le_round_trip(v.cells[j as int].0);
        lemma_u32_le_round_trip(v.cells[j as int].1);
        assert(s.subrange(off, off + NODE_KEY_SIZE) == spec_u32_le(v.cells[j as int].0));
        assert(s.subrange(off + NODE_KEY_SIZE, off + c) == spec_u32_le(v.cells[j as int].1));
        assert(spec_internal_cell_at(s, off) == v.cells[j as int]);
        assert(spec_parse_internal_cells(s, m) =~= v.cells.take(m as int));
    }
}

/// Law: reading a serialized page back gives the node it came from — the
/// same kind, root flag, parent, rightmost child and cells in order — for
/// every node whose cells fit one page.  The one exception is the empty
/// non-root leaf with parent zero: its page is all zero bytes, which read
/// back as the bootstrap root leaf of a never-written page.
pub proof fn lemma_node_round_trip(n: NodeV)
    requires
        node_fits(n),
        n != NodeV::Leaf(LeafV { is_root: false, parent: 0, cells: Seq::<(u32, Seq<u8>)>::empty() }),
    ensures
        spec_deserialize(spec_serialize_node(n)) == Some(n),
{
    let s = spec_serialize_node(n);
    let content = spec_node_content(n);
    let pad = Seq::new((PAGE_SIZE - content.len()) as nat, |i: int| 0u8);
    lemma_node_content_len(n);
    assert(s == content + pad);
    match n {
        NodeV::Leaf(l) => {
            let c = NODE_CELL_SIZE as int;
            let h = NODE_HEADER_SIZE as int;
            let k = l.cells.len() as int;
            let two = seq![0u8, spec_bool_byte(l.is_root)];
            let parent_bytes = spec_u32_le(l.parent);
            let count_bytes = spec_u32_le(l.cells.len() as u32);
            let hp = two + parent_bytes + count_bytes;
            let cb = spec_leaf_cells_bytes(l.cells);
            lemma_leaf_cells_bytes_len(l.cells);
            assert(content == hp + cb);
            assert(hp.len() == h);
            lemma_u32_le_round_trip(l.parent);
            lemma_u32_le_round_trip(l.cells.len() as u32);
            lemma_subrange_of_prefix(content, pad, 0, h);
            lemma_subrange_of_prefix(hp, cb, 0, h);
            assert(hp.subrange(0, h) =~= hp);
            assert(s.subrange(0, h) == hp);
            assert(s[0] == s.subrange(0, h)[0]);
            assert(s[1] == s.subrange(0, h)[1]);
            assert(hp[0] == two[0]);
            assert(hp[1] == two[1]);
            assert(s[0] == 0);
            assert(s[1] == spec_bool_byte(l.is_root));
            lemma_subrange_of_prefix(content, pad, 2, 6);
            lemma_subrange_of_prefix(hp, cb, 2, 6);
            lemma_subrange_of_prefix(two + parent_bytes, count_bytes, 2, 6);
            lemma_subrange_of_suffix(two, parent_bytes, 0, 4);
            assert(parent_bytes.subrange(0, 4) =~= parent_bytes);
            assert(s.subrange(2, 6) == parent_bytes);
            lemma_subrange_of_prefix(content, pad, 6, 10);
            lemma_subrange_of_prefix(hp, cb, 6, 10);
            lemma_subrange_of_suffix(two + parent_bytes, count_bytes, 0, 4);
            assert(count_bytes.subrange(0, 4) =~= count_bytes);
            assert(s.subrange(6, 10) == count_bytes);
            assert(spec_u32_of_le(s.subrange(2, 6)) == l.parent);
            assert(spec_u32_of_le(s.subrange(6, 10)) == l.cells.len() as u32);
            if spec_header_zero(s) {
                lemma_u32_le_zero(l.parent);
                lemma_u32_le_zero(l.cells.len() as u32);
                assert forall|i: int| 0 <= i < 4 implies #[trigger] parent_bytes[i] == 0 by {
                    assert(parent_bytes[i] == s.subrange(2, 6)[i]);
                    assert(s[2 + i] == 0);
                }
                assert forall|i: int| 0 <= i < 4 implies #[trigger] count_bytes[i] == 0 by {
                    assert(count_bytes[i] == s.subrange(6, 10)[i]);
                    assert(s[6 + i] == 0);
                }
                assert(l.parent == 0);
                assert(l.cells.len() as u32 == 0);
                assert(l.cells =~= Seq::<(u32, Seq<u8>)>::empty());
                assert(spec_bool_byte(l.is_root) == 0);
                assert(!l.is_root);
                assert(n == NodeV::Leaf(
                    LeafV { is_root: false, parent: 0, cells: Seq::<(u32, Seq<u8>)>::empty() },
                ));
                assert(false);
            }
            let num = spec_u32_of_le(s.subrange(6, 10)) as int;
            assert(num == k);
            assert(c * k <= c * (NODE_MAX_CELLS as int)) by (nonlinear_arith)
                requires
                    k <= NODE_MAX_CELLS,
                    c >= 0,
            ;
            assert(h + c * num <= s.len());
            lemma_parse_leaf_of_serialized(l, l.cells.len());
            assert(l.cells.take(k) =~= l.cells);
            assert((s[1] != 0) == l.is_root);
            assert(spec_deserialize(s) == Some(n));
        },
        NodeV::Internal(v) => {
            let c = INTERNAL_CELL_SIZE as int;
            let h = INTERNAL_HEADER_SIZE as int;
            let k = v.cells.len() as int;
            let two = seq![1u8, spec_bool_byte(v.is_root)];
            let parent_bytes = spec_u32_le(v.parent);
            let count_bytes = spec_u32_le(v.cells.len() as u32);
            let right_bytes = spec_u32_le(v.right_child);
            let hp = two + parent_bytes + count_bytes + right_bytes;
            let cb = spec_internal_cells_bytes(v.cells);
            lemma_internal_cells_bytes_len(v.cells);
            assert(content == hp + cb);
            assert(hp.len() == h);
            lemma_u32_le_round_trip(v.parent);
            lemma_u32_le_round_trip(v.cells.len() as u32);
            lemma_u32_le_round_trip(v.right_child);
            lemma_subrange_of_prefix(content, pad, 0, h);
            lemma_subrange_of_prefix(hp, cb, 0, h);
            assert(hp.subrange(0, h) =~= hp);
            assert(s.subrange(0, h) == hp);
            assert(s[0] == s.subrange(0, h)[0]);
            assert(s[1] == s.subrange(0, h)[1]);
            assert(hp[0] == two[0]);
            assert(hp[1] == two[1]);
            assert(s[0] == 1);
            assert(s[1] == spec_bool_byte(v.is_root));
            assert(!spec_header_zero(s));
            lemma_subrange_of_prefix(content, pad, 2, 6);
            lemma_subrange_of_prefix(hp, cb, 2, 6);
            lemma_subrange_of_prefix(two + parent_bytes + count_bytes, right_bytes, 2, 6);
            lemma_subrange_of_prefix(two + parent_bytes, count_bytes, 2, 6);
            lemma_subrange_of_suffix(two, parent_bytes, 0, 4);
            assert(parent_bytes.subrange(0, 4) =~= parent_bytes);
            assert(s.subrange(2, 6) == parent_bytes);
            lemma_subrange_of_prefix(content, pad, 6, 10);
            lemma_subrange_of_prefix(hp, cb, 6, 10);
            lemma_subrange_of_prefix(two + parent_bytes + count_bytes, right_bytes, 6, 10);
            lemma_subrange_of_suffix(two + parent_bytes, count_bytes, 0, 4);
            assert(count_bytes.subrange(0, 4) =~= count_bytes);
            assert(s.subrange(6, 10) == count_bytes);
            lemma_subrange_of_prefix(content, pad, 10, 14);
            lemma_subrange_of_prefix(hp, cb, 10, 14);
            lemma_subrange_of_suffix(two + parent_bytes + count_bytes, right_bytes, 0, 4);
            assert(right_bytes.subrange(0, 4) =~= right_bytes);
            assert(s.subrange(10, 14) == right_bytes);
            assert(spec_u32_of_le(s.subrange(2, 6)) == v.parent);
            assert(spec_u32_of_le(s.subrange(6, 10)) == v.cells.len() as u32);
            assert(spec_u32_of_le(s.subrange(10, 14)) == v.right_child);
            let num = spec_u32_of_le(s.subrange(6, 10)) as int;
            assert(num == k);
            assert(c * k <= c * (INTERNAL_MAX_CELLS as int)) by (nonlinear_arith)
                requires
                    k <= INTERNAL_MAX_CELLS,
                    c >= 0,
            ;
            assert(h + c * num <= s.len());
            lemma_parse_internal_of_serialized(v, v.cells.len());
            assert(v.cells.take(k) =~= v.cells);
            assert((s[1] != 0) == v.is_root);
            assert(spec_deserialize(s) == Some(n));
        },
    }
}

impl BTreeNode {
    /// Read a node back from one page buffer.  A short or never-written
    /// page yields the bootstrap root leaf; a corrupt page — an unknown
    /// type tag, or a cell count its bytes cannot hold — yields nothing.
    pub fn deserialize(buf: &[u8]) -> (r: Option<BTreeNode>)
        requires
            buf@.len() <= PAGE_SIZE,
        ensures
            (r is Some) == (spec_deserialize(buf@) is Some),
            r matches Some(node) ==> spec_deserialize(buf@) == Some(node@) && node_fits(node@),
    {
        let n = buf.len();
        if n < NODE_HEADER_SIZE {
            return Some(Self::bootstrap_leaf());
        }
        let mut i: usize = 0;
        let mut all_zero = true;
        while i < NODE_HEADER_SIZE
            invariant
                i <= NODE_HEADER_SIZE <= n == buf@.len(),
                all_zero == (forall|j: int| 0 <= j < i ==> buf@[j] == 0),
            decreases NODE_HEADER_SIZE - i,
        {
            let b = buf[i];
            all_zero = all_zero && (b == 0);
            i += 1;
        }
        if all_zero {
            assert(spec_header_zero(buf@));
            return Some(Self::bootstrap_leaf());
        }
        assert(!spec_header_zero(buf@));
        let type_byte = buf[0];
        if type_byte == 0 {
            let parent = read_u32_le(buf, 2);
            let num32 = read_u32_le(buf, 6);
            let ghost num = spec_u32_of_le(buf@.subrange(6, 10)) as int;
            assert(num32 as int == num);
            if (NODE_CELL_SIZE as u64) * (num32 as u64) + (NODE_HEADER_SIZE as u64) > n as u64 {
                proof {
                    assert((NODE_CELL_SIZE as u64) as int == NODE_CELL_SIZE as int);
                    assert((num32 as u64) as int == num);
                    assert(NODE_HEADER_SIZE + NODE_CELL_SIZE * num > buf@.len());
                }
                return None;
            }
            proof {
                assert(NODE_HEADER_SIZE + NODE_CELL_SIZE * num <= buf@.len());
                assert(num <= NODE_MAX_CELLS) by (nonlinear_arith)
                    requires
                        NODE_CELL_SIZE * num <= PAGE_SIZE - NODE_HEADER_SIZE,
                        NODE_CELL_SIZE == 295,
                        NODE_HEADER_SIZE == 10,
                        PAGE_SIZE == 4096,
                        NODE_MAX_CELLS == 13,
                        num >= 0,
                ;
            }
            let num_cells = num32 as usize;
            let mut key_values: Vec<KV> = Vec::new();
            let mut idx: usize = 0;
            assert(key_values@.map_values(|kv: KV| kv@) =~= spec_parse_leaf_cells(buf@, 0));
            while idx < num_cells
                invariant
                    idx <= num_cells == num,
                    key_values@.len() == idx,
                    n == buf@.len() <= PAGE_SIZE,
                    NODE_HEADER_SIZE + NODE_CELL_SIZE * num <= n,
                    num <= NODE_MAX_CELLS,
                    key_values@.map_values(|kv: KV| kv@) == spec_parse_leaf_cells(
                        buf@,
                        idx as nat,
                    ),
                    forall|j: int|
                        0 <= j < key_values@.len() ==> (#[trigger] key_values@[j]).value@.len()
                            == ROW_SIZE,
                decreases num_cells - idx,
            {
                proof {
                    assert(NODE_CELL_SIZE * idx + NODE_CELL_SIZE == NODE_CELL_SIZE * (idx + 1))
                        by (nonlinear_arith);
                    assert(NODE_CELL_SIZE * (idx + 1) <= NODE_CELL_SIZE * num)
                        by (nonlinear_arith)
                        requires
                            idx + 1 <= num,
                            NODE_CELL_SIZE >= 0,
                    ;
                }
                let off = NODE_HEADER_SIZE + NODE_CELL_SIZE * idx;
                let key = read_u32_le(buf, off);
                let value = vstd::slice::slice_to_vec(
                    vstd::slice::slice_subrange(buf, off + NODE_KEY_SIZE, off + NODE_CELL_SIZE),
                );
                key_values.push(KV { key, value });
                idx += 1;
                proof {
                    assert(key_values@.map_values(|kv: KV| kv@) =~= spec_parse_leaf_cells(
                        buf@,
                        idx as nat,
                    ));
                }
            }
            proof {
                let cells = key_values@.map_values(|kv: KV| kv@);
                assert forall|i: int| 0 <= i < cells.len() implies (#[trigger] cells[i]).1.len()
                    == ROW_SIZE by {
                    assert(cells[i] == key_values@[i]@);
                }
            }
            let node = BTreeNode::Leaf(
                BTreeLeafNode { is_root: buf[1] != 0, parent, key_values },
            );
            proof {
                assert(spec_deserialize(buf@) == Some(node@));
                assert(node_fits(node@));
            }
            Some(node)
        } else if type_byte == 1 {
            if n < INTERNAL_HEADER_SIZE {
                return None;
            }
            let parent = read_u32_le(buf, 2);
            let num32 = read_u32_le(buf, 6);
            let right_child = read_u32_le(buf, 10);
            let ghost num = spec_u32_of_le(buf@.subrange(6, 10)) as int;
            assert(num32 as int == num);
            if (INTERNAL_CELL_SIZE as u64) * (num32 as u64) + (INTERNAL_HEADER_SIZE as u64) > n as u64 {
                proof {
                    assert((INTERNAL_CELL_SIZE as u64) as int == INTERNAL_CELL_SIZE as int);
                    assert((num32 as u64) as int == num);
                    assert(INTERNAL_HEADER_SIZE + INTERNAL_CELL_SIZE * num > buf@.len());
                }
                return None;
            }
            proof {
                assert(INTERNAL_HEADER_SIZE + INTERNAL_CELL_SIZE * num <= buf@.len());
                assert(num <= INTERNAL_MAX_CELLS) by (nonlinear_arith)
                    requires
                        INTERNAL_CELL_SIZE * num <= PAGE_SIZE - INTERNAL_HEADER_SIZE,
                        INTERNAL_CELL_SIZE == 8,
                        INTERNAL_HEADER_SIZE == 14,
                        PAGE_SIZE == 4096,
                        INTERNAL_MAX_CELLS == 510,
                        num >= 0,
                ;
            }
            let num_keys = num32 as usize;
            let mut key_children: Vec<KC> = Vec::new();
            let mut idx: usize = 0;
            assert(key_children@.map_values(|kc: KC| kc@) =~= spec_parse_internal_cells(buf@, 0));
            while idx < num_keys
                invariant
                    idx <= num_keys == num,
                    key_children@.len() == idx,
                    n == buf@.len() <= PAGE_SIZE,
                    INTERNAL_HEADER_SIZE + INTERNAL_CELL_SIZE * num <= n,
                    num <= INTERNAL_MAX_CELLS,
                    key_children@.map_values(|kc: KC| kc@) == spec_parse_internal_cells(
                        buf@,
                        idx as nat,
                    ),
                decreases num_keys - idx,
            {
                proof {
                    assert(INTERNAL_CELL_SIZE * idx + INTERNAL_CELL_SIZE == INTERNAL_CELL_SIZE * (
                    idx + 1)) by (nonlinear_arith);
                    assert(INTERNAL_CELL_SIZE * (idx + 1) <= INTERNAL_CELL_SIZE * num)
                        by (nonlinear_arith)
                        requires
                            idx + 1 <= num,
                            INTERNAL_CELL_SIZE >= 0,
                    ;
                }
                let off = INTERNAL_HEADER_SIZE + INTERNAL_CELL_SIZE * idx;
                let child = read_u32_le(buf, off);
                let key = read_u32_le(buf, off + NODE_KEY_SIZE);
                key_children.push(KC { child, key });
                idx += 1;
                proof {
                    assert(key_children@.map_values(|kc: KC| kc@) =~= spec_parse_internal_cells(
                        buf@,
                        idx as nat,
                    ));
                }
            }
            let node = BTreeNode::Internal(
                BTreeInternalNode { is_root: buf[1] != 0, parent, right_child, key_children },
            );
            proof {
                assert(spec_deserialize(buf@) == Some(node@));
            }
            Some(node)
        } else {
            None
        }
    }

    /// The node a never-written page reads back as: an empty root leaf.
    pub fn bootstrap_leaf() -> (r: BTreeNode)
        ensures
            r@ == spec_bootstrap_leaf(),
    {
        let r = BTreeNode::Leaf(BTreeLeafNode { is_root: true, parent: 0, key_values: Vec::new() });
        proof {
            assert(Seq::<KV>::empty().map_values(|kv: KV| kv@) =~= Seq::<(u32, Seq<u8>)>::empty());
        }
        r
    }
}

} // verus!
