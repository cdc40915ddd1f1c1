//! Table and cursor: the table owns a pager and tracks the tree's root
//! page; a cursor is a transient `(page, cell)` position used to locate
//! insertion points, read cells, and walk the tree in key order.  The
//! insert and select entry points the statement layer calls live here.

use vstd::prelude::*;
use crate::page::node_fits;
use crate::page::spec_deserialize;
use crate::pager::as_internal;
use crate::pager::as_leaf;
use crate::pager::pager_wf;
use crate::pager::spec_node_at;
use crate::pager::spec_num_pages;
use crate::pager::spec_page_bytes;
use crate::pager::spec_split_outcome;
use crate::pager::spec_split_separator;
use crate::pager::spec_split_possible;
use crate::pager::FlushError;
use crate::pager::InsertError;
use crate::pager::OpenError;
use crate::pager::Pager;
use crate::le::spec_u32_of_le;
use crate::tree::internal_keys;
use crate::tree::leaf_keys;
use crate::tree::lemma_adjacent_implies_sorted;
use crate::tree::lemma_key_fresh;
use crate::tree::lemma_leaf_keys_insert;
use crate::tree::lemma_lower_bound_bounds;
use crate::tree::lemma_sorted_insert;
use crate::tree::node_wf;
use crate::tree::spec_is_root;
use crate::tree::spec_keys_sorted;
use crate::tree::spec_lower_bound;
use crate::tree::spec_pick_child;
use crate::tree::BTreeNode;
use crate::tree::InternalV;
use crate::tree::LeafV;
use crate::tree::NodeV;
use crate::tree::NODE_MAX_CELLS;
use crate::ROWS_PER_PAGE;
use crate::ROW_SIZE;
use crate::TABLE_MAX_PAGES;

verus! {

/// The table: a pager and the page number of the tree's root.
pub struct Table {
    pub pager: Pager,
    pub root_page_num: usize,
}

/// A well-formed table: a well-formed pager whose root page is allocated.
pub open spec fn table_wf(t: Table) -> bool {
    &&& pager_wf(t.pager)
    &&& t.root_page_num < t.pager.num_pages
}

/// The node page `i` of an image decodes to; the bootstrap leaf where the
/// page does not decode at all.
pub open spec fn spec_image_node(image: Seq<u8>, i: int) -> NodeV {
    match spec_deserialize(spec_page_bytes(image, i)) {
        Some(n) => n,
        None => NodeV::Leaf(LeafV { is_root: true, parent: 0, cells: Seq::empty() }),
    }
}

/// Whether page `i` of an image carries the root flag.
pub open spec fn spec_is_root_page(image: Seq<u8>, i: int) -> bool {
    spec_is_root(spec_image_node(image, i))
}

/// Whether an image opens cleanly: it fits the slot table, every page
/// decodes to a well-formed node, and exactly one page carries the root
/// flag.
pub open spec fn spec_open_ok(image: Seq<u8>) -> bool {
    let n = spec_num_pages(image.len() as int);
    &&& n <= TABLE_MAX_PAGES
    &&& forall|i: int| 0 <= i < n ==> (#[trigger] spec_deserialize(spec_page_bytes(image, i)))
        is Some
    &&& forall|i: int| 0 <= i < n ==> node_wf(#[trigger] spec_image_node(image, i))
    &&& exists|rt: int|
        0 <= rt < n && #[trigger] spec_is_root_page(image, rt) && forall|i: int|
            0 <= i < n && i != rt ==> !spec_is_root_page(image, i)
}

/// Whether every key on the node is strictly ascending.
fn check_node_sorted(node: &BTreeNode) -> (r: bool)
    ensures
        node@ matches NodeV::Leaf(l) ==> r == spec_keys_sorted(leaf_keys(l.cells)),
        node@ matches NodeV::Internal(v) ==> r == spec_keys_sorted(internal_keys(v.cells)),
{
    match node {
        BTreeNode::Leaf(leaf) => {
            let ghost keys = leaf_keys(leaf@.cells);
            let mut j: usize = 1;
            while j < leaf.key_values.len()
                invariant
                    1 <= j,
                    node@ == NodeV::Leaf(leaf@),
                    keys == leaf_keys(leaf@.cells),
                    keys.len() == leaf.key_values@.len(),
                    forall|x: int| 0 < x < j ==> keys[x - 1] < #[trigger] keys[x],
                decreases leaf.key_values@.len() - j,
            {
                if leaf.key_values[j - 1].key >= leaf.key_values[j].key {
                    assert(keys[j - 1] >= keys[j as int]);
                    return false;
                }
                assert(keys[j - 1] < keys[j as int]);
                j += 1;
            }
            proof {
                lemma_adjacent_implies_sorted(keys);
            }
            true
        },
        BTreeNode::Internal(inner) => {
            let ghost keys = internal_keys(inner@.cells);
            let mut j: usize = 1;
            while j < inner.key_children.len()
                invariant
                    1 <= j,
                    node@ == NodeV::Internal(inner@),
                    keys == internal_keys(inner@.cells),
                    keys.len() == inner.key_children@.len(),
                    forall|x: int| 0 < x < j ==> keys[x - 1] < #[trigger] keys[x],
                decreases inner.key_children@.len() - j,
            {
                if inner.key_children[j - 1].key >= inner.key_children[j].key {
                    assert(keys[j - 1] >= keys[j as int]);
                    return false;
                }
                assert(keys[j - 1] < keys[j as int]);
                j += 1;
            }
            proof {
                lemma_adjacent_implies_sorted(keys);
            }
            true
        },
    }
}

impl Table {
    /// Open a table over the byte image of its backing file.  Every
    /// existing page is loaded and checked, and the one page flagged root
    /// becomes the root; an image with no root page, several, an
    /// undecodable page or unsorted cells is refused as corrupt.
    pub fn open(file_image: Vec<u8>) -> (r: Result<Table, OpenError>)
        ensures
            r is Ok <==> spec_open_ok(file_image@),
            r matches Ok(t) ==> {
                &&& table_wf(t)
                &&& t.pager.file_image@ == file_image@
                &&& t.pager.num_pages == spec_num_pages(file_image@.len() as int)
                &&& forall|i: int|
                    0 <= i < t.pager.num_pages ==> (#[trigger] t.pager.pages@[i]) is Some
                        && spec_node_at(t.pager, i) == spec_image_node(file_image@, i)
                &&& spec_is_root_page(file_image@, t.root_page_num as int)
                &&& forall|i: int|
                    0 <= i < t.pager.num_pages && i != t.root_page_num
                        ==> !spec_is_root_page(file_image@, i)
            },
            r matches Err(e) ==> (e == OpenError::FileTooLarge <==> spec_num_pages(
                file_image@.len() as int,
            ) > TABLE_MAX_PAGES),
    {
        let ghost image = file_image@;
        let mut pager = match Pager::new(file_image) {
            Ok(p) => p,
            Err(e) => {
                return Err(e);
            },
        };
        let num_pages = pager.num_pages;
        let mut i: usize = 0;
        while i < num_pages
            invariant
                i <= num_pages == pager.num_pages <= TABLE_MAX_PAGES,
                1 <= pager.num_pages,
                pager.pages@.len() == TABLE_MAX_PAGES,
                pager.file_image@ == image,
                image == file_image@,
                num_pages == spec_num_pages(image.len() as int),
                forall|j: int|
                    0 <= j < i ==> (#[trigger] pager.pages@[j]) is Some && spec_node_at(pager, j)
                        == spec_image_node(image, j) && spec_deserialize(
                        spec_page_bytes(image, j),
                    ) is Some && node_fits(spec_node_at(pager, j)),
                forall|j: int| i <= j < pager.pages@.len() ==> (#[trigger] pager.pages@[j]) is None,
            decreases num_pages - i,
        {
            if !pager.load_page(i) {
                proof {
                    assert(pager.pages@[i as int] is None);
                    assert(spec_deserialize(spec_page_bytes(image, i as int)) is None);
                    assert(!spec_open_ok(image));
                }
                return Err(OpenError::StructuralCorruption);
            }
            i += 1;
        }
        let mut i: usize = 0;
        while i < num_pages
            invariant
                i <= num_pages == pager.num_pages <= TABLE_MAX_PAGES,
                pager.pages@.len() == TABLE_MAX_PAGES,
                pager.file_image@ == image,
                image == file_image@,
                num_pages == spec_num_pages(image.len() as int),
                forall|j: int|
                    0 <= j < num_pages ==> (#[trigger] pager.pages@[j]) is Some && spec_node_at(
                        pager,
                        j,
                    ) == spec_image_node(image, j) && spec_deserialize(spec_page_bytes(image, j))
                        is Some && node_fits(spec_node_at(pager, j)),
                forall|j: int| 0 <= j < i ==> node_wf(#[trigger] spec_image_node(image, j)),
            decreases num_pages - i,
        {
            let sorted = match pager.page_at(i) {
                Some(node) => check_node_sorted(node),
                None => false,
            };
            if !sorted {
                proof {
                    assert(!node_wf(spec_image_node(image, i as int)));
                    assert(!spec_open_ok(image));
                }
                return Err(OpenError::StructuralCorruption);
            }
            i += 1;
        }
        let mut root_page_num: usize = 0;
        let mut root_count: usize = 0;
        let mut i: usize = 0;
        while i < num_pages
            invariant
                i <= num_pages == pager.num_pages <= TABLE_MAX_PAGES,
                pager.pages@.len() == TABLE_MAX_PAGES,
                pager.file_image@ == image,
                image == file_image@,
                num_pages == spec_num_pages(image.len() as int),
                forall|j: int|
                    0 <= j < num_pages ==> (#[trigger] pager.pages@[j]) is Some && spec_node_at(
                        pager,
                        j,
                    ) == spec_image_node(image, j) && spec_deserialize(spec_page_bytes(image, j))
                        is Some,
                forall|j: int| 0 <= j < num_pages ==> node_wf(#[trigger] spec_image_node(image, j)),
                root_count <= i,
                root_count == 0 ==> forall|j: int| 0 <= j < i ==> !spec_is_root_page(image, j),
                root_count == 1 ==> root_page_num < i && spec_is_root_page(
                    image,
                    root_page_num as int,
                ) && forall|j: int|
                    0 <= j < i && j != root_page_num ==> !spec_is_root_page(image, j),
                root_count >= 2 ==> exists|a: int, b: int|
                    0 <= a < b < i && #[trigger] spec_is_root_page(image, a)
                        && #[trigger] spec_is_root_page(image, b),
            decreases num_pages - i,
        {
            let is_root = match pager.page_at(i) {
                Some(node) => node.is_root(),
                None => false,
            };
            if is_root {
                if root_count == 1 {
                    assert(spec_is_root_page(image, root_page_num as int) && spec_is_root_page(
                        image,
                        i as int,
                    ) && root_page_num < i);
                }
                root_count = root_count + 1;
                if root_count == 1 {
                    root_page_num = i;
                }
            }
            i += 1;
        }
        if root_count != 1 {
            proof {
                if root_count == 0 {
                    assert(forall|j: int|
                        0 <= j < num_pages ==> !spec_is_root_page(image, j));
                }
                assert(!spec_open_ok(image));
            }
            return Err(OpenError::StructuralCorruption);
        }
        proof {
            assert forall|j: int| 0 <= j < num_pages implies (#[trigger] spec_deserialize(
                spec_page_bytes(image, j),
            )) is Some by {
                assert(pager.pages@[j] is Some);
            }
            assert(spec_is_root_page(image, root_page_num as int));
            assert(spec_open_ok(image));
        }
        Ok(Table { pager, root_page_num })
    }

    /// The page a flat row number would land on.
    pub fn page_num(&self, row_num: usize) -> (r: usize)
        ensures
            r == row_num as int / ROWS_PER_PAGE as int,
    {
        proof {
            assert(4096int / 291int == 14);
            assert(ROWS_PER_PAGE == 14);
        }
        row_num / ROWS_PER_PAGE
    }

    /// The byte offset inside its page a flat row number would land at.
    pub fn bytes_offset(&self, row_num: usize) -> (r: usize)
        ensures
            r == (row_num as int % ROWS_PER_PAGE as int) * ROW_SIZE,
    {
        proof {
            assert(4096int / 291int == 14);
            assert(ROWS_PER_PAGE == 14);
        }
        let rows = row_num % ROWS_PER_PAGE;
        proof {
            assert(rows < ROWS_PER_PAGE);
            assert(rows * ROW_SIZE <= 13 * 291) by (nonlinear_arith)
                requires
                    0 <= rows <= 13,
            ;
        }
        rows * ROW_SIZE
    }

    /// Close the table: flush every page into a fresh image of the backing
    /// file, which the caller writes out.  Flushing is the only durability
    /// point.
    pub fn close(&self) -> (r: Result<Vec<u8>, FlushError>)
        requires
            table_wf(*self),
        ensures
            r is Ok,
            r matches Ok(image) ==> {
                &&& image@.len() == crate::PAGE_SIZE * self.pager.num_pages
                &&& forall|i: int|
                    0 <= i < self.pager.num_pages ==> #[trigger] image@.subrange(
                        crate::PAGE_SIZE * i,
                        crate::PAGE_SIZE * (i + 1),
                    ) == crate::page::spec_serialize_node(spec_node_at(self.pager, i))
            },
    {
        self.pager.flush()
    }
}

/// What a statement asks the engine to do.
#[derive(Clone, Copy, Debug, PartialEq, Eq, Structural)]
pub enum StatementType {
    Insert,
    Select,
}

/// One prepared statement: its type and, for an insert, the encoded row.
#[derive(Debug)]
pub struct Statement {
    pub st_type: StatementType,
    pub row_to_insert: Option<Vec<u8>>,
}

impl Statement {
    /// A statement of the given type with no record attached yet.
    pub fn new(st_type: StatementType) -> (r: Statement)
        ensures
            r.st_type == st_type,
            r.row_to_insert is None,
    {
        Statement { st_type, row_to_insert: None }
    }
}

/// A transient position in the tree: a page, a cell on it, and whether the
/// scan has run off the table's end.
#[derive(Clone, Copy, Debug, PartialEq, Eq, Structural)]
pub struct Cursor {
    pub page_num: usize,
    pub cell_num: usize,
    pub end_of_table: bool,
}

/// Where the descent from `page` lands for `key`: the leaf page holding
/// the key's insertion position, and that position.  The descent fails on
/// a page that is out of range or not cached, and on a path longer than
/// its fuel — in an intact tree no path is longer than the page count.
pub open spec fn spec_descend(p: Pager, page: int, key: u32, fuel: nat) -> Option<(int, int)>
    decreases fuel,
{
    if !(0 <= page < p.num_pages) {
        None
    } else {
        match p.pages@[page] {
            None => None,
            Some(node) => match node@ {
                NodeV::Leaf(l) => Some((page, spec_lower_bound(leaf_keys(l.cells), key))),
                NodeV::Internal(v) => if fuel == 0 {
                    None
                } else {
                    spec_descend(p, spec_pick_child(v, key) as int, key, (fuel - 1) as nat)
                },
            },
        }
    }
}

impl Cursor {
    /// A cursor at the first cell of the root page; the table is already
    /// at its end only when the root is a leaf without cells.
    pub fn table_start(table: &Table) -> (c: Cursor)
        requires
            table_wf(*table),
        ensures
            c.page_num == table.root_page_num,
            c.cell_num == 0,
            c.end_of_table == (spec_node_at(table.pager, table.root_page_num as int) matches
                NodeV::Leaf(l) && l.cells.len() == 0),
    {
        let end_of_table = match table.pager.page_at(table.root_page_num) {
            Some(BTreeNode::Leaf(leaf)) => leaf.key_values.len() == 0,
            _ => false,
        };
        Cursor { page_num: table.root_page_num, cell_num: 0, end_of_table }
    }

    /// Descend from `page_num` to the leaf that holds `key`'s insertion
    /// position: internal pages route the key by binary search, a leaf
    /// ends the descent at the position its own binary search finds.
    pub fn find_insert_position(table: &Table, page_num: usize, key: u32) -> (r: Option<Cursor>)
        requires
            table_wf(*table),
        ensures
            r matches Some(c) ==> {
                &&& spec_descend(table.pager, page_num as int, key, TABLE_MAX_PAGES as nat)
                    == Some((c.page_num as int, c.cell_num as int))
                &&& c.page_num < table.pager.num_pages
                &&& spec_node_at(table.pager, c.page_num as int) is Leaf
                &&& c.cell_num == spec_lower_bound(
                    leaf_keys(as_leaf(spec_node_at(table.pager, c.page_num as int)).cells),
                    key,
                )
                &&& c.end_of_table == (c.cell_num == as_leaf(
                    spec_node_at(table.pager, c.page_num as int),
                ).cells.len())
            },
            r is None ==> spec_descend(table.pager, page_num as int, key, TABLE_MAX_PAGES as nat)
                is None,
    {
        let mut cur = page_num;
        let mut fuel: usize = TABLE_MAX_PAGES;
        loop
            invariant
                table_wf(*table),
                fuel <= TABLE_MAX_PAGES,
                spec_descend(table.pager, page_num as int, key, TABLE_MAX_PAGES as nat)
                    == spec_descend(table.pager, cur as int, key, fuel as nat),
            decreases fuel,
        {
            if cur >= table.pager.num_pages {
                return None;
            }
            match table.pager.page_at(cur) {
                None => {
                    proof {
                        assert(false);
                    }
                    return None;
                },
                Some(BTreeNode::Leaf(leaf)) => {
                    let pos = leaf.find_insert_position(key);
                    let eot = pos == leaf.key_values.len();
                    return Some(Cursor { page_num: cur, cell_num: pos, end_of_table: eot });
                },
                Some(BTreeNode::Internal(inner)) => {
                    if fuel == 0 {
                        return None;
                    }
                    let child = inner.find_key(key);
                    cur = child as usize;
                    fuel = fuel - 1;
                },
            }
        }
    }

    /// Step to the next cell.  Past the last cell of a root leaf the table
    /// ends; past the last cell of another leaf the cursor climbs to the
    /// parent and moves to the next sibling — the child after the first
    /// cell pointing at this page, or the rightmost child — and the table
    /// ends when no distinct sibling exists.
    pub fn advance(&mut self, table: &Table)
        requires
            table_wf(*table),
            old(self).page_num < table.pager.num_pages,
            spec_node_at(table.pager, old(self).page_num as int) is Leaf,
            old(self).cell_num < usize::MAX,
        ensures
            final(self).cell_num <= old(self).cell_num + 1,
            ({
                let l = as_leaf(spec_node_at(table.pager, old(self).page_num as int));
                let next_cell = (old(self).cell_num + 1) as usize;
                &&& (old(self).cell_num + 1 < l.cells.len() ==> *final(self) == (Cursor {
                    page_num: old(self).page_num,
                    cell_num: next_cell,
                    end_of_table: old(self).end_of_table,
                }))
                &&& (old(self).cell_num + 1 >= l.cells.len() && l.is_root ==> *final(self)
                    == (Cursor {
                    page_num: old(self).page_num,
                    cell_num: next_cell,
                    end_of_table: true,
                }))
                &&& (old(self).cell_num + 1 >= l.cells.len() && !l.is_root ==> {
                    let pn = l.parent as int;
                    if pn < table.pager.pages@.len() && table.pager.pages@[pn] is Some
                        && spec_node_at(table.pager, pn) is Internal {
                        let par = as_internal(spec_node_at(table.pager, pn));
                        let nxt = spec_next_sibling(par, old(self).page_num as u32);
                        if nxt as usize == old(self).page_num {
                            *final(self) == (Cursor {
                                page_num: old(self).page_num,
                                cell_num: next_cell,
                                end_of_table: true,
                            })
                        } else {
                            *final(self) == (Cursor {
                                page_num: nxt as usize,
                                cell_num: 0,
                                end_of_table: old(self).end_of_table,
                            })
                        }
                    } else {
                        *final(self) == (Cursor {
                            page_num: old(self).page_num,
                            cell_num: next_cell,
                            end_of_table: true,
                        })
                    }
                })
            }),
    {
        let page_num_before = self.page_num;
        self.cell_num = self.cell_num + 1;
        match table.pager.page_at(page_num_before) {
            Some(BTreeNode::Leaf(leaf)) => {
                if self.cell_num >= leaf.key_values.len() {
                    if leaf.is_root {
                        self.end_of_table = true;
                    } else {
                        let parent_num = leaf.parent as usize;
                        match table.pager.page_at(parent_num) {
                            Some(BTreeNode::Internal(parent)) => {
                                let ghost cells = parent@.cells;
                                let page32 = page_num_before as u32;
                                let mut idx: usize = 0;
                                let mut found: Option<usize> = None;
                                while idx < parent.key_children.len()
                                    invariant
                                        idx <= parent.key_children@.len(),
                                        cells == parent@.cells,
                                        cells.len() == parent.key_children@.len(),
                                        found is None ==> forall|x: int|
                                            0 <= x < idx ==> (#[trigger] cells[x]).0 != page32,
                                        found matches Some(f) ==> f < idx && cells[f as int].0
                                            == page32 && forall|x: int|
                                            0 <= x < f ==> (#[trigger] cells[x]).0 != page32,
                                    decreases parent.key_children@.len() - idx,
                                {
                                    if found.is_none() && parent.key_children[idx].child
                                        == page32 {
                                        found = Some(idx);
                                    }
                                    idx += 1;
                                }
                                let next: u32 = match found {
                                    Some(f) => {
                                        proof {
                                            lemma_first_child_index_unique(cells, page32, f as int);
                                        }
                                        if f + 1 < parent.key_children.len() {
                                            parent.key_children[f + 1].child
                                        } else {
                                            parent.right_child
                                        }
                                    },
                                    None => {
                                        proof {
                                            lemma_first_child_index_unique(
                                                cells,
                                                page32,
                                                cells.len() as int,
                                            );
                                        }
                                        parent.right_child
                                    },
                                };
                                assert(next == spec_next_sibling(parent@, page32));
                                if next as usize == page_num_before {
                                    self.end_of_table = true;
                                } else {
                                    self.page_num = next as usize;
                                    self.cell_num = 0;
                                }
                            },
                            _ => {
                                self.end_of_table = true;
                            },
                        }
                    }
                }
            },
            _ => {
                proof {
                    assert(false);
                }
            },
        }
    }

    /// Read the row under the cursor, when it sits on a cell of a leaf.
    pub fn get_row<'a>(&self, table: &'a Table) -> (r: Option<&'a Vec<u8>>)
        requires
            table_wf(*table),
        ensures
            r is Some <==> self.page_num < table.pager.num_pages && spec_node_at(
                table.pager,
                self.page_num as int,
            ) is Leaf && self.cell_num < as_leaf(
                spec_node_at(table.pager, self.page_num as int),
            ).cells.len(),
            r matches Some(row) ==> row@ == as_leaf(
                spec_node_at(table.pager, self.page_num as int),
            ).cells[self.cell_num as int].1,
    {
        match table.pager.page_at(self.page_num) {
            Some(BTreeNode::Leaf(leaf)) => {
                proof {
                    assert(self.page_num < table.pager.num_pages);
                }
                if self.cell_num < leaf.key_values.len() {
                    Some(leaf.get_row(self.cell_num))
                } else {
                    None
                }
            },
            _ => None,
        }
    }

    /// Split the full leaf under the cursor, inserting `(key, value)` at
    /// the cursor's cell first; on a root split the new root's page number
    /// comes back so the table can adopt it.
    pub fn split_and_insert(&self, table: &mut Table, key: u32, value: Vec<u8>) -> (r: Result<
        Option<usize>,
        InsertError,
    >)
        requires
            pager_wf(old(table).pager),
            self.page_num < old(table).pager.num_pages,
            spec_node_at(old(table).pager, self.page_num as int) is Leaf,
            as_leaf(spec_node_at(old(table).pager, self.page_num as int)).cells.len()
                == NODE_MAX_CELLS,
            self.cell_num == spec_lower_bound(
                leaf_keys(as_leaf(spec_node_at(old(table).pager, self.page_num as int)).cells),
                key,
            ),
            self.cell_num < NODE_MAX_CELLS ==> as_leaf(
                spec_node_at(old(table).pager, self.page_num as int),
            ).cells[self.cell_num as int].0 != key,
            value@.len() == ROW_SIZE,
        ensures
            pager_wf(final(table).pager),
            final(table).root_page_num == old(table).root_page_num,
            r is Ok <==> spec_split_possible(
                old(table).pager,
                self.page_num as int,
                self.cell_num as int,
                key,
            ),
            r matches Ok(ro) ==> spec_split_outcome(
                old(table).pager,
                self.page_num as int,
                self.cell_num as int,
                key,
                value@,
                final(table).pager,
                ro,
            ),
            r is Err ==> *final(table) == *old(table),
    {
        table.pager.split_and_insert(self.page_num, self.cell_num, key, value)
    }

    /// Borrow the node under the cursor, when its page is cached.
    pub fn get_page<'a>(&self, table: &'a Table) -> (r: Option<&'a BTreeNode>)
        ensures
            r is Some <==> self.page_num < table.pager.pages@.len() && table.pager.pages@[self.page_num as int]
                is Some,
            r matches Some(node) ==> node@ == spec_node_at(table.pager, self.page_num as int),
    {
        table.pager.page_at(self.page_num)
    }
}

/// The state after an insert that needed no split: the target leaf takes
/// the cell at its sorted position and nothing else changes.
pub open spec fn spec_plain_insert(
    o: Pager,
    p: int,
    c: int,
    key: u32,
    value: Seq<u8>,
    f: Pager,
) -> bool {
    let l = as_leaf(spec_node_at(o, p));
    &&& f.num_pages == o.num_pages
    &&& f.file_image == o.file_image
    &&& f.pages@.len() == o.pages@.len()
    &&& f.pages@[p] is Some
    &&& spec_node_at(f, p) == NodeV::Leaf(
        LeafV { is_root: l.is_root, parent: l.parent, cells: l.cells.insert(c, (key, value)) },
    )
    &&& forall|i: int| 0 <= i < f.pages@.len() && i != p ==> #[trigger] f.pages@[i] == o.pages@[i]
}

/// What inserting `(key, value)` does to a table, for every case: the
/// descent fails, the key is already present, the leaf has room, the leaf
/// is full and splits, or the split cannot go ahead.
pub open spec fn spec_insert_outcome(
    o: Table,
    key: u32,
    value: Seq<u8>,
    f: Table,
    r: Result<(), InsertError>,
) -> bool {
    match spec_descend(o.pager, o.root_page_num as int, key, TABLE_MAX_PAGES as nat) {
        None => r == Result::<(), InsertError>::Err(InsertError::PageNotFound) && f == o,
        Some(pc) => {
            let p = pc.0;
            let c = pc.1;
            let l = as_leaf(spec_node_at(o.pager, p));
            if c < l.cells.len() && l.cells[c].0 == key {
                r == Result::<(), InsertError>::Err(InsertError::DuplicateKey) && f == o
            } else if l.cells.len() < NODE_MAX_CELLS {
                &&& r == Result::<(), InsertError>::Ok(())
                &&& spec_plain_insert(o.pager, p, c, key, value, f.pager)
                &&& f.root_page_num == o.root_page_num
            } else if spec_split_possible(o.pager, p, c, key) {
                &&& r == Result::<(), InsertError>::Ok(())
                &&& if l.is_root {
                    spec_split_outcome(
                        o.pager,
                        p,
                        c,
                        key,
                        value,
                        f.pager,
                        Some((o.pager.num_pages + 1) as usize),
                    ) && f.root_page_num == o.pager.num_pages + 1
                } else {
                    spec_split_outcome(o.pager, p, c, key, value, f.pager, Option::<usize>::None)
                        && f.root_page_num == o.root_page_num
                }
            } else {
                r == Result::<(), InsertError>::Err(InsertError::PageMutFailure) && f == o
            }
        },
    }
}

/// Insert one record under its key.  The descent finds the key's leaf and
/// position; a key already there is refused with the table untouched; a
/// leaf with room takes the cell in place; a full leaf splits.
pub fn insert(table: &mut Table, key: u32, record: Vec<u8>) -> (r: Result<(), InsertError>)
    requires
        table_wf(*old(table)),
        record@.len() == ROW_SIZE,
    ensures
        table_wf(*final(table)),
        spec_insert_outcome(*old(table), key, record@, *final(table), r),
{
    let ghost o = *table;
    let cursor = match Cursor::find_insert_position(table, table.root_page_num, key) {
        Some(c) => c,
        None => {
            return Err(InsertError::PageNotFound);
        },
    };
    let ghost l = as_leaf(spec_node_at(o.pager, cursor.page_num as int));
    proof {
        lemma_lower_bound_bounds(leaf_keys(l.cells), key);
    }
    let (is_dup, is_full) = match table.pager.page_at(cursor.page_num) {
        Some(BTreeNode::Leaf(leaf)) => {
            (
                cursor.cell_num < leaf.key_values.len() && leaf.key_values[cursor.cell_num].key
                    == key,
                leaf.key_values.len() >= NODE_MAX_CELLS,
            )
        },
        _ => {
            proof {
                assert(false);
            }
            (false, false)
        },
    };
    if is_dup {
        return Err(InsertError::DuplicateKey);
    }
    proof {
        lemma_key_fresh(leaf_keys(l.cells), key);
    }
    if is_full {
        match table.pager.split_and_insert(cursor.page_num, cursor.cell_num, key, record) {
            Ok(Some(new_root)) => {
                table.root_page_num = new_root;
                Ok(())
            },
            Ok(None) => Ok(()),
            Err(e) => Err(e),
        }
    } else {
        match &mut table.pager.pages[cursor.page_num] {
            Some(BTreeNode::Leaf(leaf)) => {
                leaf.insert_at(cursor.cell_num, key, record);
            },
            _ => {
                proof {
                    assert(false);
                }
            },
        }
        proof {
            let p = cursor.page_num as int;
            let c = cursor.cell_num as int;
            assert(table.pager.pages@ =~= o.pager.pages@.update(p, table.pager.pages@[p]));
            lemma_leaf_keys_insert(l.cells, c, (key, record@));
            lemma_sorted_insert(leaf_keys(l.cells), key);
            assert(spec_node_at(table.pager, p) matches NodeV::Leaf(lf) && lf.cells
                == l.cells.insert(c, (key, record@)) && lf.is_root == l.is_root && lf.parent
                == l.parent);
            assert(spec_plain_insert(o.pager, p, c, key, record@, table.pager));
            assert forall|i: int|
                0 <= i < table.pager.pages@.len() && (#[trigger] table.pager.pages@[i])
                    is Some implies node_wf(spec_node_at(table.pager, i)) by {
                if i != p {
                    assert(table.pager.pages@[i] == o.pager.pages@[i]);
                    assert(spec_node_at(table.pager, i) == spec_node_at(o.pager, i));
                } else {
                    assert(forall|x: int|
                        0 <= x < l.cells.len() ==> (#[trigger] l.cells[x]).1.len() == ROW_SIZE);
                    assert(forall|x: int|
                        0 <= x < l.cells.insert(c, (key, record@)).len() ==> (#[trigger] l.cells.insert(
                            c,
                            (key, record@),
                        )[x]).1.len() == ROW_SIZE);
                }
            }
            assert(pager_wf(table.pager));
        }
        Ok(())
    }
}

/// The effect of running an insert statement: a statement without a
/// record of the fixed width is refused, otherwise the record is inserted
/// under the id its first bytes carry.
pub open spec fn spec_insert_statement_outcome(
    stmt: Statement,
    o: Table,
    f: Table,
    r: Result<(), InsertError>,
) -> bool {
    match stmt.row_to_insert {
        None => r == Result::<(), InsertError>::Err(InsertError::MissingRecord) && f == o,
        Some(row) => {
            if row@.len() != ROW_SIZE {
                r == Result::<(), InsertError>::Err(InsertError::MissingRecord) && f == o
            } else {
                spec_insert_outcome(o, spec_u32_of_le(row@.subrange(0, 4)), row@, f, r)
            }
        },
    }
}

/// Run an insert statement against the table.
pub fn execute_insert(statement: &Statement, table: &mut Table) -> (r: Result<(), InsertError>)
    requires
        table_wf(*old(table)),
    ensures
        table_wf(*final(table)),
        spec_insert_statement_outcome(*statement, *old(table), *final(table), r),
{
    match &statement.row_to_insert {
        None => Err(InsertError::MissingRecord),
        Some(row) => {
            if row.len() != ROW_SIZE {
                return Err(InsertError::MissingRecord);
            }
            let key = crate::row::get_id(row.as_slice());
            let record = vstd::slice::slice_to_vec(row.as_slice());
            insert(table, key, record)
        },
    }
}

/// Scan the whole table: walk the tree left to right and collect every
/// record in cell order.  On a table whose root is a leaf the result is
/// exactly that leaf's rows; on a consistent two-level tree it is exactly
/// the records of the listed children left to right, then the rightmost
/// child's.
pub fn select_all(table: &Table) -> (rows: Vec<Vec<u8>>)
    requires
        table_wf(*table),
    ensures
        forall|i: int| 0 <= i < rows@.len() ==> (#[trigger] rows@[i])@.len() == ROW_SIZE,
        (spec_node_at(table.pager, table.root_page_num as int) matches NodeV::Leaf(l)
            && l.is_root) ==> rows@.len() == as_leaf(
            spec_node_at(table.pager, table.root_page_num as int),
        ).cells.len() && forall|i: int|
            0 <= i < rows@.len() ==> (#[trigger] rows@[i])@ == as_leaf(
                spec_node_at(table.pager, table.root_page_num as int),
            ).cells[i].1,
        spec_depth2_wf(*table) ==> rows@.len() == spec_depth2_records(*table).len() && forall|
            i: int,
        |
            0 <= i < rows@.len() ==> (#[trigger] rows@[i])@ == spec_depth2_records(*table)[i].1,
{
    let ghost root = table.root_page_num as int;
    let ghost root_leaf = spec_node_at(table.pager, root) is Leaf && as_leaf(
        spec_node_at(table.pager, root),
    ).is_root;
    let ghost d2 = spec_depth2_wf(*table);
    let mut cursor = Cursor::table_start(table);
    let mut rows: Vec<Vec<u8>> = Vec::new();
    let mut fuel: usize = 2000;
    let ghost mut phase: int = 0;
    let ghost mut j: int = 0;
    while !cursor.end_of_table && fuel > 0
        invariant
            table_wf(*table),
            root == table.root_page_num as int,
            root_leaf == (spec_node_at(table.pager, root) is Leaf && as_leaf(
                spec_node_at(table.pager, root),
            ).is_root),
            d2 == spec_depth2_wf(*table),
            fuel <= 2000,
            cursor.cell_num + fuel <= 2020,
            forall|i: int| 0 <= i < rows@.len() ==> (#[trigger] rows@[i])@.len() == ROW_SIZE,
            root_leaf ==> {
                let l = as_leaf(spec_node_at(table.pager, root));
                &&& cursor.page_num == table.root_page_num
                &&& cursor.cell_num <= l.cells.len()
                &&& (!cursor.end_of_table ==> cursor.cell_num < l.cells.len())
                &&& (cursor.end_of_table ==> cursor.cell_num >= l.cells.len())
                &&& rows@.len() == cursor.cell_num
                &&& (forall|i: int|
                    0 <= i < rows@.len() ==> (#[trigger] rows@[i])@ == l.cells[i].1)
                &&& fuel + cursor.cell_num == 2000
            },
            d2 ==> {
                let r = as_internal(spec_node_at(table.pager, root));
                &&& 0 <= phase <= 3
                &&& (cursor.end_of_table ==> phase == 3)
                &&& (phase == 0 ==> cursor.page_num == table.root_page_num && cursor.cell_num
                    == 0 && !cursor.end_of_table && rows@.len() == 0 && fuel == 2000)
                &&& (phase == 1 ==> {
                    let lf = as_leaf(spec_node_at(table.pager, r.cells[j].0 as int));
                    let pre = spec_leaves_concat(*table, j) + lf.cells.take(
                        cursor.cell_num as int,
                    );
                    &&& 0 <= j < r.cells.len()
                    &&& cursor.page_num == r.cells[j].0 as usize
                    &&& !cursor.end_of_table
                    &&& cursor.cell_num < lf.cells.len()
                    &&& rows@.len() == pre.len()
                    &&& (forall|i: int|
                        0 <= i < rows@.len() ==> (#[trigger] rows@[i])@ == pre[i].1)
                    &&& fuel == 1999 - rows@.len()
                })
                &&& (phase == 2 ==> {
                    let lf = as_leaf(spec_node_at(table.pager, r.right_child as int));
                    let pre = spec_leaves_concat(*table, r.cells.len() as int) + lf.cells.take(
                        cursor.cell_num as int,
                    );
                    &&& cursor.page_num == r.right_child as usize
                    &&& !cursor.end_of_table
                    &&& cursor.cell_num < lf.cells.len()
                    &&& rows@.len() == pre.len()
                    &&& (forall|i: int|
                        0 <= i < rows@.len() ==> (#[trigger] rows@[i])@ == pre[i].1)
                    &&& fuel == 1999 - rows@.len()
                })
                &&& (phase == 3 ==> cursor.end_of_table && rows@.len() == spec_depth2_records(
                    *table,
                ).len() && (forall|i: int|
                    0 <= i < rows@.len() ==> (#[trigger] rows@[i])@ == spec_depth2_records(
                        *table,
                    )[i].1))
            },
        decreases fuel,
    {
        proof {
            crate::tree::lemma_capacities();
        }
        let ghost prev = cursor;
        let ghost rows_prev = rows@;
        match table.pager.page_at(cursor.page_num) {
            Some(BTreeNode::Leaf(leaf)) => {
                proof {
                    assert(cursor.page_num < table.pager.num_pages);
                }
                if cursor.cell_num < leaf.key_values.len() {
                    let row = leaf.get_row(cursor.cell_num);
                    rows.push(vstd::slice::slice_to_vec(row.as_slice()));
                }
                cursor.advance(table);
                proof {
                    if d2 {
                        let r = as_internal(spec_node_at(table.pager, root));
                        if phase == 1 || phase == 2 {
                            let cpage: u32 = if phase == 1 {
                                r.cells[j].0
                            } else {
                                r.right_child
                            };
                            let lf = as_leaf(spec_node_at(table.pager, cpage as int));
                            let c = prev.cell_num as int;
                            let pre_old = if phase == 1 {
                                spec_leaves_concat(*table, j) + lf.cells.take(c)
                            } else {
                                spec_leaves_concat(*table, r.cells.len() as int) + lf.cells.take(c)
                            };
                            let pre_new = pre_old.push(lf.cells[c]);
                            assert(rows@ == rows_prev.push(rows@[rows@.len() - 1]));
                            assert(rows@[rows@.len() - 1]@ == lf.cells[c].1);
                            assert forall|i: int| 0 <= i < rows@.len() implies (
                            #[trigger] rows@[i])@ == pre_new[i].1 by {
                                if i < rows_prev.len() {
                                    assert(rows@[i] == rows_prev[i]);
                                }
                            }
                            assert(lf.cells.take(c + 1) =~= lf.cells.take(c).push(lf.cells[c]));
                            if phase == 1 {
                                assert(spec_leaves_concat(*table, j) + lf.cells.take(c + 1)
                                    =~= pre_new);
                            } else {
                                assert(spec_leaves_concat(*table, r.cells.len() as int)
                                    + lf.cells.take(c + 1) =~= pre_new);
                            }
                            if c + 1 < lf.cells.len() {
                                // the cursor stayed on this leaf
                            } else {
                                // the walk climbed to the root and moved on
                                assert(lf.cells.take(c + 1) =~= lf.cells);
                                if phase == 1 {
                                    assert(spec_depth2_child_ok(*table, r, j));
                                    assert forall|x: int| 0 <= x < j implies (
                                    #[trigger] r.cells[x]).0 != cpage by {}
                                    lemma_first_child_index_unique(r.cells, cpage, j);
                                    if j + 1 < r.cells.len() {
                                        assert(spec_next_sibling(r, cpage) == r.cells[j + 1].0);
                                        assert(r.cells[j + 1].0 != cpage);
                                        assert(spec_depth2_child_ok(*table, r, j + 1));
                                        let lf2 = as_leaf(
                                            spec_node_at(table.pager, r.cells[j + 1].0 as int),
                                        );
                                        assert(spec_leaves_concat(*table, j + 1) + lf2.cells.take(0)
                                            =~= pre_new);
                                        j = j + 1;
                                    } else {
                                        assert(spec_next_sibling(r, cpage) == r.right_child);
                                        assert(r.right_child != cpage);
                                        let lf2 = as_leaf(
                                            spec_node_at(table.pager, r.right_child as int),
                                        );
                                        assert(spec_leaves_concat(*table, r.cells.len() as int)
                                            + lf2.cells.take(0) =~= pre_new);
                                        phase = 2;
                                    }
                                } else {
                                    assert forall|x: int| 0 <= x < r.cells.len() implies (
                                    #[trigger] r.cells[x]).0 != cpage by {}
                                    lemma_first_child_index_unique(
                                        r.cells,
                                        cpage,
                                        r.cells.len() as int,
                                    );
                                    assert(spec_next_sibling(r, cpage) == r.right_child);
                                    assert(spec_depth2_records(*table) =~= pre_new);
                                    phase = 3;
                                }
                            }
                        }
                    }
                }
            },
            Some(BTreeNode::Internal(inner)) => {
                if inner.key_children.len() > 0 {
                    cursor.page_num = inner.key_children[0].child as usize;
                    cursor.cell_num = 0;
                } else {
                    cursor.end_of_table = true;
                }
                proof {
                    if d2 {
                        let r = as_internal(spec_node_at(table.pager, root));
                        assert(phase == 0);
                        assert(inner@ == r);
                        assert(r.cells.len() >= 1);
                        assert(spec_depth2_child_ok(*table, r, 0));
                        let lf = as_leaf(spec_node_at(table.pager, r.cells[0].0 as int));
                        assert(spec_leaves_concat(*table, 0) + lf.cells.take(0)
                            =~= Seq::<(u32, Seq<u8>)>::empty());
                        phase = 1;
                        j = 0;
                    }
                }
            },
            None => {
                cursor.end_of_table = true;
                proof {
                    if d2 {
                        let r = as_internal(spec_node_at(table.pager, root));
                        if phase == 0 {
                            assert(table.pager.pages@[root] is Some);
                        } else if phase == 1 {
                            assert(spec_depth2_child_ok(*table, r, j));
                            assert(table.pager.pages@[r.cells[j].0 as int] is Some);
                        } else {
                            assert(phase == 2);
                            assert(table.pager.pages@[r.right_child as int] is Some);
                        }
                        assert(false);
                    }
                }
            },
        }
        fuel = fuel - 1;
    }
    proof {
        crate::tree::lemma_capacities();
        if d2 && !cursor.end_of_table {
            let r = as_internal(spec_node_at(table.pager, root));
            if phase == 1 {
                assert(spec_depth2_child_ok(*table, r, j));
                let c = r.cells[j].0 as int;
                assert(table.pager.pages@[c] is Some);
                assert(node_wf(spec_node_at(table.pager, c)));
                lemma_leaves_concat_len(*table, j);
                assert(13 * j <= 13 * 99) by (nonlinear_arith)
                    requires
                        j <= 99,
                ;
            }
            if phase == 2 {
                let c = r.right_child as int;
                assert(table.pager.pages@[c] is Some);
                assert(node_wf(spec_node_at(table.pager, c)));
                lemma_leaves_concat_len(*table, r.cells.len() as int);
                assert(13 * r.cells.len() <= 13 * 99) by (nonlinear_arith)
                    requires
                        r.cells.len() <= 99,
                ;
            }
            assert(false);
        }
    }
    rows
}

/// Run a select statement: the full ordered scan.
pub fn execute_select(_statement: &Statement, table: &Table) -> (rows: Vec<Vec<u8>>)
    requires
        table_wf(*table),
    ensures
        forall|i: int| 0 <= i < rows@.len() ==> (#[trigger] rows@[i])@.len() == ROW_SIZE,
        (spec_node_at(table.pager, table.root_page_num as int) matches NodeV::Leaf(l)
            && l.is_root) ==> rows@.len() == as_leaf(
            spec_node_at(table.pager, table.root_page_num as int),
        ).cells.len() && forall|i: int|
            0 <= i < rows@.len() ==> (#[trigger] rows@[i])@ == as_leaf(
                spec_node_at(table.pager, table.root_page_num as int),
            ).cells[i].1,
{
    select_all(table)
}

/// Run one statement: an insert mutates the tree, a select returns every
/// record in scan order.
pub fn execute_statement(statement: &Statement, table: &mut Table) -> (r: Result<
    Vec<Vec<u8>>,
    InsertError,
>)
    requires
        table_wf(*old(table)),
    ensures
        table_wf(*final(table)),
        statement.st_type == StatementType::Insert ==> match r {
            Ok(rows) => rows@.len() == 0 && spec_insert_statement_outcome(
                *statement,
                *old(table),
                *final(table),
                Ok(()),
            ),
            Err(e) => spec_insert_statement_outcome(
                *statement,
                *old(table),
                *final(table),
                Err(e),
            ),
        },
        statement.st_type == StatementType::Select ==> *final(table) == *old(table) && (r matches
            Ok(rows) && forall|i: int|
            0 <= i < rows@.len() ==> (#[trigger] rows@[i])@.len() == ROW_SIZE),
{
    match statement.st_type {
        StatementType::Insert => {
            match execute_insert(statement, table) {
                Ok(_) => Ok(Vec::new()),
                Err(e) => Err(e),
            }
        },
        StatementType::Select => Ok(select_all(table)),
    }
}

/// Law: a scan of a table whose root is its only page — a root leaf —
/// returns the leaf's records, whose keys are strictly ascending; no two
/// scanned records share a key, whatever order the keys were inserted in.
pub proof fn lemma_root_leaf_scan_ascending(t: Table)
    requires
        table_wf(t),
        spec_node_at(t.pager, t.root_page_num as int) is Leaf,
    ensures
        forall|i: int, j: int|
            0 <= i < j < as_leaf(spec_node_at(t.pager, t.root_page_num as int)).cells.len()
                ==> (#[trigger] as_leaf(spec_node_at(t.pager, t.root_page_num as int)).cells[i]).0
                < (#[trigger] as_leaf(spec_node_at(t.pager, t.root_page_num as int)).cells[j]).0,
{
    let l = as_leaf(spec_node_at(t.pager, t.root_page_num as int));
    assert forall|i: int, j: int| 0 <= i < j < l.cells.len() implies (#[trigger] l.cells[i]).0
        < (#[trigger] l.cells[j]).0 by {
        assert(leaf_keys(l.cells)[i] == l.cells[i].0);
        assert(leaf_keys(l.cells)[j] == l.cells[j].0);
    }
}

/// Law: closing a table and reopening the flushed image preserves every
/// page — and with it every record, byte for byte.  The image `close`
/// returns opens cleanly, and every page of the reopened table equals the
/// page that was flushed.  Two side conditions name the tables this holds
/// of: exactly one page carries the root flag, and no page is the empty
/// non-root leaf with parent zero, whose serialized page is
/// indistinguishable from a never-written one.
pub proof fn lemma_close_reopen_preserves(t: Table, image: Seq<u8>)
    requires
        table_wf(t),
        image.len() == crate::PAGE_SIZE * t.pager.num_pages,
        forall|i: int|
            0 <= i < t.pager.num_pages ==> #[trigger] image.subrange(
                crate::PAGE_SIZE * i,
                crate::PAGE_SIZE * (i + 1),
            ) == crate::page::spec_serialize_node(spec_node_at(t.pager, i)),
        spec_is_root_page_of(t, t.root_page_num as int),
        forall|i: int|
            0 <= i < t.pager.num_pages && i != t.root_page_num ==> !spec_is_root_page_of(t, i),
        forall|i: int|
            0 <= i < t.pager.num_pages ==> spec_node_at(t.pager, i) != NodeV::Leaf(
                LeafV { is_root: false, parent: 0, cells: Seq::<(u32, Seq<u8>)>::empty() },
            ),
    ensures
        spec_num_pages(image.len() as int) == t.pager.num_pages,
        forall|i: int|
            0 <= i < t.pager.num_pages ==> #[trigger] spec_image_node(image, i) == spec_node_at(
                t.pager,
                i,
            ),
        spec_open_ok(image),
{
    let ps = crate::PAGE_SIZE as int;
    let n = t.pager.num_pages as int;
    assert(ps * n >= ps * 1 && ps * n <= ps * (TABLE_MAX_PAGES as int)) by (nonlinear_arith)
        requires
            1 <= n <= TABLE_MAX_PAGES,
            ps >= 1,
    ;
    assert((ps * n) % ps == 0) by (nonlinear_arith)
        requires
            ps > 0,
            n >= 0,
    ;
    assert((ps * n) / ps == n) by (nonlinear_arith)
        requires
            ps > 0,
            n >= 0,
    ;
    assert(spec_num_pages(image.len() as int) == n);
    assert forall|i: int| 0 <= i < n implies #[trigger] spec_image_node(image, i) == spec_node_at(
        t.pager,
        i,
    ) && spec_deserialize(spec_page_bytes(image, i)) is Some by {
        let node = spec_node_at(t.pager, i);
        assert(ps * i + ps == ps * (i + 1) && ps * (i + 1) <= ps * n) by (nonlinear_arith)
            requires
                i + 1 <= n,
                ps >= 0,
        ;
        assert(ps * i >= 0) by (nonlinear_arith)
            requires
                i >= 0,
                ps >= 0,
        ;
        assert(spec_page_bytes(image, i) =~= image.subrange(ps * i, ps * (i + 1))) by {
            crate::page::lemma_node_content_len(node);
        }
        assert(node_fits(node));
        crate::page::lemma_node_round_trip(node);
    }
    assert forall|i: int| 0 <= i < n implies node_wf(#[trigger] spec_image_node(image, i)) by {}
    assert forall|i: int| 0 <= i < n implies (#[trigger] spec_deserialize(
        spec_page_bytes(image, i),
    )) is Some by {
        assert(spec_image_node(image, i) == spec_node_at(t.pager, i));
    }
    assert(spec_is_root_page(image, t.root_page_num as int));
    assert forall|i: int| 0 <= i < n && i != t.root_page_num implies !spec_is_root_page(
        image,
        i,
    ) by {
        assert(spec_image_node(image, i) == spec_node_at(t.pager, i));
        assert(!spec_is_root_page_of(t, i));
    }
    assert(spec_open_ok(image));
}

/// Whether the node cached at page `i` of a table carries the root flag.
pub open spec fn spec_is_root_page_of(t: Table, i: int) -> bool {
    spec_is_root(spec_node_at(t.pager, i))
}

/// The first position among an internal page's cells whose child is
/// `page`, or the cell count when no cell points there.
pub open spec fn spec_first_child_index(cells: Seq<(u32, u32)>, page: u32) -> int
    decreases cells.len(),
{
    if cells.len() == 0 {
        0
    } else if cells[0].0 == page {
        0
    } else {
        1 + spec_first_child_index(cells.drop_first(), page)
    }
}

proof fn lemma_first_child_index_bounds(cells: Seq<(u32, u32)>, page: u32)
    ensures
        0 <= spec_first_child_index(cells, page) <= cells.len(),
        forall|x: int| 0 <= x < spec_first_child_index(cells, page) ==> (#[trigger] cells[x]).0
            != page,
        spec_first_child_index(cells, page) < cells.len() ==> cells[spec_first_child_index(
            cells,
            page,
        )].0 == page,
    decreases cells.len(),
{
    if cells.len() != 0 && cells[0].0 != page {
        lemma_first_child_index_bounds(cells.drop_first(), page);
        assert forall|x: int| 0 <= x < spec_first_child_index(cells, page) implies (
        #[trigger] cells[x]).0 != page by {
            if x > 0 {
                assert(cells.drop_first()[x - 1].0 != page);
            }
        }
    }
}

proof fn lemma_first_child_index_unique(cells: Seq<(u32, u32)>, page: u32, i: int)
    requires
        0 <= i <= cells.len(),
        forall|x: int| 0 <= x < i ==> (#[trigger] cells[x]).0 != page,
        i < cells.len() ==> cells[i].0 == page,
    ensures
        spec_first_child_index(cells, page) == i,
    decreases cells.len(),
{
    if cells.len() != 0 && cells[0].0 != page {
        assert(i >= 1);
        lemma_first_child_index_unique(cells.drop_first(), page, i - 1);
    }
}

/// The page the sibling walk moves to from `page`: the child after the
/// first cell pointing at `page`, or the rightmost child when that cell is
/// the last one or no cell points at `page`.
pub open spec fn spec_next_sibling(p: InternalV, page: u32) -> u32 {
    let i = spec_first_child_index(p.cells, page);
    if i < p.cells.len() && i + 1 < p.cells.len() {
        p.cells[i + 1].0
    } else {
        p.right_child
    }
}

/// Cell `i` of the root names a sound child: an allocated non-root leaf
/// with at least one cell, naming the root as its parent, its keys at
/// most the cell's key and above the previous cell's key.
pub open spec fn spec_depth2_child_ok(t: Table, r: InternalV, i: int) -> bool {
    let c = r.cells[i].0 as int;
    &&& 0 <= c < t.pager.num_pages
    &&& c != t.root_page_num
    &&& spec_node_at(t.pager, c) is Leaf
    &&& {
        let l = as_leaf(spec_node_at(t.pager, c));
        &&& !l.is_root
        &&& l.parent == t.root_page_num
        &&& 1 <= l.cells.len()
        &&& forall|k: int| 0 <= k < l.cells.len() ==> (#[trigger] l.cells[k]).0 <= r.cells[i].1
        &&& i > 0 ==> forall|k: int|
            0 <= k < l.cells.len() ==> (#[trigger] l.cells[k]).0 > r.cells[i - 1].1
    }
}

/// The rightmost child is a sound leaf whose keys lie above every listed key.
pub open spec fn spec_depth2_right_ok(t: Table, r: InternalV) -> bool {
    let c = r.right_child as int;
    &&& 0 <= c < t.pager.num_pages
    &&& c != t.root_page_num
    &&& spec_node_at(t.pager, c) is Leaf
    &&& {
        let l = as_leaf(spec_node_at(t.pager, c));
        &&& !l.is_root
        &&& l.parent == t.root_page_num
        &&& 1 <= l.cells.len()
        &&& forall|k: int|
            0 <= k < l.cells.len() ==> (#[trigger] l.cells[k]).0 > r.cells[r.cells.len() - 1].1
    }
}

/// A consistent two-level tree: the root is an internal page whose cells
/// name distinct leaf children in key order, the rightmost child holds
/// the keys above every listed key, and parent pointers are true.
pub open spec fn spec_depth2_wf(t: Table) -> bool {
    match spec_node_at(t.pager, t.root_page_num as int) {
        NodeV::Internal(r) => {
            &&& r.is_root
            &&& 1 <= r.cells.len() < TABLE_MAX_PAGES
            &&& forall|i: int| 0 <= i < r.cells.len() ==> spec_depth2_child_ok(t, r, i)
            &&& spec_depth2_right_ok(t, r)
            &&& forall|i: int, j: int|
                0 <= i < j < r.cells.len() ==> (#[trigger] r.cells[i]).0 != (
                #[trigger] r.cells[j]).0
            &&& forall|i: int| 0 <= i < r.cells.len() ==> (#[trigger] r.cells[i]).0
                != r.right_child
        },
        NodeV::Leaf(_) => false,
    }
}

/// The records of the first `j` listed children, in child order.
pub open spec fn spec_leaves_concat(t: Table, j: int) -> Seq<(u32, Seq<u8>)>
    decreases j,
{
    if j <= 0 {
        Seq::empty()
    } else {
        let r = as_internal(spec_node_at(t.pager, t.root_page_num as int));
        spec_leaves_concat(t, j - 1) + as_leaf(
            spec_node_at(t.pager, r.cells[j - 1].0 as int),
        ).cells
    }
}

/// Every record of a consistent two-level tree, in scan order: the listed
/// children left to right, then the rightmost child.
pub open spec fn spec_depth2_records(t: Table) -> Seq<(u32, Seq<u8>)> {
    let r = as_internal(spec_node_at(t.pager, t.root_page_num as int));
    spec_leaves_concat(t, r.cells.len() as int) + as_leaf(
        spec_node_at(t.pager, r.right_child as int),
    ).cells
}

/// No run of listed children holds more records than their pages can.
proof fn lemma_leaves_concat_len(t: Table, j: int)
    requires
        table_wf(t),
        spec_depth2_wf(t),
        0 <= j <= as_internal(spec_node_at(t.pager, t.root_page_num as int)).cells.len(),
    ensures
        spec_leaves_concat(t, j).len() <= 13 * j,
    decreases j,
{
    crate::tree::lemma_capacities();
    if j > 0 {
        lemma_leaves_concat_len(t, j - 1);
        let r = as_internal(spec_node_at(t.pager, t.root_page_num as int));
        assert(spec_depth2_child_ok(t, r, j - 1));
        let c = r.cells[j - 1].0 as int;
        assert(t.pager.pages@[c] is Some);
        assert(node_wf(spec_node_at(t.pager, c)));
        assert(13 * (j - 1) + 13 == 13 * j) by (nonlinear_arith);
    }
}

/// The records of the first `j` listed children are strictly ascending by
/// key, and all their keys stay at or below cell `j - 1`'s key.
proof fn lemma_leaves_concat_ascending(t: Table, j: int)
    requires
        table_wf(t),
        spec_depth2_wf(t),
        0 <= j <= as_internal(spec_node_at(t.pager, t.root_page_num as int)).cells.len(),
    ensures
        forall|a: int, b: int|
            0 <= a < b < spec_leaves_concat(t, j).len() ==> (#[trigger] spec_leaves_concat(
                t,
                j,
            )[a]).0 < (#[trigger] spec_leaves_concat(t, j)[b]).0,
        j > 0 ==> forall|a: int|
            0 <= a < spec_leaves_concat(t, j).len() ==> (#[trigger] spec_leaves_concat(
                t,
                j,
            )[a]).0 <= as_internal(spec_node_at(t.pager, t.root_page_num as int)).cells[j - 1].1,
    decreases j,
{
    let r = as_internal(spec_node_at(t.pager, t.root_page_num as int));
    if j > 0 {
        lemma_leaves_concat_ascending(t, j - 1);
        let prior = spec_leaves_concat(t, j - 1);
        let whole = spec_leaves_concat(t, j);
        assert(spec_depth2_child_ok(t, r, j - 1));
        let c = r.cells[j - 1].0 as int;
        let lf = as_leaf(spec_node_at(t.pager, c));
        assert(t.pager.pages@[c] is Some);
        assert(node_wf(spec_node_at(t.pager, c)));
        assert(spec_keys_sorted(leaf_keys(lf.cells)));
        assert(node_wf(spec_node_at(t.pager, t.root_page_num as int)));
        assert(spec_keys_sorted(internal_keys(r.cells)));
        assert(whole == prior + lf.cells);
        assert forall|a: int, b: int| 0 <= a < b < whole.len() implies (#[trigger] whole[a]).0 < (
        #[trigger] whole[b]).0 by {
            if b < prior.len() {
                assert(whole[a] == prior[a] && whole[b] == prior[b]);
            } else if a >= prior.len() {
                assert(whole[a] == lf.cells[a - prior.len()]);
                assert(whole[b] == lf.cells[b - prior.len()]);
                assert(leaf_keys(lf.cells)[a - prior.len()] == lf.cells[a - prior.len()].0);
                assert(leaf_keys(lf.cells)[b - prior.len()] == lf.cells[b - prior.len()].0);
            } else {
                assert(whole[a] == prior[a]);
                assert(whole[b] == lf.cells[b - prior.len()]);
                assert(j - 1 > 0);
                assert(prior[a].0 <= r.cells[j - 2].1);
                assert(internal_keys(r.cells)[j - 2] == r.cells[j - 2].1);
                assert(internal_keys(r.cells)[j - 1] == r.cells[j - 1].1);
                assert(lf.cells[b - prior.len()].0 > r.cells[j - 2].1);
            }
        }
        assert forall|a: int| 0 <= a < whole.len() implies (#[trigger] whole[a]).0 <= r.cells[j
            - 1].1 by {
            if a < prior.len() {
                assert(whole[a] == prior[a]);
                assert(prior[a].0 <= r.cells[j - 2].1);
                assert(internal_keys(r.cells)[j - 2] == r.cells[j - 2].1);
                assert(internal_keys(r.cells)[j - 1] == r.cells[j - 1].1);
            } else {
                assert(whole[a] == lf.cells[a - prior.len()]);
            }
        }
    }
}

/// Law: every record a scan of a consistent two-level tree yields carries
/// a key strictly above the one before it — records come out in strictly
/// ascending key order, whatever order their keys went in.
pub proof fn lemma_depth2_scan_ascending(t: Table)
    requires
        table_wf(t),
        spec_depth2_wf(t),
    ensures
        forall|a: int, b: int|
            0 <= a < b < spec_depth2_records(t).len() ==> (#[trigger] spec_depth2_records(
                t,
            )[a]).0 < (#[trigger] spec_depth2_records(t)[b]).0,
{
    let r = as_internal(spec_node_at(t.pager, t.root_page_num as int));
    let k = r.cells.len() as int;
    lemma_leaves_concat_ascending(t, k);
    let prior = spec_leaves_concat(t, k);
    let whole = spec_depth2_records(t);
    let c = r.right_child as int;
    let lf = as_leaf(spec_node_at(t.pager, c));
    assert(t.pager.pages@[c] is Some);
    assert(node_wf(spec_node_at(t.pager, c)));
    assert(spec_keys_sorted(leaf_keys(lf.cells)));
    assert(node_wf(spec_node_at(t.pager, t.root_page_num as int)));
    assert(spec_keys_sorted(internal_keys(r.cells)));
    assert(whole == prior + lf.cells);
    assert forall|a: int, b: int| 0 <= a < b < whole.len() implies (#[trigger] whole[a]).0 < (
    #[trigger] whole[b]).0 by {
        if b < prior.len() {
            assert(whole[a] == prior[a] && whole[b] == prior[b]);
        } else if a >= prior.len() {
            assert(whole[a] == lf.cells[a - prior.len()]);
            assert(whole[b] == lf.cells[b - prior.len()]);
            assert(leaf_keys(lf.cells)[a - prior.len()] == lf.cells[a - prior.len()].0);
            assert(leaf_keys(lf.cells)[b - prior.len()] == lf.cells[b - prior.len()].0);
        } else {
            assert(whole[a] == prior[a]);
            assert(whole[b] == lf.cells[b - prior.len()]);
            assert(prior[a].0 <= r.cells[k - 1].1);
            assert(lf.cells[b - prior.len()].0 > r.cells[k - 1].1);
        }
    }
}

/// Law: the first split makes a consistent two-level tree.  When an
/// insert into a table whose root is a full root leaf succeeds, the table
/// comes out as an internal root over two leaf children — the shape whose
/// scans are proved exact and ascending.
pub proof fn lemma_root_split_gives_depth2(o: Table, key: u32, value: Seq<u8>, f: Table)
    requires
        table_wf(o),
        spec_node_at(o.pager, o.root_page_num as int) is Leaf,
        as_leaf(spec_node_at(o.pager, o.root_page_num as int)).is_root,
        as_leaf(spec_node_at(o.pager, o.root_page_num as int)).cells.len() == NODE_MAX_CELLS,
        spec_insert_outcome(o, key, value, f, Ok(())),
    ensures
        spec_depth2_wf(f),
{
    crate::tree::lemma_capacities();
    crate::pager::lemma_split_counts();
    let root = o.root_page_num as int;
    let l = as_leaf(spec_node_at(o.pager, root));
    let old_keys = leaf_keys(l.cells);
    assert(spec_descend(o.pager, root, key, TABLE_MAX_PAGES as nat) == Some(
        (root, spec_lower_bound(old_keys, key)),
    ));
    let c = spec_lower_bound(old_keys, key);
    lemma_lower_bound_bounds(old_keys, key);
    assert(!(c < l.cells.len() && l.cells[c].0 == key));
    assert(c < l.cells.len() ==> old_keys[c] != key) by {
        if c < l.cells.len() {
            assert(old_keys[c] == l.cells[c].0);
        }
    }
    lemma_key_fresh(old_keys, key);
    lemma_sorted_insert(old_keys, key);
    lemma_leaf_keys_insert(l.cells, c, (key, value));
    let all = l.cells.insert(c, (key, value));
    let all_keys = old_keys.insert(c, key);
    assert(leaf_keys(all) == all_keys);
    assert(spec_keys_sorted(all_keys));
    let sep = spec_split_separator(l, c, key);
    assert(sep == all_keys[6]);
    let left = all.take(7);
    let right = all.skip(7);
    let right_page = o.pager.num_pages as int;
    let new_root = o.pager.num_pages as int + 1;
    assert(spec_split_outcome(o.pager, root, c, key, value, f.pager, Some(
        (o.pager.num_pages + 1) as usize,
    )));
    assert(f.root_page_num == new_root);
    let r = as_internal(spec_node_at(f.pager, new_root));
    assert(r.cells == seq![(root as u32, sep)]);
    assert(r.cells.len() == 1);
    assert(r.cells[0].0 == root as u32);
    assert(r.right_child == right_page as u32);
    assert(spec_depth2_child_ok(f, r, 0)) by {
        let lf = as_leaf(spec_node_at(f.pager, root));
        assert(lf.cells == left);
        assert(lf.parent == new_root as u32);
        assert forall|k: int| 0 <= k < lf.cells.len() implies (#[trigger] lf.cells[k]).0
            <= r.cells[0].1 by {
            assert(lf.cells[k] == all[k]);
            assert(leaf_keys(all)[k] == all[k].0);
            if k < 6 {
                assert(all_keys[k] < all_keys[6]);
            }
        }
    }
    assert(spec_depth2_right_ok(f, r)) by {
        let lf = as_leaf(spec_node_at(f.pager, right_page));
        assert(lf.cells == right);
        assert(lf.parent == new_root as u32);
        assert forall|k: int| 0 <= k < lf.cells.len() implies (#[trigger] lf.cells[k]).0
            > r.cells[0].1 by {
            assert(lf.cells[k] == all[7 + k]);
            assert(leaf_keys(all)[7 + k] == all[7 + k].0);
            assert(all_keys[6] < all_keys[7 + k]);
        }
    }
    assert(spec_depth2_wf(f));
}

/// On a consistent two-level tree the descent lands on the child the root
/// routes the key to, at the key's insertion position on that leaf.
proof fn lemma_depth2_descend(t: Table, key: u32)
    requires
        table_wf(t),
        spec_depth2_wf(t),
    ensures
        ({
            let r = as_internal(spec_node_at(t.pager, t.root_page_num as int));
            let i = spec_lower_bound(internal_keys(r.cells), key);
            let child = if i < r.cells.len() {
                r.cells[i].0
            } else {
                r.right_child
            };
            spec_descend(t.pager, t.root_page_num as int, key, TABLE_MAX_PAGES as nat) == Some(
                (
                    child as int,
                    spec_lower_bound(
                        leaf_keys(as_leaf(spec_node_at(t.pager, child as int)).cells),
                        key,
                    ),
                ),
            )
        }),
{
    let root = t.root_page_num as int;
    let r = as_internal(spec_node_at(t.pager, root));
    let i = spec_lower_bound(internal_keys(r.cells), key);
    lemma_lower_bound_bounds(internal_keys(r.cells), key);
    let child = if i < r.cells.len() {
        r.cells[i].0
    } else {
        r.right_child
    };
    if i < r.cells.len() {
        assert(spec_depth2_child_ok(t, r, i));
    }
    assert(spec_pick_child(r, key) == child);
    assert(t.pager.pages@[child as int] is Some);
    assert(spec_node_at(t.pager, child as int) is Leaf);
    assert(spec_descend(t.pager, root, key, TABLE_MAX_PAGES as nat) == spec_descend(
        t.pager,
        child as int,
        key,
        (TABLE_MAX_PAGES - 1) as nat,
    ));
    assert(spec_descend(t.pager, child as int, key, (TABLE_MAX_PAGES - 1) as nat) == Some(
        (
            child as int,
            spec_lower_bound(leaf_keys(as_leaf(spec_node_at(t.pager, child as int)).cells), key),
        ),
    ));
}

/// Law: an insert that needs no split keeps a consistent two-level tree
/// consistent — the record lands on the child the root routes its key to,
/// inside that child's key range.
pub proof fn lemma_plain_insert_preserves_depth2(o: Table, key: u32, value: Seq<u8>, f: Table)
    requires
        table_wf(o),
        spec_depth2_wf(o),
        spec_insert_outcome(o, key, value, f, Ok(())),
        ({
            let pc = spec_descend(o.pager, o.root_page_num as int, key, TABLE_MAX_PAGES as nat);
            pc matches Some(x) && as_leaf(spec_node_at(o.pager, x.0)).cells.len()
                < NODE_MAX_CELLS
        }),
    ensures
        spec_depth2_wf(f),
        f.root_page_num == o.root_page_num,
{
    let root = o.root_page_num as int;
    let r = as_internal(spec_node_at(o.pager, root));
    lemma_depth2_descend(o, key);
    let i = spec_lower_bound(internal_keys(r.cells), key);
    lemma_lower_bound_bounds(internal_keys(r.cells), key);
    let child = if i < r.cells.len() {
        r.cells[i].0
    } else {
        r.right_child
    };
    let p = child as int;
    let l = as_leaf(spec_node_at(o.pager, p));
    let c = spec_lower_bound(leaf_keys(l.cells), key);
    assert(spec_plain_insert(o.pager, p, c, key, value, f.pager));
    lemma_lower_bound_bounds(leaf_keys(l.cells), key);
    if i < r.cells.len() {
        assert(spec_depth2_child_ok(o, r, i));
    } else {
        assert(spec_depth2_right_ok(o, r));
    }
    assert(p != root);
    assert(spec_node_at(f.pager, root) == spec_node_at(o.pager, root));
    let lf = as_leaf(spec_node_at(f.pager, p));
    assert(lf.cells == l.cells.insert(c, (key, value)));
    assert(lf.parent == l.parent && lf.is_root == l.is_root);
    // the new key obeys the child's bounds
    assert(i < r.cells.len() ==> key <= r.cells[i].1) by {
        if i < r.cells.len() {
            assert(internal_keys(r.cells)[i] == r.cells[i].1);
        }
    }
    assert(i > 0 ==> key > r.cells[i - 1].1) by {
        if i > 0 {
            assert(internal_keys(r.cells)[i - 1] == r.cells[i - 1].1);
        }
    }
    assert forall|k: int| 0 <= k < lf.cells.len() implies {
        &&& (i < r.cells.len() ==> (#[trigger] lf.cells[k]).0 <= r.cells[i].1)
        &&& (i > 0 ==> lf.cells[k].0 > r.cells[i - 1].1)
        &&& (i == r.cells.len() ==> lf.cells[k].0 > r.cells[r.cells.len() - 1].1)
    } by {
        if k < c {
            assert(lf.cells[k] == l.cells[k]);
        } else if k == c {
            assert(lf.cells[k] == (key, value));
        } else {
            assert(lf.cells[k] == l.cells[k - 1]);
        }
    }
    assert forall|x: int| 0 <= x < r.cells.len() implies spec_depth2_child_ok(f, r, x) by {
        assert(spec_depth2_child_ok(o, r, x));
        if r.cells[x].0 as int != p {
            assert(f.pager.pages@[r.cells[x].0 as int] == o.pager.pages@[r.cells[x].0 as int]);
        } else {
            assert(x == i) by {
                if x != i {
                    if i < r.cells.len() {
                        assert(r.cells[x].0 != r.cells[i].0);
                    } else {
                        assert(r.cells[x].0 != r.right_child);
                    }
                }
            }
        }
    }
    assert(spec_depth2_right_ok(f, r)) by {
        assert(spec_depth2_right_ok(o, r));
        if r.right_child as int != p {
            assert(f.pager.pages@[r.right_child as int] == o.pager.pages@[r.right_child as int]);
        } else {
            assert(i == r.cells.len()) by {
                if i < r.cells.len() {
                    assert(r.cells[i].0 != r.right_child);
                }
            }
        }
    }
    assert(spec_depth2_wf(f));
}

/// Law: a split of the rightmost child keeps a consistent two-level tree
/// consistent, as long as the root has room to list one more child: the
/// left half joins the listed children under the promoted separator and
/// the fresh right half becomes the rightmost child.
pub proof fn lemma_rightmost_split_preserves_depth2(o: Table, key: u32, value: Seq<u8>, f: Table)
    requires
        table_wf(o),
        spec_depth2_wf(o),
        spec_insert_outcome(o, key, value, f, Ok(())),
        ({
            let r = as_internal(spec_node_at(o.pager, o.root_page_num as int));
            let pc = spec_descend(o.pager, o.root_page_num as int, key, TABLE_MAX_PAGES as nat);
            pc matches Some(x) && x.0 == r.right_child as int && as_leaf(
                spec_node_at(o.pager, x.0),
            ).cells.len() == NODE_MAX_CELLS
        }),
        as_internal(spec_node_at(o.pager, o.root_page_num as int)).cells.len() + 1
            < TABLE_MAX_PAGES,
    ensures
        spec_depth2_wf(f),
        f.root_page_num == o.root_page_num,
{
    crate::tree::lemma_capacities();
    crate::pager::lemma_split_counts();
    let root = o.root_page_num as int;
    let r = as_internal(spec_node_at(o.pager, root));
    let m = r.cells.len() as int;
    lemma_depth2_descend(o, key);
    let i = spec_lower_bound(internal_keys(r.cells), key);
    lemma_lower_bound_bounds(internal_keys(r.cells), key);
    assert(spec_depth2_right_ok(o, r));
    let p = r.right_child as int;
    assert(i == m) by {
        if i < m {
            assert(spec_depth2_child_ok(o, r, i));
            assert(r.cells[i].0 != r.right_child);
        }
    }
    assert(key > r.cells[m - 1].1) by {
        assert(internal_keys(r.cells)[m - 1] == r.cells[m - 1].1);
    }
    let l = as_leaf(spec_node_at(o.pager, p));
    let old_keys = leaf_keys(l.cells);
    let c = spec_lower_bound(old_keys, key);
    lemma_lower_bound_bounds(old_keys, key);
    assert(!(c < l.cells.len() && l.cells[c].0 == key));
    assert(c < l.cells.len() ==> old_keys[c] != key) by {
        if c < l.cells.len() {
            assert(old_keys[c] == l.cells[c].0);
        }
    }
    lemma_key_fresh(old_keys, key);
    lemma_sorted_insert(old_keys, key);
    lemma_leaf_keys_insert(l.cells, c, (key, value));
    let all = l.cells.insert(c, (key, value));
    let all_keys = old_keys.insert(c, key);
    assert(leaf_keys(all) == all_keys);
    assert(spec_keys_sorted(all_keys));
    let sep = spec_split_separator(l, c, key);
    assert(sep == all_keys[6]);
    // every combined key, the new one included, lies above the last listed key
    assert forall|k: int| 0 <= k < all.len() implies (#[trigger] all[k]).0 > r.cells[m - 1].1 by {
        if k < c {
            assert(all[k] == l.cells[k]);
        } else if k == c {
            assert(all[k] == (key, value));
        } else {
            assert(all[k] == l.cells[k - 1]);
        }
    }
    assert(leaf_keys(all)[6] == all[6].0);
    assert(sep > r.cells[m - 1].1);
    assert(!l.is_root);
    assert(spec_split_outcome(o.pager, p, c, key, value, f.pager, Option::<usize>::None));
    assert(f.root_page_num == o.root_page_num);
    let right_page = o.pager.num_pages as int;
    let rf = as_internal(spec_node_at(f.pager, root));
    let pos = spec_lower_bound(internal_keys(r.cells), sep);
    assert(pos == m) by {
        assert forall|x: int| 0 <= x < m implies internal_keys(r.cells)[x] < sep by {
            assert(internal_keys(r.cells)[x] == r.cells[x].1);
            if x < m - 1 {
                assert(internal_keys(r.cells)[x] < internal_keys(r.cells)[m - 1]);
            }
        }
        crate::tree::lemma_lower_bound_unique(internal_keys(r.cells), sep, m);
    }
    assert(rf.cells == r.cells.insert(m, (p as u32, sep)));
    assert(rf.right_child == right_page as u32);
    assert(rf.is_root == r.is_root && rf.parent == r.parent);
    // the untouched children keep their soundness
    assert forall|x: int| 0 <= x < m implies spec_depth2_child_ok(f, rf, x) by {
        assert(spec_depth2_child_ok(o, r, x));
        assert(rf.cells[x] == r.cells[x]);
        assert(x > 0 ==> rf.cells[x - 1] == r.cells[x - 1]);
        assert(r.cells[x].0 != r.right_child);
        assert(r.cells[x].0 as int != right_page);
        assert(f.pager.pages@[r.cells[x].0 as int] == o.pager.pages@[r.cells[x].0 as int]);
    }
    // the left half becomes the last listed child
    assert(spec_depth2_child_ok(f, rf, m)) by {
        let lf = as_leaf(spec_node_at(f.pager, p));
        assert(lf.cells == all.take(7));
        assert(lf.parent == l.parent);
        assert(rf.cells[m] == (p as u32, sep));
        assert(rf.cells[m - 1] == r.cells[m - 1]);
        assert forall|k: int| 0 <= k < lf.cells.len() implies (#[trigger] lf.cells[k]).0
            <= rf.cells[m].1 && lf.cells[k].0 > rf.cells[m - 1].1 by {
            assert(lf.cells[k] == all[k]);
            assert(leaf_keys(all)[k] == all[k].0);
            if k < 6 {
                assert(all_keys[k] < all_keys[6]);
            }
        }
    }
    // the fresh right half is the new rightmost child
    assert(spec_depth2_right_ok(f, rf)) by {
        let lf = as_leaf(spec_node_at(f.pager, right_page));
        assert(lf.cells == all.skip(7));
        assert(lf.parent == l.parent);
        assert(rf.cells[rf.cells.len() - 1] == (p as u32, sep));
        assert forall|k: int| 0 <= k < lf.cells.len() implies (#[trigger] lf.cells[k]).0
            > rf.cells[rf.cells.len() - 1].1 by {
            assert(lf.cells[k] == all[7 + k]);
            assert(leaf_keys(all)[7 + k] == all[7 + k].0);
            assert(all_keys[6] < all_keys[7 + k]);
        }
    }
    // children stay pairwise distinct
    assert forall|x: int, y: int| 0 <= x < y < rf.cells.len() implies (#[trigger] rf.cells[x]).0
        != (#[trigger] rf.cells[y]).0 by {
        if y < m {
            assert(rf.cells[x] == r.cells[x] && rf.cells[y] == r.cells[y]);
        } else {
            assert(rf.cells[x] == r.cells[x]);
            assert(rf.cells[y] == (p as u32, sep));
            assert(r.cells[x].0 != r.right_child);
        }
    }
    assert forall|x: int| 0 <= x < rf.cells.len() implies (#[trigger] rf.cells[x]).0
        != rf.right_child by {
        if x < m {
            assert(spec_depth2_child_ok(o, r, x));
            assert((r.cells[x].0 as int) < o.pager.num_pages);
        } else {
            assert(rf.cells[x].0 == p as u32);
            assert(p < o.pager.num_pages);
        }
    }
    assert(spec_depth2_wf(f));
}

} // verus!
