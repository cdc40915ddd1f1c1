//! Pager: owns the byte image of the backing file and the in-memory page
//! slot table keyed by page number.  It loads pages lazily out of the
//! image, allocates new page numbers from a monotonic counter, serializes
//! every page back into a fresh image on flush, and hosts the leaf split.

use vstd::prelude::*;
use vstd::pervasive::VecAdditionalExecFns;
use crate::page::node_fits;
use crate::page::spec_deserialize;
use crate::page::spec_serialize_node;
use crate::tree::internal_keys;
use crate::tree::internal_wf;
use crate::tree::leaf_wf;
use crate::tree::leaf_keys;
use crate::tree::lemma_capacities;
use crate::tree::lemma_internal_keys_insert;
use crate::tree::lemma_key_fresh;
use crate::tree::lemma_leaf_keys_insert;
use crate::tree::lemma_lower_bound_bounds;
use crate::tree::lemma_sorted_insert;
use crate::tree::node_wf;
use crate::tree::spec_keys_sorted;
use crate::tree::spec_lower_bound;
use crate::tree::BTreeInternalNode;
use crate::tree::BTreeLeafNode;
use crate::tree::InternalV;
use crate::tree::KV;
use crate::tree::INTERNAL_MAX_CELLS;
use crate::tree::NODE_MAX_CELLS;
use crate::tree::BTreeNode;
use crate::tree::NodeV;
use crate::tree::LeafV;
use crate::PAGE_SIZE;
use crate::ROW_SIZE;
use crate::TABLE_MAX_PAGES;

verus! {

/// Error from opening a backing image.
#[derive(Clone, Copy, Debug, PartialEq, Eq, Structural)]
pub enum OpenError {
    /// Root discovery found no root-flagged page, or more than one, or a
    /// page that cannot be decoded or breaks the tree's cell ordering.
    StructuralCorruption,
    /// The image holds more pages than the slot table can carry.
    FileTooLarge,
}

/// Error from flushing the pages back to an image.
#[derive(Clone, Copy, Debug, PartialEq, Eq, Structural)]
pub enum FlushError {
    /// An allocated page number was never loaded or created.
    PageNotCached,
}

/// Error from inserting a record.
#[derive(Clone, Copy, Debug, PartialEq, Eq, Structural)]
pub enum InsertError {
    /// The key is already present in the tree.
    DuplicateKey,
    /// The insert statement carries no record of the fixed width.
    MissingRecord,
    /// The descent reached a page that cannot be found or decoded.
    PageNotFound,
    /// A page cannot take the required mutation: a split found no free
    /// page slot, or the parent page cannot take the separator.
    PageMutFailure,
}

/// The pager: the backing image, the page slot table, and the count of
/// allocated pages.
pub struct Pager {
    pub file_image: Vec<u8>,
    pub pages: Vec<Option<BTreeNode>>,
    pub num_pages: usize,
}

/// The slot table has its fixed capacity and the page count is in range.
pub open spec fn pager_shape(p: Pager) -> bool {
    &&& p.pages@.len() == TABLE_MAX_PAGES
    &&& 1 <= p.num_pages <= TABLE_MAX_PAGES
}

/// Every allocated page is cached and no slot beyond the count is filled.
pub open spec fn pager_loaded(p: Pager) -> bool {
    &&& forall|i: int| 0 <= i < p.num_pages ==> (#[trigger] p.pages@[i]) is Some
    &&& forall|i: int| p.num_pages <= i < p.pages@.len() ==> (#[trigger] p.pages@[i]) is None
}

/// The node cached in slot `i`.
pub open spec fn spec_node_at(p: Pager, i: int) -> NodeV
    recommends
        0 <= i < p.pages@.len(),
        p.pages@[i] is Some,
{
    match p.pages@[i] {
        Some(node) => node@,
        None => NodeV::Leaf(LeafV { is_root: true, parent: 0, cells: Seq::empty() }),
    }
}

/// Every cached node is well formed: sorted cells that fit their page.
pub open spec fn pager_nodes_wf(p: Pager) -> bool {
    forall|i: int|
        0 <= i < p.pages@.len() && (#[trigger] p.pages@[i]) is Some ==> node_wf(spec_node_at(p, i))
}

/// A well-formed pager.
pub open spec fn pager_wf(p: Pager) -> bool {
    &&& pager_shape(p)
    &&& pager_loaded(p)
    &&& pager_nodes_wf(p)
}

/// How many pages an image of `len` bytes holds: its length in pages,
/// rounded up, and at least one.
pub open spec fn spec_num_pages(len: int) -> int {
    let full = len / PAGE_SIZE as int;
    let n = if len % PAGE_SIZE as int != 0 {
        full + 1
    } else {
        full
    };
    if n < 1 {
        1
    } else {
        n
    }
}

/// The bytes of page `i` of an image: its slice of the image, implicitly
/// zero-extended to one page where the image ends short.
pub open spec fn spec_page_bytes(image: Seq<u8>, i: int) -> Seq<u8> {
    Seq::new(
        PAGE_SIZE as nat,
        |j: int|
            if PAGE_SIZE * i + j < image.len() {
                image[PAGE_SIZE * i + j]
            } else {
                0u8
            },
    )
}

impl Pager {
    /// Take ownership of a backing image and size the slot table.  Refuses
    /// an image holding more pages than the table can carry.
    pub fn new(file_image: Vec<u8>) -> (r: Result<Pager, OpenError>)
        ensures
            r is Ok <==> spec_num_pages(file_image@.len() as int) <= TABLE_MAX_PAGES,
            r matches Ok(p) ==> {
                &&& p.file_image == file_image
                &&& p.num_pages == spec_num_pages(file_image@.len() as int)
                &&& p.pages@.len() == TABLE_MAX_PAGES
                &&& forall|i: int| 0 <= i < p.pages@.len() ==> (#[trigger] p.pages@[i]) is None
            },
            r is Err ==> r == Result::<Pager, OpenError>::Err(OpenError::FileTooLarge),
    {
        let len = file_image.len();
        let full = len / PAGE_SIZE;
        let mut num_pages = if len % PAGE_SIZE != 0 {
            full + 1
        } else {
            full
        };
        if num_pages < 1 {
            num_pages = 1;
        }
        if num_pages > TABLE_MAX_PAGES {
            return Err(OpenError::FileTooLarge);
        }
        let mut pages: Vec<Option<BTreeNode>> = Vec::new();
        let mut i: usize = 0;
        while i < TABLE_MAX_PAGES
            invariant
                i <= TABLE_MAX_PAGES,
                pages@.len() == i,
                forall|j: int| 0 <= j < i ==> (#[trigger] pages@[j]) is None,
            decreases TABLE_MAX_PAGES - i,
        {
            pages.push(None);
            i += 1;
        }
        Ok(Pager { file_image, pages, num_pages })
    }

    /// Copy page `n` out of the image, zero-extended to one page.
    fn read_page_bytes(&self, n: usize) -> (r: Vec<u8>)
        requires
            n < TABLE_MAX_PAGES,
        ensures
            r@ == spec_page_bytes(self.file_image@, n as int),
            r@.len() == PAGE_SIZE,
    {
        let start = n * PAGE_SIZE;
        proof {
            assert(n * PAGE_SIZE == PAGE_SIZE * n) by (nonlinear_arith);
            assert(PAGE_SIZE * n <= PAGE_SIZE * TABLE_MAX_PAGES) by (nonlinear_arith)
                requires
                    n <= TABLE_MAX_PAGES,
                    PAGE_SIZE >= 0,
            ;
        }
        let image_len = self.file_image.len();
        let mut r: Vec<u8> = Vec::new();
        let mut j: usize = 0;
        while j < PAGE_SIZE
            invariant
                j <= PAGE_SIZE,
                start == PAGE_SIZE * (n as int),
                start + PAGE_SIZE <= usize::MAX,
                image_len == self.file_image@.len(),
                r@.len() == j,
                forall|x: int|
                    0 <= x < j ==> #[trigger] r@[x] == spec_page_bytes(
                        self.file_image@,
                        n as int,
                    )[x],
            decreases PAGE_SIZE - j,
        {
            if start + j < image_len {
                let b = self.file_image[start + j];
                r.push(b);
            } else {
                r.push(0u8);
            }
            j += 1;
        }
        assert(r@ =~= spec_page_bytes(self.file_image@, n as int));
        r
    }

    /// Make sure page `n` is cached: decode it out of the image when the
    /// slot is empty.  Nothing else changes; the result says whether the
    /// slot now holds a node.
    pub fn load_page(&mut self, n: usize) -> (ok: bool)
        requires
            pager_shape(*old(self)),
        ensures
            pager_shape(*final(self)),
            final(self).file_image == old(self).file_image,
            final(self).num_pages == old(self).num_pages,
            n >= old(self).num_pages || n >= old(self).pages@.len() ==> !ok && *final(self)
                == *old(self),
            n < old(self).num_pages && old(self).pages@[n as int] is Some ==> ok && *final(self)
                == *old(self),
            n < old(self).num_pages && old(self).pages@[n as int] is None ==> {
                &&& ok == (spec_deserialize(spec_page_bytes(old(self).file_image@, n as int))
                    is Some)
                &&& !ok ==> *final(self) == *old(self)
                &&& ok ==> final(self).pages@ =~= old(self).pages@.update(
                    n as int,
                    final(self).pages@[n as int],
                )
                &&& ok ==> final(self).pages@[n as int] is Some
                &&& ok ==> Some(spec_node_at(*final(self), n as int)) == spec_deserialize(
                    spec_page_bytes(old(self).file_image@, n as int),
                )
                &&& ok ==> node_fits(spec_node_at(*final(self), n as int))
            },
    {
        if n >= self.num_pages || n >= self.pages.len() {
            return false;
        }
        if self.pages[n].is_some() {
            return true;
        }
        let bytes = self.read_page_bytes(n);
        match BTreeNode::deserialize(bytes.as_slice()) {
            Some(node) => {
                self.pages.set(n, Some(node));
                true
            },
            None => false,
        }
    }

    /// Borrow the cached node of page `n`, when there is one.
    pub fn page_at(&self, n: usize) -> (r: Option<&BTreeNode>)
        ensures
            r is Some <==> n < self.pages@.len() && self.pages@[n as int] is Some,
            r matches Some(node) ==> node@ == spec_node_at(*self, n as int),
    {
        if n < self.pages.len() {
            self.pages[n].as_ref()
        } else {
            None
        }
    }

    /// Cached node of page `n` after making sure it is loaded: the single
    /// path through which a page enters the cache.
    pub fn get_page(&mut self, n: usize) -> (r: Option<&BTreeNode>)
        requires
            pager_shape(*old(self)),
        ensures
            pager_shape(*final(self)),
            final(self).file_image == old(self).file_image,
            final(self).num_pages == old(self).num_pages,
            n < old(self).num_pages && old(self).pages@[n as int] is Some ==> *final(self) == *old(
                self,
            ) && r is Some,
            r matches Some(node) ==> node@ == spec_node_at(*final(self), n as int)
                && final(self).pages@[n as int] is Some,
    {
        if self.load_page(n) {
            self.page_at(n)
        } else {
            None
        }
    }

    /// Hand out the next page number from the monotonic allocator.
    pub fn new_page_num(&mut self) -> (r: usize)
        requires
            old(self).num_pages < TABLE_MAX_PAGES,
        ensures
            r == old(self).num_pages,
            final(self).num_pages == old(self).num_pages + 1,
            final(self).pages == old(self).pages,
            final(self).file_image == old(self).file_image,
    {
        let val = self.num_pages;
        self.num_pages = self.num_pages + 1;
        val
    }

    /// Overwrite slot `n` with a brand-new empty internal node.
    pub fn allocate_internal(&mut self, n: usize)
        requires
            n < old(self).pages@.len(),
        ensures
            final(self).pages@ == old(self).pages@.update(
                n as int,
                final(self).pages@[n as int],
            ),
            final(self).pages@[n as int] matches Some(node) && node@ == NodeV::Internal(
                crate::tree::InternalV {
                    is_root: false,
                    parent: 0,
                    right_child: 0,
                    cells: Seq::empty(),
                },
            ),
            final(self).num_pages == old(self).num_pages,
            final(self).file_image == old(self).file_image,
    {
        let node = BTreeNode::Internal(crate::tree::BTreeInternalNode::new(false, 0));
        self.pages.set(n, Some(node));
        assert(final(self).pages@ =~= old(self).pages@.update(n as int, final(self).pages@[n as int]));
    }
}

impl Pager {
    /// Serialize every allocated page, in ascending page order, into a
    /// fresh image; page `i` lands at byte offset `i * PAGE_SIZE`, the same
    /// offset reads come from.
    pub fn flush(&self) -> (r: Result<Vec<u8>, FlushError>)
        requires
            pager_shape(*self),
            forall|i: int|
                0 <= i < self.num_pages && (#[trigger] self.pages@[i]) is Some ==> node_fits(
                    spec_node_at(*self, i),
                ),
        ensures
            r is Ok <==> (forall|i: int|
                0 <= i < self.num_pages ==> (#[trigger] self.pages@[i]) is Some),
            r matches Ok(image) ==> {
                &&& image@.len() == PAGE_SIZE * self.num_pages
                &&& forall|i: int|
                    0 <= i < self.num_pages ==> #[trigger] image@.subrange(
                        PAGE_SIZE * i,
                        PAGE_SIZE * (i + 1),
                    ) == spec_serialize_node(spec_node_at(*self, i))
            },
            r is Err ==> r == Result::<Vec<u8>, FlushError>::Err(FlushError::PageNotCached),
    {
        let mut out: Vec<u8> = Vec::new();
        let mut i: usize = 0;
        while i < self.num_pages
            invariant
                i <= self.num_pages,
                pager_shape(*self),
                forall|j: int|
                    0 <= j < self.num_pages && (#[trigger] self.pages@[j]) is Some ==> node_fits(
                        spec_node_at(*self, j),
                    ),
                forall|j: int| 0 <= j < i ==> (#[trigger] self.pages@[j]) is Some,
                out@.len() == PAGE_SIZE * (i as int),
                forall|j: int|
                    0 <= j < i ==> #[trigger] out@.subrange(PAGE_SIZE * j, PAGE_SIZE * (j + 1))
                        == spec_serialize_node(spec_node_at(*self, j)),
            decreases self.num_pages - i,
        {
            match self.pages[i].as_ref() {
                Some(node) => {
                    let mut page_buf: Vec<u8> = Vec::new();
                    node.serialize(&mut page_buf);
                    let ghost old_out = out@;
                    crate::page::push_bytes(&mut out, &page_buf);
                    proof {
                        assert(PAGE_SIZE * (i + 1) == PAGE_SIZE * (i as int) + PAGE_SIZE)
                            by (nonlinear_arith);
                        crate::page::lemma_subrange_of_suffix(
                            old_out,
                            page_buf@,
                            0,
                            PAGE_SIZE as int,
                        );
                        assert(page_buf@.subrange(0, PAGE_SIZE as int) =~= page_buf@);
                        assert(out@.subrange(PAGE_SIZE * (i as int), PAGE_SIZE * (i + 1))
                            == spec_serialize_node(spec_node_at(*self, i as int)));
                        assert forall|j: int| 0 <= j < i implies #[trigger] out@.subrange(
                            PAGE_SIZE * j,
                            PAGE_SIZE * (j + 1),
                        ) == spec_serialize_node(spec_node_at(*self, j)) by {
                            assert(PAGE_SIZE * (j + 1) <= PAGE_SIZE * (i as int))
                                by (nonlinear_arith)
                                requires
                                    j + 1 <= i,
                                    PAGE_SIZE >= 0,
                            ;
                            assert(PAGE_SIZE * j >= 0) by (nonlinear_arith)
                                requires
                                    j >= 0,
                                    PAGE_SIZE >= 0,
                            ;
                            crate::page::lemma_subrange_of_prefix(
                                old_out,
                                page_buf@,
                                PAGE_SIZE * j,
                                PAGE_SIZE * (j + 1),
                            );
                            assert(old_out.subrange(PAGE_SIZE * j, PAGE_SIZE * (j + 1))
                                == spec_serialize_node(spec_node_at(*self, j)));
                        }
                    }
                    i += 1;
                },
                None => {
                    return Err(FlushError::PageNotCached);
                },
            }
        }
        Ok(out)
    }
}

/// How many cells move to the new right page in a leaf split.
pub const LEAF_NODE_RIGHT_SPLIT_COUNT: usize = (NODE_MAX_CELLS + 1) / 2;

/// How many cells stay on the original page in a leaf split.
pub const LEAF_NODE_LEFT_SPLIT_COUNT: usize = (NODE_MAX_CELLS + 1) - LEAF_NODE_RIGHT_SPLIT_COUNT;

/// A full leaf plus the new cell split into seven cells on either side.
pub proof fn lemma_split_counts()
    ensures
        LEAF_NODE_LEFT_SPLIT_COUNT == 7,
        LEAF_NODE_RIGHT_SPLIT_COUNT == 7,
{
    lemma_capacities();
    assert(14int / 2int == 7);
}

/// The leaf behind a node value; meaningful only on leaves.
pub open spec fn as_leaf(n: NodeV) -> LeafV
    recommends
        n is Leaf,
{
    match n {
        NodeV::Leaf(l) => l,
        NodeV::Internal(_) => LeafV { is_root: false, parent: 0, cells: Seq::empty() },
    }
}

/// The internal page behind a node value; meaningful only on internal pages.
pub open spec fn as_internal(n: NodeV) -> InternalV
    recommends
        n is Internal,
{
    match n {
        NodeV::Internal(v) => v,
        NodeV::Leaf(_) => InternalV { is_root: false, parent: 0, right_child: 0, cells: Seq::empty() },
    }
}

/// The separator key a split promotes: the largest key that stays on the
/// original page once the new key is among its cells.
pub open spec fn spec_split_separator(l: LeafV, cell_num: int, key: u32) -> u32 {
    leaf_keys(l.cells).insert(cell_num, key)[LEAF_NODE_LEFT_SPLIT_COUNT - 1]
}

/// Whether the split of the full leaf at `page_num` can go ahead: free
/// page numbers for what it allocates and — off the root — a parent that
/// is an internal page with room and without the separator key.
pub open spec fn spec_split_possible(p: Pager, page_num: int, cell_num: int, key: u32) -> bool {
    match spec_node_at(p, page_num) {
        NodeV::Leaf(l) => {
            let sep = spec_split_separator(l, cell_num, key);
            if l.is_root {
                p.num_pages + 2 <= TABLE_MAX_PAGES
            } else {
                &&& p.num_pages + 1 <= TABLE_MAX_PAGES
                &&& l.parent < p.num_pages
                &&& match spec_node_at(p, l.parent as int) {
                    NodeV::Internal(iv) => {
                        &&& iv.cells.len() < INTERNAL_MAX_CELLS
                        &&& forall|j: int|
                            0 <= j < iv.cells.len() ==> (#[trigger] iv.cells[j]).1 != sep
                    },
                    NodeV::Leaf(_) => false,
                }
            }
        },
        NodeV::Internal(_) => false,
    }
}

/// The state after a leaf split: the combined cells are divided between
/// the original page and a fresh right page, the separator key goes to the
/// parent — the existing one, or a fresh root — and no other page changes.
pub open spec fn spec_split_outcome(
    o: Pager,
    page_num: int,
    cell_num: int,
    key: u32,
    value: Seq<u8>,
    f: Pager,
    r: Option<usize>,
) -> bool {
    let l = as_leaf(spec_node_at(o, page_num));
    let all = l.cells.insert(cell_num, (key, value));
    let left = all.take(LEAF_NODE_LEFT_SPLIT_COUNT as int);
    let right = all.skip(LEAF_NODE_LEFT_SPLIT_COUNT as int);
    let sep = spec_split_separator(l, cell_num, key);
    let right_page = o.num_pages as int;
    &&& f.file_image == o.file_image
    &&& f.pages@.len() == o.pages@.len()
    &&& f.pages@[page_num] is Some
    &&& f.pages@[right_page] is Some
    &&& if l.is_root {
        let new_root = o.num_pages as int + 1;
        &&& f.num_pages == o.num_pages + 2
        &&& r == Some((o.num_pages + 1) as usize)
        &&& spec_node_at(f, page_num) == NodeV::Leaf(
            LeafV { is_root: false, parent: new_root as u32, cells: left },
        )
        &&& spec_node_at(f, right_page) == NodeV::Leaf(
            LeafV { is_root: false, parent: new_root as u32, cells: right },
        )
        &&& f.pages@[new_root] is Some
        &&& spec_node_at(f, new_root) == NodeV::Internal(
            InternalV {
                is_root: true,
                parent: l.parent,
                right_child: right_page as u32,
                cells: seq![(page_num as u32, sep)],
            },
        )
        &&& forall|i: int|
            0 <= i < f.pages@.len() && i != page_num && i != right_page && i != new_root
                ==> #[trigger] f.pages@[i] == o.pages@[i]
    } else {
        let parent = l.parent as int;
        let po = as_internal(spec_node_at(o, parent));
        let pf = as_internal(spec_node_at(f, parent));
        &&& f.num_pages == o.num_pages + 1
        &&& r == Option::<usize>::None
        &&& spec_node_at(f, page_num) == NodeV::Leaf(
            LeafV { is_root: false, parent: l.parent, cells: left },
        )
        &&& spec_node_at(f, right_page) == NodeV::Leaf(
            LeafV { is_root: false, parent: l.parent, cells: right },
        )
        &&& spec_node_at(f, parent) is Internal
        &&& pf.cells == po.cells.insert(
            spec_lower_bound(internal_keys(po.cells), sep),
            (page_num as u32, sep),
        )
        &&& pf.right_child == if po.right_child == page_num as u32 {
            right_page as u32
        } else {
            po.right_child
        }
        &&& pf.is_root == po.is_root
        &&& pf.parent == po.parent
        &&& forall|i: int|
            0 <= i < f.pages@.len() && i != page_num && i != right_page && i != parent
                ==> #[trigger] f.pages@[i] == o.pages@[i]
    }
}

impl Pager {
    /// Split the full leaf at `page_num`, inserting `(key, value)` at its
    /// sorted position `cell_num` first.  The combined cells are divided
    /// between the original page and a newly allocated page; the separator
    /// key goes into the parent — when the leaf was the root, into a newly
    /// allocated root, whose page number is returned so the table can
    /// adopt it.  A split that finds no free page slot, or a parent that
    /// cannot take the separator, changes nothing and fails.
    pub fn split_and_insert(
        &mut self,
        page_num: usize,
        cell_num: usize,
        key: u32,
        value: Vec<u8>,
    ) -> (r: Result<Option<usize>, InsertError>)
        requires
            pager_wf(*old(self)),
            page_num < old(self).num_pages,
            spec_node_at(*old(self), page_num as int) is Leaf,
            as_leaf(spec_node_at(*old(self), page_num as int)).cells.len() == NODE_MAX_CELLS,
            cell_num == spec_lower_bound(
                leaf_keys(as_leaf(spec_node_at(*old(self), page_num as int)).cells),
                key,
            ),
            cell_num < NODE_MAX_CELLS ==> as_leaf(
                spec_node_at(*old(self), page_num as int),
            ).cells[cell_num as int].0 != key,
            value@.len() == ROW_SIZE,
        ensures
            pager_wf(*final(self)),
            r is Ok <==> spec_split_possible(*old(self), page_num as int, cell_num as int, key),
            r matches Ok(ro) ==> spec_split_outcome(
                *old(self),
                page_num as int,
                cell_num as int,
                key,
                value@,
                *final(self),
                ro,
            ),
            r is Err ==> *final(self) == *old(self) && r == Result::<
                Option<usize>,
                InsertError,
            >::Err(InsertError::PageMutFailure),
    {
        proof {
            lemma_capacities();
            lemma_split_counts();
        }
        let ghost o = *self;
        let ghost l = as_leaf(spec_node_at(o, page_num as int));
        let ghost old_keys = leaf_keys(l.cells);
        proof {
            lemma_lower_bound_bounds(old_keys, key);
            lemma_key_fresh(old_keys, key);
            lemma_sorted_insert(old_keys, key);
        }
        let ghost all_keys = old_keys.insert(cell_num as int, key);
        let (original_is_root, original_parent) = match self.page_at(page_num) {
            Some(node) => (node.is_root(), node.get_parent()),
            None => {
                proof {
                    assert(false);
                }
                return Err(InsertError::PageMutFailure);
            },
        };
        let sep: u32 = match self.page_at(page_num) {
            Some(BTreeNode::Leaf(leaf)) => {
                if cell_num > LEAF_NODE_LEFT_SPLIT_COUNT - 1 {
                    leaf.key_values[LEAF_NODE_LEFT_SPLIT_COUNT - 1].key
                } else if cell_num == LEAF_NODE_LEFT_SPLIT_COUNT - 1 {
                    key
                } else {
                    leaf.key_values[LEAF_NODE_LEFT_SPLIT_COUNT - 2].key
                }
            },
            _ => {
                proof {
                    assert(false);
                }
                vstd::pervasive::unreached()
            },
        };
        proof {
            assert(sep == spec_split_separator(l, cell_num as int, key));
        }
        if original_is_root {
            if self.num_pages + 2 > TABLE_MAX_PAGES {
                return Err(InsertError::PageMutFailure);
            }
        } else {
            if self.num_pages + 1 > TABLE_MAX_PAGES {
                return Err(InsertError::PageMutFailure);
            }
            let parent_num = original_parent as usize;
            if parent_num >= self.num_pages {
                return Err(InsertError::PageMutFailure);
            }
            let parent_ok = match self.page_at(parent_num) {
                Some(BTreeNode::Internal(parent)) => {
                    if parent.key_children.len() >= INTERNAL_MAX_CELLS {
                        false
                    } else {
                        let pos = parent.find_insert_position(sep);
                        proof {
                            lemma_lower_bound_bounds(internal_keys(parent@.cells), sep);
                        }
                        if pos < parent.key_children.len() && parent.key_children[pos].key == sep {
                            false
                        } else {
                            proof {
                                lemma_key_fresh(internal_keys(parent@.cells), sep);
                                assert forall|j: int| 0 <= j < parent@.cells.len() implies (#[trigger] parent@.cells[j]).1
                                    != sep by {
                                    assert(internal_keys(parent@.cells)[j] == parent@.cells[j].1);
                                }
                            }
                            true
                        }
                    }
                },
                _ => false,
            };
            if !parent_ok {
                return Err(InsertError::PageMutFailure);
            }
        }
        assert(spec_split_possible(o, page_num as int, cell_num as int, key));
        let ghost all = l.cells.insert(cell_num as int, (key, value@));
        proof {
            lemma_leaf_keys_insert(l.cells, cell_num as int, (key, value@));
            assert(leaf_keys(all) == all_keys);
        }
        let right_values: Vec<KV> = match &mut self.pages[page_num] {
            Some(BTreeNode::Leaf(leaf)) => {
                leaf.insert_at(cell_num, key, value);
                let rv = leaf.key_values.split_off(LEAF_NODE_LEFT_SPLIT_COUNT);
                leaf.is_root = false;
                rv
            },
            _ => {
                proof {
                    assert(false);
                }
                vstd::pervasive::unreached()
            },
        };
        proof {
            assert(self.pages@ =~= o.pages@.update(page_num as int, self.pages@[page_num as int]));
            assert(self.pages@[page_num as int] matches Some(n) && n@ matches NodeV::Leaf(lf)
                && lf.cells =~= all.take(LEAF_NODE_LEFT_SPLIT_COUNT as int) && lf.is_root == false
                && lf.parent == l.parent);
            assert(right_values@.map_values(|kv: KV| kv@) =~= all.skip(
                LEAF_NODE_LEFT_SPLIT_COUNT as int,
            ));
        }
        let right_page_num = self.new_page_num();
        if original_is_root {
            let parent_page_num = self.new_page_num();
            self.allocate_internal(parent_page_num);
            match &mut self.pages[parent_page_num] {
                Some(BTreeNode::Internal(node)) => {
                    node.is_root = true;
                    node.parent = original_parent;
                    node.right_child = right_page_num as u32;
                    node.insert(sep, page_num as u32);
                },
                _ => {
                    proof {
                        assert(false);
                    }
                },
            }
            match &mut self.pages[page_num] {
                Some(BTreeNode::Leaf(node)) => {
                    node.parent = parent_page_num as u32;
                },
                _ => {
                    proof {
                        assert(false);
                    }
                },
            }
            self.pages.set(
                right_page_num,
                Some(
                    BTreeNode::Leaf(
                        BTreeLeafNode {
                            is_root: false,
                            parent: parent_page_num as u32,
                            key_values: right_values,
                        },
                    ),
                ),
            );
            proof {
                assert(spec_node_at(*self, parent_page_num as int)
                    == NodeV::Internal(
                    InternalV {
                        is_root: true,
                        parent: l.parent,
                        right_child: right_page_num as u32,
                        cells: seq![(page_num as u32, sep)],
                    },
                )) by {
                    assert(Seq::<(u32, u32)>::empty().insert(0, (page_num as u32, sep))
                        =~= seq![(page_num as u32, sep)]);
                }
                assert(spec_split_outcome(
                    o,
                    page_num as int,
                    cell_num as int,
                    key,
                    value@,
                    *self,
                    Some(parent_page_num),
                ));
                lemma_split_wf(o, *self, page_num as int, cell_num as int, key, value@);
            }
            Ok(Some(parent_page_num))
        } else {
            let parent_num = original_parent as usize;
            match &mut self.pages[parent_num] {
                Some(BTreeNode::Internal(node)) => {
                    node.insert(sep, page_num as u32);
                    if node.right_child == page_num as u32 {
                        node.right_child = right_page_num as u32;
                    }
                },
                _ => {
                    proof {
                        assert(false);
                    }
                },
            }
            self.pages.set(
                right_page_num,
                Some(
                    BTreeNode::Leaf(
                        BTreeLeafNode {
                            is_root: false,
                            parent: original_parent,
                            key_values: right_values,
                        },
                    ),
                ),
            );
            proof {
                assert(spec_split_outcome(
                    o,
                    page_num as int,
                    cell_num as int,
                    key,
                    value@,
                    *self,
                    Option::<usize>::None,
                ));
                lemma_split_wf(o, *self, page_num as int, cell_num as int, key, value@);
            }
            Ok(None)
        }
    }
}

/// A split outcome of a well-formed pager is well formed: each divided
/// half keeps sorted, fixed-width cells, and the parent keeps sorted keys.
proof fn lemma_split_wf(o: Pager, f: Pager, page_num: int, cell_num: int, key: u32, value: Seq<u8>)
    requires
        pager_wf(o),
        0 <= page_num < o.num_pages,
        spec_node_at(o, page_num) is Leaf,
        as_leaf(spec_node_at(o, page_num)).cells.len() == NODE_MAX_CELLS,
        cell_num == spec_lower_bound(leaf_keys(as_leaf(spec_node_at(o, page_num)).cells), key),
        cell_num < NODE_MAX_CELLS ==> as_leaf(spec_node_at(o, page_num)).cells[cell_num].0 != key,
        value.len() == ROW_SIZE,
        spec_split_possible(o, page_num, cell_num, key),
        spec_split_outcome(o, page_num, cell_num, key, value, f, if as_leaf(
            spec_node_at(o, page_num),
        ).is_root {
            Some((o.num_pages + 1) as usize)
        } else {
            Option::<usize>::None
        }),
    ensures
        pager_wf(f),
{
    lemma_capacities();
    lemma_split_counts();
    let l = as_leaf(spec_node_at(o, page_num));
    let old_keys = leaf_keys(l.cells);
    let all = l.cells.insert(cell_num, (key, value));
    let all_keys = old_keys.insert(cell_num, key);
    let left = all.take(LEAF_NODE_LEFT_SPLIT_COUNT as int);
    let right = all.skip(LEAF_NODE_LEFT_SPLIT_COUNT as int);
    let sep = spec_split_separator(l, cell_num, key);
    let right_page = o.num_pages as int;
    lemma_lower_bound_bounds(old_keys, key);
    lemma_key_fresh(old_keys, key);
    lemma_sorted_insert(old_keys, key);
    lemma_leaf_keys_insert(l.cells, cell_num, (key, value));
    assert(spec_keys_sorted(all_keys));
    assert(leaf_keys(all) == all_keys);
    assert(spec_keys_sorted(leaf_keys(left))) by {
        assert(leaf_keys(left) =~= all_keys.take(LEAF_NODE_LEFT_SPLIT_COUNT as int));
    }
    assert(spec_keys_sorted(leaf_keys(right))) by {
        assert(leaf_keys(right) =~= all_keys.skip(LEAF_NODE_LEFT_SPLIT_COUNT as int));
    }
    assert(forall|i: int| 0 <= i < all.len() ==> (#[trigger] all[i]).1.len() == ROW_SIZE) by {
        assert(forall|i: int|
            0 <= i < l.cells.len() ==> (#[trigger] l.cells[i]).1.len() == ROW_SIZE);
    }
    assert(leaf_wf(LeafV { is_root: false, parent: as_leaf(spec_node_at(f, page_num)).parent, cells: left })) by {
        assert(forall|i: int| 0 <= i < left.len() ==> (#[trigger] left[i]).1.len() == ROW_SIZE);
    }
    assert(forall|i: int| 0 <= i < right.len() ==> (#[trigger] right[i]).1.len() == ROW_SIZE);
    if l.is_root {
        let new_root = o.num_pages as int + 1;
        assert forall|i: int| 0 <= i < f.num_pages implies (#[trigger] f.pages@[i]) is Some by {
            if i != page_num && i != right_page && i != new_root {
                assert(f.pages@[i] == o.pages@[i]);
            }
        }
        assert forall|i: int| f.num_pages <= i < f.pages@.len() implies (#[trigger] f.pages@[i])
            is None by {
            assert(f.pages@[i] == o.pages@[i]);
        }
        assert forall|i: int|
            0 <= i < f.pages@.len() && (#[trigger] f.pages@[i]) is Some implies node_wf(
            spec_node_at(f, i),
        ) by {
            if i == page_num || i == right_page {
            } else if i == new_root {
                assert(internal_wf(as_internal(spec_node_at(f, i)))) by {
                    let cells = seq![(page_num as u32, sep)];
                    assert(internal_keys(cells).len() == 1);
                }
            } else {
                assert(f.pages@[i] == o.pages@[i]);
                assert(spec_node_at(f, i) == spec_node_at(o, i));
            }
        }
    } else {
        let parent = l.parent as int;
        let po = as_internal(spec_node_at(o, parent));
        let pos = spec_lower_bound(internal_keys(po.cells), sep);
        lemma_lower_bound_bounds(internal_keys(po.cells), sep);
        lemma_internal_keys_insert(po.cells, pos, (page_num as u32, sep));
        lemma_sorted_insert(internal_keys(po.cells), sep);
        assert forall|i: int| 0 <= i < f.num_pages implies (#[trigger] f.pages@[i]) is Some by {
            if i != page_num && i != right_page && i != parent {
                assert(f.pages@[i] == o.pages@[i]);
            }
        }
        assert forall|i: int| f.num_pages <= i < f.pages@.len() implies (#[trigger] f.pages@[i])
            is None by {
            assert(f.pages@[i] == o.pages@[i]);
        }
        assert forall|i: int|
            0 <= i < f.pages@.len() && (#[trigger] f.pages@[i]) is Some implies node_wf(
            spec_node_at(f, i),
        ) by {
            if i == page_num || i == right_page {
            } else if i == parent {
                assert(internal_wf(as_internal(spec_node_at(f, i))));
            } else {
                assert(f.pages@[i] == o.pages@[i]);
                assert(spec_node_at(f, i) == spec_node_at(o, i));
            }
        }
    }
}

} // verus!
