//! The immutable tree.
//!
//! See [`Ashes`].
use std::ops::Range;
use vstd::prelude::*;

pub use crate::internal::BranchIdImpl as BranchId;
use crate::internal::ROOT_VALUE;

pub mod codec;
pub mod print;

verus! {

/// Whether `j` lies in the half-open range `r`.
pub open spec fn in_range(r: Range<usize>, j: int) -> bool {
    r.start <= j < r.end
}

/// One node of a burnt tree.
#[derive(Debug)]
pub(crate) struct Node<T> {
    pub(crate) parent: BranchId,
    pub(crate) payload: T,
    /// Half-open range of node indices that are this node's children.
    pub(crate) children: Range<usize>,
    /// The node's index in the builder it was burnt from; decoded trees do not
    /// set it to anything meaningful.
    pub(crate) old_idx: usize,
}

/// A finished tree.
///
/// The shape of the tree cannot change, but payloads can be written through
/// [`BranchMut`]. All children of a node, and all children of the root, occupy
/// a contiguous range of the node array.
#[derive(Debug)]
pub struct Ashes<T> {
    pub(crate) nodes: Vec<Node<T>>,
    pub(crate) root_children: Range<usize>,
}

impl<T> Ashes<T> {
    /// The number of nodes, the root not included.
    pub closed spec fn len(&self) -> nat {
        self.nodes@.len()
    }

    /// The parent of node `i`.
    pub closed spec fn parent_of(&self, i: int) -> BranchId {
        self.nodes@[i].parent
    }

    /// The payload of node `i`.
    pub closed spec fn payload_of(&self, i: int) -> T {
        self.nodes@[i].payload
    }

    /// The range of node `i`'s children.
    pub closed spec fn children_of(&self, i: int) -> Range<usize> {
        self.nodes@[i].children
    }

    /// The builder index that node `i` came from.
    pub closed spec fn origin_of(&self, i: int) -> usize {
        self.nodes@[i].old_idx
    }

    /// The range of the root's children.
    pub closed spec fn root_range(&self) -> Range<usize> {
        self.root_children
    }

    /// The range of children of `id`, the root or a node.
    pub open spec fn range_of(&self, id: BranchId) -> Range<usize> {
        match id {
            BranchId::ROOT => self.root_range(),
            BranchId::Branch(i) => self.children_of(i as int),
        }
    }

    /// Whether `id` is [`BranchId::ROOT`] or the index of a node of this tree.
    pub open spec fn holds(&self, id: BranchId) -> bool {
        match id {
            BranchId::ROOT => true,
            BranchId::Branch(i) => i < self.len(),
        }
    }

    /// Whether `id` exists in this tree: it stands for the root, or it is the
    /// index of a node.
    pub open spec fn has(&self, id: BranchId) -> bool {
        id.spec_is_root() || self.holds(id)
    }

    /// Every range lies within the node array.
    pub open spec fn ranges_bounded(&self) -> bool {
        &&& self.root_range().start <= self.root_range().end <= self.len()
        &&& forall|i: int|
            0 <= i < self.len() ==> (#[trigger] self.children_of(i)).start
                <= self.children_of(i).end <= self.len()
    }

    /// Each node lies in the range of its parent, and in no other range.
    pub open spec fn parents_match_ranges(&self) -> bool {
        &&& forall|j: int|
            0 <= j < self.len() ==> match #[trigger] self.parent_of(j) {
                BranchId::ROOT => in_range(self.root_range(), j),
                BranchId::Branch(p) => p < self.len() && in_range(self.children_of(p as int), j),
            }
        &&& forall|j: int|
            0 <= j < self.len() && #[trigger] in_range(self.root_range(), j) ==> self.parent_of(j)
                == BranchId::ROOT
        &&& forall|p: int, j: int|
            0 <= p < self.len() && 0 <= j < self.len() && #[trigger] in_range(
                self.children_of(p),
                j,
            ) ==> self.parent_of(j) == BranchId::Branch(p as usize)
    }

    /// Every node comes after its parent in the node array.
    pub open spec fn parents_first(&self) -> bool {
        forall|j: int|
            0 <= j < self.len() ==> match #[trigger] self.parent_of(j) {
                BranchId::ROOT => true,
                BranchId::Branch(p) => p < j,
            }
    }

    /// Every node comes before its parent in the node array.
    pub open spec fn children_first(&self) -> bool {
        forall|j: int|
            0 <= j < self.len() ==> match #[trigger] self.parent_of(j) {
                BranchId::ROOT => true,
                BranchId::Branch(p) => p > j,
            }
    }

    /// The structural invariant of a finished tree.
    pub open spec fn wf(&self) -> bool {
        &&& self.len() < ROOT_VALUE
        &&& self.ranges_bounded()
        &&& self.parents_match_ranges()
        &&& (self.parents_first() || self.children_first())
    }

    /// How far node `i` is from the leaves in the array order: the children of
    /// a node always have a smaller measure than the node.
    pub open spec fn depth_measure(&self, i: int) -> nat {
        if self.parents_first() {
            (self.len() - i) as nat
        } else {
            i as nat
        }
    }

    /// A measure that every child has below its parent: the root above all
    /// nodes.
    pub open spec fn measure_of(&self, id: BranchId) -> nat {
        match id {
            BranchId::ROOT => self.len() + 1,
            BranchId::Branch(i) => self.depth_measure(i as int),
        }
    }

    /// Two trees with the same shape: the same nodes, parents, ranges and
    /// origins, payloads aside.
    pub open spec fn same_shape(&self, other: &Ashes<T>) -> bool {
        &&& self.len() == other.len()
        &&& self.root_range() == other.root_range()
        &&& forall|i: int|
            0 <= i < self.len() ==> {
                &&& #[trigger] self.parent_of(i) == other.parent_of(i)
                &&& self.children_of(i) == other.children_of(i)
                &&& self.origin_of(i) == other.origin_of(i)
            }
    }

    /// Assembles a tree from its node array and the root's range.
    pub(crate) fn from_parts(nodes: Vec<Node<T>>, root_children: Range<usize>) -> (r: Self)
        ensures
            r.len() == nodes@.len(),
            r.root_range() == root_children,
            forall|i: int|
                0 <= i < nodes@.len() ==> {
                    &&& #[trigger] r.parent_of(i) == nodes@[i].parent
                    &&& r.payload_of(i) == nodes@[i].payload
                    &&& r.children_of(i) == nodes@[i].children
                    &&& r.origin_of(i) == nodes@[i].old_idx
                },
    {
        Ashes { nodes, root_children }
    }

    /// A tree is well formed, children before parents, when its raw node array
    /// and root range satisfy the conditions below.
    pub(crate) proof fn lemma_wf_from_parts(&self)
        requires
            self.nodes@.len() < ROOT_VALUE,
            self.root_children.start <= self.root_children.end <= self.nodes@.len(),
            forall|j: int|
                0 <= j < self.nodes@.len() ==> (#[trigger] self.nodes@[j]).children.start
                    <= self.nodes@[j].children.end <= self.nodes@.len(),
            forall|j: int|
                0 <= j < self.nodes@.len() ==> match (#[trigger] self.nodes@[j]).parent {
                    BranchId::ROOT => in_range(self.root_children, j),
                    BranchId::Branch(p) => j < p < self.nodes@.len() && in_range(
                        self.nodes@[p as int].children,
                        j,
                    ),
                },
            forall|j: int|
                0 <= j < self.nodes@.len() && in_range(self.root_children, j) ==> (
                #[trigger] self.nodes@[j]).parent == BranchId::ROOT,
            forall|p: int, j: int|
                0 <= p < self.nodes@.len() && 0 <= j < self.nodes@.len() && #[trigger] in_range(
                    self.nodes@[p].children,
                    j,
                ) ==> self.nodes@[j].parent == BranchId::Branch(p as usize),
        ensures
            self.wf(),
            self.children_first(),
    {
        assert forall|j: int| 0 <= j < self.len() implies match #[trigger] self.parent_of(j) {
            BranchId::ROOT => true,
            BranchId::Branch(p) => p > j,
        } by {
            let _ = self.nodes@[j];
        }
        assert forall|j: int| 0 <= j < self.len() implies match #[trigger] self.parent_of(j) {
            BranchId::ROOT => in_range(self.root_range(), j),
            BranchId::Branch(p) => p < self.len() && in_range(self.children_of(p as int), j),
        } by {
            let _ = self.nodes@[j];
        }
        assert forall|j: int|
            0 <= j < self.len() && #[trigger] in_range(self.root_range(), j) implies self.parent_of(
            j,
        ) == BranchId::ROOT by {
            let _ = self.nodes@[j];
        }
        assert forall|i: int| 0 <= i < self.len() implies (#[trigger] self.children_of(i)).start
            <= self.children_of(i).end <= self.len() by {
            let _ = self.nodes@[i];
        }
    }

    /// The root's range is the stored one.
    pub(crate) proof fn lemma_root_range(&self)
        ensures
            self.root_range() == self.root_children,
            self.len() == self.nodes@.len(),
            forall|j: int|
                0 <= j < self.nodes@.len() ==> #[trigger] self.payload_of(j) == self.nodes@[j].payload
                    && self.children_of(j) == self.nodes@[j].children,
    {
    }

    /// Constructs a new, empty tree.
    pub fn new() -> (r: Self)
        ensures
            r.wf(),
            r.len() == 0,
            r.root_range() == (0usize..0usize),
    {
        Ashes { nodes: Vec::new(), root_children: 0..0 }
    }

    /// Removes every node, keeping the node array's allocation.
    pub fn clear(&mut self)
        ensures
            final(self).wf(),
            final(self).len() == 0,
            final(self).root_range() == (0usize..0usize),
    {
        self.root_children = 0..0;
        self.nodes.clear();
    }

    /// Returns the number of nodes, the root not included.
    pub fn node_count(&self) -> (r: usize)
        ensures
            r == self.len(),
    {
        self.nodes.len()
    }

    /// Checks whether there is a branch with the given identifier; always
    /// `true` for [`BranchId::ROOT`].
    pub fn contains(&self, branch: BranchId) -> (r: bool)
        ensures
            r == self.has(branch),
    {
        match branch.normalize() {
            BranchId::ROOT => true,
            BranchId::Branch(i) => i < self.nodes.len(),
        }
    }

    /// Returns a shared handle on the root.
    pub fn root(&self) -> (r: BranchRef<'_, T>)
        ensures
            r.tree() == *self,
            r.id() == BranchId::ROOT,
    {
        BranchRef { ashes: self, id: BranchId::ROOT }
    }

    /// Returns a shared handle on the branch `branch`.
    pub fn branch(&self, branch: BranchId) -> (r: BranchRef<'_, T>)
        requires
            self.has(branch),
        ensures
            r.tree() == *self,
            r.id() == branch.normalized(),
    {
        BranchRef { ashes: self, id: branch.normalize() }
    }

    /// Returns a handle on the root through which payloads may be written.
    ///
    /// As for [`branch_mut`](Self::branch_mut), the tree after the handle is
    /// gone is not stated.
    pub fn root_mut(&mut self) -> (r: BranchMut<'_, T>)
        ensures
            r.tree() == *old(self),
            r.id() == BranchId::ROOT,
    {
        BranchMut { ashes: self, id: BranchId::ROOT }
    }

    /// Returns a handle on the branch `branch` through which its payload may
    /// be written.
    ///
    /// Verus cannot state here how the tree looks once the handle is gone:
    /// that needs the handle's final state, which only a prophetic
    /// specification could name. [`payload_mut`](Self::payload_mut) writes a
    /// payload with an exact contract on the tree.
    pub fn branch_mut(&mut self, branch: BranchId) -> (r: BranchMut<'_, T>)
        requires
            old(self).has(branch),
        ensures
            r.tree() == *old(self),
            r.id() == branch.normalized(),
    {
        BranchMut { ashes: self, id: branch.normalize() }
    }

    /// Returns the payload of a node for writing; the root has none and is
    /// not accepted.
    pub fn payload_mut(&mut self, of: BranchId) -> (r: &mut T)
        requires
            old(self).has(of),
            !of.spec_is_root(),
        ensures
            *r == old(self).payload_of(of.spec_value() as int),
            final(self).payload_of(of.spec_value() as int) == *final(r),
            final(self).same_shape(&*old(self)),
            forall|j: int| 0 <= j < old(self).len() && j != of.spec_value() ==>
                final(self).payload_of(j) == old(self).payload_of(j),
    {
        let i = of.value();
        &mut self.nodes[i].payload
    }

    /// Returns the range of the root's children.
    pub fn root_children(&self) -> (r: Range<BranchId>)
        requires
            self.wf(),
        ensures
            r == id_range(self.root_range()),
    {
        child_range(&self.root_children)
    }
}

impl<T> Default for Ashes<T> {
    fn default() -> (r: Self)
        ensures
            r.wf(),
            r.len() == 0,
            r.root_range() == (0usize..0usize),
    {
        Ashes::new()
    }
}

/// The identifiers of the nodes in an index range.
pub open spec fn id_range(r: Range<usize>) -> Range<BranchId> {
    BranchId::Branch(r.start)..BranchId::Branch(r.end)
}

fn child_range(indices: &Range<usize>) -> (r: Range<BranchId>)
    requires
        indices.start < ROOT_VALUE,
        indices.end < ROOT_VALUE,
    ensures
        r == id_range(*indices),
{
    BranchId::new_branch(indices.start)..BranchId::new_branch(indices.end)
}

/// The number of identifiers in a range of node identifiers.
fn children_len(r: Range<BranchId>) -> (n: usize)
    requires
        r.start is Branch,
        r.end is Branch,
        r.start->Branch_0 <= r.end->Branch_0,
    ensures
        n == r.end->Branch_0 - r.start->Branch_0,
{
    r.end.value() - r.start.value()
}

/// The identifier at offset `idx` of a range of node identifiers.
fn nth_child(range: Range<BranchId>, idx: usize) -> (r: BranchId)
    requires
        range.start is Branch,
        range.end is Branch,
        range.end->Branch_0 < ROOT_VALUE,
        idx < range.end->Branch_0 - range.start->Branch_0,
    ensures
        r == BranchId::Branch((range.start->Branch_0 + idx) as usize),
{
    BranchId::new_branch(range.start.value() + idx)
}

/// A shared handle on the root or a node of an [`Ashes`].
pub struct BranchRef<'a, T> {
    ashes: &'a Ashes<T>,
    id: BranchId,
}

impl<'a, T> Clone for BranchRef<'a, T> {
    fn clone(&self) -> (r: Self)
        ensures
            r == *self,
    {
        BranchRef { ashes: self.ashes, id: self.id }
    }
}

impl<'a, T> Copy for BranchRef<'a, T> {}

impl<'a, T> BranchRef<'a, T> {
    /// The tree this handle reads.
    pub closed spec fn tree(&self) -> Ashes<T> {
        *self.ashes
    }

    /// The branch this handle stands on.
    pub closed spec fn id(&self) -> BranchId {
        self.id
    }

    /// The handle's tree is well formed and holds its branch.
    pub open spec fn valid(&self) -> bool {
        self.tree().wf() && self.tree().holds(self.id())
    }

    /// Returns whether this is the root.
    pub fn is_root(self) -> (r: bool)
        ensures
            r == self.id().spec_is_root(),
    {
        self.id.is_root()
    }

    /// Returns the parent of this branch, or `None` for the root.
    pub fn parent(self) -> (r: Option<BranchId>)
        requires
            self.valid(),
        ensures
            match self.id() {
                BranchId::ROOT => r is None,
                BranchId::Branch(i) => r == Some(self.tree().parent_of(i as int)),
            },
    {
        match self.id {
            BranchId::ROOT => None,
            BranchId::Branch(i) => Some(self.ashes.nodes[i].parent),
        }
    }

    /// Returns the payload of this branch, or `None` for the root.
    pub fn payload(self) -> (r: Option<&'a T>)
        requires
            self.valid(),
        ensures
            match self.id() {
                BranchId::ROOT => r is None,
                BranchId::Branch(i) => r == Some(&self.tree().payload_of(i as int)),
            },
    {
        match self.id {
            BranchId::ROOT => None,
            BranchId::Branch(i) => Some(&self.ashes.nodes[i].payload),
        }
    }

    /// Returns the identifiers of this branch's children, in order.
    pub fn child_iter(self) -> (r: Vec<BranchId>)
        requires
            self.valid(),
        ensures
            r@.len() == self.tree().range_of(self.id()).end - self.tree().range_of(
                self.id(),
            ).start,
            forall|k: int|
                0 <= k < r@.len() ==> #[trigger] r@[k] == BranchId::Branch(
                    (self.tree().range_of(self.id()).start + k) as usize,
                ),
    {
        let range = self.range();
        let mut out: Vec<BranchId> = Vec::new();
        let mut i: usize = range.start;
        while i < range.end
            invariant
                range == self.tree().range_of(self.id()),
                range.start <= i <= range.end <= self.tree().len() < ROOT_VALUE,
                out@.len() == i - range.start,
                forall|k: int|
                    0 <= k < out@.len() ==> #[trigger] out@[k] == BranchId::Branch(
                        (range.start + k) as usize,
                    ),
            decreases range.end - i,
        {
            out.push(BranchId::new_branch(i));
            i = i + 1;
        }
        out
    }

    fn range(self) -> (r: Range<usize>)
        requires
            self.valid(),
        ensures
            r == self.tree().range_of(self.id()),
            r.start <= r.end <= self.tree().len(),
    {
        match self.id {
            BranchId::ROOT => self.ashes.root_children.start..self.ashes.root_children.end,
            BranchId::Branch(i) => {
                proof {
                    let _ = self.tree().children_of(i as int);
                }
                self.ashes.nodes[i].children.start..self.ashes.nodes[i].children.end
            },
        }
    }

    /// Returns the range of this branch's children.
    pub fn children(self) -> (r: Range<BranchId>)
        requires
            self.valid(),
        ensures
            r == id_range(self.tree().range_of(self.id())),
    {
        let range = self.range();
        child_range(&range)
    }

    /// Returns how many children this branch has.
    pub fn n_children(self) -> (r: usize)
        requires
            self.valid(),
        ensures
            r == self.tree().range_of(self.id()).end - self.tree().range_of(self.id()).start,
    {
        children_len(self.children())
    }

    /// Returns the identifier of this branch's `n`th child.
    pub fn child(self, n: usize) -> (r: BranchId)
        requires
            self.valid(),
            n < self.tree().range_of(self.id()).end - self.tree().range_of(self.id()).start,
        ensures
            r == BranchId::Branch((self.tree().range_of(self.id()).start + n) as usize),
    {
        nth_child(self.children(), n)
    }
}

/// A handle on the root or a node of an [`Ashes`] through which the payload
/// may be written.
pub struct BranchMut<'a, T> {
    ashes: &'a mut Ashes<T>,
    id: BranchId,
}

impl<'a, T> BranchMut<'a, T> {
    /// The tree as this handle currently sees it.
    pub closed spec fn tree(&self) -> Ashes<T> {
        *self.ashes
    }

    /// The branch this handle stands on.
    pub closed spec fn id(&self) -> BranchId {
        self.id
    }

    /// The handle's tree is well formed and holds its branch.
    pub open spec fn valid(&self) -> bool {
        self.tree().wf() && self.tree().holds(self.id())
    }

    /// Returns whether this is the root.
    pub fn is_root(&self) -> (r: bool)
        ensures
            r == self.id().spec_is_root(),
    {
        self.id.is_root()
    }

    /// Returns the parent of this branch, or `None` for the root.
    pub fn parent(&self) -> (r: Option<BranchId>)
        requires
            self.valid(),
        ensures
            match self.id() {
                BranchId::ROOT => r is None,
                BranchId::Branch(i) => r == Some(self.tree().parent_of(i as int)),
            },
    {
        match self.id {
            BranchId::ROOT => None,
            BranchId::Branch(i) => Some(self.ashes.nodes[i].parent),
        }
    }

    /// Returns this branch's payload for writing, or `None` for the root.
    pub fn payload(&mut self) -> (r: Option<&mut T>)
        requires
            old(self).valid(),
        ensures
            final(self).id() == old(self).id(),
            final(self).tree().same_shape(&old(self).tree()),
            match old(self).id() {
                BranchId::ROOT => r is None && final(self).tree() == old(self).tree(),
                BranchId::Branch(i) => {
                    &&& r is Some
                    &&& *r->0 == old(self).tree().payload_of(i as int)
                    &&& final(self).tree().payload_of(i as int) == *final(r->0)
                    &&& forall|j: int|
                        0 <= j < old(self).tree().len() && j != i
                            ==> final(self).tree().payload_of(j) == old(self).tree().payload_of(j)
                },
            },
    {
        match self.id {
            BranchId::ROOT => None,
            BranchId::Branch(i) => Some(&mut self.ashes.nodes[i].payload),
        }
    }

    fn range(&self) -> (r: Range<usize>)
        requires
            self.valid(),
        ensures
            r == self.tree().range_of(self.id()),
            r.start <= r.end <= self.tree().len(),
    {
        match self.id {
            BranchId::ROOT => self.ashes.root_children.start..self.ashes.root_children.end,
            BranchId::Branch(i) => {
                proof {
                    let _ = self.tree().children_of(i as int);
                }
                self.ashes.nodes[i].children.start..self.ashes.nodes[i].children.end
            },
        }
    }

    /// Returns the range of this branch's children.
    pub fn children(&self) -> (r: Range<BranchId>)
        requires
            self.valid(),
        ensures
            r == id_range(self.tree().range_of(self.id())),
    {
        let range = self.range();
        child_range(&range)
    }

    /// Returns how many children this branch has.
    pub fn children_len(&self) -> (r: usize)
        requires
            self.valid(),
        ensures
            r == self.tree().range_of(self.id()).end - self.tree().range_of(self.id()).start,
    {
        children_len(self.children())
    }

    /// Returns the identifier of this branch's `idx`th child.
    pub fn child(&self, idx: usize) -> (r: BranchId)
        requires
            self.valid(),
            idx < self.tree().range_of(self.id()).end - self.tree().range_of(self.id()).start,
        ensures
            r == BranchId::Branch((self.tree().range_of(self.id()).start + idx) as usize),
    {
        nth_child(self.children(), idx)
    }
}

/// In a well-formed tree, the children ranges of all nodes together with the
/// root's range cover every position of the node array exactly once.
pub proof fn lemma_ranges_partition<T>(t: &Ashes<T>)
    requires
        t.wf(),
    ensures
        t.root_range().start <= t.root_range().end <= t.len(),
        forall|p: int|
            0 <= p < t.len() ==> (#[trigger] t.children_of(p)).start <= t.children_of(p).end
                <= t.len(),
        forall|j: int|
            0 <= j < t.len() ==> in_range(t.root_range(), j) || exists|p: int|
                0 <= p < t.len() && #[trigger] in_range(t.children_of(p), j),
        forall|p: int, j: int|
            0 <= p < t.len() && 0 <= j < t.len() && #[trigger] in_range(t.children_of(p), j)
                ==> !in_range(t.root_range(), j),
        forall|p: int, q: int, j: int|
            0 <= p < t.len() && 0 <= q < t.len() && 0 <= j < t.len() && #[trigger] in_range(
                t.children_of(p),
                j,
            ) && #[trigger] in_range(t.children_of(q), j) ==> p == q,
{
    assert forall|j: int|
        0 <= j < t.len() implies in_range(t.root_range(), j) || exists|p: int|
            0 <= p < t.len() && #[trigger] in_range(t.children_of(p), j) by {
        match t.parent_of(j) {
            BranchId::ROOT => {},
            BranchId::Branch(p) => {
                assert(in_range(t.children_of(p as int), j));
            },
        }
    }
    assert forall|p: int, j: int|
        0 <= p < t.len() && 0 <= j < t.len() && #[trigger] in_range(
            t.children_of(p),
            j,
        ) implies !in_range(t.root_range(), j) by {
        assert(t.parent_of(j) == BranchId::Branch(p as usize));
    }
}

/// The children of a branch lie in the tree and have a smaller measure than
/// the branch.
pub proof fn lemma_child_measure<T>(t: Ashes<T>, id: BranchId, c: int)
    requires
        t.wf(),
        t.holds(id),
        in_range(t.range_of(id), c),
    ensures
        0 <= c < t.len(),
        t.measure_of(BranchId::Branch(c as usize)) < t.measure_of(id),
{
    match id {
        BranchId::ROOT => {},
        BranchId::Branch(p) => {
            assert(t.children_of(p as int).end <= t.len());
            assert(t.parent_of(c) == BranchId::Branch(p));
        },
    }
}

} // verus!
