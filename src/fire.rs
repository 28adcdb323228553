//! The mutable, append-only tree.
//!
//! See [`ForestFire`].
use vstd::prelude::*;

pub use crate::internal::BranchIdImpl as BranchId;
use crate::ashes::{in_range, Ashes, Node as AshNode};
use crate::internal::ROOT_VALUE;

mod grouping;

use grouping::{
    count_eq, count_lt, group_pos, key_order, keys_below, lemma_count_lt_ends, lemma_count_lt_mono,
    lemma_count_lt_step, lemma_counts_bounded, lemma_group_pos_bounded, lemma_group_pos_injective,
    lemma_group_pos_onto, lemma_group_pos_order, lemma_group_pos_window,
};

verus! {

impl<T> Default for ForestFire<T> {
    fn default() -> (r: Self)
        ensures
            r.wf(),
            r.len() == 0,
    {
        ForestFire::new()
    }
}

/// Where burning groups a node with parent `p`: the root's children first,
/// then the children of node 0, of node 1, and so on.
pub open spec fn parent_key(p: BranchId) -> int {
    match p {
        BranchId::ROOT => 0,
        BranchId::Branch(q) => q + 1,
    }
}

/// The parent that a node's parent `p` becomes once node `q` of the builder
/// has moved to position `old2new[q]`.
pub open spec fn moved_parent(p: BranchId, old2new: Seq<usize>) -> BranchId {
    match p {
        BranchId::ROOT => BranchId::ROOT,
        BranchId::Branch(q) => BranchId::Branch(old2new[q as int]),
    }
}

/// One record of the builder: the node's parent and its payload.
pub(crate) struct Node<T> {
    pub(crate) parent: BranchId,
    pub(crate) payload: T,
}

/// A tree under construction.
///
/// Nodes are appended under the root or under any node created earlier; the
/// children of a node cannot be listed until the tree is burnt into an
/// [`Ashes`](crate::ashes::Ashes) by [`burn`](ForestFire::burn).
/// The root itself holds no payload.
pub struct ForestFire<T> {
    pub(crate) nodes: Vec<Node<T>>,
}

impl<T> ForestFire<T> {
    /// The number of nodes, the root not included.
    pub closed spec fn len(&self) -> nat {
        self.nodes@.len()
    }

    /// The parent recorded for node `i`.
    pub closed spec fn parent_of(&self, i: int) -> BranchId {
        self.nodes@[i].parent
    }

    /// The payload of node `i`.
    pub closed spec fn payload_of(&self, i: int) -> T {
        self.nodes@[i].payload
    }

    /// The grouping key of every node, in builder order.
    pub closed spec fn keys(&self) -> Seq<int> {
        Seq::new(self.len(), |i: int| parent_key(self.parent_of(i)))
    }

    /// Burning places node `a` before node `b`: its parent's key is smaller,
    /// or the parents are the same and `a` was inserted first.
    pub open spec fn burns_before(&self, a: int, b: int) -> bool {
        ||| parent_key(self.parent_of(a)) < parent_key(self.parent_of(b))
        ||| (parent_key(self.parent_of(a)) == parent_key(self.parent_of(b)) && a < b)
    }

    /// Whether `id` is [`BranchId::ROOT`] or the index of a node of this tree.
    pub open spec fn holds(&self, id: BranchId) -> bool {
        match id {
            BranchId::ROOT => true,
            BranchId::Branch(i) => i < self.len(),
        }
    }

    /// Whether `id` exists in this tree: it stands for the root, or it is the
    /// index of a node.
    pub open spec fn has(&self, id: BranchId) -> bool {
        id.spec_is_root() || self.holds(id)
    }

    /// Every node's parent is the root or a node created before it, and no
    /// node index reaches the values reserved for sentinels.
    pub closed spec fn wf(&self) -> bool {
        &&& self.nodes@.len() < ROOT_VALUE
        &&& forall|i: int|
            0 <= i < self.nodes@.len() ==> match #[trigger] self.nodes@[i].parent {
                BranchId::ROOT => true,
                BranchId::Branch(p) => p < i,
            }
    }

    /// Constructs a new, empty tree.
    pub fn new() -> (r: Self)
        ensures
            r.wf(),
            r.len() == 0,
    {
        ForestFire { nodes: Vec::new() }
    }

    /// Returns the number of nodes in this tree, the root not included.
    pub fn node_count(&self) -> (r: usize)
        ensures
            r == self.len(),
    {
        self.nodes.len()
    }

    /// Checks whether there is a branch with the given identifier; always
    /// `true` for [`BranchId::ROOT`].
    pub fn contains(&self, branch: BranchId) -> (r: bool)
        ensures
            r == self.has(branch),
    {
        match branch.normalize() {
            BranchId::ROOT => true,
            BranchId::Branch(i) => i < self.nodes.len(),
        }
    }

    /// Returns the parent of a branch, or `None` for the root.
    pub fn parent(&self, of: BranchId) -> (r: Option<BranchId>)
        requires
            self.has(of),
        ensures
            match of.normalized() {
                BranchId::ROOT => r is None,
                BranchId::Branch(i) => r == Some(self.parent_of(i as int)),
            },
    {
        match of.normalize() {
            BranchId::ROOT => None,
            BranchId::Branch(i) => Some(self.nodes[i].parent),
        }
    }

    /// Returns the payload of a branch, or `None` for the root.
    pub fn get_payload(&self, of: BranchId) -> (r: Option<&T>)
        requires
            self.has(of),
        ensures
            match of.normalized() {
                BranchId::ROOT => r is None,
                BranchId::Branch(i) => r == Some(&self.payload_of(i as int)),
            },
    {
        match of.normalize() {
            BranchId::ROOT => None,
            BranchId::Branch(i) => Some(&self.nodes[i].payload),
        }
    }

    /// Returns the payload of a branch for writing, or `None` for the root.
    pub fn get_payload_mut(&mut self, of: BranchId) -> (r: Option<&mut T>)
        requires
            old(self).has(of),
        ensures
            match of.normalized() {
                BranchId::ROOT => r is None && *final(self) == *old(self),
                BranchId::Branch(i) => {
                    &&& r is Some
                    &&& *r->0 == old(self).payload_of(i as int)
                    &&& final(self).len() == old(self).len()
                    &&& final(self).payload_of(i as int) == *final(r->0)
                    &&& forall|j: int| 0 <= j < old(self).len() ==>
                        final(self).parent_of(j) == old(self).parent_of(j)
                    &&& forall|j: int| 0 <= j < old(self).len() && j != i ==>
                        final(self).payload_of(j) == old(self).payload_of(j)
                },
            },
    {
        match of.normalize() {
            BranchId::ROOT => None,
            BranchId::Branch(i) => Some(&mut self.nodes[i].payload),
        }
    }

    /// Returns the payload of a node; the root has none and is not accepted.
    pub fn payload(&self, of: BranchId) -> (r: &T)
        requires
            self.has(of),
            !of.spec_is_root(),
        ensures
            *r == self.payload_of(of.spec_value() as int),
    {
        let i = of.value();
        &self.nodes[i].payload
    }

    /// Returns the payload of a node for writing; the root has none and is
    /// not accepted.
    pub fn payload_mut(&mut self, of: BranchId) -> (r: &mut T)
        requires
            old(self).has(of),
            !of.spec_is_root(),
        ensures
            *r == old(self).payload_of(of.spec_value() as int),
            final(self).len() == old(self).len(),
            final(self).payload_of(of.spec_value() as int) == *final(r),
            forall|j: int| 0 <= j < old(self).len() ==>
                final(self).parent_of(j) == old(self).parent_of(j),
            forall|j: int| 0 <= j < old(self).len() && j != of.spec_value() ==>
                final(self).payload_of(j) == old(self).payload_of(j),
    {
        let i = of.value();
        &mut self.nodes[i].payload
    }

    /// Appends a new node with `payload` under `parent`, which must be the
    /// root or a node of this tree, and returns the new node's identifier.
    ///
    /// Identifiers are handed out in increasing order from 0.
    pub fn branch(&mut self, parent: BranchId, payload: T) -> (r: BranchId)
        requires
            old(self).wf(),
            old(self).has(parent),
            old(self).len() + 1 < ROOT_VALUE,
        ensures
            final(self).wf(),
            r == BranchId::Branch(old(self).len() as usize),
            final(self).len() == old(self).len() + 1,
            final(self).parent_of(old(self).len() as int) == parent.normalized(),
            final(self).payload_of(old(self).len() as int) == payload,
            forall|j: int| 0 <= j < old(self).len() ==>
                final(self).parent_of(j) == old(self).parent_of(j)
                && final(self).payload_of(j) == old(self).payload_of(j),
    {
        let id = self.nodes.len();
        self.nodes.push(Node { parent: parent.normalize(), payload });
        BranchId::new_branch(id)
    }

    /// Appends a new node as [`branch`](Self::branch) does where `parent`
    /// exists; where it does not, or the identifiers have run out, appends
    /// nothing, attaches nothing anywhere, and returns `None`.
    pub fn try_branch(&mut self, parent: BranchId, payload: T) -> (r: Option<BranchId>)
        requires
            old(self).wf(),
        ensures
            final(self).wf(),
            (old(self).has(parent) && old(self).len() + 1 < ROOT_VALUE) == (r is Some),
            r is None ==> *final(self) == *old(self),
            r is Some ==> {
                &&& r == Some(BranchId::Branch(old(self).len() as usize))
                &&& final(self).len() == old(self).len() + 1
                &&& final(self).parent_of(old(self).len() as int) == parent.normalized()
                &&& final(self).payload_of(old(self).len() as int) == payload
                &&& forall|j: int| 0 <= j < old(self).len() ==>
                    final(self).parent_of(j) == old(self).parent_of(j)
                    && final(self).payload_of(j) == old(self).payload_of(j)
            },
    {
        if !self.contains(parent) || self.nodes.len() >= ROOT_VALUE - 1 {
            return None;
        }
        Some(self.branch(parent, payload))
    }

    /// Returns the identifier that the next call to [`branch`](Self::branch)
    /// would hand out. It is never the root.
    pub fn next_id(&self) -> (r: BranchId)
        requires
            self.wf(),
        ensures
            r == BranchId::Branch(self.len() as usize),
            !r.spec_is_root(),
            !self.has(r),
    {
        BranchId::new_branch(self.nodes.len())
    }

    /// Finishes building and turns this tree into an [`Ashes`].
    ///
    /// The nodes are grouped by parent, stably: the root's children come
    /// first, then the children of builder node 0, of node 1, and so on, each
    /// group in insertion order. Every parent is rewritten to the new position
    /// of its node, and every node records its builder index as its origin.
    ///
    /// The grouping is a counting sort on the parent key, so the block of each
    /// parent's children is known from the counts without a further scan.
    pub fn burn(self) -> (r: Ashes<T>)
        requires
            self.wf(),
        ensures
            r.wf(),
            r.parents_first(),
            r.len() == self.len(),
            r.root_range().start == 0,
            forall|i: int| 0 <= i < r.len() ==> #[trigger] r.origin_of(i) < r.len(),
            forall|i: int, j: int|
                0 <= i < r.len() && 0 <= j < r.len() && i != j ==> #[trigger] r.origin_of(i)
                    != #[trigger] r.origin_of(j),
            forall|i: int|
                0 <= i < r.len() ==> #[trigger] r.payload_of(i) == self.payload_of(
                    r.origin_of(i) as int,
                ),
            forall|i: int|
                0 <= i < r.len() ==> match #[trigger] r.parent_of(i) {
                    BranchId::ROOT => self.parent_of(r.origin_of(i) as int) == BranchId::ROOT,
                    BranchId::Branch(p) => self.parent_of(r.origin_of(i) as int)
                        == BranchId::Branch(r.origin_of(p as int)),
                },
            forall|i: int, j: int|
                0 <= i < j < r.len() ==> self.burns_before(
                    #[trigger] r.origin_of(i) as int,
                    #[trigger] r.origin_of(j) as int,
                ),
            forall|i: int, j: int|
                0 <= i < j < r.len() && #[trigger] r.parent_of(i) == #[trigger] r.parent_of(j)
                    ==> r.origin_of(i) < r.origin_of(j),
    {
        let n = self.nodes.len();
        let ghost ks = self.keys();
        let ghost orig = self.nodes@;
        proof {
            assert forall|j: int|
                0 <= j < n implies match #[trigger] orig[j].parent {
                    BranchId::ROOT => true,
                    BranchId::Branch(q) => q < j,
                } by {
                let _ = self.nodes@[j].parent;
            }
        }

        // the grouping key of each node
        let mut keys: Vec<usize> = Vec::new();
        let mut i: usize = 0;
        while i < n
            invariant
                n == self.nodes@.len(),
                self.wf(),
                ks == self.keys(),
                i <= n,
                keys@.len() == i,
                forall|j: int| 0 <= j < i ==> keys@[j] as int == ks[j],
            decreases n - i,
        {
            let k: usize = match self.nodes[i].parent {
                BranchId::ROOT => 0,
                BranchId::Branch(q) => q + 1,
            };
            keys.push(k);
            i = i + 1;
        }
        proof {
            assert forall|j: int| 0 <= j < ks.len() implies 0 <= #[trigger] ks[j] < n by {
                let _ = self.nodes@[j].parent;
            }
            assert(keys_below(ks, n as int));
        }

        // how many nodes have each key
        let mut counts: Vec<usize> = vec![0usize; n + 1];
        let mut i: usize = 0;
        while i < n
            invariant
                i <= n,
                keys@.len() == n,
                ks.len() == n,
                keys_below(ks, n as int),
                forall|j: int| 0 <= j < n ==> keys@[j] as int == ks[j],
                counts@.len() == n + 1,
                forall|k: int| 0 <= k <= n ==> #[trigger] counts@[k] == count_eq(ks, k, i as int),
            decreases n - i,
        {
            let k = keys[i];
            proof {
                assert(0 <= ks[i as int] < n);
                lemma_counts_bounded(ks, k as int, i as int);
            }
            let c = counts[k];
            counts.set(k, c + 1);
            i = i + 1;
        }

        // where each key's block starts
        let mut starts: Vec<usize> = Vec::new();
        let mut cursor: Vec<usize> = Vec::new();
        let mut acc: usize = 0;
        let mut k: usize = 0;
        proof {
            lemma_count_lt_ends(ks, n as int, n as int);
        }
        while k <= n
            invariant
                k <= n + 1,
                ks.len() == n,
                n < ROOT_VALUE,
                counts@.len() == n + 1,
                forall|c: int| 0 <= c <= n ==> #[trigger] counts@[c] == count_eq(ks, c, n as int),
                acc == count_lt(ks, k as int, n as int),
                starts@.len() == k,
                cursor@.len() == k,
                forall|c: int|
                    0 <= c < k ==> #[trigger] starts@[c] == count_lt(ks, c, n as int)
                        && cursor@[c] == starts@[c],
            decreases n + 1 - k,
        {
            starts.push(acc);
            cursor.push(acc);
            proof {
                lemma_count_lt_step(ks, k as int, n as int);
                lemma_counts_bounded(ks, k + 1, n as int);
            }
            acc = acc + counts[k];
            k = k + 1;
        }
        starts.push(acc);
        proof {
            assert forall|c: int| 0 <= c <= n + 1 implies #[trigger] starts@[c] == count_lt(
                ks,
                c,
                n as int,
            ) by {
                if c < n + 1 {
                    assert(starts@[c] == count_lt(ks, c, n as int));
                }
            }
        }

        // the new position of each builder node
        proof {
            assert forall|c: int| 0 <= c <= n implies #[trigger] cursor@[c] == count_lt(
                ks,
                c,
                n as int,
            ) + count_eq(ks, c, 0) by {
                assert(starts@[c] == count_lt(ks, c, n as int));
            }
        }
        let mut old2new: Vec<usize> = Vec::new();
        let mut i: usize = 0;
        while i < n
            invariant
                i <= n,
                keys@.len() == n,
                ks.len() == n,
                keys_below(ks, n as int),
                forall|j: int| 0 <= j < n ==> keys@[j] as int == ks[j],
                cursor@.len() == n + 1,
                forall|c: int|
                    0 <= c <= n ==> #[trigger] cursor@[c] == count_lt(ks, c, n as int) + count_eq(
                        ks,
                        c,
                        i as int,
                    ),
                old2new@.len() == i,
                forall|j: int| 0 <= j < i ==> old2new@[j] == group_pos(ks, j),
            decreases n - i,
        {
            let k = keys[i];
            proof {
                assert(0 <= ks[i as int] < n);
                lemma_group_pos_bounded(ks, n as int, i as int);
            }
            let p = cursor[k];
            old2new.push(p);
            cursor.set(k, p + 1);
            i = i + 1;
        }

        // the builder node that lands at each position
        let mut new2old: Vec<usize> = vec![0usize; n];
        let mut i: usize = 0;
        while i < n
            invariant
                i <= n,
                ks.len() == n,
                keys_below(ks, n as int),
                old2new@.len() == n,
                forall|j: int| 0 <= j < n ==> old2new@[j] == group_pos(ks, j),
                new2old@.len() == n,
                forall|j: int| 0 <= j < i ==> new2old@[#[trigger] group_pos(ks, j)] == j,
            decreases n - i,
        {
            proof {
                lemma_group_pos_bounded(ks, n as int, i as int);
                assert forall|j: int| 0 <= j < i implies group_pos(ks, j) != group_pos(
                    ks,
                    i as int,
                ) by {
                    lemma_group_pos_injective(ks, j, i as int);
                }
            }
            new2old.set(old2new[i], i);
            proof {
                assert forall|j: int| 0 <= j < i + 1 implies new2old@[#[trigger] group_pos(ks, j)]
                    == j by {
                    lemma_group_pos_bounded(ks, n as int, j);
                }
            }
            i = i + 1;
        }
        proof {
            assert forall|p: int| 0 <= p < n implies #[trigger] new2old@[p] < n && group_pos(
                ks,
                new2old@[p] as int,
            ) == p by {
                lemma_group_pos_onto(ks, n as int, p);
                let j = choose|j: int| 0 <= j < ks.len() && group_pos(ks, j) == p;
                assert(new2old@[group_pos(ks, j)] == j);
            }
        }

        // move every record into a slot at its builder index
        let mut slots: Vec<Option<Node<T>>> = Vec::new();
        let mut i: usize = 0;
        while i < n
            invariant
                i <= n,
                slots@.len() == i,
                forall|j: int| 0 <= j < i ==> slots@[j] is None,
            decreases n - i,
        {
            slots.push(None);
            i = i + 1;
        }
        let mut nodes = self.nodes;
        while nodes.len() > 0
            invariant
                slots@.len() == n,
                orig.len() == n,
                nodes@.len() <= n,
                nodes@ == orig.subrange(0, nodes@.len() as int),
                forall|j: int|
                    0 <= j < n ==> #[trigger] slots@[j] == if j < nodes@.len() {
                        None
                    } else {
                        Some(orig[j])
                    },
            decreases nodes@.len(),
        {
            let node = nodes.pop().unwrap();
            let idx = nodes.len();
            slots.set(idx, Some(node));
        }

        // lay the records out in their new order
        let mut out: Vec<AshNode<T>> = Vec::new();
        let mut p: usize = 0;
        while p < n
            invariant
                p <= n,
                n < ROOT_VALUE,
                ks.len() == n,
                orig.len() == n,
                keys_below(ks, n as int),
                slots@.len() == n,
                old2new@.len() == n,
                forall|j: int| 0 <= j < n ==> old2new@[j] == group_pos(ks, j),
                new2old@.len() == n,
                forall|q: int|
                    0 <= q < n ==> #[trigger] new2old@[q] < n && group_pos(ks, new2old@[q] as int)
                        == q,
                starts@.len() == n + 2,
                forall|j: int|
                    0 <= j < n ==> match #[trigger] orig[j].parent {
                        BranchId::ROOT => true,
                        BranchId::Branch(q) => q < j,
                    },
                forall|q: int|
                    0 <= q < n ==> #[trigger] slots@[q] == if group_pos(ks, q) < p {
                        None
                    } else {
                        Some(orig[q])
                    },
                out@.len() == p,
                forall|m: int|
                    0 <= m < p ==> {
                        &&& (#[trigger] out@[m]).old_idx == new2old@[m]
                        &&& out@[m].payload == orig[new2old@[m] as int].payload
                        &&& out@[m].parent == moved_parent(orig[new2old@[m] as int].parent, old2new@)
                        &&& out@[m].children == (starts@[new2old@[m] + 1]..starts@[new2old@[m] + 2])
                    },
            decreases n - p,
        {
            let o = new2old[p];
            proof {
                assert forall|q: int| 0 <= q < n && q != o implies group_pos(ks, q) != p by {
                    lemma_group_pos_injective(ks, q, o as int);
                }
            }
            let mut taken: Option<Node<T>> = None;
            slots.set_and_swap(o, &mut taken);
            let Node { parent, payload } = taken.unwrap();
            let new_parent = match parent {
                BranchId::ROOT => BranchId::ROOT,
                BranchId::Branch(q) => {
                    proof {
                        lemma_group_pos_bounded(ks, n as int, q as int);
                    }
                    BranchId::Branch(old2new[q])
                },
            };
            let children = starts[o + 1]..starts[o + 2];
            out.push(AshNode { parent: new_parent, payload, children, old_idx: o });
            p = p + 1;
        }
        let root_children = starts[0]..starts[1];
        let r = Ashes::from_parts(out, root_children);
        proof {
            self.lemma_burn_layout(r, ks, old2new@, new2old@, starts@);
            assert forall|i: int, j: int|
                0 <= i < j < r.len() && #[trigger] r.parent_of(i) == #[trigger] r.parent_of(j)
                    implies r.origin_of(i) < r.origin_of(j) by {
                assert(self.burns_before(r.origin_of(i) as int, r.origin_of(j) as int));
                let oi = r.origin_of(i) as int;
                let oj = r.origin_of(j) as int;
                match r.parent_of(i) {
                    BranchId::ROOT => {},
                    BranchId::Branch(pp) => {
                        assert(self.parent_of(oi) == BranchId::Branch(r.origin_of(pp as int)));
                    },
                }
            }
        }
        r
    }
    proof fn lemma_burn_layout(
        &self,
        r: Ashes<T>,
        ks: Seq<int>,
        old2new: Seq<usize>,
        new2old: Seq<usize>,
        starts: Seq<usize>,
    )
        requires
            self.wf(),
            ks == self.keys(),
            old2new.len() == self.len(),
            forall|j: int| 0 <= j < self.len() ==> old2new[j] == group_pos(ks, j),
            new2old.len() == self.len(),
            forall|q: int|
                0 <= q < self.len() ==> #[trigger] new2old[q] < self.len() && group_pos(
                    ks,
                    new2old[q] as int,
                ) == q,
            starts.len() == self.len() + 2,
            forall|c: int|
                0 <= c <= self.len() + 1 ==> #[trigger] starts[c] == count_lt(
                    ks,
                    c,
                    self.len() as int,
                ),
            r.len() == self.len(),
            r.root_range() == (starts[0]..starts[1]),
            forall|m: int|
                0 <= m < self.len() ==> {
                    &&& #[trigger] r.origin_of(m) == new2old[m]
                    &&& r.payload_of(m) == self.payload_of(new2old[m] as int)
                    &&& r.parent_of(m) == moved_parent(self.parent_of(new2old[m] as int), old2new)
                    &&& r.children_of(m) == (starts[new2old[m] + 1]..starts[new2old[m] + 2])
                },
        ensures
            r.wf(),
            r.parents_first(),
            r.root_range().start == 0,
            forall|i: int| 0 <= i < r.len() ==> #[trigger] r.origin_of(i) < r.len(),
            forall|i: int, j: int|
                0 <= i < r.len() && 0 <= j < r.len() && i != j ==> #[trigger] r.origin_of(i)
                    != #[trigger] r.origin_of(j),
            forall|i: int|
                0 <= i < r.len() ==> #[trigger] r.payload_of(i) == self.payload_of(
                    r.origin_of(i) as int,
                ),
            forall|i: int|
                0 <= i < r.len() ==> match #[trigger] r.parent_of(i) {
                    BranchId::ROOT => self.parent_of(r.origin_of(i) as int) == BranchId::ROOT,
                    BranchId::Branch(p) => self.parent_of(r.origin_of(i) as int)
                        == BranchId::Branch(r.origin_of(p as int)),
                },
            forall|i: int, j: int|
                0 <= i < j < r.len() ==> self.burns_before(
                    #[trigger] r.origin_of(i) as int,
                    #[trigger] r.origin_of(j) as int,
                ),
    {
        let n = self.len() as int;
        assert forall|j: int| 0 <= j < n implies 0 <= #[trigger] ks[j] <= j by {
            let _ = self.nodes@[j].parent;
        }
        assert(keys_below(ks, n));
        lemma_count_lt_ends(ks, n, n);
        assert forall|c: int| #[trigger] count_lt(ks, c, n) <= n by {
            lemma_counts_bounded(ks, c, n);
        }
        assert forall|q: int| 0 <= q < n implies #[trigger] new2old[group_pos(ks, q)] == q by {
            lemma_group_pos_bounded(ks, n, q);
            let p = group_pos(ks, q);
            assert(group_pos(ks, new2old[p] as int) == p);
            if new2old[p] != q {
                lemma_group_pos_injective(ks, new2old[p] as int, q);
            }
        }
        assert forall|o: int|
            0 <= o < n implies count_lt(ks, ks[o], n) <= #[trigger] group_pos(ks, o) < count_lt(
                ks,
                ks[o] + 1,
                n,
            ) by {
            lemma_group_pos_window(ks, o);
        }
        // ranges lie within the array
        lemma_count_lt_mono(ks, 0, 1, n);
        assert forall|i: int| 0 <= i < n implies (#[trigger] r.children_of(i)).start
            <= r.children_of(i).end <= n by {
            let o = new2old[i];
            assert(r.origin_of(i) == o);
            lemma_count_lt_mono(ks, o + 1, o + 2, n);
        }
        assert(r.ranges_bounded());
        // every node lies in its parent's range
        assert forall|j: int|
            0 <= j < n implies match #[trigger] r.parent_of(j) {
                BranchId::ROOT => in_range(r.root_range(), j),
                BranchId::Branch(p) => p < r.len() && in_range(r.children_of(p as int), j),
            } by {
            let o = new2old[j] as int;
            assert(r.origin_of(j) == o);
            assert(group_pos(ks, o) == j);
            match self.parent_of(o) {
                BranchId::ROOT => {},
                BranchId::Branch(q) => {
                    let _ = self.nodes@[o].parent;
                    let pp = old2new[q as int];
                    lemma_group_pos_bounded(ks, n, q as int);
                    assert(new2old[group_pos(ks, q as int)] == q);
                    assert(r.origin_of(pp as int) == q);
                },
            }
        }
        // a node in the root's range is a child of the root
        assert forall|j: int|
            0 <= j < r.len() && #[trigger] in_range(r.root_range(), j) implies r.parent_of(j)
            == BranchId::ROOT by {
            let o = new2old[j] as int;
            assert(r.origin_of(j) == o);
            assert(group_pos(ks, o) == j);
            if ks[o] >= 1 {
                lemma_count_lt_mono(ks, 1, ks[o], n);
            }
        }
        // a node in some node's range is a child of that node
        assert forall|p: int, j: int|
            0 <= p < r.len() && 0 <= j < r.len() && #[trigger] in_range(
                r.children_of(p),
                j,
            ) implies r.parent_of(j) == BranchId::Branch(p as usize) by {
            let q = new2old[p] as int;
            assert(r.origin_of(p) == q);
            let o = new2old[j] as int;
            assert(r.origin_of(j) == o);
            assert(group_pos(ks, o) == j);
            let k = ks[o];
            if k < q + 1 {
                lemma_count_lt_mono(ks, k + 1, q + 1, n);
            } else if k > q + 1 {
                lemma_count_lt_mono(ks, q + 2, k, n);
            }
            assert(k == q + 1);
            let _ = self.nodes@[o].parent;
            assert(self.parent_of(o) == BranchId::Branch(q as usize));
            assert(new2old[group_pos(ks, q)] == q);
            assert(group_pos(ks, new2old[p] as int) == p);
        }
        assert(r.parents_match_ranges());
        // parents come first
        assert forall|j: int|
            0 <= j < r.len() implies match #[trigger] r.parent_of(j) {
                BranchId::ROOT => true,
                BranchId::Branch(p) => p < j,
            } by {
            let o = new2old[j] as int;
            assert(r.origin_of(j) == o);
            assert(group_pos(ks, o) == j);
            match self.parent_of(o) {
                BranchId::ROOT => {},
                BranchId::Branch(q) => {
                    let _ = self.nodes@[o].parent;
                    let _ = self.nodes@[q as int].parent;
                    assert(ks[q as int] <= q);
                    lemma_count_lt_mono(ks, ks[q as int] + 1, q + 1, n);
                },
            }
        }
        assert(r.parents_first());
        // origins form a permutation
        assert forall|i: int, j: int|
            0 <= i < r.len() && 0 <= j < r.len() && i != j implies #[trigger] r.origin_of(i)
            != #[trigger] r.origin_of(j) by {
            assert(group_pos(ks, new2old[i] as int) == i);
            assert(group_pos(ks, new2old[j] as int) == j);
        }
        // parents follow their nodes
        assert forall|i: int|
            0 <= i < r.len() implies match #[trigger] r.parent_of(i) {
                BranchId::ROOT => self.parent_of(r.origin_of(i) as int) == BranchId::ROOT,
                BranchId::Branch(p) => self.parent_of(r.origin_of(i) as int) == BranchId::Branch(
                    r.origin_of(p as int),
                ),
            } by {
            let o = new2old[i] as int;
            assert(r.origin_of(i) == o);
            match self.parent_of(o) {
                BranchId::ROOT => {},
                BranchId::Branch(q) => {
                    let _ = self.nodes@[o].parent;
                    lemma_group_pos_bounded(ks, n, q as int);
                    assert(new2old[group_pos(ks, q as int)] == q);
                    assert(r.origin_of(old2new[q as int] as int) == q);
                },
            }
        }
        // the order is by parent key, then by insertion
        assert forall|i: int, j: int|
            0 <= i < j < r.len() implies self.burns_before(
                #[trigger] r.origin_of(i) as int,
                #[trigger] r.origin_of(j) as int,
            ) by {
            let oi = new2old[i] as int;
            let oj = new2old[j] as int;
            assert(group_pos(ks, oi) == i);
            assert(group_pos(ks, oj) == j);
            if !key_order(ks, oi, oj) {
                lemma_group_pos_order(ks, oj, oi);
            }
        }
    }
}

} // verus!
