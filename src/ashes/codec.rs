//! Encoding of an [`Ashes`] as nested maps, and decoding it back.
//!
//! Every node is a map. A node's payload sits under the key `"v"`; its
//! children sit under the keys `"0"`, `"1"`, ... in order, each one a map of
//! its own. The root is the outermost map and carries no payload.
//!
//! Decoding is driven by events (a map starts, a key, a payload, a map ends)
//! and fills an [`AshDeserStorage`] without recursion; its buffers are kept
//! from one decode to the next.
use vstd::prelude::*;
use vstd::string::StringExecFns;
use vstd::relations::injective_on;
use vstd::set_lib::{lemma_int_range, lemma_map_size, lemma_subset_equality, set_int_range};
use vstd::string::StringSliceAdditionalSpecFns;
use vstd::utf8::{encode_utf8, is_ascii_chars, is_ascii_chars_encode_utf8};

use super::{in_range, lemma_child_measure, Ashes, BranchId, Node};
use crate::internal::ROOT_VALUE;
use std::ops::Range;

verus! {

/// What a key of a node map stands for.
#[derive(Clone, Copy, PartialEq, Eq, Structural, Debug)]
pub enum WireKey {
    /// The key `"v"`: the node's payload.
    Payload,
    /// A decimal key: the child at this position.
    Child(usize),
}

/// Whether byte `b` is an ASCII decimal digit.
pub open spec fn is_digit(b: u8) -> bool {
    48 <= b <= 57
}

/// The value of a sequence of decimal digits.
pub open spec fn decimal_value(s: Seq<u8>) -> nat
    decreases s.len(),
{
    if s.len() == 0 {
        0
    } else {
        decimal_value(s.drop_last()) * 10 + (s.last() - 48) as nat
    }
}

/// Whether `s` is one or more decimal digits.
pub open spec fn is_decimal(s: Seq<u8>) -> bool {
    s.len() > 0 && forall|i: int| 0 <= i < s.len() ==> is_digit(#[trigger] s[i])
}

/// What the key with UTF-8 bytes `s` stands for, if anything: `"v"` is the
/// payload; decimal digits whose value fits a `usize` are a child position.
pub open spec fn key_meaning(s: Seq<u8>) -> Option<WireKey> {
    if s == seq![118u8] {
        Some(WireKey::Payload)
    } else if is_decimal(s) && decimal_value(s) <= usize::MAX {
        Some(WireKey::Child(decimal_value(s) as usize))
    } else {
        None
    }
}

proof fn lemma_decimal_prefix_grows(s: Seq<u8>, k: int)
    requires
        is_decimal(s),
        0 < k <= s.len(),
    ensures
        decimal_value(s.subrange(0, k)) <= decimal_value(s),
    decreases s.len() - k,
{
    if k < s.len() {
        lemma_decimal_prefix_grows(s, k + 1);
        assert(s.subrange(0, k + 1).drop_last() =~= s.subrange(0, k));
    } else {
        assert(s.subrange(0, k) =~= s);
    }
}

/// Reads the key `key` of a node map.
pub fn classify_key(key: &str) -> (r: Option<WireKey>)
    ensures
        r == key_meaning(key.spec_bytes()),
{
    let b = key.as_bytes();
    let ghost s = key.spec_bytes();
    let len = b.len();
    if len == 1 && b[0] == 118u8 {
        proof {
            assert(s =~= seq![118u8]);
        }
        return Some(WireKey::Payload);
    }
    proof {
        if s == seq![118u8] {
            assert(s.len() == 1 && s[0] == 118u8);
        }
    }
    let first: usize = 0;
    let ghost d = s;
    proof {
        assert(d =~= s.subrange(first as int, len as int));
    }
    if first == len {
        return None;
    }
    let mut value: usize = 0;
    let mut i: usize = first;
    while i < len
        invariant
            b@ == s,
            s == key.spec_bytes(),
            d == s,
            s != seq![118u8],
            len == s.len(),
            first <= i <= len,
            first < len,
            d =~= s.subrange(first as int, len as int),
            forall|j: int| first <= j < i ==> is_digit(#[trigger] s[j]),
            value as nat == decimal_value(s.subrange(first as int, i as int)),
        decreases len - i,
    {
        let c = b[i];
        if c < 48u8 || c > 57u8 {
            proof {
                assert(d[i - first] == s[i as int]);
                assert(!is_digit(d[i - first]));
                assert(!is_decimal(d));
            }
            return None;
        }
        let ghost prefix = s.subrange(first as int, i + 1);
        proof {
            assert(prefix.drop_last() =~= s.subrange(first as int, i as int));
            assert(d.subrange(0, i + 1 - first) =~= prefix);
            assert(decimal_value(prefix) == value * 10 + (c - 48) as nat);
        }
        let digit = (c - 48u8) as usize;
        let next = match value.checked_mul(10) {
            Some(t) => t.checked_add(digit),
            None => None,
        };
        match next {
            Some(v) => {
                value = v;
            },
            None => {
                proof {
                    assert(value * 10 + digit > usize::MAX);
                    if is_decimal(d) {
                        lemma_decimal_prefix_grows(d, i + 1 - first);
                        assert(decimal_value(d) > usize::MAX);
                    }
                }
                return None;
            },
        }
        i = i + 1;
    }
    proof {
        assert(s.subrange(first as int, len as int) =~= d);
    }
    Some(WireKey::Child(value))
}

impl<T> Default for AshDeserStorage<T> {
    fn default() -> (r: Self)
        ensures
            r.wf(),
            r.depth() == 0,
            r.tree().len() == 0,
    {
        AshDeserStorage::new()
    }
}

/// Why a map could not be read as a tree.
#[derive(Clone, Copy, PartialEq, Eq, Structural, Debug)]
pub enum DecodeError {
    /// A key that is neither `"v"` nor a child position.
    UnknownKey,
    /// A second `"v"` in one map.
    DuplicatePayload,
    /// A child position that occurs twice in one map.
    DuplicateChild(usize),
    /// A child position missing from a map: the positions must be exactly
    /// `0..n` for a map with `n` children.
    MissingChild(usize),
    /// A payload in the outermost map, which stands for the root.
    PayloadInRoot,
    /// A map below the root without a payload.
    MissingPayload,
    /// A value other than a map where a child's map was expected.
    NotAMap,
    /// A token out of place in a token stream: not a key where a key was
    /// expected, not a payload after `"v"`, or trailing or missing tokens.
    UnexpectedToken,
    /// More nodes than identifiers can tell apart.
    TooManyNodes,
}

/// A child that has been read completely and waits for its parent's map to
/// end: its payload, and the block of the node array that holds its own
/// children.
#[derive(Debug)]
struct Entry<T> {
    payload: T,
    children: Range<usize>,
    index: usize,
}

/// A map that is being read: where its children's entries start, its payload
/// if one was read, and its position among its parent's children.
#[derive(Debug)]
struct Frame<T> {
    start: usize,
    payload: Option<T>,
    index: usize,
}

/// The positions `ix` of a map's children are exactly `0..ix.len()`, each once.
pub open spec fn indices_complete(ix: Seq<usize>) -> bool {
    &&& forall|k: int| 0 <= k < ix.len() ==> #[trigger] ix[k] < ix.len()
    &&& forall|a: int, b: int|
        0 <= a < ix.len() && 0 <= b < ix.len() && a != b ==> #[trigger] ix[a] != #[trigger] ix[b]
}

/// Position `q` occurs among `ix`.
pub open spec fn present(ix: Seq<usize>, q: int) -> bool {
    exists|k: int| 0 <= k < ix.len() && ix[k] == q
}

/// `i` is the smallest position below `ix.len()` that `ix` misses.
pub open spec fn first_missing(ix: Seq<usize>, i: int) -> bool {
    &&& 0 <= i < ix.len()
    &&& !present(ix, i)
    &&& forall|q: int| 0 <= q < i ==> #[trigger] present(ix, q)
}

/// Some position occurs twice among `ix`.
pub open spec fn has_repeat(ix: Seq<usize>) -> bool {
    exists|a: int, b: int| 0 <= a < b < ix.len() && ix[a] == ix[b]
}

proof fn lemma_complete_covers(ix: Seq<usize>, i: int)
    requires
        indices_complete(ix),
        0 <= i < ix.len(),
    ensures
        exists|k: int| 0 <= k < ix.len() && ix[k] == i,
{
    let m = ix.len() as int;
    let dom = set_int_range(0, m);
    let f = |k: int| ix[k] as int;
    lemma_int_range(0, m);
    assert forall|a: int, b: int|
        dom.contains(a) && dom.contains(b) && #[trigger] f(a) == #[trigger] f(b) implies a == b by {
        if a != b {
            assert(ix[a] != ix[b]);
        }
    }
    assert(injective_on(f, dom));
    let img = dom.map(f);
    lemma_map_size(dom, img, f);
    assert forall|x: int| img.contains(x) implies dom.contains(x) by {
        let k = choose|k: int| dom.contains(k) && f(k) == x;
        assert(ix[k] < m);
    }
    lemma_subset_equality(img, dom);
    assert(img.contains(i));
}

proof fn lemma_starts_ascend<T>(fs: Seq<Frame<T>>, a: int, b: int)
    requires
        0 <= a <= b < fs.len(),
        forall|f: int| 0 <= f && f + 1 < fs.len() ==> #[trigger] fs[f].start <= fs[f + 1].start,
    ensures
        fs[a].start <= fs[b].start,
    decreases b - a,
{
    if a < b {
        lemma_starts_ascend(fs, a, b - 1);
        assert(fs[b - 1].start <= fs[b].start);
    }
}

/// Reusable buffers for decoding [`Ashes`].
///
/// One storage may decode many trees in turn; each decode clears the buffers
/// without giving their memory back. The decoded tree is left in
/// [`ashes`](Self::ashes), from where the caller may take it between decodes.
///
/// A decode is driven by events: [`begin`](Self::begin) opens the outermost
/// map; then, for each key of the current map, [`payload`](Self::payload)
/// hands over the value of `"v"`, or [`enter_child`](Self::enter_child) opens
/// the child map under a position key; [`end_map`](Self::end_map) closes the
/// current map. When the outermost map closes without an error, the tree is
/// complete.
#[derive(Debug)]
pub struct AshDeserStorage<T> {
    /// The tree into which the nodes are written.
    pub ashes: Ashes<T>,
    entries: Vec<Option<Entry<T>>>,
    frames: Vec<Frame<T>>,
    slots: Vec<usize>,
}

impl<T> AshDeserStorage<T> {
    /// The tree being decoded, or decoded last.
    pub closed spec fn tree(&self) -> Ashes<T> {
        self.ashes
    }

    /// How many maps are open.
    pub closed spec fn depth(&self) -> nat {
        self.frames@.len()
    }

    /// The payload read so far for the innermost open map.
    pub closed spec fn top_payload(&self) -> Option<T> {
        self.frames@.last().payload
    }

    /// The position of the open map at `level` among its parent's children.
    pub closed spec fn index_at(&self, level: int) -> usize {
        self.frames@[level].index
    }

    /// The position of the innermost open map among its parent's children.
    pub open spec fn top_index(&self) -> usize {
        self.index_at(self.depth() - 1)
    }

    /// The positions of the children read so far for the open map at `level`
    /// (0 for the outermost), in the order they were read.
    pub closed spec fn indices_at(&self, level: int) -> Seq<usize> {
        let lo = self.frames@[level].start as int;
        let hi = if level + 1 < self.frames@.len() {
            self.frames@[level + 1].start as int
        } else {
            self.entries@.len() as int
        };
        Seq::new((hi - lo) as nat, |k: int| self.entries@[lo + k]->Some_0.index)
    }

    /// The positions of the children read so far for the innermost open map.
    pub open spec fn top_indices(&self) -> Seq<usize> {
        self.indices_at(self.depth() - 1)
    }

    /// The payload of the `k`th waiting child of the innermost open map, in
    /// the order the children were read.
    pub closed spec fn top_child_payload(&self, k: int) -> T {
        self.entries@[self.frames@.last().start + k]->Some_0.payload
    }

    /// The block of the node array that holds the children of the `k`th
    /// waiting child of the innermost open map.
    pub closed spec fn top_child_block(&self, k: int) -> Range<usize> {
        self.entries@[self.frames@.last().start + k]->Some_0.children
    }

    /// Node `before.tree().len() + q` of this storage's tree is the waiting
    /// child of `before`'s innermost map whose position is `q`: it has that
    /// child's payload and children.
    pub open spec fn holds_child(&self, before: &Self, q: int) -> bool {
        exists|k: int|
            0 <= k < before.top_indices().len() && before.top_indices()[k] == q
                && self.tree().payload_of(before.tree().len() + q) == before.top_child_payload(k)
                && self.tree().children_of(before.tree().len() + q) == before.top_child_block(k)
    }

    /// The payload read so far for the open map at `level`.
    pub closed spec fn payload_at(&self, level: int) -> Option<T> {
        self.frames@[level].payload
    }

    spec fn pending(&self, j: int) -> bool {
        exists|e: int|
            0 <= e < self.entries@.len() && self.entries@[e] is Some && #[trigger] in_range(
                self.entries@[e]->Some_0.children,
                j,
            )
    }

    /// The node array is linked up: every node's children come before it and
    /// point back to it, and every node without a parent yet belongs to a
    /// waiting child's block or lies in `[lo, hi)`.
    #[verifier::opaque]
    spec fn nodes_linked(&self, lo: int, hi: int) -> bool {
        let nodes = self.ashes.nodes@;
        let n = nodes.len();
        &&& n < ROOT_VALUE
        &&& forall|j: int|
            0 <= j < n ==> (#[trigger] nodes[j]).children.start <= nodes[j].children.end <= j
        &&& forall|p: int, j: int|
            0 <= p < n && 0 <= j < n && #[trigger] in_range(nodes[p].children, j)
                ==> nodes[j].parent == BranchId::Branch(p as usize)
        &&& forall|j: int|
            0 <= j < n ==> match (#[trigger] nodes[j]).parent {
                BranchId::ROOT => self.pending(j) || (lo <= j < hi),
                BranchId::Branch(p) => j < p < n && in_range(nodes[p as int].children, j),
            }
    }

    /// Every waiting child's block lies in the node array, holds nodes without
    /// a parent yet, and overlaps no other waiting child's block.
    #[verifier::opaque]
    spec fn entries_ok(&self) -> bool {
        let nodes = self.ashes.nodes@;
        let n = nodes.len();
        let es = self.entries@;
        &&& forall|e: int|
            0 <= e < es.len() && #[trigger] es[e] is Some ==> es[e]->Some_0.children.start
                <= es[e]->Some_0.children.end <= n
        &&& forall|e: int, j: int|
            0 <= e < es.len() && es[e] is Some && 0 <= j < n && #[trigger] in_range(
                es[e]->Some_0.children,
                j,
            ) ==> nodes[j].parent == BranchId::ROOT
        &&& forall|e1: int, e2: int, j: int|
            0 <= e1 < es.len() && 0 <= e2 < es.len() && e1 != e2 && es[e1] is Some
                && es[e2] is Some ==> !(#[trigger] in_range(es[e1]->Some_0.children, j)
                && #[trigger] in_range(es[e2]->Some_0.children, j))
    }

    /// The open maps own consecutive runs of the waiting children.
    #[verifier::opaque]
    spec fn frames_ok(&self) -> bool {
        let es = self.entries@;
        let fs = self.frames@;
        &&& forall|e: int| 0 <= e < es.len() ==> #[trigger] es[e] is Some
        &&& fs.len() > 0 ==> fs[0].start == 0 && self.ashes.root_children == (0usize..0usize)
        &&& forall|f: int| 0 <= f < fs.len() ==> #[trigger] fs[f].start <= es.len()
        &&& forall|f: int|
            0 <= f && f + 1 < fs.len() ==> #[trigger] fs[f].start <= fs[f + 1].start
        &&& fs.len() == 0 ==> es.len() == 0 && self.ashes.wf() && self.ashes.children_first()
    }

    /// The storage's invariant: every node's children are complete and come
    /// before it, every node without a parent yet belongs to the block of
    /// exactly one child that waits for its parent's map to end, and those
    /// children belong to the open maps in order.
    pub closed spec fn wf(&self) -> bool {
        &&& self.nodes_linked(
            self.ashes.root_children.start as int,
            self.ashes.root_children.end as int,
        )
        &&& self.entries_ok()
        &&& self.frames_ok()
    }

    proof fn lemma_wf_facts(&self)
        requires
            self.wf(),
        ensures
            forall|e: int| 0 <= e < self.entries@.len() ==> #[trigger] self.entries@[e] is Some,
            self.frames@.len() > 0 ==> self.frames@[0].start == 0 && self.frames@.last().start
                <= self.entries@.len(),
            self.ashes.nodes@.len() < ROOT_VALUE,
    {
        reveal(AshDeserStorage::nodes_linked);
        reveal(AshDeserStorage::frames_ok);
        if self.frames@.len() > 0 {
            let l = self.frames@.len() - 1;
            assert(self.frames@[l].start <= self.entries@.len());
        }
    }

    proof fn lemma_same_parts(&self, other: &Self)
        requires
            self.ashes == other.ashes,
            self.entries == other.entries,
            self.frames == other.frames,
        ensures
            self.wf() == other.wf(),
    {
        reveal(AshDeserStorage::nodes_linked);
        reveal(AshDeserStorage::entries_ok);
        reveal(AshDeserStorage::frames_ok);
        assert forall|j: int| self.pending(j) == other.pending(j) by {}
        assert(self.nodes_linked(0, 0) == other.nodes_linked(0, 0));
    }

    /// Creates an empty storage.
    pub fn new() -> (r: Self)
        ensures
            r.wf(),
            r.depth() == 0,
            r.tree().len() == 0,
            r.tree().root_range() == (0usize..0usize),
    {
        proof {
            reveal(AshDeserStorage::nodes_linked);
            reveal(AshDeserStorage::entries_ok);
            reveal(AshDeserStorage::frames_ok);
        }
        AshDeserStorage {
            ashes: Ashes::new(),
            entries: Vec::new(),
            frames: Vec::new(),
            slots: Vec::new(),
        }
    }

    /// Starts a new decode: clears the tree and the buffers, keeping their
    /// memory, and opens the outermost map.
    pub fn begin(&mut self)
        ensures
            final(self).wf(),
            final(self).depth() == 1,
            final(self).top_payload() is None,
            final(self).top_indices() == Seq::<usize>::empty(),
            final(self).tree().len() == 0,
            final(self).tree().root_range() == (0usize..0usize),
    {
        proof {
            reveal(AshDeserStorage::nodes_linked);
            reveal(AshDeserStorage::entries_ok);
            reveal(AshDeserStorage::frames_ok);
        }
        self.ashes.clear();
        self.entries.clear();
        self.frames.clear();
        self.frames.push(Frame { start: 0, payload: None, index: 0 });
        proof {
            assert(self.top_indices() =~= Seq::<usize>::empty());
        }
    }

    /// Hands over the payload of the innermost open map.
    pub fn payload(&mut self, value: T) -> (r: Result<(), DecodeError>)
        requires
            old(self).wf(),
            old(self).depth() > 0,
        ensures
            final(self).wf(),
            final(self).depth() == old(self).depth(),
            final(self).top_indices() == old(self).top_indices(),
            final(self).top_index() == old(self).top_index(),
            final(self).tree() == old(self).tree(),
            old(self).top_payload() is Some ==> r == Err::<(), DecodeError>(
                DecodeError::DuplicatePayload,
            ) && final(self).top_payload() == old(self).top_payload(),
            old(self).top_payload() is None ==> r is Ok && final(self).top_payload() == Some(value),
            forall|l: int|
                0 <= l < old(self).depth() - 1 ==> final(self).payload_at(l) == old(self).payload_at(
                    l,
                ) && final(self).indices_at(l) == old(self).indices_at(l),
            forall|l: int| 0 <= l < old(self).depth() ==> final(self).index_at(l) == old(self).index_at(l),
    {
        proof {
            reveal(AshDeserStorage::nodes_linked);
            reveal(AshDeserStorage::entries_ok);
            reveal(AshDeserStorage::frames_ok);
        }
        let last = self.frames.len() - 1;
        if self.frames[last].payload.is_some() {
            return Err(DecodeError::DuplicatePayload);
        }
        let mut frame = Frame { start: 0, payload: None, index: 0 };
        self.frames.set_and_swap(last, &mut frame);
        frame.payload = Some(value);
        self.frames.set_and_swap(last, &mut frame);
        proof {
            assert(self.top_indices() =~= old(self).top_indices());
            assert forall|l: int| 0 <= l < old(self).depth() - 1 implies self.indices_at(l)
                == old(self).indices_at(l) by {
                assert(self.indices_at(l) =~= old(self).indices_at(l));
            }
        }
        Ok(())
    }

    /// Opens the map of the child at position `index` of the innermost open
    /// map.
    pub fn enter_child(&mut self, index: usize)
        requires
            old(self).wf(),
            old(self).depth() > 0,
        ensures
            final(self).wf(),
            final(self).depth() == old(self).depth() + 1,
            final(self).top_payload() is None,
            final(self).top_index() == index,
            final(self).top_indices() == Seq::<usize>::empty(),
            final(self).tree() == old(self).tree(),
            forall|l: int|
                0 <= l < old(self).depth() ==> final(self).payload_at(l) == old(self).payload_at(l)
                    && final(self).indices_at(l) == old(self).indices_at(l),
            forall|l: int| 0 <= l < old(self).depth() ==> final(self).index_at(l) == old(self).index_at(l),
    {
        proof {
            reveal(AshDeserStorage::nodes_linked);
            reveal(AshDeserStorage::entries_ok);
            reveal(AshDeserStorage::frames_ok);
        }
        let start = self.entries.len();
        self.frames.push(Frame { start, payload: None, index });
        proof {
            assert(self.top_indices() =~= Seq::<usize>::empty());
            assert forall|l: int| 0 <= l < old(self).depth() implies self.indices_at(l)
                == old(self).indices_at(l) by {
                assert(self.indices_at(l) =~= old(self).indices_at(l));
            }
        }
    }

    /// Lays out the children of the innermost open map, `m` waiting children
    /// from `start` on, in position order at the end of the node array, and
    /// points their own children at them.
    #[verifier::rlimit(100)]
    fn flush(&mut self, start: usize, m: usize, Ghost(ix): Ghost<Seq<usize>>)
        requires
            old(self).wf(),
            old(self).frames@.len() > 0,
            start == old(self).frames@.last().start,
            start + m == old(self).entries@.len(),
            start + m <= usize::MAX,
            ix.len() == m,
            forall|q: int| 0 <= q < m ==> ix[q] == (#[trigger] old(self).entries@[start + q])->Some_0.index,
            indices_complete(ix),
            old(self).slots@.len() == m,
            forall|p: int|
                0 <= p < m ==> (#[trigger] old(self).slots@[p]) < m && ix[old(self).slots@[p] as int]
                    == p,
            forall|k: int| 0 <= k < m ==> old(self).slots@[#[trigger] ix[k] as int] == k,
            old(self).ashes.nodes@.len() + m < ROOT_VALUE,
        ensures
            final(self).frames == old(self).frames,
            final(self).entries@.len() == start + m,
            forall|e: int| 0 <= e < start ==> #[trigger] final(self).entries@[e] == old(self).entries@[e],
            forall|e: int| start <= e < start + m ==> #[trigger] final(self).entries@[e] is None,
            final(self).ashes.root_children == old(self).ashes.root_children,
            final(self).ashes.nodes@.len() == old(self).ashes.nodes@.len() + m,
            final(self).nodes_linked(
                old(self).ashes.nodes@.len() as int,
                old(self).ashes.nodes@.len() + m,
            ),
            final(self).entries_ok(),
            forall|j: int|
                old(self).ashes.nodes@.len() <= j < final(self).ashes.nodes@.len() ==> (
                #[trigger] final(self).ashes.nodes@[j]).parent == BranchId::ROOT,
            forall|j: int|
                0 <= j < old(self).ashes.nodes@.len() ==> (#[trigger] final(self).ashes.nodes@[j]).payload
                    == old(self).ashes.nodes@[j].payload && final(self).ashes.nodes@[j].children
                    == old(self).ashes.nodes@[j].children,
            forall|q: int|
                0 <= q < m ==> (#[trigger] final(self).ashes.nodes@[old(self).ashes.nodes@.len() + q]).payload
                    == old(self).entries@[start + old(self).slots@[q]]->Some_0.payload
                    && final(self).ashes.nodes@[old(self).ashes.nodes@.len() + q].children
                    == old(self).entries@[start + old(self).slots@[q]]->Some_0.children,
    {
        proof {
            reveal(AshDeserStorage::nodes_linked);
            reveal(AshDeserStorage::entries_ok);
            reveal(AshDeserStorage::frames_ok);
        }
        let n = self.ashes.nodes.len();
        proof {
            assert forall|q: int| 0 <= q < m implies (#[trigger] old(self).entries@[start + q]) is Some
                && old(self).entries@[start + q]->Some_0.children.end <= n by {
                let e = start + q;
                assert(old(self).entries@[e] is Some);
            }
        }
        let mut idx: usize = 0;
        while idx < m
            invariant
                idx <= m,
                forall|q: int| 0 <= q < m ==> (#[trigger] old(self).entries@[start + q]) is Some
                    && old(self).entries@[start + q]->Some_0.children.end <= n,
                n == old(self).ashes.nodes@.len(),
                n + m < ROOT_VALUE,
                start + m == old(self).entries@.len(),
                start + m <= usize::MAX,
                ix.len() == m,
                indices_complete(ix),
                forall|q: int| 0 <= q < m ==> ix[q] == (#[trigger] old(self).entries@[start + q])->Some_0.index,
                self.slots == old(self).slots,
                self.slots@.len() == m,
                forall|p: int|
                    0 <= p < m ==> (#[trigger] self.slots@[p]) < m && ix[self.slots@[p] as int] == p,
                forall|k: int| 0 <= k < m ==> self.slots@[#[trigger] ix[k] as int] == k,
                self.frames == old(self).frames,
                self.ashes.root_children == old(self).ashes.root_children,
                self.entries@.len() == start + m,
                forall|e: int| 0 <= e < start ==> #[trigger] self.entries@[e] == old(self).entries@[e],
                forall|k: int|
                    0 <= k < m ==> #[trigger] self.entries@[start + k] == if ix[k] < idx {
                        None
                    } else {
                        old(self).entries@[start + k]
                    },
                forall|e: int| 0 <= e < start ==> #[trigger] old(self).entries@[e] is Some,
                forall|e: int| 0 <= e < start + m ==> #[trigger] old(self).entries@[e] is Some,
                self.ashes.nodes@.len() == n + idx,
                self.nodes_linked(n as int, n + idx),
                self.entries_ok(),
                forall|j: int|
                    n <= j < self.ashes.nodes@.len() ==> (#[trigger] self.ashes.nodes@[j]).parent
                        == BranchId::ROOT,
                forall|j: int|
                    0 <= j < n ==> (#[trigger] self.ashes.nodes@[j]).payload == old(self).ashes.nodes@[j].payload
                        && self.ashes.nodes@[j].children == old(self).ashes.nodes@[j].children,
                forall|q: int|
                    0 <= q < idx ==> (#[trigger] self.ashes.nodes@[n + q]).payload
                        == old(self).entries@[start + self.slots@[q]]->Some_0.payload
                        && self.ashes.nodes@[n + q].children
                        == old(self).entries@[start + self.slots@[q]]->Some_0.children,
            decreases m - idx,
        {
            let k = self.slots[idx];
            proof {
                reveal(AshDeserStorage::nodes_linked);
                reveal(AshDeserStorage::entries_ok);
                assert(k < m);
                assert(ix[k as int] == idx);
                assert(self.entries@[start + k] == old(self).entries@[start + k]);
            }
            let mut taken: Option<Entry<T>> = None;
            let ghost entries_before = self.entries@;
            self.entries.set_and_swap(start + k, &mut taken);
            let entry = taken.unwrap();
            let pos = self.ashes.nodes.len();
            let ghost blk = entry.children;
            let ghost taken_at = start + k;
            let ghost before = self.ashes.nodes@;
            let ghost entries_now = self.entries@;
            let mut c: usize = entry.children.start;
            while c < entry.children.end
                invariant
                    entry.children.start <= c <= entry.children.end <= n,
                    n <= before.len(),
                    self.ashes.nodes@.len() == before.len(),
                    self.slots == old(self).slots,
                    self.frames == old(self).frames,
                    self.entries@ == entries_now,
                    self.ashes.root_children == old(self).ashes.root_children,
                    forall|j: int|
                        0 <= j < before.len() ==> {
                            &&& (#[trigger] self.ashes.nodes@[j]).children == before[j].children
                            &&& self.ashes.nodes@[j].payload == before[j].payload
                            &&& self.ashes.nodes@[j].parent == if entry.children.start <= j < c {
                                BranchId::Branch(pos)
                            } else {
                                before[j].parent
                            }
                        },
                decreases entry.children.end - c,
            {
                self.ashes.nodes[c].parent = BranchId::Branch(pos);
                c = c + 1;
            }
            let Entry { payload, children, index: _ } = entry;
            self.ashes.nodes.push(Node { parent: BranchId::ROOT, payload, children, old_idx: ROOT_VALUE });
            proof {
                reveal(AshDeserStorage::nodes_linked);
                reveal(AshDeserStorage::entries_ok);
                let nodes = self.ashes.nodes@;
                let es = self.entries@;
                assert(nodes[pos as int].children == blk);
                assert forall|j: int| 0 <= j < pos implies (#[trigger] nodes[j]).children
                    == before[j].children && nodes[j].parent == if in_range(blk, j) {
                    BranchId::Branch(pos)
                } else {
                    before[j].parent
                } by {}
                // the taken block held nodes without a parent
                assert forall|j: int| 0 <= j < pos && #[trigger] in_range(blk, j) implies before[j].parent
                    == BranchId::ROOT by {
                    assert(in_range(entries_before[taken_at]->Some_0.children, j));
                }
                assert forall|e: int|
                    0 <= e < es.len() && e != taken_at implies #[trigger] es[e] == entries_before[e] by {}
                assert forall|e: int, j: int|
                    0 <= e < es.len() && es[e] is Some && #[trigger] in_range(es[e]->Some_0.children, j)
                        implies !in_range(blk, j) by {
                    assert(e != taken_at);
                    assert(es[e] == entries_before[e]);
                    assert(in_range(entries_before[taken_at]->Some_0.children, j) ==> !in_range(
                        entries_before[e]->Some_0.children,
                        j,
                    ));
                }
                assert forall|j: int|
                    0 <= j < nodes.len() implies (#[trigger] nodes[j]).children.start
                    <= nodes[j].children.end <= j by {
                    if j < pos {
                        let _ = before[j];
                    }
                }
                assert forall|p: int, j: int|
                    0 <= p < nodes.len() && 0 <= j < nodes.len() && #[trigger] in_range(
                        nodes[p].children,
                        j,
                    ) implies nodes[j].parent == BranchId::Branch(p as usize) by {
                    if p < pos {
                        let _ = before[p];
                        assert(in_range(before[p].children, j));
                        assert(before[j].parent == BranchId::Branch(p as usize));
                    }
                }
                assert forall|j: int| 0 <= j < nodes.len() implies match (#[trigger] nodes[j]).parent {
                    BranchId::ROOT => self.pending(j) || (n <= j < n + idx + 1),
                    BranchId::Branch(p) => j < p < nodes.len() && in_range(nodes[p as int].children, j),
                } by {
                    if j < pos && !in_range(blk, j) {
                        let _ = before[j];
                        match before[j].parent {
                            BranchId::ROOT => {
                                if !(n <= j < n + idx) {
                                    let e = choose|e: int|
                                        0 <= e < entries_before.len() && entries_before[e] is Some
                                            && #[trigger] in_range(
                                            entries_before[e]->Some_0.children,
                                            j,
                                        );
                                    assert(e != taken_at);
                                    assert(es[e] == entries_before[e]);
                                    assert(in_range(es[e]->Some_0.children, j));
                                }
                            },
                            BranchId::Branch(p) => {
                                let _ = before[p as int];
                            },
                        }
                    }
                }
                assert(self.nodes_linked(n as int, n + idx + 1));
                assert forall|e: int, j: int|
                    0 <= e < es.len() && es[e] is Some && 0 <= j < nodes.len() && #[trigger] in_range(
                        es[e]->Some_0.children,
                        j,
                    ) implies nodes[j].parent == BranchId::ROOT by {
                    assert(es[e] == entries_before[e]);
                    assert(!in_range(blk, j));
                    let _ = before[j];
                }
                assert forall|e: int|
                    0 <= e < es.len() && #[trigger] es[e] is Some implies es[e]->Some_0.children.start
                    <= es[e]->Some_0.children.end <= nodes.len() by {
                    assert(es[e] == entries_before[e]);
                }
                assert(self.entries_ok());
                assert forall|j: int| 0 <= j < n implies (#[trigger] nodes[j]).payload == old(self).ashes.nodes@[j].payload
                    && nodes[j].children == old(self).ashes.nodes@[j].children by {
                    assert(nodes[j] == self.ashes.nodes@[j]);
                    let _ = before[j];
                }
                assert forall|q: int| 0 <= q < idx + 1 implies (#[trigger] nodes[n + q]).payload
                    == old(self).entries@[start + self.slots@[q]]->Some_0.payload
                    && nodes[n + q].children == old(self).entries@[start + self.slots@[q]]->Some_0.children by {
                    if q < idx {
                        let _ = before[n + q];
                    }
                }
            }
            idx = idx + 1;
        }
        proof {
            assert forall|e: int| start <= e < start + m implies #[trigger] self.entries@[e] is None by {
                let k = e - start;
                assert(ix[k] < m);
                assert(self.entries@[start + k] is None);
            }
        }
    }

    /// Looks for a position that occurs twice among the `m` waiting children
    /// from `start` on.
    fn find_repeat(&self, start: usize, m: usize, Ghost(ix): Ghost<Seq<usize>>) -> (r: Option<usize>)
        requires
            start + m == self.entries@.len(),
            start + m <= usize::MAX,
            ix.len() == m,
            forall|q: int|
                0 <= q < m ==> (#[trigger] self.entries@[start + q]) is Some && ix[q]
                    == self.entries@[start + q]->Some_0.index,
        ensures
            r matches Some(i) ==> exists|a: int, b: int| 0 <= a < b < m && ix[a] == i && ix[b] == i,
            r is None ==> !has_repeat(ix),
    {
        let mut a: usize = 0;
        while a < m
            invariant
                a <= m,
                ix.len() == m,
                start + m == self.entries@.len(),
                start + m <= usize::MAX,
                forall|q: int|
                    0 <= q < m ==> (#[trigger] self.entries@[start + q]) is Some && ix[q]
                        == self.entries@[start + q]->Some_0.index,
                forall|x: int, y: int| 0 <= x < a && x < y < m ==> ix[x] != ix[y],
            decreases m - a,
        {
            let ia = match &self.entries[start + a] {
                Some(e) => e.index,
                None => 0,
            };
            proof {
                assert(ia == ix[a as int]);
            }
            let mut b: usize = a + 1;
            while b < m
                invariant
                    a < m,
                    a + 1 <= b <= m,
                    ix.len() == m,
                    ia == ix[a as int],
                    start + m == self.entries@.len(),
                    start + m <= usize::MAX,
                    forall|q: int|
                        0 <= q < m ==> (#[trigger] self.entries@[start + q]) is Some && ix[q]
                            == self.entries@[start + q]->Some_0.index,
                    forall|y: int| a < y < b ==> ix[a as int] != ix[y],
                decreases m - b,
            {
                let ib = match &self.entries[start + b] {
                    Some(e) => e.index,
                    None => 0,
                };
                proof {
                    assert(ib == ix[b as int]);
                }
                if ia == ib {
                    return Some(ia);
                }
                b = b + 1;
            }
            a = a + 1;
        }
        None
    }

    /// Checks that the positions `ix` of the `m` waiting children from `start`
    /// on are exactly `0..m`, and records in the slots which child holds each
    /// position.
    fn check_positions(&mut self, start: usize, m: usize, Ghost(ix): Ghost<Seq<usize>>) -> (r:
        Result<(), DecodeError>)
        requires
            start + m == old(self).entries@.len(),
            start + m <= usize::MAX,
            ix.len() == m,
            forall|q: int|
                0 <= q < m ==> (#[trigger] old(self).entries@[start + q]) is Some && ix[q]
                    == old(self).entries@[start + q]->Some_0.index,
        ensures
            final(self).ashes == old(self).ashes,
            final(self).entries == old(self).entries,
            final(self).frames == old(self).frames,
            r is Ok <==> indices_complete(ix),
            r is Err ==> (r matches Err(DecodeError::DuplicateChild(i)) && exists|a: int, b: int|
                0 <= a < b < m && ix[a] == i && ix[b] == i) || (r matches Err(
                DecodeError::MissingChild(i),
            ) && i < m && !has_repeat(ix) && forall|k: int| 0 <= k < m ==> ix[k] != i)
                && (r matches Err(DecodeError::MissingChild(i)) ==> first_missing(ix, i as int)),
            r is Ok ==> {
                &&& final(self).slots@.len() == m
                &&& forall|p: int|
                    0 <= p < m ==> (#[trigger] final(self).slots@[p]) < m && ix[final(self).slots@[p] as int] == p
                &&& forall|k: int| 0 <= k < m ==> final(self).slots@[#[trigger] ix[k] as int] == k
            },
    {
        // slot of each child position; `m` stands for a position not seen
        self.slots.clear();
        let mut k: usize = 0;
        while k < m
            invariant
                k <= m,
                self.slots@.len() == k,
                forall|q: int| 0 <= q < k ==> self.slots@[q] == m,
                self.entries == old(self).entries,
                self.frames == old(self).frames,
                self.ashes == old(self).ashes,
                start + m == self.entries@.len(),
                start + m <= usize::MAX,
                ix.len() == m,
                forall|p: int|
                    0 <= p < m ==> (#[trigger] old(self).entries@[start + p]) is Some && ix[p]
                        == old(self).entries@[start + p]->Some_0.index,
            decreases m - k,
        {
            self.slots.push(m);
            k = k + 1;
        }
        let mut k: usize = 0;
        while k < m
            invariant
                k <= m,
                ix.len() == m,
                self.slots@.len() == m,
                forall|q: int|
                    0 <= q < m ==> #[trigger] self.slots@[q] == m || (self.slots@[q] < k
                        && ix[self.slots@[q] as int] == q),
                forall|q: int| 0 <= q < k && ix[q] < m ==> self.slots@[ix[q] as int] != m,
                self.entries == old(self).entries,
                self.frames == old(self).frames,
                self.ashes == old(self).ashes,
                start + m == self.entries@.len(),
                start + m <= usize::MAX,
                ix.len() == m,
                forall|p: int|
                    0 <= p < m ==> (#[trigger] old(self).entries@[start + p]) is Some && ix[p]
                        == old(self).entries@[start + p]->Some_0.index,
            decreases m - k,
        {
            let idx = match &self.entries[start + k] {
                Some(e) => e.index,
                None => m,
            };
            proof {
                assert(idx == ix[k as int]);
            }
            if idx < m {
                if self.slots[idx] != m {
                    proof {
                        let a = self.slots@[idx as int] as int;
                        assert(ix[a] == idx && ix[k as int] == idx);
                    }
                    return Err(DecodeError::DuplicateChild(idx));
                }
                self.slots.set(idx, k);
            }
            k = k + 1;
        }
        let mut q: usize = 0;
        while q < m
            invariant
                q <= m,
                ix.len() == m,
                self.slots@.len() == m,
                forall|p: int|
                    0 <= p < m ==> #[trigger] self.slots@[p] == m || (self.slots@[p] < m
                        && ix[self.slots@[p] as int] == p),
                forall|p: int| 0 <= p < m && ix[p] < m ==> self.slots@[ix[p] as int] != m,
                forall|p: int| 0 <= p < q ==> #[trigger] self.slots@[p] != m,
                self.entries == old(self).entries,
                self.frames == old(self).frames,
                self.ashes == old(self).ashes,
                start + m == self.entries@.len(),
                start + m <= usize::MAX,
                ix.len() == m,
                forall|p: int|
                    0 <= p < m ==> (#[trigger] old(self).entries@[start + p]) is Some && ix[p]
                        == old(self).entries@[start + p]->Some_0.index,
            decreases m - q,
        {
            if self.slots[q] == m {
                proof {
                    assert forall|p: int| 0 <= p < m implies ix[p] != q by {
                        if ix[p] == q {
                            assert(self.slots@[ix[p] as int] != m);
                        }
                    }
                    if indices_complete(ix) {
                        lemma_complete_covers(ix, q as int);
                    }
                }
                let repeat = self.find_repeat(start, m, Ghost(ix));
                if let Some(i) = repeat {
                    return Err(DecodeError::DuplicateChild(i));
                }
                proof {
                    assert forall|x: int| 0 <= x < q implies #[trigger] present(ix, x) by {
                        assert(self.slots@[x] != m);
                        assert(ix[self.slots@[x] as int] == x);
                    }
                    assert(!present(ix, q as int));
                }
                return Err(DecodeError::MissingChild(q));
            }
            q = q + 1;
        }
        proof {
            assert forall|p: int| 0 <= p < m implies (#[trigger] self.slots@[p]) < m && ix[
                self.slots@[p] as int] == p by {
                assert(self.slots@[p] != m);
            }
            assert(indices_complete(self.slots@)) by {
                assert forall|a: int, b: int|
                    0 <= a < m && 0 <= b < m && a != b implies #[trigger] self.slots@[a]
                    != #[trigger] self.slots@[b] by {
                    assert(ix[self.slots@[a] as int] == a);
                    assert(ix[self.slots@[b] as int] == b);
                }
            }
            assert forall|k: int| 0 <= k < m implies #[trigger] ix[k] < m && self.slots@[ix[k] as int]
                == k by {
                lemma_complete_covers(self.slots@, k);
                let p = choose|p: int| 0 <= p < m && self.slots@[p] == k;
                assert(ix[self.slots@[p] as int] == p);
            }
            assert(indices_complete(ix)) by {
                assert forall|a: int, b: int|
                    0 <= a < m && 0 <= b < m && a != b implies #[trigger] ix[a] != #[trigger] ix[b] by {
                    assert(self.slots@[ix[a] as int] == a);
                    assert(self.slots@[ix[b] as int] == b);
                }
            }
        }

        Ok(())
    }

    proof fn lemma_closed_root(&self, mid: &Self, n: int, m: int)
        requires
            0 <= n,
            0 <= m,
            mid.nodes_linked(n, n + m),
            mid.ashes.nodes@.len() == n + m,
            forall|e: int| 0 <= e < mid.entries@.len() ==> #[trigger] mid.entries@[e] is None,
            forall|j: int| n <= j < n + m ==> (#[trigger] mid.ashes.nodes@[j]).parent == BranchId::ROOT,
            self.ashes.nodes == mid.ashes.nodes,
            self.ashes.root_children.start == n,
            self.ashes.root_children.end == n + m,
            self.entries@.len() == 0,
            self.frames@.len() == 0,
        ensures
            self.wf(),
            self.ashes.wf(),
            self.ashes.children_first(),
    {
        reveal(AshDeserStorage::nodes_linked);
        reveal(AshDeserStorage::entries_ok);
        reveal(AshDeserStorage::frames_ok);
        let nodes = self.ashes.nodes@;
        assert forall|j: int| !mid.pending(j) by {}
        assert forall|j: int| !self.pending(j) by {}
        assert forall|j: int| 0 <= j < nodes.len() implies match (#[trigger] nodes[j]).parent {
            BranchId::ROOT => in_range(self.ashes.root_children, j),
            BranchId::Branch(p) => j < p < nodes.len() && in_range(nodes[p as int].children, j),
        } by {
            assert(mid.ashes.nodes@[j] == nodes[j]);
        }
        assert forall|j: int|
            0 <= j < nodes.len() && in_range(self.ashes.root_children, j) implies (
            #[trigger] nodes[j]).parent == BranchId::ROOT by {
            assert(mid.ashes.nodes@[j] == nodes[j]);
        }
        assert forall|j: int|
            0 <= j < nodes.len() implies (#[trigger] nodes[j]).children.start
            <= nodes[j].children.end <= nodes.len() by {
            assert(mid.ashes.nodes@[j] == nodes[j]);
        }
        self.ashes.lemma_wf_from_parts();
    }

    #[verifier::rlimit(80)]
    proof fn lemma_closed_child(&self, before: &Self, mid: &Self, start: int, n: int, m: int)
        requires
            0 <= n,
            0 <= m,
            0 <= start,
            before.wf(),
            before.frames@.len() > 1,
            start == before.frames@.last().start,
            mid.nodes_linked(n, n + m),
            mid.entries_ok(),
            mid.ashes.nodes@.len() == n + m,
            before.ashes.nodes@.len() == n,
            mid.ashes.root_children == before.ashes.root_children,
            mid.entries@.len() == start + m,
            forall|e: int| 0 <= e < start ==> #[trigger] mid.entries@[e] == before.entries@[e],
            forall|e: int| start <= e < start + m ==> #[trigger] mid.entries@[e] is None,
            forall|j: int| n <= j < n + m ==> (#[trigger] mid.ashes.nodes@[j]).parent == BranchId::ROOT,
            self.ashes == mid.ashes,
            self.frames@ == before.frames@.drop_last(),
            self.entries@.len() == start + 1,
            forall|e: int| 0 <= e < start ==> #[trigger] self.entries@[e] == before.entries@[e],
            self.entries@[start] is Some,
            self.entries@[start]->Some_0.children == (n as usize..(n + m) as usize),
            self.entries@[start]->Some_0.index == before.top_index(),
        ensures
            self.wf(),
            self.top_indices() == before.indices_at(before.depth() - 2).push(before.top_index()),
            forall|l: int|
                0 <= l < before.depth() - 2 ==> self.indices_at(l) == before.indices_at(l),
            forall|l: int| 0 <= l < before.depth() - 1 ==> self.payload_at(l) == before.payload_at(l),
    {
        reveal(AshDeserStorage::nodes_linked);
        reveal(AshDeserStorage::entries_ok);
        reveal(AshDeserStorage::frames_ok);
        let nodes = self.ashes.nodes@;
        let es = self.entries@;
        let fs = self.frames@;
        let bfs = before.frames@;
        let last = bfs.len() - 1;
        assert(bfs[last].start <= before.entries@.len());
        assert(forall|f: int| 0 <= f < fs.len() ==> fs[f] == bfs[f]);
        assert forall|f: int| 0 <= f < fs.len() implies #[trigger] fs[f].start <= start by {
            lemma_starts_ascend(bfs, f, last);
        }
        assert forall|e: int| 0 <= e < es.len() implies #[trigger] es[e] is Some by {
            if e < start {
                assert(before.entries@[e] is Some);
            }
        }
        // each node without a parent waits in a block
        assert forall|j: int| 0 <= j < nodes.len() && nodes[j].parent == BranchId::ROOT implies #[trigger] self.pending(j) by {
            assert(mid.ashes.nodes@[j] == nodes[j]);
            if n <= j < n + m {
                assert(in_range(es[start]->Some_0.children, j));
            } else {
                let e = choose|e: int|
                    0 <= e < mid.entries@.len() && mid.entries@[e] is Some && #[trigger] in_range(
                        mid.entries@[e]->Some_0.children,
                        j,
                    );
                assert(e < start);
                assert(es[e] == mid.entries@[e]);
                assert(in_range(es[e]->Some_0.children, j));
            }
        }
        assert(self.nodes_linked(0, 0)) by {
            assert forall|j: int| 0 <= j < nodes.len() implies match (#[trigger] nodes[j]).parent {
                BranchId::ROOT => self.pending(j) || (0 <= j < 0),
                BranchId::Branch(p) => j < p < nodes.len() && in_range(nodes[p as int].children, j),
            } by {
                assert(mid.ashes.nodes@[j] == nodes[j]);
            }
        }
        assert(self.entries_ok()) by {
            assert forall|e: int|
                0 <= e < es.len() && #[trigger] es[e] is Some implies es[e]->Some_0.children.start
                <= es[e]->Some_0.children.end <= nodes.len() by {
                if e < start {
                    assert(es[e] == before.entries@[e]);
                    assert(before.entries@[e] is Some);
                    assert(before.entries_ok());
                    assert(before.entries@[e]->Some_0.children.end <= n);
                } else {
                    assert(e == start);
                    assert(n + m == nodes.len());
                }
            }
            assert forall|e: int, j: int|
                0 <= e < es.len() && es[e] is Some && 0 <= j < nodes.len() && #[trigger] in_range(
                    es[e]->Some_0.children,
                    j,
                ) implies nodes[j].parent == BranchId::ROOT by {
                assert(mid.ashes.nodes@[j] == nodes[j]);
                if e < start {
                    assert(es[e] == mid.entries@[e]);
                }
            }
            assert forall|e1: int, e2: int, j: int|
                0 <= e1 < es.len() && 0 <= e2 < es.len() && e1 != e2 && es[e1] is Some
                    && es[e2] is Some implies !(#[trigger] in_range(es[e1]->Some_0.children, j)
                && #[trigger] in_range(es[e2]->Some_0.children, j)) by {
                if e1 < start {
                    assert(es[e1] == mid.entries@[e1]);
                    assert(es[e1] == before.entries@[e1]);
                    assert(before.entries@[e1] is Some);
                }
                if e2 < start {
                    assert(es[e2] == mid.entries@[e2]);
                    assert(es[e2] == before.entries@[e2]);
                    assert(before.entries@[e2] is Some);
                }
            }
        }
        assert(self.top_indices() =~= before.indices_at(before.depth() - 2).push(
            before.top_index(),
        ));
        assert forall|l: int| 0 <= l < before.depth() - 2 implies self.indices_at(l)
            == before.indices_at(l) by {
            assert(fs[l + 1].start <= start);
            assert(self.indices_at(l) =~= before.indices_at(l));
        }
    }

    /// Closes the innermost open map once its children have been checked.
    fn close_frame(&mut self, start: usize, m: usize, is_root: bool, Ghost(ix): Ghost<Seq<usize>>)
        requires
            old(self).wf(),
            old(self).frames@.len() > 0,
            is_root == (old(self).frames@.len() == 1),
            is_root == (old(self).top_payload() is None),
            start == old(self).frames@.last().start,
            start + m == old(self).entries@.len(),
            start + m <= usize::MAX,
            ix == old(self).top_indices(),
            ix.len() == m,
            forall|q: int| 0 <= q < m ==> ix[q] == (#[trigger] old(self).entries@[start + q])->Some_0.index,
            indices_complete(ix),
            old(self).slots@.len() == m,
            forall|p: int|
                0 <= p < m ==> (#[trigger] old(self).slots@[p]) < m && ix[old(self).slots@[p] as int]
                    == p,
            forall|k: int| 0 <= k < m ==> old(self).slots@[#[trigger] ix[k] as int] == k,
            old(self).ashes.nodes@.len() + m < ROOT_VALUE,
        ensures
            final(self).wf(),
            final(self).tree().len() == old(self).tree().len() + m,
            forall|j: int|
                0 <= j < old(self).tree().len() ==> #[trigger] final(self).tree().payload_of(j)
                    == old(self).tree().payload_of(j) && final(self).tree().children_of(j)
                    == old(self).tree().children_of(j),
            forall|q: int| 0 <= q < m ==> #[trigger] final(self).holds_child(&*old(self), q),
            is_root ==> {
                &&& final(self).depth() == 0
                &&& final(self).tree().wf()
                &&& final(self).tree().children_first()
                &&& final(self).tree().root_range() == (old(self).tree().len() as usize..(old(self).tree().len() + m) as usize)
            },
            !is_root ==> {
                &&& final(self).depth() == old(self).depth() - 1
                &&& final(self).top_indices() == old(self).indices_at(old(self).depth() - 2).push(
                    old(self).top_index(),
                )
                &&& final(self).top_payload() == old(self).payload_at(old(self).depth() - 2)
                &&& forall|l: int|
                    0 <= l < old(self).depth() - 2 ==> final(self).payload_at(l) == old(self).payload_at(l)
                        && final(self).indices_at(l) == old(self).indices_at(l)
                &&& forall|l: int| 0 <= l < old(self).depth() - 1 ==> final(self).index_at(l) == old(self).index_at(l)
            },
    {
        let n = self.ashes.nodes.len();
        proof {
            self.lemma_wf_facts();
            reveal(AshDeserStorage::frames_ok);
        }
        let ghost before = *self;
        proof {
            assert(before == *old(self));
        }
        self.flush(start, m, Ghost(ix));
        let ghost mid = *self;
        self.entries.truncate(start);
        let frame = self.frames.pop().unwrap();
        if is_root {
            self.ashes.root_children = n..n + m;
            proof {
                assert(start == 0);
                self.lemma_closed_root(&mid, n as int, m as int);
                self.ashes.lemma_root_range();
                old(self).ashes.lemma_root_range();
            }
        } else {
            let Frame { start: _, payload, index } = frame;
            let payload = payload.unwrap();
            self.entries.push(Some(Entry { payload, children: n..n + m, index }));
            proof {
                self.lemma_closed_child(&before, &mid, start as int, n as int, m as int);
                assert forall|l: int| 0 <= l < before.depth() - 1 implies self.index_at(l) == before.index_at(l) by {
                    assert(self.frames@[l] == before.frames@[l]);
                }
            }
        }
        proof {
            self.ashes.lemma_root_range();
            before.ashes.lemma_root_range();
            assert(self.ashes.nodes@ == mid.ashes.nodes@);
            assert forall|q: int| 0 <= q < m implies #[trigger] self.holds_child(&before, q) by {
                let k = before.slots@[q] as int;
                assert(0 <= k < m);
                assert(ix[k] == q);
                assert(self.ashes.nodes@[n + q] == mid.ashes.nodes@[n + q]);
                assert(mid.ashes.nodes@[n + q].payload == before.entries@[start + k]->Some_0.payload);
                assert(before.top_child_payload(k) == before.entries@[start + k]->Some_0.payload);
                assert(before.top_child_block(k) == before.entries@[start + k]->Some_0.children);
                assert(self.tree().payload_of(n + q) == self.ashes.nodes@[n + q].payload);
                assert(self.tree().children_of(n + q) == self.ashes.nodes@[n + q].children);
                assert(before.top_indices()[k] == q);
            }
            assert forall|j: int| 0 <= j < before.tree().len() implies #[trigger] self.tree().payload_of(j)
                == before.tree().payload_of(j) && self.tree().children_of(j) == before.tree().children_of(j) by {
                assert(self.ashes.nodes@[j] == mid.ashes.nodes@[j]);
            }
        }
    }

    /// Closes the innermost open map.
    ///
    /// The map's child positions must be exactly `0..n`; a map below the root
    /// must hold a payload, and the root must not. The children are then laid
    /// out as one block of the node array, in position order, and become the
    /// children of the map's node, which waits in its parent's map in turn.
    /// Closing the outermost map completes the tree: its children become the
    /// root's children.
    pub fn end_map(&mut self) -> (r: Result<(), DecodeError>)
        requires
            old(self).wf(),
            old(self).depth() > 0,
        ensures
            final(self).wf(),
            r is Ok <==> {
                &&& indices_complete(old(self).top_indices())
                &&& (old(self).depth() == 1) == (old(self).top_payload() is None)
                &&& old(self).tree().len() + old(self).top_indices().len() < ROOT_VALUE
            },
            r matches Err(DecodeError::DuplicateChild(i)) ==> exists|a: int, b: int|
                0 <= a < b < old(self).top_indices().len() && old(self).top_indices()[a] == i
                    && old(self).top_indices()[b] == i,
            r matches Err(DecodeError::MissingChild(i)) ==> i < old(self).top_indices().len()
                && first_missing(old(self).top_indices(), i as int) && forall|k: int|
                0 <= k < old(self).top_indices().len() ==> old(self).top_indices()[k] != i,
            r == Err::<(), DecodeError>(DecodeError::PayloadInRoot) ==> old(self).depth() == 1
                && old(self).top_payload() is Some,
            r == Err::<(), DecodeError>(DecodeError::MissingPayload) ==> old(self).depth() > 1
                && old(self).top_payload() is None,
            r is Err ==> {
                ||| r matches Err(DecodeError::DuplicateChild(_))
                ||| r matches Err(DecodeError::MissingChild(_))
                ||| r == Err::<(), DecodeError>(DecodeError::PayloadInRoot)
                ||| r == Err::<(), DecodeError>(DecodeError::MissingPayload)
                ||| r == Err::<(), DecodeError>(DecodeError::TooManyNodes)
            },
            has_repeat(old(self).top_indices()) ==> r matches Err(DecodeError::DuplicateChild(_)),
            !indices_complete(old(self).top_indices()) ==> r matches Err(
                DecodeError::DuplicateChild(_),
            ) || r matches Err(DecodeError::MissingChild(_)),
            indices_complete(old(self).top_indices()) && old(self).depth() == 1 && old(self).top_payload() is Some ==> r == Err::<(), DecodeError>(DecodeError::PayloadInRoot),
            indices_complete(old(self).top_indices()) && old(self).depth() > 1 && old(self).top_payload() is None ==> r == Err::<(), DecodeError>(DecodeError::MissingPayload),
            r == Err::<(), DecodeError>(DecodeError::TooManyNodes) ==> old(self).tree().len() + old(self).top_indices().len() >= ROOT_VALUE,
            r is Err ==> final(self).depth() == old(self).depth() && final(self).tree() == old(self).tree(),
            r is Ok ==> forall|j: int|
                0 <= j < old(self).tree().len() ==> #[trigger] final(self).tree().payload_of(j)
                    == old(self).tree().payload_of(j) && final(self).tree().children_of(j)
                    == old(self).tree().children_of(j),
            r is Ok ==> forall|q: int|
                0 <= q < old(self).top_indices().len() ==> #[trigger] final(self).holds_child(&*old(self), q),
            r is Ok && old(self).depth() == 1 ==> {
                &&& final(self).depth() == 0
                &&& final(self).tree().len() == old(self).tree().len() + old(self).top_indices().len()
                &&& final(self).tree().wf()
                &&& final(self).tree().children_first()
                &&& final(self).tree().root_range() == (old(self).tree().len() as usize..(old(self).tree().len() + old(self).top_indices().len()) as usize)
            },
            r is Ok && old(self).depth() > 1 ==> {
                &&& final(self).depth() == old(self).depth() - 1
                &&& final(self).top_indices() == old(self).indices_at(old(self).depth() - 2).push(
                    old(self).top_index(),
                )
                &&& final(self).top_payload() == old(self).payload_at(old(self).depth() - 2)
                &&& final(self).tree().len() == old(self).tree().len() + old(self).top_indices().len()
                &&& forall|l: int|
                    0 <= l < old(self).depth() - 2 ==> final(self).payload_at(l) == old(self).payload_at(l) && final(self).indices_at(l) == old(self).indices_at(l)
                &&& forall|l: int| 0 <= l < old(self).depth() - 1 ==> final(self).index_at(l) == old(self).index_at(l)
            },
    {
        proof {
            self.lemma_wf_facts();
        }
        let depth = self.frames.len();
        let start = self.frames[depth - 1].start;
        let total = self.entries.len();
        let m = total - start;
        let ghost ix = old(self).top_indices();
        proof {
            assert(ix.len() == m);
            assert forall|q: int|
                0 <= q < m implies (#[trigger] old(self).entries@[start + q]) is Some && ix[q]
                    == old(self).entries@[start + q]->Some_0.index by {
                let e = start + q;
                assert(old(self).entries@[e] is Some);
                assert(ix[q] == old(self).entries@[start + q]->Some_0.index);
            }
        }

        let checked = self.check_positions(start, m, Ghost(ix));
        if let Err(e) = checked {
            proof {
                self.lemma_same_parts(old(self));
            }
            return Err(e);
        }
        proof {
            self.lemma_same_parts(old(self));
        }
        let is_root = depth == 1;
        let has_payload = self.frames[depth - 1].payload.is_some();
        if is_root && has_payload {
            return Err(DecodeError::PayloadInRoot);
        }
        if !is_root && !has_payload {
            return Err(DecodeError::MissingPayload);
        }
        let n = self.ashes.nodes.len();
        if m >= ROOT_VALUE - n {
            return Err(DecodeError::TooManyNodes);
        }
        let ghost checked_state = *self;
        self.close_frame(start, m, is_root, Ghost(ix));
        proof {
            assert(checked_state.tree() == old(self).tree());
            assert(checked_state.top_indices() =~= old(self).top_indices());
            assert forall|q: int| 0 <= q < m implies #[trigger] self.holds_child(&*old(self), q) by {
                assert(self.holds_child(&checked_state, q));
                let k = choose|k: int|
                    0 <= k < checked_state.top_indices().len() && checked_state.top_indices()[k] == q
                        && self.tree().payload_of(checked_state.tree().len() + q) == checked_state.top_child_payload(k)
                        && self.tree().children_of(checked_state.tree().len() + q) == checked_state.top_child_block(k);
                assert(checked_state.top_child_payload(k) == old(self).top_child_payload(k));
                assert(checked_state.top_child_block(k) == old(self).top_child_block(k));
            }
        }
        Ok(())
    }
}

/// One step of a node map as a stream: a map opens, a key, a payload, a map
/// closes.
#[derive(Debug)]
pub enum WireToken<P> {
    /// A map opens.
    MapStart,
    /// The key of the next entry of the current map.
    Key(String),
    /// A payload, the value of the key `"v"`.
    Payload(P),
    /// The current map closes.
    MapEnd,
}

/// A [`WireToken`] with its key as a sequence of characters.
pub enum TokenView<P> {
    /// A map opens.
    MapStart,
    /// The characters of a key.
    Key(Seq<char>),
    /// A payload.
    Payload(P),
    /// The current map closes.
    MapEnd,
}

impl<P> WireToken<P> {
    /// The token with its key as a sequence of characters.
    pub open spec fn view_token(&self) -> TokenView<P> {
        match self {
            WireToken::MapStart => TokenView::MapStart,
            WireToken::Key(k) => TokenView::Key(k@),
            WireToken::Payload(p) => TokenView::Payload(*p),
            WireToken::MapEnd => TokenView::MapEnd,
        }
    }
}

/// The tokens of a stream, keys as sequences of characters.
pub open spec fn view_tokens<P>(toks: Seq<WireToken<P>>) -> Seq<TokenView<P>> {
    toks.map_values(|t: WireToken<P>| t.view_token())
}

/// The decimal digit character for `d < 10`.
pub open spec fn digit_char(d: nat) -> char {
    ((d + 48) as u8) as char
}

/// The decimal representation of `n`, without leading zeros.
pub open spec fn decimal_chars(n: nat) -> Seq<char>
    decreases n,
{
    if n < 10 {
        seq![digit_char(n)]
    } else {
        decimal_chars(n / 10).push(digit_char(n % 10))
    }
}

/// The text of decimal digit `d`.
fn digit_str(d: usize) -> (r: &'static str)
    requires
        d < 10,
    ensures
        r@ == seq![digit_char(d as nat)],
{
    match d {
        0 => {
            proof {
                reveal_strlit("0");
            }
            "0"
        },
        1 => {
            proof {
                reveal_strlit("1");
            }
            "1"
        },
        2 => {
            proof {
                reveal_strlit("2");
            }
            "2"
        },
        3 => {
            proof {
                reveal_strlit("3");
            }
            "3"
        },
        4 => {
            proof {
                reveal_strlit("4");
            }
            "4"
        },
        5 => {
            proof {
                reveal_strlit("5");
            }
            "5"
        },
        6 => {
            proof {
                reveal_strlit("6");
            }
            "6"
        },
        7 => {
            proof {
                reveal_strlit("7");
            }
            "7"
        },
        8 => {
            proof {
                reveal_strlit("8");
            }
            "8"
        },
        _ => {
            proof {
                reveal_strlit("9");
            }
            "9"
        },
    }
}

/// Appends the decimal representation of `n` to `out`.
fn push_decimal(out: &mut String, n: usize)
    ensures
        final(out)@ == old(out)@ + decimal_chars(n as nat),
    decreases n,
{
    if n >= 10 {
        push_decimal(out, n / 10);
    }
    out.append(digit_str(n % 10));
    proof {
        if n >= 10 {
            assert(decimal_chars(n as nat) == decimal_chars((n / 10) as nat).push(digit_char((n % 10) as nat)));
        }
        assert(out@ =~= old(out)@ + decimal_chars(n as nat));
    }
}

/// The key of the child at position `i`: its decimal representation.
fn index_key(i: usize) -> (r: String)
    ensures
        r@ == decimal_chars(i as nat),
{
    let mut out = String::new();
    push_decimal(&mut out, i);
    out
}

/// The key of a node's payload.
pub open spec fn payload_key() -> Seq<char> {
    seq!['v']
}

/// The tokens of a node's own payload entry: none for the root.
pub open spec fn own_tokens(id: BranchId) -> Seq<TokenView<BranchId>> {
    match id {
        BranchId::ROOT => Seq::empty(),
        BranchId::Branch(_) => seq![TokenView::Key(payload_key()), TokenView::Payload(id)],
    }
}

/// The tokens that encode the children of `id` in `t` from the `k`th on,
/// each under its position as key; payload tokens carry the identifier of
/// their node.
pub open spec fn encode_from<T>(t: Ashes<T>, id: BranchId, k: nat) -> Seq<TokenView<BranchId>>
    decreases t.measure_of(id), t.range_of(id).end - t.range_of(id).start - k,
    when t.wf() && t.holds(id)
{
    let r = t.range_of(id);
    if k >= r.end - r.start {
        Seq::empty()
    } else {
        let c = r.start + k;
        proof {
            lemma_child_measure(t, id, c);
        }
        let child = BranchId::Branch(c as usize);
        seq![TokenView::Key(decimal_chars(k)), TokenView::MapStart] + own_tokens(child)
            + encode_from(t, child, 0) + seq![TokenView::MapEnd] + encode_from(t, id, k + 1)
    }
}

/// The tokens that encode the subtree at `id` of `t`.
pub open spec fn encode_spec<T>(t: Ashes<T>, id: BranchId) -> Seq<TokenView<BranchId>> {
    seq![TokenView::MapStart] + own_tokens(id) + encode_from(t, id, 0) + seq![TokenView::MapEnd]
}

/// A tree without nodes has an empty root range and encodes as an empty map.
pub proof fn lemma_empty_tree_encoding<T>(t: Ashes<T>)
    requires
        t.wf(),
        t.len() == 0,
    ensures
        t.root_range().start == 0,
        t.root_range().end == 0,
        encode_spec(t, BranchId::ROOT) == seq![
            TokenView::<BranchId>::MapStart,
            TokenView::<BranchId>::MapEnd,
        ],
{
    assert(encode_from(t, BranchId::ROOT, 0) =~= Seq::empty());
    assert(encode_spec(t, BranchId::ROOT) =~= seq![
        TokenView::<BranchId>::MapStart,
        TokenView::<BranchId>::MapEnd,
    ]);
}

proof fn lemma_view_push<P>(toks: Seq<WireToken<P>>, t: WireToken<P>)
    ensures
        view_tokens(toks.push(t)) == view_tokens(toks).push(t.view_token()),
{
    assert(view_tokens(toks.push(t)) =~= view_tokens(toks).push(t.view_token()));
}

fn push_token<P>(out: &mut Vec<WireToken<P>>, t: WireToken<P>)
    ensures
        view_tokens(final(out)@) == view_tokens(old(out)@).push(t.view_token()),
{
    proof {
        lemma_view_push(old(out)@, t);
    }
    out.push(t);
}

fn payload_key_string() -> (r: String)
    ensures
        r@ == payload_key(),
{
    proof {
        reveal_strlit("v");
    }
    String::from_str("v")
}

/// The value of one entry of a node's map.
#[derive(Clone, Copy, PartialEq, Eq, Structural, Debug)]
pub enum WireEntry {
    /// The payload of this node.
    Payload(BranchId),
    /// The map of this child.
    Child(BranchId),
}

impl<T> Ashes<T> {
    /// Lists the entries of the map of `id`: the payload under `"v"` for a
    /// node, then each child under its position, in order. These are the
    /// entries that [`encode`](Self::encode) writes for that map.
    pub fn entries(&self, id: BranchId) -> (r: Vec<(String, WireEntry)>)
        requires
            self.wf(),
            self.holds(id),
        ensures
            r@.len() == own_tokens(id).len() / 2 + self.range_of(id).end - self.range_of(id).start,
            id is Branch ==> r@[0].0@ == payload_key() && r@[0].1 == WireEntry::Payload(id),
            forall|k: int|
                0 <= k < self.range_of(id).end - self.range_of(id).start ==> {
                    let e = #[trigger] r@[own_tokens(id).len() / 2 + k];
                    &&& e.0@ == decimal_chars(k as nat)
                    &&& e.1 == WireEntry::Child(BranchId::Branch((self.range_of(id).start + k) as usize))
                },
    {
        let mut out: Vec<(String, WireEntry)> = Vec::new();
        let r = match id {
            BranchId::ROOT => self.root_children.start..self.root_children.end,
            BranchId::Branch(i) => {
                out.push((payload_key_string(), WireEntry::Payload(id)));
                self.nodes[i].children.start..self.nodes[i].children.end
            },
        };
        proof {
            match id {
                BranchId::ROOT => {},
                BranchId::Branch(i) => {
                    assert(self.children_of(i as int).end <= self.len());
                },
            }
        }
        let ghost base = out@.len();
        let count = r.end - r.start;
        let mut k: usize = 0;
        while k < count
            invariant
                r == self.range_of(id),
                r.start <= r.end <= self.len() < ROOT_VALUE,
                count == r.end - r.start,
                k <= count,
                base == own_tokens(id).len() / 2,
                out@.len() == base + k,
                id is Branch ==> out@[0].0@ == payload_key() && out@[0].1 == WireEntry::Payload(id),
                forall|j: int|
                    0 <= j < k ==> {
                        let e = #[trigger] out@[base + j];
                        &&& e.0@ == decimal_chars(j as nat)
                        &&& e.1 == WireEntry::Child(BranchId::Branch((r.start + j) as usize))
                    },
            decreases count - k,
        {
            out.push((index_key(k), WireEntry::Child(BranchId::Branch(r.start + k))));
            k = k + 1;
        }
        out
    }
}

impl<T> Ashes<T> {
    fn encode_children(&self, id: BranchId, out: &mut Vec<WireToken<BranchId>>)
        requires
            self.wf(),
            self.holds(id),
        ensures
            view_tokens(final(out)@) == view_tokens(old(out)@) + encode_from(*self, id, 0),
        decreases self.measure_of(id),
    {
        let r = match id {
            BranchId::ROOT => self.root_children.start..self.root_children.end,
            BranchId::Branch(i) => self.nodes[i].children.start..self.nodes[i].children.end,
        };
        proof {
            match id {
                BranchId::ROOT => {},
                BranchId::Branch(i) => {
                    assert(self.children_of(i as int).end <= self.len());
                },
            }
        }
        let count = r.end - r.start;
        let mut k: usize = 0;
        while k < count
            invariant
                self.wf(),
                self.holds(id),
                r == self.range_of(id),
                r.start <= r.end <= self.len(),
                count == r.end - r.start,
                k <= count,
                view_tokens(out@) + encode_from(*self, id, k as nat) == view_tokens(old(out)@)
                    + encode_from(*self, id, 0),
            decreases count - k,
        {
            let c = r.start + k;
            proof {
                lemma_child_measure(*self, id, c as int);
            }
            let child = BranchId::Branch(c);
            let ghost before = view_tokens(out@);
            push_token(out, WireToken::Key(index_key(k)));
            push_token(out, WireToken::MapStart);
            push_token(out, WireToken::Key(payload_key_string()));
            push_token(out, WireToken::Payload(child));
            let ghost mid = view_tokens(out@);
            self.encode_children(child, out);
            push_token(out, WireToken::MapEnd);
            proof {
                assert(view_tokens(out@) =~= before + seq![
                    TokenView::Key(decimal_chars(k as nat)),
                    TokenView::MapStart,
                ] + own_tokens(child) + encode_from(*self, child, 0) + seq![TokenView::MapEnd]);
                assert(encode_from(*self, id, k as nat) == seq![
                    TokenView::Key(decimal_chars(k as nat)),
                    TokenView::MapStart,
                ] + own_tokens(child) + encode_from(*self, child, 0) + seq![TokenView::MapEnd]
                    + encode_from(*self, id, (k + 1) as nat));
                assert(view_tokens(out@) + encode_from(*self, id, (k + 1) as nat) =~= before
                    + encode_from(*self, id, k as nat));
            }
            k = k + 1;
        }
        proof {
            assert(view_tokens(out@) + encode_from(*self, id, k as nat) =~= view_tokens(out@));
        }
    }

    /// Encodes this tree as a stream of map tokens. The payload entry of each
    /// node carries the node's identifier, so that the caller may serialize
    /// the payload in a form of its choosing.
    pub fn encode(&self) -> (r: Vec<WireToken<BranchId>>)
        requires
            self.wf(),
        ensures
            view_tokens(r@) == encode_spec(*self, BranchId::ROOT),
    {
        let mut out: Vec<WireToken<BranchId>> = Vec::new();
        push_token(&mut out, WireToken::MapStart);
        self.encode_children(BranchId::ROOT, &mut out);
        push_token(&mut out, WireToken::MapEnd);
        proof {
            assert(view_tokens(Seq::<WireToken<BranchId>>::empty()) =~= Seq::empty());
            assert(view_tokens(out@) =~= encode_spec(*self, BranchId::ROOT));
        }
        out
    }
}

/// Two errors that agree: equal, but for the position that a duplicate child
/// error names, which may be any repeated one.
pub open spec fn same_kind(a: DecodeError, b: DecodeError) -> bool {
    match (a, b) {
        (DecodeError::DuplicateChild(_), DecodeError::DuplicateChild(_)) => true,
        _ => a == b,
    }
}

/// How a map ends, given the positions `ix` of its children, whether it had
/// a payload, whether it is the root, and how many nodes were laid out
/// before: a repeated position, then a missing one, then the payload rule,
/// then the number of nodes. A missing position is the smallest one. On
/// success, the nodes laid out in all.
pub open spec fn close_outcome(ix: Seq<usize>, has_payload: bool, root: bool, count: nat) -> Result<
    nat,
    DecodeError,
> {
    if has_repeat(ix) {
        Err(DecodeError::DuplicateChild(0))
    } else if !indices_complete(ix) {
        Err(DecodeError::MissingChild(choose|i: usize| first_missing(ix, i as int)))
    } else if root && has_payload {
        Err(DecodeError::PayloadInRoot)
    } else if !root && !has_payload {
        Err(DecodeError::MissingPayload)
    } else if count + ix.len() >= ROOT_VALUE {
        Err(DecodeError::TooManyNodes)
    } else {
        Ok(count + ix.len())
    }
}

/// What a key token stands for.
pub open spec fn token_key(k: Seq<char>) -> Option<WireKey> {
    key_meaning(encode_utf8(k))
}

/// The bytes of the decimal representation of `n`.
pub open spec fn decimal_bytes(n: nat) -> Seq<u8>
    decreases n,
{
    if n < 10 {
        seq![(n + 48) as u8]
    } else {
        decimal_bytes(n / 10).push(((n % 10) + 48) as u8)
    }
}

proof fn lemma_decimal_bytes(n: nat)
    ensures
        is_decimal(decimal_bytes(n)),
        decimal_value(decimal_bytes(n)) == n,
        decimal_bytes(n).len() == decimal_chars(n).len(),
        is_ascii_chars(decimal_chars(n)),
        forall|i: int|
            0 <= i < decimal_chars(n).len() ==> #[trigger] decimal_chars(n)[i] as u8
                == decimal_bytes(n)[i],
    decreases n,
{
    if n < 10 {
        let b = decimal_bytes(n);
        assert(b.drop_last() =~= Seq::<u8>::empty());
        assert(b.last() == (n + 48) as u8);
        assert(decimal_value(b) == decimal_value(b.drop_last()) * 10 + (b.last() - 48) as nat);
    }
    if n >= 10 {
        lemma_decimal_bytes(n / 10);
        let b = decimal_bytes(n);
        assert(b.drop_last() =~= decimal_bytes(n / 10));
        assert((n / 10) * 10 + n % 10 == n) by (nonlinear_arith);
        assert(b.last() == ((n % 10) + 48) as u8);
        assert(((n % 10) + 48) as u8 == (n % 10) + 48);
        assert(decimal_value(b) == decimal_value(b.drop_last()) * 10 + (b.last() - 48) as nat);
        assert forall|i: int| 0 <= i < b.len() implies is_digit(#[trigger] b[i]) by {
            if i < b.len() - 1 {
                assert(b[i] == decimal_bytes(n / 10)[i]);
            }
        }
        let c = decimal_chars(n);
        assert forall|i: int| 0 <= i < c.len() implies '\0' <= #[trigger] c[i] <= '\u{7f}' by {
            if i < c.len() - 1 {
                assert(c[i] == decimal_chars(n / 10)[i]);
            }
        }
        assert forall|i: int| 0 <= i < c.len() implies #[trigger] c[i] as u8 == b[i] by {
            if i < c.len() - 1 {
                assert(c[i] == decimal_chars(n / 10)[i]);
                assert(b[i] == decimal_bytes(n / 10)[i]);
            }
        }
    }
}

/// The key written for position `n` reads back as position `n`.
pub proof fn lemma_index_key_reads_back(n: usize)
    ensures
        token_key(decimal_chars(n as nat)) == Some(WireKey::Child(n)),
{
    lemma_decimal_bytes(n as nat);
    let c = decimal_chars(n as nat);
    is_ascii_chars_encode_utf8(c);
    assert(encode_utf8(c) =~= decimal_bytes(n as nat));
    let b = decimal_bytes(n as nat);
    if b == seq![118u8] {
        assert(is_digit(b[0]));
    }
}

/// The payload key reads back as the payload.
pub proof fn lemma_payload_key_reads_back()
    ensures
        token_key(payload_key()) == Some(WireKey::Payload),
{
    let c = payload_key();
    assert(is_ascii_chars(c));
    is_ascii_chars_encode_utf8(c);
    assert(encode_utf8(c) =~= seq![118u8]);
}

/// Reads the rest of a map from position `pos` of the stream `ts`, up to
/// and including its end: the positions `ix` of its children so far, whether
/// its payload was read, whether it is the root, and the nodes laid out so
/// far. On success, the position after the map's end and the nodes laid out.
pub open spec fn decode_body<P>(
    ts: Seq<TokenView<P>>,
    pos: int,
    root: bool,
    ix: Seq<usize>,
    has_payload: bool,
    count: nat,
) -> Result<(int, nat), DecodeError>
    decreases ts.len() - pos,
{
    if pos < 0 || pos >= ts.len() {
        Err(DecodeError::UnexpectedToken)
    } else {
        match ts[pos] {
            TokenView::MapEnd => match close_outcome(ix, has_payload, root, count) {
                Ok(c) => Ok((pos + 1, c)),
                Err(e) => Err(e),
            },
            TokenView::Key(k) => match token_key(k) {
                None => Err(DecodeError::UnknownKey),
                Some(WireKey::Payload) => if pos + 1 < ts.len() && ts[pos + 1] is Payload {
                    if has_payload {
                        Err(DecodeError::DuplicatePayload)
                    } else {
                        decode_body(ts, pos + 2, root, ix, true, count)
                    }
                } else {
                    Err(DecodeError::UnexpectedToken)
                },
                Some(WireKey::Child(i)) => if pos + 1 < ts.len() && ts[pos + 1] is MapStart {
                    match decode_body(ts, pos + 2, false, Seq::empty(), false, count) {
                        Ok((end, c)) => if pos < end <= ts.len() {
                            decode_body(ts, end, root, ix.push(i), has_payload, c)
                        } else {
                            Err(DecodeError::UnexpectedToken)
                        },
                        Err(e) => Err(e),
                    }
                } else if pos + 1 < ts.len() && ts[pos + 1] is Payload {
                    Err(DecodeError::NotAMap)
                } else {
                    Err(DecodeError::UnexpectedToken)
                },
            },
            _ => Err(DecodeError::UnexpectedToken),
        }
    }
}

/// What decoding the stream `ts` gives: the number of nodes of the tree,
/// or the first error met.
pub open spec fn decode_outcome<P>(ts: Seq<TokenView<P>>) -> Result<nat, DecodeError> {
    if ts.len() == 0 {
        Err(DecodeError::UnexpectedToken)
    } else if ts[0] is Payload {
        Err(DecodeError::NotAMap)
    } else if !(ts[0] is MapStart) {
        Err(DecodeError::UnexpectedToken)
    } else {
        match decode_body(ts, 1, true, Seq::empty(), false, 0) {
            Ok((end, c)) => if end == ts.len() {
                Ok(c)
            } else {
                Err(DecodeError::UnexpectedToken)
            },
            Err(e) => Err(e),
        }
    }
}

/// The stream `ts` is one well-formed encoded tree.
pub open spec fn well_formed<P>(ts: Seq<TokenView<P>>) -> bool {
    decode_outcome(ts) is Ok
}

/// `rest` holds the stream `ts` from position `pos` on, last token first.
pub open spec fn reversed_rest<P>(rest: Seq<WireToken<P>>, ts: Seq<TokenView<P>>, pos: int) -> bool {
    &&& 0 <= pos <= ts.len()
    &&& rest.len() == ts.len() - pos
    &&& forall|i: int| 0 <= i < rest.len() ==> #[trigger] rest[i].view_token() == ts[ts.len() - 1 - i]
}

impl<T> AshDeserStorage<T> {
    /// Reads the rest of the innermost open map from `rest`, a stream in
    /// reverse order, up to and including its end.
    fn decode_map<P, F: Fn(P) -> T>(
        &mut self,
        rest: &mut Vec<WireToken<P>>,
        seed: &F,
        Ghost(ts): Ghost<Seq<TokenView<P>>>,
        Ghost(pos): Ghost<int>,
    ) -> (r: Result<(), DecodeError>)
        requires
            old(self).wf(),
            old(self).depth() > 0,
            forall|p: P| #[trigger] seed.requires((p,)),
            reversed_rest(old(rest)@, ts, pos),
        ensures
            final(self).wf(),
            match decode_body(
                ts,
                pos,
                old(self).depth() == 1,
                old(self).top_indices(),
                old(self).top_payload() is Some,
                old(self).tree().len(),
            ) {
                Ok((end, c)) => {
                    &&& r is Ok
                    &&& pos < end
                    &&& reversed_rest(final(rest)@, ts, end)
                    &&& final(self).depth() == old(self).depth() - 1
                    &&& final(self).tree().len() == c
                    &&& old(self).depth() == 1 ==> {
                        &&& final(self).tree().wf()
                        &&& final(self).tree().children_first()
                        &&& final(self).tree().root_range().end == c
                    }
                    &&& old(self).depth() > 1 ==> {
                        &&& final(self).top_indices() == old(self).indices_at(old(self).depth() - 2).push(
                            old(self).top_index(),
                        )
                        &&& final(self).top_payload() == old(self).payload_at(old(self).depth() - 2)
                        &&& forall|l: int|
                            0 <= l < old(self).depth() - 2 ==> final(self).payload_at(l) == old(self).payload_at(l)
                                && final(self).indices_at(l) == old(self).indices_at(l)
                        &&& forall|l: int|
                            0 <= l < old(self).depth() - 1 ==> final(self).index_at(l) == old(self).index_at(l)
                    }
                },
                Err(e) => r matches Err(f) && same_kind(f, e),
            },
        decreases old(rest)@.len(),
    {
        let ghost s0 = *self;
        let ghost d0 = self.depth();
        let ghost mut p: int = pos;
        loop
            invariant
                self.wf(),
                self.depth() == d0,
                d0 == s0.depth(),
                d0 > 0,
                s0 == *old(self),
                forall|v: P| #[trigger] seed.requires((v,)),
                pos <= p,
                reversed_rest(rest@, ts, p),
                reversed_rest(old(rest)@, ts, pos),
                decode_body(ts, pos, d0 == 1, s0.top_indices(), s0.top_payload() is Some, s0.tree().len())
                    == decode_body(ts, p, d0 == 1, self.top_indices(), self.top_payload() is Some, self.tree().len()),
                self.top_index() == s0.top_index(),
                forall|l: int|
                    0 <= l < d0 - 1 ==> self.indices_at(l) == s0.indices_at(l) && self.payload_at(l)
                        == s0.payload_at(l),
                forall|l: int| 0 <= l < d0 ==> self.index_at(l) == s0.index_at(l),
            decreases rest@.len(),
        {
            proof {
                if rest@.len() > 0 {
                    assert(rest@[rest@.len() - 1].view_token() == ts[p]);
                }
            }
            match rest.pop() {
                None => {
                    return Err(DecodeError::UnexpectedToken);
                },
                Some(WireToken::MapEnd) => {
                    let ghost cur = *self;
                    let ghost ix = self.top_indices();
                    proof {
                        if indices_complete(ix) {
                            assert(!has_repeat(ix));
                        }
                    }
                    let done = self.end_map();
                    proof {
                        let out = close_outcome(ix, cur.top_payload() is Some, d0 == 1, cur.tree().len());
                        assert(ts[p] == TokenView::<P>::MapEnd);
                        assert(decode_body(ts, p, d0 == 1, ix, cur.top_payload() is Some, cur.tree().len())
                            == match out {
                            Ok(c) => Ok((p + 1, c)),
                            Err(e) => Err(e),
                        });
                        if !has_repeat(ix) && !indices_complete(ix) {
                            if let Err(DecodeError::DuplicateChild(_)) = done {
                                assert(has_repeat(ix));
                            }
                        }
                        if indices_complete(ix) {
                            if let Err(DecodeError::MissingChild(i)) = done {
                                lemma_complete_covers(ix, i as int);
                            }
                        }
                        p = p + 1;
                    }
                    return done;
                },
                Some(WireToken::Key(k)) => {
                    let key = classify_key(k.as_str());
                    match key {
                        None => {
                            return Err(DecodeError::UnknownKey);
                        },
                        Some(WireKey::Payload) => {
                            proof {
                                if rest@.len() > 0 {
                                    assert(rest@[rest@.len() - 1].view_token() == ts[p + 1]);
                                }
                            }
                            match rest.pop() {
                                Some(WireToken::Payload(v)) => {
                                    let done = self.payload(seed(v));
                                    if done.is_err() {
                                        return done;
                                    }
                                    proof {
                                        p = p + 2;
                                    }
                                },
                                _ => {
                                    return Err(DecodeError::UnexpectedToken);
                                },
                            }
                        },
                        Some(WireKey::Child(i)) => {
                            proof {
                                if rest@.len() > 0 {
                                    assert(rest@[rest@.len() - 1].view_token() == ts[p + 1]);
                                }
                            }
                            match rest.pop() {
                                Some(WireToken::MapStart) => {
                                    let ghost cnt = self.tree().len();
                                    self.enter_child(i);
                                    let done = self.decode_map(rest, seed, Ghost(ts), Ghost(p + 2));
                                    if done.is_err() {
                                        return done;
                                    }
                                    proof {
                                        let end = decode_body(ts, p + 2, false, Seq::empty(), false, cnt)->Ok_0.0;
                                        p = end;
                                    }
                                },
                                Some(WireToken::Payload(_)) => {
                                    return Err(DecodeError::NotAMap);
                                },
                                _ => {
                                    return Err(DecodeError::UnexpectedToken);
                                },
                            }
                        },
                    }
                },
                Some(_) => {
                    return Err(DecodeError::UnexpectedToken);
                },
            }
        }
    }
    /// Decodes a tree from a complete token stream into
    /// [`ashes`](Self::ashes), clearing what was there.
    ///
    /// The stream must be one map: after a key `"v"` comes a payload, after
    /// a position key comes the child's map. It succeeds exactly on a
    /// well-formed stream, with as many nodes as the stream has maps below
    /// the root; otherwise it reports the error that
    /// [`decode_outcome`] names. After an error the storage holds an
    /// unfinished tree that must not be relied on; the next decode clears it.
    pub fn deser(&mut self, tokens: Vec<WireToken<T>>) -> (r: Result<(), DecodeError>)
        requires
            old(self).wf(),
        ensures
            final(self).wf(),
            match decode_outcome(view_tokens(tokens@)) {
                Ok(c) => {
                    &&& r is Ok
                    &&& final(self).depth() == 0
                    &&& final(self).tree().wf()
                    &&& final(self).tree().children_first()
                    &&& final(self).tree().len() == c
                    &&& final(self).tree().root_range().end == c
                },
                Err(e) => r matches Err(f) && same_kind(f, e),
            },
    {
        let same = (|p: T| -> (q: T)
            ensures
                q == p,
            { p });
        self.deser_with(same, tokens)
    }

    /// Decodes a tree as [`deser`](Self::deser) does, from a stream whose
    /// payloads are read into `T` by `seed`.
    pub fn deser_with<P, F: Fn(P) -> T>(&mut self, seed: F, tokens: Vec<WireToken<P>>) -> (r:
        Result<(), DecodeError>)
        requires
            old(self).wf(),
            forall|p: P| #[trigger] seed.requires((p,)),
        ensures
            final(self).wf(),
            match decode_outcome(view_tokens(tokens@)) {
                Ok(c) => {
                    &&& r is Ok
                    &&& final(self).depth() == 0
                    &&& final(self).tree().wf()
                    &&& final(self).tree().children_first()
                    &&& final(self).tree().len() == c
                    &&& final(self).tree().root_range().end == c
                },
                Err(e) => r matches Err(f) && same_kind(f, e),
            },
    {
        let ghost ts = view_tokens(tokens@);
        let ghost all = tokens@;
        let mut toks = tokens;
        let mut rest: Vec<WireToken<P>> = Vec::new();
        while toks.len() > 0
            invariant
                old(self).wf(),
                *self == *old(self),
                all == tokens@,
                ts == view_tokens(all),
                toks@ == all.subrange(0, toks@.len() as int),
                rest@.len() + toks@.len() == all.len(),
                forall|i: int| 0 <= i < rest@.len() ==> #[trigger] rest@[i] == all[all.len() - 1 - i],
            decreases toks@.len(),
        {
            let t = toks.pop().unwrap();
            rest.push(t);
        }
        proof {
            assert forall|i: int| 0 <= i < rest@.len() implies #[trigger] rest@[i].view_token() == ts[ts.len() - 1 - i] by {
                assert(rest@[i] == all[all.len() - 1 - i]);
            }
            assert(reversed_rest(rest@, ts, 0));
            if rest@.len() > 0 {
                assert(rest@[rest@.len() - 1].view_token() == ts[0]);
            }
        }
        match rest.pop() {
            Some(WireToken::MapStart) => {},
            Some(WireToken::Payload(_)) => {
                return Err(DecodeError::NotAMap);
            },
            _ => {
                return Err(DecodeError::UnexpectedToken);
            },
        }
        self.begin();
        let done = self.decode_map(&mut rest, &seed, Ghost(ts), Ghost(1));
        if done.is_err() {
            return done;
        }
        if rest.len() > 0 {
            return Err(DecodeError::UnexpectedToken);
        }
        Ok(())
    }
}

} // verus!
