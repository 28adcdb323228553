//! Human-readable rendering of an [`Ashes`]: every branch on a line of its
//! own, before its children, indented by its depth.
use std::fmt::{Debug, Display};
use vstd::prelude::*;
use vstd::string::StringExecFns;

use super::{in_range, lemma_child_measure, Ashes, BranchId};

verus! {

/// One more level of depth, stopping at the largest `usize`.
pub open spec fn deeper(d: usize) -> usize {
    if d < usize::MAX {
        (d + 1) as usize
    } else {
        d
    }
}

/// The branches of the subtrees of the children of `id` from the `k`th on,
/// each before its own children, with their depths; the children are at
/// depth `d`.
pub open spec fn pre_order_from<T>(t: Ashes<T>, id: BranchId, k: nat, d: usize) -> Seq<
    (BranchId, usize),
>
    decreases t.measure_of(id), t.range_of(id).end - t.range_of(id).start - k,
    when t.wf() && t.holds(id)
{
    let r = t.range_of(id);
    if k >= r.end - r.start {
        Seq::empty()
    } else {
        let c = r.start + k;
        proof {
            lemma_child_measure(t, id, c);
        }
        let child = BranchId::Branch(c as usize);
        seq![(child, d)] + pre_order_from(t, child, 0, deeper(d)) + pre_order_from(t, id, k + 1, d)
    }
}

/// Every branch of `t` in depth-first pre-order, with its depth: the root
/// first, at depth 0, and the children of each branch in their stored order.
pub open spec fn pre_order_spec<T>(t: Ashes<T>) -> Seq<(BranchId, usize)> {
    seq![(BranchId::ROOT, 0usize)] + pre_order_from(t, BranchId::ROOT, 0, 1)
}

impl<T> Ashes<T> {
    fn pre_order_children(&self, id: BranchId, d: usize, out: &mut Vec<(BranchId, usize)>)
        requires
            self.wf(),
            self.holds(id),
        ensures
            final(out)@ == old(out)@ + pre_order_from(*self, id, 0, d),
        decreases self.measure_of(id),
    {
        let r = match id {
            BranchId::ROOT => self.root_children.start..self.root_children.end,
            BranchId::Branch(i) => self.nodes[i].children.start..self.nodes[i].children.end,
        };
        proof {
            match id {
                BranchId::ROOT => {},
                BranchId::Branch(i) => {
                    assert(self.children_of(i as int).end <= self.len());
                },
            }
        }
        let count = r.end - r.start;
        let sub = d.saturating_add(1);
        let mut k: usize = 0;
        while k < count
            invariant
                self.wf(),
                self.holds(id),
                r == self.range_of(id),
                r.start <= r.end <= self.len(),
                count == r.end - r.start,
                sub == deeper(d),
                k <= count,
                out@ + pre_order_from(*self, id, k as nat, d) == old(out)@ + pre_order_from(
                    *self,
                    id,
                    0,
                    d,
                ),
            decreases count - k,
        {
            let c = r.start + k;
            proof {
                lemma_child_measure(*self, id, c as int);
            }
            let child = BranchId::Branch(c);
            let ghost before = out@;
            out.push((child, d));
            self.pre_order_children(child, sub, out);
            proof {
                assert(out@ + pre_order_from(*self, id, (k + 1) as nat, d) =~= before
                    + pre_order_from(*self, id, k as nat, d));
            }
            k = k + 1;
        }
        proof {
            assert(out@ + pre_order_from(*self, id, k as nat, d) =~= out@);
        }
    }

    /// Lists every branch in depth-first pre-order with its depth: the root
    /// first, at depth 0, then each branch before its children, children in
    /// their stored order.
    pub fn pre_order(&self) -> (r: Vec<(BranchId, usize)>)
        requires
            self.wf(),
        ensures
            r@ == pre_order_spec(*self),
    {
        let mut out: Vec<(BranchId, usize)> = Vec::new();
        out.push((BranchId::ROOT, 0));
        self.pre_order_children(BranchId::ROOT, 1, &mut out);
        proof {
            assert(out@ =~= pre_order_spec(*self));
        }
        out
    }

    /// Returns an object that renders the tree, one branch after the other
    /// in pre-order, each as `print_value` writes it from the branch's
    /// payload (`None` for the root) and depth (0 for the root).
    pub fn print_tree<F: Fn(Option<&T>, usize) -> String>(&self, print_value: F) -> (r: PrintTree<
        '_,
        T,
        F,
    >)
        ensures
            r.tree() == *self,
            r.printer() == print_value,
    {
        PrintTree { ashes: self, print_value }
    }

    /// Renders the tree with each payload's `Debug` form: a line per branch,
    /// in pre-order, of two dashes per level of depth, then the payload, or
    /// `$` for the root, then a colon.
    pub fn print_tree_debug(&self) -> (r: String) where T: Debug
        requires
            self.wf(),
        ensures
            exists|texts: Seq<Seq<char>>|
                {
                    &&& texts.len() == pre_order_spec(*self).len()
                    &&& texts[0] == seq!['$']
                    &&& r@ == #[trigger] joined(lines(pre_order_spec(*self), texts))
                },
    {
        let order = self.pre_order();
        let mut out = String::new();
        let ghost mut texts: Seq<Seq<char>> = Seq::empty();
        let mut i: usize = 0;
        while i < order.len()
            invariant
                self.wf(),
                order@ == pre_order_spec(*self),
                i <= order@.len(),
                texts.len() == i,
                i > 0 ==> texts[0] == seq!['$'],
                out@ == joined(lines(order@, texts)),
            decreases order.len() - i,
        {
            let (id, depth) = order[i];
            let text = match self.payload_text(id, i, Ghost(order@)) {
                Some(v) => debug_text(v),
                None => root_text(),
            };
            proof {
                if i == 0 {
                    assert(order@[0].0 == BranchId::ROOT);
                }
                let old_texts = texts;
                texts = texts.push(text@);
                assert(lines(order@, texts).drop_last() =~= lines(order@, old_texts));
            }
            push_line(&mut out, depth, text);
            i = i + 1;
        }
        proof {
            assert(order@.len() > 0);
        }
        out
    }

    /// Renders the tree with each payload's `Display` form, laid out as by
    /// [`print_tree_debug`](Self::print_tree_debug).
    pub fn print_tree_display(&self) -> (r: String) where T: Display
        requires
            self.wf(),
        ensures
            exists|texts: Seq<Seq<char>>|
                {
                    &&& texts.len() == pre_order_spec(*self).len()
                    &&& texts[0] == seq!['$']
                    &&& r@ == #[trigger] joined(lines(pre_order_spec(*self), texts))
                },
    {
        let order = self.pre_order();
        let mut out = String::new();
        let ghost mut texts: Seq<Seq<char>> = Seq::empty();
        let mut i: usize = 0;
        while i < order.len()
            invariant
                self.wf(),
                order@ == pre_order_spec(*self),
                i <= order@.len(),
                texts.len() == i,
                i > 0 ==> texts[0] == seq!['$'],
                out@ == joined(lines(order@, texts)),
            decreases order.len() - i,
        {
            let (id, depth) = order[i];
            let text = match self.payload_text(id, i, Ghost(order@)) {
                Some(v) => display_text(v),
                None => root_text(),
            };
            proof {
                if i == 0 {
                    assert(order@[0].0 == BranchId::ROOT);
                }
                let old_texts = texts;
                texts = texts.push(text@);
                assert(lines(order@, texts).drop_last() =~= lines(order@, old_texts));
            }
            push_line(&mut out, depth, text);
            i = i + 1;
        }
        proof {
            assert(order@.len() > 0);
        }
        out
    }

    fn payload_text(&self, id: BranchId, i: usize, Ghost(order): Ghost<Seq<(BranchId, usize)>>) -> (r:
        Option<&T>)
        requires
            self.wf(),
            order == pre_order_spec(*self),
            i < order.len(),
            order[i as int].0 == id,
        ensures
            match id {
                BranchId::ROOT => r is None,
                BranchId::Branch(n) => r == Some(&self.payload_of(n as int)),
            },
    {
        proof {
            lemma_pre_order_in_tree(*self, BranchId::ROOT, 0, 1);
        }
        match id {
            BranchId::ROOT => None,
            BranchId::Branch(n) => {
                proof {
                    if i > 0 {
                        assert(order[i as int] == pre_order_from(*self, BranchId::ROOT, 0, 1)[i - 1]);
                    }
                }
                Some(&self.nodes[n].payload)
            },
        }
    }
}

/// Every branch listed in a pre-order lies in the tree.
pub proof fn lemma_pre_order_in_tree<T>(t: Ashes<T>, id: BranchId, k: nat, d: usize)
    requires
        t.wf(),
        t.holds(id),
    ensures
        forall|i: int|
            0 <= i < pre_order_from(t, id, k, d).len() ==> t.holds(
                #[trigger] pre_order_from(t, id, k, d)[i].0,
            ),
    decreases t.measure_of(id), t.range_of(id).end - t.range_of(id).start - k,
{
    let r = t.range_of(id);
    if k < r.end - r.start {
        let c = r.start + k;
        lemma_child_measure(t, id, c);
        let child = BranchId::Branch(c as usize);
        lemma_pre_order_in_tree(t, child, 0, deeper(d));
        lemma_pre_order_in_tree(t, id, k + 1, d);
        let a = seq![(child, d)];
        let b = pre_order_from(t, child, 0, deeper(d));
        let e = pre_order_from(t, id, k + 1, d);
        assert(pre_order_from(t, id, k, d) == a + b + e);
        assert forall|i: int| 0 <= i < (a + b + e).len() implies t.holds((a + b + e)[i].0) by {
            if i >= a.len() + b.len() {
                assert((a + b + e)[i] == e[i - a.len() - b.len()]);
            } else if i >= a.len() {
                assert((a + b + e)[i] == b[i - a.len()]);
            }
        }
    }
}

/// How many dashes indent a line at `depth`: two per level, at most
/// `usize::MAX`.
pub open spec fn dash_count(depth: usize) -> nat {
    if depth * 2 <= usize::MAX {
        (depth * 2) as nat
    } else {
        usize::MAX as nat
    }
}

/// The indentation of a line at `depth`.
pub open spec fn dashes(depth: usize) -> Seq<char> {
    Seq::new(dash_count(depth), |j: int| '-')
}

/// The pieces of text one after the other.
pub open spec fn joined(pieces: Seq<Seq<char>>) -> Seq<char>
    decreases pieces.len(),
{
    if pieces.len() == 0 {
        Seq::empty()
    } else {
        joined(pieces.drop_last()) + pieces.last()
    }
}

/// The lines that render a listing: each branch's indentation, its text and
/// a colon.
pub open spec fn lines(order: Seq<(BranchId, usize)>, texts: Seq<Seq<char>>) -> Seq<Seq<char>> {
    Seq::new(texts.len(), |i: int| dashes(order[i].1) + texts[i] + seq![':', '\n'])
}

/// The characters of each text.
pub open spec fn texts(pieces: Seq<String>) -> Seq<Seq<char>> {
    pieces.map_values(|s: String| s@)
}

/// The payload of `id` as a printer sees it: none for the root.
pub open spec fn payload_ref<T>(t: &Ashes<T>, id: BranchId) -> Option<&T> {
    match id {
        BranchId::ROOT => None,
        BranchId::Branch(n) => Some(&t.payload_of(n as int)),
    }
}

/// Renders the branches of an [`Ashes`] with a function of the caller's.
///
/// See [`Ashes::print_tree`].
pub struct PrintTree<'a, T, F> {
    ashes: &'a Ashes<T>,
    print_value: F,
}

impl<'a, T, F: Fn(Option<&T>, usize) -> String> PrintTree<'a, T, F> {
    /// The tree to render.
    pub closed spec fn tree(&self) -> Ashes<T> {
        *self.ashes
    }

    /// The function that renders one branch.
    pub closed spec fn printer(&self) -> F {
        self.print_value
    }

    /// Returns the tree that this object renders.
    pub fn ashes(&self) -> (r: &'a Ashes<T>)
        ensures
            *r == self.tree(),
    {
        self.ashes
    }

    /// Renders the tree: the texts that the printer returns for each branch,
    /// in the order of [`Ashes::pre_order`], one after the other.
    pub fn render(&self) -> (r: String)
        requires
            self.tree().wf(),
            forall|v: Option<&T>, d: usize| #[trigger] self.printer().requires((v, d)),
        ensures
            exists|pieces: Seq<String>|
                {
                    &&& pieces.len() == pre_order_spec(self.tree()).len()
                    &&& forall|i: int|
                        0 <= i < pieces.len() ==> self.printer().ensures(
                            (
                                payload_ref(&self.tree(), pre_order_spec(self.tree())[i].0),
                                pre_order_spec(self.tree())[i].1,
                            ),
                            #[trigger] pieces[i],
                        )
                    &&& r@ == #[trigger] joined(texts(pieces))
                },
    {
        let t = self.ashes;
        let order = t.pre_order();
        let mut out = String::new();
        let ghost mut pieces: Seq<String> = Seq::empty();
        let mut i: usize = 0;
        while i < order.len()
            invariant
                t.wf(),
                *t == self.tree(),
                order@ == pre_order_spec(*t),
                forall|v: Option<&T>, d: usize| #[trigger] self.printer().requires((v, d)),
                i <= order@.len(),
                pieces.len() == i,
                forall|j: int|
                    0 <= j < i ==> self.printer().ensures(
                        (payload_ref(t, order@[j].0), order@[j].1),
                        #[trigger] pieces[j],
                    ),
                out@ == joined(texts(pieces)),
            decreases order.len() - i,
        {
            let (id, depth) = order[i];
            let payload = t.payload_text(id, i, Ghost(order@));
            let piece = (self.print_value)(payload, depth);
            out.append(piece.as_str());
            proof {
                let old_pieces = pieces;
                pieces = pieces.push(piece);
                assert(texts(pieces).drop_last() =~= texts(old_pieces));
            }
            i = i + 1;
        }
        out
    }
}

/// Relies on the payload type's `Debug`, through `format!`: the payload's
/// debug text.
#[verifier::external_body]
fn debug_text<T: Debug>(v: &T) -> String {
    format!("{v:?}")
}

/// Relies on the payload type's `Display`, through `format!`: the payload's
/// text.
#[verifier::external_body]
fn display_text<T: Display>(v: &T) -> String {
    format!("{v}")
}

/// The text that stands for the root, which has no payload.
fn root_text() -> (r: String)
    ensures
        r@ == seq!['$'],
{
    proof {
        reveal_strlit("$");
    }
    String::from_str("$")
}

/// Appends a line to `out`: two dashes per level of depth, `text`, a colon.
fn push_line(out: &mut String, depth: usize, text: String)
    ensures
        final(out)@ == old(out)@ + dashes(depth) + text@ + seq![':', '\n'],
{
    let n: usize = if depth <= usize::MAX / 2 {
        depth * 2
    } else {
        usize::MAX
    };
    let mut i: usize = 0;
    proof {
        reveal_strlit("-");
        reveal_strlit(":\n");
    }
    let ghost start = out@;
    while i < n
        invariant
            i <= n,
            n == dash_count(depth),
            out@ == start + Seq::new(i as nat, |j: int| '-'),
        decreases n - i,
    {
        out.append("-");
        proof {
            reveal_strlit("-");
            assert(out@ =~= start + Seq::new((i + 1) as nat, |j: int| '-'));
        }
        i = i + 1;
    }
    out.append(text.as_str());
    out.append(":\n");
    proof {
        assert(out@ =~= start + dashes(depth) + text@ + seq![':', '\n']);
    }
}

} // verus!

verus! {

/// Node `j` lies below `id`: following parents from `j` reaches `id`.
pub open spec fn below<T>(t: Ashes<T>, j: int, id: BranchId) -> bool
    decreases t.len() + 2 - t.measure_of(BranchId::Branch(j as usize)),
    when t.wf() && 0 <= j < t.len()
{
    match t.parent_of(j) {
        BranchId::ROOT => id == BranchId::ROOT,
        BranchId::Branch(p) => {
            proof {
                lemma_parent_measure(t, j);
            }
            id == BranchId::Branch(p) || below(t, p as int, id)
        },
    }
}

/// A node's parent lies in the tree, above the node in the measure.
pub proof fn lemma_parent_measure<T>(t: Ashes<T>, j: int)
    requires
        t.wf(),
        0 <= j < t.len(),
    ensures
        t.measure_of(BranchId::Branch(j as usize)) <= t.len(),
        t.parent_of(j) matches BranchId::Branch(p) ==> p < t.len() && t.measure_of(
            BranchId::Branch(j as usize),
        ) < t.measure_of(BranchId::Branch(p)),
{
    if let BranchId::Branch(p) = t.parent_of(j) {
        lemma_child_measure(t, BranchId::Branch(p), j);
    }
}

/// What lies below a branch has a smaller measure than the branch.
pub proof fn lemma_below_measure<T>(t: Ashes<T>, j: int, id: BranchId)
    requires
        t.wf(),
        0 <= j < t.len(),
        below(t, j, id),
    ensures
        t.measure_of(BranchId::Branch(j as usize)) < t.measure_of(id),
        id matches BranchId::Branch(b) ==> b < t.len(),
    decreases t.len() + 2 - t.measure_of(BranchId::Branch(j as usize)),
{
    lemma_parent_measure(t, j);
    if let BranchId::Branch(p) = t.parent_of(j) {
        if id != BranchId::Branch(p) {
            lemma_below_measure(t, p as int, id);
        }
    }
}

/// Two branches that a node lies below lie one below the other.
pub proof fn lemma_below_chain<T>(t: Ashes<T>, x: int, a: BranchId, b: BranchId)
    requires
        t.wf(),
        0 <= x < t.len(),
        below(t, x, a),
        below(t, x, b),
    ensures
        a == b || (a matches BranchId::Branch(i) && below(t, i as int, b)) || (
        b matches BranchId::Branch(i) && below(t, i as int, a)),
    decreases t.len() + 2 - t.measure_of(BranchId::Branch(x as usize)),
{
    lemma_parent_measure(t, x);
    if let BranchId::Branch(p) = t.parent_of(x) {
        if a != BranchId::Branch(p) && b != BranchId::Branch(p) {
            lemma_below_chain(t, p as int, a, b);
        }
    }
}

/// A node below a branch lies below, or is, one of the branch's children.
pub proof fn lemma_below_child<T>(t: Ashes<T>, j: int, id: BranchId)
    requires
        t.wf(),
        t.holds(id),
        0 <= j < t.len(),
        below(t, j, id),
    ensures
        exists|c: int|
            #[trigger] in_range(t.range_of(id), c) && (c == j || below(
                t,
                j,
                BranchId::Branch(c as usize),
            )),
    decreases t.len() + 2 - t.measure_of(BranchId::Branch(j as usize)),
{
    lemma_parent_measure(t, j);
    match t.parent_of(j) {
        BranchId::ROOT => {
            assert(in_range(t.range_of(id), j));
        },
        BranchId::Branch(p) => {
            if id == BranchId::Branch(p) {
                assert(in_range(t.range_of(id), j));
            } else {
                lemma_below_child(t, p as int, id);
                let c = choose|c: int|
                    #[trigger] in_range(t.range_of(id), c) && (c == p || below(
                        t,
                        p as int,
                        BranchId::Branch(c as usize),
                    ));
                lemma_child_measure(t, id, c);
                assert(below(t, j, BranchId::Branch(c as usize)));
            }
        },
    }
}

/// Lying below is transitive.
pub proof fn lemma_below_trans<T>(t: Ashes<T>, x: int, a: int, b: BranchId)
    requires
        t.wf(),
        0 <= x < t.len(),
        0 <= a < t.len(),
        below(t, x, BranchId::Branch(a as usize)),
        below(t, a, b),
    ensures
        below(t, x, b),
    decreases t.len() + 2 - t.measure_of(BranchId::Branch(x as usize)),
{
    lemma_parent_measure(t, x);
    if let BranchId::Branch(p) = t.parent_of(x) {
        if p != a {
            lemma_below_trans(t, p as int, a, b);
        }
    }
}

/// No child of a branch lies below a sibling.
pub proof fn lemma_sibling_not_below<T>(t: Ashes<T>, id: BranchId, c1: int, c2: int)
    requires
        t.wf(),
        t.holds(id),
        in_range(t.range_of(id), c1),
        in_range(t.range_of(id), c2),
    ensures
        !below(t, c1, BranchId::Branch(c2 as usize)),
{
    lemma_child_measure(t, id, c1);
    lemma_child_measure(t, id, c2);
    match id {
        BranchId::ROOT => {
            assert(t.parent_of(c1) == BranchId::ROOT);
        },
        BranchId::Branch(p) => {
            assert(t.parent_of(c1) == BranchId::Branch(p));
            if below(t, c1, BranchId::Branch(c2 as usize)) && p != c2 {
                lemma_below_measure(t, p as int, BranchId::Branch(c2 as usize));
            }
        },
    }
}

/// Every node lies below the root.
pub proof fn lemma_below_root<T>(t: Ashes<T>, j: int)
    requires
        t.wf(),
        0 <= j < t.len(),
    ensures
        below(t, j, BranchId::ROOT),
    decreases t.len() + 2 - t.measure_of(BranchId::Branch(j as usize)),
{
    lemma_parent_measure(t, j);
    if let BranchId::Branch(p) = t.parent_of(j) {
        lemma_below_root(t, p as int);
    }
}

/// The children of `id` from the `k`th on, and what lies below them.
pub open spec fn in_subtrees<T>(t: Ashes<T>, id: BranchId, k: nat, x: int) -> bool {
    exists|c: int|
        #[trigger] in_range(t.range_of(id), c) && c >= t.range_of(id).start + k && (c == x
            || below(t, x, BranchId::Branch(c as usize)))
}

/// The pre-order listing of the children of `id` from the `k`th on holds
/// exactly those children and what lies below them, each once.
pub proof fn lemma_pre_order_members<T>(t: Ashes<T>, id: BranchId, k: nat, d: usize)
    requires
        t.wf(),
        t.holds(id),
    ensures
        forall|i: int|
            0 <= i < pre_order_from(t, id, k, d).len() ==> {
                let e = (#[trigger] pre_order_from(t, id, k, d)[i]).0;
                &&& e is Branch
                &&& e->Branch_0 < t.len()
                &&& in_subtrees(t, id, k, e->Branch_0 as int)
            },
        forall|x: int|
            0 <= x < t.len() && #[trigger] in_subtrees(t, id, k, x) ==> exists|i: int|
                0 <= i < pre_order_from(t, id, k, d).len() && pre_order_from(t, id, k, d)[i].0
                    == BranchId::Branch(x as usize),
        forall|i1: int, i2: int|
            0 <= i1 < i2 < pre_order_from(t, id, k, d).len() ==> (#[trigger] pre_order_from(
                t,
                id,
                k,
                d,
            )[i1]).0 != (#[trigger] pre_order_from(t, id, k, d)[i2]).0,
    decreases t.measure_of(id), t.range_of(id).end - t.range_of(id).start - k,
{
    let r = t.range_of(id);
    if k < r.end - r.start {
        let c = r.start + k;
        lemma_child_measure(t, id, c);
        let child = BranchId::Branch(c as usize);
        lemma_pre_order_members(t, child, 0, deeper(d));
        lemma_pre_order_members(t, id, k + 1, d);
        let a = seq![(child, d)];
        let b = pre_order_from(t, child, 0, deeper(d));
        let e = pre_order_from(t, id, k + 1, d);
        let s = pre_order_from(t, id, k, d);
        assert(s == a + b + e);
        // what the child's listing holds lies below the child
        assert forall|x: int| 0 <= x < t.len() && #[trigger] in_subtrees(t, child, 0, x) implies below(
            t,
            x,
            child,
        ) by {
            let cc = choose|cc: int|
                #[trigger] in_range(t.range_of(child), cc) && cc >= t.range_of(child).start && (cc
                    == x || below(t, x, BranchId::Branch(cc as usize)));
            lemma_child_measure(t, child, cc);
            assert(t.parent_of(cc) == child);
            if cc != x {
                lemma_below_trans(t, x, cc, child);
            }
        }
        assert forall|x: int| 0 <= x < t.len() && below(t, x, child) implies #[trigger] in_subtrees(
            t,
            child,
            0,
            x,
        ) by {
            lemma_below_child(t, x, child);
        }
        assert forall|i: int| 0 <= i < s.len() implies {
            let el = (#[trigger] s[i]).0;
            &&& el is Branch
            &&& el->Branch_0 < t.len()
            &&& in_subtrees(t, id, k, el->Branch_0 as int)
        } by {
            if i == 0 {
                assert(s[i] == (child, d));
                assert(in_range(t.range_of(id), c));
            } else if i < 1 + b.len() {
                assert(s[i] == b[i - 1]);
                let x = b[i - 1].0->Branch_0 as int;
                assert(in_subtrees(t, child, 0, x));
                assert(in_range(t.range_of(id), c));
            } else {
                assert(s[i] == e[i - 1 - b.len()]);
                let x = e[i - 1 - b.len()].0->Branch_0 as int;
                assert(in_subtrees(t, id, k + 1, x));
            }
        }
        assert forall|x: int| 0 <= x < t.len() && #[trigger] in_subtrees(t, id, k, x) implies exists|
            i: int,
        | 0 <= i < s.len() && s[i].0 == BranchId::Branch(x as usize) by {
            let cc = choose|cc: int|
                #[trigger] in_range(t.range_of(id), cc) && cc >= t.range_of(id).start + k && (cc
                    == x || below(t, x, BranchId::Branch(cc as usize)));
            if cc == c {
                if x == c {
                    assert(s[0].0 == BranchId::Branch(x as usize));
                } else {
                    assert(in_subtrees(t, child, 0, x));
                    let i = choose|i: int| 0 <= i < b.len() && b[i].0 == BranchId::Branch(x as usize);
                    assert(s[i + 1] == b[i]);
                }
            } else {
                assert(in_subtrees(t, id, k + 1, x));
                let i = choose|i: int| 0 <= i < e.len() && e[i].0 == BranchId::Branch(x as usize);
                assert(s[i + 1 + b.len()] == e[i]);
            }
        }
        assert forall|i1: int, i2: int| 0 <= i1 < i2 < s.len() implies (#[trigger] s[i1]).0 != (
        #[trigger] s[i2]).0 by {
            let x1 = s[i1].0->Branch_0 as int;
            let x2 = s[i2].0->Branch_0 as int;
            if i1 == 0 {
                if i2 < 1 + b.len() {
                    assert(s[i2] == b[i2 - 1]);
                    if x2 == c {
                        lemma_below_measure(t, c, child);
                    }
                } else {
                    assert(s[i2] == e[i2 - 1 - b.len()]);
                    if x2 == c {
                        let cc = choose|cc: int|
                            #[trigger] in_range(t.range_of(id), cc) && cc >= t.range_of(id).start
                                + k + 1 && (cc == x2 || below(t, x2, BranchId::Branch(cc as usize)));
                        lemma_sibling_not_below(t, id, c, cc);
                    }
                }
            } else if i1 < 1 + b.len() {
                assert(s[i1] == b[i1 - 1]);
                if i2 < 1 + b.len() {
                    assert(s[i2] == b[i2 - 1]);
                } else {
                    assert(s[i2] == e[i2 - 1 - b.len()]);
                    if x1 == x2 {
                        assert(below(t, x1, child));
                        let cc = choose|cc: int|
                            #[trigger] in_range(t.range_of(id), cc) && cc >= t.range_of(id).start
                                + k + 1 && (cc == x2 || below(t, x2, BranchId::Branch(cc as usize)));
                        if cc == x2 {
                            lemma_sibling_not_below(t, id, cc, c);
                        } else {
                            lemma_below_chain(t, x1, child, BranchId::Branch(cc as usize));
                            lemma_sibling_not_below(t, id, c, cc);
                            lemma_sibling_not_below(t, id, cc, c);
                        }
                    }
                }
            } else {
                assert(s[i1] == e[i1 - 1 - b.len()]);
                assert(s[i2] == e[i2 - 1 - b.len()]);
            }
        }
    }
}

/// Whether the listing `s` holds branch `id`.
pub open spec fn lists(s: Seq<(BranchId, usize)>, id: BranchId) -> bool {
    exists|i: int| 0 <= i < s.len() && s[i].0 == id
}

/// Every node of a well-formed tree is listed exactly once by the pre-order
/// traversal, after the root, and nothing else is listed.
pub proof fn lemma_pre_order_visits_each_node_once<T>(t: Ashes<T>)
    requires
        t.wf(),
    ensures
        pre_order_spec(t)[0].0 == BranchId::ROOT,
        forall|i: int|
            1 <= i < pre_order_spec(t).len() ==> (#[trigger] pre_order_spec(t)[i]).0 is Branch
                && pre_order_spec(t)[i].0->Branch_0 < t.len(),
        forall|j: int| 0 <= j < t.len() ==> #[trigger] lists(pre_order_spec(t), BranchId::Branch(j as usize)),
        forall|i1: int, i2: int|
            0 <= i1 < i2 < pre_order_spec(t).len() ==> (#[trigger] pre_order_spec(t)[i1]).0 != (
            #[trigger] pre_order_spec(t)[i2]).0,
{
    let s = pre_order_spec(t);
    let rest = pre_order_from(t, BranchId::ROOT, 0, 1);
    lemma_pre_order_members(t, BranchId::ROOT, 0, 1);
    assert forall|i: int| 1 <= i < s.len() implies (#[trigger] s[i]).0 is Branch && s[i].0->Branch_0
        < t.len() by {
        assert(s[i] == rest[i - 1]);
    }
    assert forall|j: int| 0 <= j < t.len() implies #[trigger] lists(s, BranchId::Branch(j as usize)) by {
        lemma_below_root(t, j);
        lemma_below_child(t, j, BranchId::ROOT);
        assert(in_subtrees(t, BranchId::ROOT, 0, j));
        let i = choose|i: int| 0 <= i < rest.len() && rest[i].0 == BranchId::Branch(j as usize);
        assert(s[i + 1] == rest[i]);
    }
    assert forall|i1: int, i2: int| 0 <= i1 < i2 < s.len() implies (#[trigger] s[i1]).0 != (
    #[trigger] s[i2]).0 by {
        if i1 == 0 {
            assert(s[i2] == rest[i2 - 1]);
        } else {
            assert(s[i1] == rest[i1 - 1]);
            assert(s[i2] == rest[i2 - 1]);
        }
    }
}

} // verus!
