//! The branch identifier shared by the mutable and the immutable tree.
use vstd::prelude::*;

verus! {

/// Identifies a position in a tree: either the implicit root, which holds no
/// payload, or the node at a 0-based index of the tree's node array.
///
/// An identifier is only meaningful for the tree that handed it out.
#[allow(non_camel_case_types)]
#[derive(Clone, Copy, PartialEq, Eq, Structural, PartialOrd, Ord, Hash, Debug)]
pub enum BranchIdImpl {
    /// The implicit super-root of the tree. It orders before every node.
    ROOT,
    /// The node at this index of the node array. An ordinary index is below
    /// [`ROOT_VALUE`]; trees hand out no other.
    Branch(usize),
}

/// The raw value that stands for the root.
pub const ROOT_VALUE: usize = usize::MAX;

impl BranchIdImpl {
    /// The raw value of an identifier: its index, or [`ROOT_VALUE`] for the root.
    pub open spec fn spec_value(self) -> usize {
        match self {
            BranchIdImpl::ROOT => ROOT_VALUE,
            BranchIdImpl::Branch(i) => i,
        }
    }

    /// Whether this stands for the root: its raw value is [`ROOT_VALUE`].
    /// `Branch(ROOT_VALUE)` is no ordinary index, and stands for the root too.
    pub open spec fn spec_is_root(self) -> bool {
        self.spec_value() == ROOT_VALUE
    }

    /// Returns whether this identifier is the root, that is whether its raw
    /// value is [`ROOT_VALUE`].
    #[verifier::when_used_as_spec(spec_is_root)]
    pub fn is_root(self) -> (r: bool)
        ensures
            r == (self.spec_value() == ROOT_VALUE),
            r == self.spec_is_root(),
    {
        match self {
            BranchIdImpl::ROOT => true,
            BranchIdImpl::Branch(i) => i == ROOT_VALUE,
        }
    }

    /// Returns the raw value behind this identifier: the node's index, or
    /// [`ROOT_VALUE`] for the root.
    #[verifier::when_used_as_spec(spec_value)]
    pub fn value(self) -> (r: usize)
        ensures
            r == self.spec_value(),
    {
        match self {
            BranchIdImpl::ROOT => ROOT_VALUE,
            BranchIdImpl::Branch(i) => i,
        }
    }

    /// The identifier in its usual form: every identifier that stands for
    /// the root becomes [`BranchIdImpl::ROOT`].
    pub open spec fn normalized(self) -> Self {
        if self.spec_is_root() {
            BranchIdImpl::ROOT
        } else {
            self
        }
    }

    /// Returns the identifier in its usual form: every identifier that
    /// stands for the root becomes [`BranchIdImpl::ROOT`].
    pub fn normalize(self) -> (r: Self)
        ensures
            r == self.normalized(),
    {
        if self.is_root() {
            BranchIdImpl::ROOT
        } else {
            self
        }
    }

    /// Builds an identifier from a raw value; [`ROOT_VALUE`] gives the root.
    pub fn new(value: usize) -> (r: Self)
        ensures
            r.spec_value() == value,
            r.spec_is_root() == (value == ROOT_VALUE),
    {
        if value == ROOT_VALUE {
            BranchIdImpl::ROOT
        } else {
            BranchIdImpl::Branch(value)
        }
    }

    /// Builds the identifier of the node at index `value`, which is never the
    /// root.
    pub fn new_branch(value: usize) -> (r: Self)
        requires
            value != ROOT_VALUE,
        ensures
            r == BranchIdImpl::Branch(value),
    {
        BranchIdImpl::Branch(value)
    }
}

} // verus!
