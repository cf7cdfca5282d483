//! Access paths: a root followed by a sequence of offsets.
use move_core_types::account_address::AccountAddress;
use move_core_types::language_storage::StructTag;
use vstd::prelude::*;

verus! {

#[verifier::external_type_specification]
#[verifier::external_body]
pub struct ExAccountAddress(AccountAddress);

#[verifier::external_type_specification]
#[verifier::external_body]
pub struct ExStructTag(StructTag);

/// Relies on the derived `PartialEq` of `AccountAddress`, which compares its
/// bytes: two addresses compare equal exactly when they are the same value.
#[verifier::external_body]
fn same_address(a: &AccountAddress, b: &AccountAddress) -> (r: bool)
    ensures
        r == (*a == *b),
{
    a == b
}

/// Relies on the derived `PartialEq` of `StructTag`, which compares address,
/// module, name and type arguments field by field: two tags compare equal
/// exactly when they are the same value.
#[verifier::external_body]
fn same_struct_tag(a: &StructTag, b: &StructTag) -> (r: bool)
    ensures
        r == (*a == *b),
{
    a == b
}

/// Relies on the derived `Clone` of `StructTag`, which copies every field.
pub assume_specification[ <StructTag as Clone>::clone ](t: &StructTag) -> (r: StructTag)
    ensures
        r == *t,
;

/// Relies on the derived `Clone` of `AccountAddress`, which copies its bytes.
pub assume_specification[ <AccountAddress as Clone>::clone ](a: &AccountAddress) -> (r: AccountAddress)
    ensures
        r == *a,
;

/// One step of an access path.
#[derive(Debug, Clone, Hash, Eq, PartialEq)]
pub enum Offset {
    /// Index into the contents of a struct by field position
    Field(usize),
    /// Unknown index into a vector: all indices share this one label
    VectorIndex,
    /// A type key into global storage; meaningful only after a field or a
    /// vector index of address type
    Global(StructTag),
}

/// The origin of an access path.
#[derive(Debug, Clone, PartialEq, Eq, PartialOrd, Ord, Hash)]
pub enum Root {
    Const(AccountAddress),
    Formal(usize),
}

/// One symbolic storage location.
#[derive(Debug, Clone)]
pub struct AccessPath {
    pub root: Root,
    pub offsets: Vec<Offset>,
}

/// The usual annotation attached to a stored path.
#[derive(Debug, Clone, Copy, PartialEq, Eq, Hash)]
pub enum Access {
    Read,
    Write,
    ReadWrite,
}

impl Offset {
    /// Whether two offsets are the same label.
    pub fn same_as(&self, other: &Offset) -> (r: bool)
        ensures
            r == (*self == *other),
    {
        match (self, other) {
            (Offset::Field(i), Offset::Field(j)) => *i == *j,
            (Offset::VectorIndex, Offset::VectorIndex) => true,
            (Offset::Global(s), Offset::Global(t)) => same_struct_tag(s, t),
            _ => false,
        }
    }

    /// A copy of this offset.
    pub fn duplicate(&self) -> (r: Offset)
        ensures
            r == *self,
    {
        match self {
            Offset::Field(i) => Offset::Field(*i),
            Offset::VectorIndex => Offset::VectorIndex,
            Offset::Global(s) => Offset::Global(s.clone()),
        }
    }
}

impl Root {
    /// Whether two roots are the same origin.
    pub fn same_as(&self, other: &Root) -> (r: bool)
        ensures
            r == (*self == *other),
    {
        match (self, other) {
            (Root::Const(a), Root::Const(b)) => same_address(a, b),
            (Root::Formal(i), Root::Formal(j)) => *i == *j,
            _ => false,
        }
    }

    /// A copy of this root.
    pub fn duplicate(&self) -> (r: Root)
        ensures
            r == *self,
    {
        match self {
            Root::Const(a) => Root::Const(*a),
            Root::Formal(i) => Root::Formal(*i),
        }
    }
}

impl AccessPath {
    /// The path as a root and a sequence of offsets.
    pub open spec fn view(&self) -> (Root, Seq<Offset>) {
        (self.root, self.offsets@)
    }

    /// The path with no offsets at `root`.
    pub fn at_root(root: Root) -> (r: AccessPath)
        ensures
            r@ == (root, Seq::<Offset>::empty()),
    {
        AccessPath { root, offsets: Vec::new() }
    }

    /// Whether two paths are the same location.
    pub fn same_as(&self, other: &AccessPath) -> (r: bool)
        ensures
            r == (self@ == other@),
    {
        if !self.root.same_as(&other.root) || self.offsets.len() != other.offsets.len() {
            return false;
        }
        let mut i: usize = 0;
        while i < self.offsets.len()
            invariant
                i <= self.offsets@.len(),
                self.offsets@.len() == other.offsets@.len(),
                forall|j: int| 0 <= j < i ==> self.offsets@[j] == other.offsets@[j],
            decreases self.offsets@.len() - i,
        {
            if !self.offsets[i].same_as(&other.offsets[i]) {
                return false;
            }
            i += 1;
        }
        assert(self.offsets@ =~= other.offsets@);
        true
    }

    /// A copy of this path.
    pub fn duplicate(&self) -> (r: AccessPath)
        ensures
            r@ == self@,
    {
        let mut offsets: Vec<Offset> = Vec::new();
        let mut i: usize = 0;
        while i < self.offsets.len()
            invariant
                i <= self.offsets@.len(),
                offsets@ == self.offsets@.subrange(0, i as int),
            decreases self.offsets@.len() - i,
        {
            offsets.push(self.offsets[i].duplicate());
            i += 1;
        }
        assert(offsets@ =~= self.offsets@);
        AccessPath { root: self.root.duplicate(), offsets }
    }
}

} // verus!
