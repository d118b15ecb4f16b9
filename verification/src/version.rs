//! One snapshot node of the version tree.

use vstd::prelude::*;

use crate::edit::Difference;

verus! {

/// An immutable representation of a version.
///
/// A version whose `base` equals its own `id` is the root: that sentinel
/// encodes "no parent" without a nullable field.  Every other version stores
/// in `difference` the edit script that turns its parent's content into its
/// own.
#[derive(Clone, Debug)]
pub struct Version {
    /// Identifier, unique within the tree and never reused.
    pub id: u32,
    /// Identifier of the parent version; equal to `id` for the root.
    pub base: u32,
    /// Mutable display label.
    pub name: Vec<u8>,
    /// Creation time in seconds since the epoch, fixed at creation.
    pub date: u64,
    /// Edit script relative to the parent; empty for the root.
    pub difference: Difference,
}

/// The fixed label of the root version.
pub open spec fn spec_init_name() -> Seq<u8> {
    seq![105u8, 110u8, 105u8, 116u8]
}

/// The placeholder label every committed version starts with.
pub open spec fn spec_default_name() -> Seq<u8> {
    seq![117u8, 110u8, 110u8, 97u8, 109u8, 101u8, 100u8]
}

/// Builds the root label, `"init"` as bytes.
pub fn init_name() -> (r: Vec<u8>)
    ensures
        r@ == spec_init_name(),
{
    let mut v: Vec<u8> = Vec::new();
    v.push(105);
    v.push(110);
    v.push(105);
    v.push(116);
    proof {
        assert(v@ =~= spec_init_name());
    }
    v
}

/// Builds the placeholder label, `"unnamed"` as bytes.
pub fn default_name() -> (r: Vec<u8>)
    ensures
        r@ == spec_default_name(),
{
    let mut v: Vec<u8> = Vec::new();
    v.push(117);
    v.push(110);
    v.push(110);
    v.push(97);
    v.push(109);
    v.push(101);
    v.push(100);
    proof {
        assert(v@ =~= spec_default_name());
    }
    v
}

impl Version {
    /// Returns the version identifier.
    pub fn id(&self) -> (r: u32)
        ensures
            r == self.id,
    {
        self.id
    }

    /// Returns the parent version's identifier (the version's own for the root).
    pub fn base(&self) -> (r: u32)
        ensures
            r == self.base,
    {
        self.base
    }

    /// Returns the version name.
    pub fn name(&self) -> (r: &Vec<u8>)
        ensures
            r@ == self.name@,
    {
        &self.name
    }

    /// Returns the version creation time, in seconds since the epoch.
    pub fn date(&self) -> (r: u64)
        ensures
            r == self.date,
    {
        self.date
    }

    /// Returns the edit script of this version against its parent.
    pub fn difference(&self) -> (r: &Difference)
        ensures
            *r == self.difference,
    {
        &self.difference
    }
}

} // verus!
