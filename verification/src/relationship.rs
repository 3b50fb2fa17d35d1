//! A named relationship between two nodes.

use vstd::prelude::*;

verus! {

/// A relationship of some type from one node to another, each given by name.
#[derive(Debug, Clone, PartialEq, Eq)]
pub struct Relationship {
    from: String,
    to: String,
    rel_type: String,
}

impl Relationship {
    /// Where the relationship starts.
    pub closed spec fn source(&self) -> Seq<char> {
        self.from@
    }

    /// Where the relationship ends.
    pub closed spec fn target(&self) -> Seq<char> {
        self.to@
    }

    /// The type of the relationship.
    pub closed spec fn kind(&self) -> Seq<char> {
        self.rel_type@
    }

    pub fn new(from: String, to: String, rel_type: String) -> (out: Self)
        ensures
            out.source() == from@,
            out.target() == to@,
            out.kind() == rel_type@,
    {
        Relationship { from, to, rel_type }
    }

    pub fn from(&self) -> (out: String)
        ensures
            out@ == self.source(),
    {
        self.from.clone()
    }

    pub fn to(&self) -> (out: String)
        ensures
            out@ == self.target(),
    {
        self.to.clone()
    }

    pub fn rel_type(&self) -> (out: String)
        ensures
            out@ == self.kind(),
    {
        self.rel_type.clone()
    }

    pub fn set_from(&mut self, from: String)
        ensures
            final(self).source() == from@,
            final(self).target() == old(self).target(),
            final(self).kind() == old(self).kind(),
    {
        self.from = from;
    }

    pub fn set_to(&mut self, to: String)
        ensures
            final(self).target() == to@,
            final(self).source() == old(self).source(),
            final(self).kind() == old(self).kind(),
    {
        self.to = to;
    }

    pub fn set_rel_type(&mut self, rel_type: String)
        ensures
            final(self).kind() == rel_type@,
            final(self).source() == old(self).source(),
            final(self).target() == old(self).target(),
    {
        self.rel_type = rel_type;
    }
}

} // verus!
