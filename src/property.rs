//! Properties and lists of properties declared for a capability.
use vstd::prelude::*;
use crate::apt::AptInstalled;
use crate::conf_file::ConfFileAssignments;
use crate::dir::PackageLinked;
use crate::file::{ContainsLines, ContentBytes};
use crate::git::GitGlobalConfig;
use crate::os::{spec_refines, Capability, OS};
use crate::pacman::PacmanInstalled;

verus! {

/// A unit of desired state that can be checked and brought about.
#[derive(Clone)]
pub enum Property {
    ContentBytes(ContentBytes),
    ContainsLines(ContainsLines),
    ConfFileAssignments(ConfFileAssignments),
    PackageLinked(PackageLinked),
    AptInstalled(AptInstalled),
    PacmanInstalled(PacmanInstalled),
    GitGlobalConfig(GitGlobalConfig),
}

impl Property {
    /// The capability the property needs: apt needs a Debian-like system,
    /// pacman Arch Linux, everything else runs anywhere.
    pub open spec fn spec_capability(&self) -> Capability {
        match self {
            Property::AptInstalled(_) => Capability::DebianLike,
            Property::PacmanInstalled(_) => Capability::ArchLinux,
            _ => Capability::Any,
        }
    }

    /// The capability the property needs.
    pub fn capability(&self) -> (r: Capability)
        ensures
            r == self.spec_capability(),
    {
        match self {
            Property::AptInstalled(_) => Capability::DebianLike,
            Property::PacmanInstalled(_) => Capability::ArchLinux,
            _ => Capability::Any,
        }
    }
}

/// Properties to be applied in order, all under one capability.
pub struct PropertyList {
    os: Capability,
    properties: Vec<Property>,
}

impl PropertyList {
    /// The capability the list is declared for.
    pub closed spec fn os(&self) -> Capability {
        self.os
    }

    /// The properties, in the order they are to run.
    pub closed spec fn items(&self) -> Seq<Property> {
        self.properties@
    }

    /// An empty list for the capability of `O`.
    pub fn new<O: OS>() -> (r: PropertyList)
        ensures
            r.os() == O::spec_capability(),
            r.items() == Seq::<Property>::empty(),
    {
        PropertyList { os: O::capability(), properties: Vec::new() }
    }

    /// Whether `p` may be added: the list's capability is the property's or
    /// a more specific one.
    pub fn accepts(&self, p: &Property) -> (r: bool)
        ensures
            r == spec_refines(self.os(), p.spec_capability()),
    {
        self.os.refines(p.capability())
    }

    /// The list with `p` added at the end.
    pub fn push(self, p: Property) -> (r: PropertyList)
        requires
            spec_refines(self.os(), p.spec_capability()),
        ensures
            r.os() == self.os(),
            r.items() == self.items().push(p),
    {
        let mut s = self;
        s.properties.push(p);
        s
    }

    /// The capability the list is declared for.
    pub fn capability(&self) -> (r: Capability)
        ensures
            r == self.os(),
    {
        self.os
    }

    /// The properties, in order.
    pub fn properties(&self) -> (r: &Vec<Property>)
        ensures
            r@ == self.items(),
    {
        &self.properties
    }

    /// The number of properties.
    pub fn len(&self) -> (r: usize)
        ensures
            r == self.items().len(),
    {
        self.properties.len()
    }
}

/// An empty list of properties for the capability of `O`.
pub fn prop<O: OS>() -> (r: PropertyList)
    ensures
        r.os() == O::spec_capability(),
        r.items() == Seq::<Property>::empty(),
{
    PropertyList::new::<O>()
}

} // verus!
