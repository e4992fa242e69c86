//! Capabilities: the classes of environment a property can be declared for.
use vstd::prelude::*;

verus! {

/// Any environment where this program runs.
#[derive(Default)]
pub struct Any;

/// Any Linux system.
#[derive(Default)]
pub struct Linux;

/// Arch Linux and its derivatives.
#[derive(Default)]
pub struct ArchLinux;

/// Debian and its derivatives.
#[derive(Default)]
pub struct DebianLike;

/// The capability tags, ordered from general to specific:
/// `Any`, then `Linux`, then `ArchLinux` and `DebianLike` side by side.
#[derive(Clone, Copy, Debug, PartialEq, Eq, Structural)]
pub enum Capability {
    Any,
    Linux,
    ArchLinux,
    DebianLike,
}

/// `specific` is equal to or more specific than `general`: a property
/// declared for `general` may be used where `specific` is required.
pub open spec fn spec_refines(specific: Capability, general: Capability) -> bool {
    ||| specific == general
    ||| general == Capability::Any
    ||| (general == Capability::Linux && (specific == Capability::ArchLinux
        || specific == Capability::DebianLike))
}

impl Capability {
    /// Whether a property declared for `general` is usable under `self`.
    pub fn refines(self, general: Capability) -> (r: bool)
        ensures
            r == spec_refines(self, general),
    {
        match general {
            Capability::Any => true,
            Capability::Linux => match self {
                Capability::Any => false,
                _ => true,
            },
            Capability::ArchLinux => self == Capability::ArchLinux,
            Capability::DebianLike => self == Capability::DebianLike,
        }
    }
}

/// Refinement is a partial order.
pub proof fn lemma_refines_partial_order(a: Capability, b: Capability, c: Capability)
    ensures
        spec_refines(a, a),
        spec_refines(a, b) && spec_refines(b, c) ==> spec_refines(a, c),
        spec_refines(a, b) && spec_refines(b, a) ==> a == b,
{
}

/// An environment class that a list of properties can be declared for.
pub trait OS {
    spec fn spec_capability() -> Capability;

    fn capability() -> (c: Capability)
        ensures
            c == Self::spec_capability(),
    ;
}

impl OS for Any {
    open spec fn spec_capability() -> Capability {
        Capability::Any
    }

    fn capability() -> (c: Capability) {
        Capability::Any
    }
}

impl OS for Linux {
    open spec fn spec_capability() -> Capability {
        Capability::Linux
    }

    fn capability() -> (c: Capability) {
        Capability::Linux
    }
}

impl OS for ArchLinux {
    open spec fn spec_capability() -> Capability {
        Capability::ArchLinux
    }

    fn capability() -> (c: Capability) {
        Capability::ArchLinux
    }
}

impl OS for DebianLike {
    open spec fn spec_capability() -> Capability {
        Capability::DebianLike
    }

    fn capability() -> (c: Capability) {
        Capability::DebianLike
    }
}

} // verus!
