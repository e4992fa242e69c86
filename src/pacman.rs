//! Packages on Arch Linux, managed through pacman.
use vstd::prelude::*;

verus! {

/// The packages are installed by pacman.
#[derive(Clone)]
pub struct PacmanInstalled {
    pub packages: Vec<&'static str>,
}

/// The packages are not installed by pacman.
#[derive(Clone)]
pub struct PacmanRemoved {
    pub packages: Vec<&'static str>,
}

/// The package is installed by pacman.
pub fn installed(package: &'static str) -> (r: PacmanInstalled)
    ensures
        r.packages@ == seq![package],
{
    let ps = [package];
    let r = installed_all(&ps);
    assert(r.packages@ =~= seq![package]);
    r
}

/// The packages are installed by pacman.
pub fn installed_all(packages: &[&'static str]) -> (r: PacmanInstalled)
    ensures
        r.packages@ == packages@,
{
    PacmanInstalled { packages: vstd::slice::slice_to_vec(packages) }
}

/// The package is not installed by pacman.
pub fn removed(package: &'static str) -> (r: PacmanRemoved)
    ensures
        r.packages@ == seq![package],
{
    let ps = [package];
    let r = removed_all(&ps);
    assert(r.packages@ =~= seq![package]);
    r
}

/// The packages are not installed by pacman.
pub fn removed_all(packages: &[&'static str]) -> (r: PacmanRemoved)
    ensures
        r.packages@ == packages@,
{
    PacmanRemoved { packages: vstd::slice::slice_to_vec(packages) }
}

} // verus!
