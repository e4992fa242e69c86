//! Directories of packages mirrored into an installation directory through
//! symlinks, in the manner of GNU Stow: directories are recreated, regular
//! files are linked.
use vstd::prelude::*;
use crate::text::{chars_eq, chars_of};
use crate::user_path::{is_absolute, join_path, joined_path, parent_of, path_parent, UserPathBuf};

verus! {

/// A directory with some properties managed.
pub struct ManagedDir {
    pub path: UserPathBuf,
}

/// The subdirectories of `repo` are packages, trees of directories and
/// regular files, to be mirrored into the installation directory.
#[derive(Clone)]
pub struct PackageLinked {
    /// Directory containing the packages.
    pub repo: UserPathBuf,
    /// Directory where directories and symlinks are to be created.
    pub install: Option<UserPathBuf>,
    /// Packages whose files must be linked.
    pub linked: Vec<&'static str>,
    /// Packages whose files must not be linked.
    pub unlinked: Vec<&'static str>,
}

/// A directory, relative to the home directory unless the path is absolute.
pub fn path(p: &str) -> (r: ManagedDir)
    ensures
        r.path.text() == p@,
        r.path.is_home() == !is_absolute(p@),
{
    ManagedDir { path: UserPathBuf::new(p) }
}

impl ManagedDir {
    /// Treat the subdirectories as packages to be mirrored, by default into
    /// the parent of this directory.
    pub fn as_package_source(&self) -> (r: PackageLinked)
        ensures
            r.repo == self.path,
            r.install_dir() == match path_parent(self.path.text()) {
                Some(q) => Some(q),
                None => None::<Seq<char>>,
            },
            match r.install {
                Some(q) => q.is_home() == self.path.is_home(),
                None => true,
            },
            r.linked_packages().len() == 0,
            r.unlinked_packages().len() == 0,
    {
        PackageLinked::new(self.path.duplicate())
    }
}

/// Why a package cannot be checked, linked or unlinked.
#[derive(Debug, Clone, Copy, PartialEq, Eq, Structural)]
pub enum LinkError {
    /// Something that is not this package's link occupies a path where a
    /// link or directory must go.
    AlreadyExists,
    /// The package holds something other than files and directories.
    Unsupported,
    /// No installation directory is defined.
    TargetUndefined,
    /// A path could not be made relative to another.
    InvalidPath,
}

impl PackageLinked {
    /// Packages from `path`, installed by default into its parent.
    pub fn new(path: UserPathBuf) -> (r: PackageLinked)
        ensures
            r.repo == path,
            r.install_dir() == match path_parent(path.text()) {
                Some(q) => Some(q),
                None => None::<Seq<char>>,
            },
            match r.install {
                Some(q) => q.is_home() == path.is_home(),
                None => true,
            },
            r.linked_packages().len() == 0,
            r.unlinked_packages().len() == 0,
    {
        let target = path.parent();
        PackageLinked { repo: path, install: target, linked: Vec::new(), unlinked: Vec::new() }
    }

    /// The installation directory's text, if one is defined.
    pub open spec fn install_dir(&self) -> Option<Seq<char>> {
        match self.install {
            Some(p) => Some(p.text()),
            None => None,
        }
    }

    /// The packages to link, in order.
    pub open spec fn linked_packages(&self) -> Seq<&'static str> {
        self.linked@
    }

    /// The packages to unlink, in order.
    pub open spec fn unlinked_packages(&self) -> Seq<&'static str> {
        self.unlinked@
    }

    /// Install into `target` rather than the default.
    pub fn install_to(self, target: &str) -> (r: PackageLinked)
        ensures
            r.repo == self.repo,
            r.install_dir() == Some(target@),
            match r.install {
                Some(q) => q.is_home() == !is_absolute(target@),
                None => false,
            },
            r.linked_packages() == self.linked_packages(),
            r.unlinked_packages() == self.unlinked_packages(),
    {
        let mut s = self;
        s.install = Some(UserPathBuf::new(target));
        s
    }

    /// Add a package to be linked.
    pub fn linked(self, package: &'static str) -> (r: PackageLinked)
        ensures
            r.repo == self.repo,
            r.install == self.install,
            r.linked_packages() == self.linked_packages().push(package),
            r.unlinked_packages() == self.unlinked_packages(),
    {
        let ps = [package];
        let r = self.linked_all(&ps);
        assert(ps@ =~= seq![package]);
        r
    }

    /// Add a package to be unlinked.
    pub fn unlinked(self, package: &'static str) -> (r: PackageLinked)
        ensures
            r.repo == self.repo,
            r.install == self.install,
            r.linked_packages() == self.linked_packages(),
            r.unlinked_packages() == self.unlinked_packages().push(package),
    {
        let ps = [package];
        let r = self.unlinked_all(&ps);
        assert(ps@ =~= seq![package]);
        r
    }

    /// Add packages to be linked.
    pub fn linked_all(self, packages: &[&'static str]) -> (r: PackageLinked)
        ensures
            r.repo == self.repo,
            r.install == self.install,
            r.linked_packages() == self.linked_packages() + packages@,
            r.unlinked_packages() == self.unlinked_packages(),
    {
        let mut s = self;
        let mut more = vstd::slice::slice_to_vec(packages);
        s.linked.append(&mut more);
        s
    }

    /// Add packages to be unlinked.
    pub fn unlinked_all(self, packages: &[&'static str]) -> (r: PackageLinked)
        ensures
            r.repo == self.repo,
            r.install == self.install,
            r.linked_packages() == self.linked_packages(),
            r.unlinked_packages() == self.unlinked_packages() + packages@,
    {
        let mut s = self;
        let mut more = vstd::slice::slice_to_vec(packages);
        s.unlinked.append(&mut more);
        s
    }

    /// The packages to link.
    pub fn linked_list(&self) -> (r: &Vec<&'static str>)
        ensures
            r@ == self.linked_packages(),
    {
        &self.linked
    }

    /// The packages to unlink.
    pub fn unlinked_list(&self) -> (r: &Vec<&'static str>)
        ensures
            r@ == self.unlinked_packages(),
    {
        &self.unlinked
    }

    /// A package named both to be linked and to be unlinked, if any. Such a
    /// configuration contradicts itself, and is refused rather than applied.
    pub fn overlapping(&self) -> (r: Option<&'static str>)
        ensures
            match r {
                Some(p) => self.linked@.contains(p) && exists|j: int|
                    0 <= j < self.unlinked@.len() && #[trigger] self.unlinked@[j]@ == p@,
                None => forall|i: int, j: int|
                    0 <= i < self.linked@.len() && 0 <= j < self.unlinked@.len()
                        ==> #[trigger] self.linked@[i]@ != #[trigger] self.unlinked@[j]@,
            },
    {
        let mut i: usize = 0;
        while i < self.linked.len()
            invariant
                i <= self.linked@.len(),
                forall|a: int, b: int|
                    0 <= a < i && 0 <= b < self.unlinked@.len() ==> #[trigger] self.linked@[a]@
                        != #[trigger] self.unlinked@[b]@,
            decreases self.linked.len() - i,
        {
            let a = chars_of(self.linked[i]);
            let mut j: usize = 0;
            while j < self.unlinked.len()
                invariant
                    i < self.linked@.len(),
                    a@ == self.linked@[i as int]@,
                    j <= self.unlinked@.len(),
                    forall|b: int| 0 <= b < j ==> self.linked@[i as int]@ != #[trigger] self.unlinked@[b]@,
                decreases self.unlinked.len() - j,
            {
                let b = chars_of(self.unlinked[j]);
                if chars_eq(a.as_slice(), b.as_slice()) {
                    assert(self.linked@[i as int] == self.linked[i as int]);
                    return Some(self.linked[i]);
                }
                j = j + 1;
            }
            i = i + 1;
        }
        None
    }

    /// The installation directory; an error when none is defined.
    pub fn get_install_dir(&self) -> (r: Result<UserPathBuf, LinkError>)
        ensures
            match self.install_dir() {
                Some(t) => r is Ok && r->Ok_0.text() == t,
                None => r == Err::<UserPathBuf, LinkError>(LinkError::TargetUndefined),
            },
    {
        match &self.install {
            Some(p) => Ok(p.duplicate()),
            None => Err(LinkError::TargetUndefined),
        }
    }
}

/// What a walked entry of a package is.
#[derive(Debug, Clone, Copy, PartialEq, Eq, Structural)]
pub enum EntryKind {
    File,
    Dir,
    /// Anything else, such as a symlink inside the package.
    Other,
}

/// What stands at the installation path that corresponds to an entry.
#[derive(Debug, Clone, Copy, PartialEq, Eq, Structural)]
pub enum Slot {
    /// Nothing, not even a symlink.
    Vacant,
    /// A symlink whose target does not exist.
    BrokenLink,
    /// A symlink that resolves: `same` when it resolves to the entry's own
    /// file, `dir` when it resolves to a directory.
    Link { same: bool, dir: bool },
    /// A directory.
    Dir,
    /// Something else that exists, such as a regular file; `same` when it is
    /// the entry's own file.
    File { same: bool },
}

/// A walked entry of a package and what stands at its installation path.
#[derive(Debug, Clone, Copy, PartialEq, Eq, Structural)]
pub struct Entry {
    pub kind: EntryKind,
    pub slot: Slot,
}

/// What linking does at an entry's installation path.
#[derive(Debug, Clone, Copy, PartialEq, Eq, Structural)]
pub enum LinkAction {
    /// Create the directory.
    CreateDir,
    /// Create a relative symlink to the entry's file.
    CreateSymlink,
    /// Leave the path as it is.
    Keep,
}

/// What unlinking does at an entry's installation path.
#[derive(Debug, Clone, Copy, PartialEq, Eq, Structural)]
pub enum UnlinkAction {
    /// Remove the symlink, which resolves to the entry's file.
    Remove,
    /// Leave the path as it is.
    Keep,
}

/// The path exists, following symlinks.
pub open spec fn resolves(s: Slot) -> bool {
    !(s is Vacant || s is BrokenLink)
}

/// The verdict of the linked check on one entry: the path must exist; a
/// file's path must be a symlink to that very file; a directory's path must
/// be a directory; any other entry is an error.
pub open spec fn linked_verdict(e: Entry) -> Result<bool, LinkError> {
    if !resolves(e.slot) {
        Ok(false)
    } else {
        match e.kind {
            EntryKind::File => Ok(e.slot matches Slot::Link { same: true, .. }),
            EntryKind::Dir => Ok(e.slot is Dir || e.slot matches Slot::Link { dir: true, .. }),
            EntryKind::Other => Err(LinkError::Unsupported),
        }
    }
}

/// The verdict of the unlinked check on one entry: a file's path must not
/// be that very file; directories may stay, being possibly shared; any other
/// entry is an error where its path exists.
pub open spec fn unlinked_verdict(e: Entry) -> Result<bool, LinkError> {
    if !resolves(e.slot) {
        Ok(true)
    } else {
        match e.kind {
            EntryKind::File => Ok(
                !(e.slot matches Slot::Link { same: true, .. } || e.slot matches Slot::File {
                    same: true,
                })),
            EntryKind::Dir => Ok(true),
            EntryKind::Other => Err(LinkError::Unsupported),
        }
    }
}

/// Entries are checked in walk order; the first one that is not satisfied,
/// or that is an error, decides.
pub open spec fn first_verdict(vs: Seq<Result<bool, LinkError>>) -> Result<bool, LinkError>
    decreases vs.len(),
{
    if vs.len() == 0 {
        Ok(true)
    } else if vs[0] == Ok::<bool, LinkError>(true) {
        first_verdict(vs.subrange(1, vs.len() as int))
    } else {
        vs[0]
    }
}

/// The package is linked: every entry satisfies the linked check.
pub open spec fn linked_spec(es: Seq<Entry>) -> Result<bool, LinkError> {
    first_verdict(es.map_values(|e: Entry| linked_verdict(e)))
}

/// The package is unlinked: every entry satisfies the unlinked check.
pub open spec fn unlinked_spec(es: Seq<Entry>) -> Result<bool, LinkError> {
    first_verdict(es.map_values(|e: Entry| unlinked_verdict(e)))
}

/// What linking does at one entry. A file gets a symlink where nothing
/// stands, and a symlink that resolves is left alone, another package may
/// own it; a broken symlink or anything else is in the way. A directory is
/// created where nothing stands and kept where one is; anything else is in
/// the way. Any other entry is an error.
pub open spec fn link_step(e: Entry) -> Result<LinkAction, LinkError> {
    match e.kind {
        EntryKind::File => match e.slot {
            Slot::Vacant => Ok(LinkAction::CreateSymlink),
            Slot::Link { .. } => Ok(LinkAction::Keep),
            _ => Err(LinkError::AlreadyExists),
        },
        EntryKind::Dir => match e.slot {
            Slot::Vacant => Ok(LinkAction::CreateDir),
            Slot::Dir => Ok(LinkAction::Keep),
            Slot::Link { dir: true, .. } => Ok(LinkAction::Keep),
            _ => Err(LinkError::AlreadyExists),
        },
        EntryKind::Other => Err(LinkError::Unsupported),
    }
}

/// What unlinking does at one entry: a symlink to the entry's own file is
/// removed, anything else is left; any other entry is an error.
pub open spec fn unlink_step(e: Entry) -> Result<UnlinkAction, LinkError> {
    match e.kind {
        EntryKind::File => if e.slot matches Slot::Link { same: true, .. } {
            Ok(UnlinkAction::Remove)
        } else {
            Ok(UnlinkAction::Keep)
        },
        EntryKind::Dir => Ok(UnlinkAction::Keep),
        EntryKind::Other => Err(LinkError::Unsupported),
    }
}

/// The number of leading entries that `ok` accepts.
pub open spec fn ok_prefix(es: Seq<Entry>, ok: spec_fn(Entry) -> bool) -> nat
    decreases es.len(),
{
    if es.len() == 0 {
        0
    } else if ok(es[0]) {
        1 + ok_prefix(es.subrange(1, es.len() as int), ok)
    } else {
        0
    }
}

/// The entries whose linking step succeeds.
pub open spec fn link_ok() -> spec_fn(Entry) -> bool {
    |e: Entry| link_step(e) is Ok
}

/// The entries whose unlinking step succeeds.
pub open spec fn unlink_ok() -> spec_fn(Entry) -> bool {
    |e: Entry| unlink_step(e) is Ok
}

/// The number of leading entries whose linking step succeeds.
pub open spec fn link_prefix(es: Seq<Entry>) -> nat {
    ok_prefix(es, link_ok())
}

/// The number of leading entries whose unlinking step succeeds.
pub open spec fn unlink_prefix(es: Seq<Entry>) -> nat {
    ok_prefix(es, unlink_ok())
}

/// The actions of linking a package, entry by entry in walk order, up to
/// the first entry whose step fails, and that failure.
pub struct LinkPlan {
    pub actions: Vec<LinkAction>,
    pub error: Option<LinkError>,
}

/// The actions of unlinking a package, entry by entry in walk order, up to
/// the first entry whose step fails, and that failure.
pub struct UnlinkPlan {
    pub actions: Vec<UnlinkAction>,
    pub error: Option<LinkError>,
}

/// The linked check of a package, from its entries in walk order.
pub fn check_linked(entries: &[Entry]) -> (r: Result<bool, LinkError>)
    ensures
        r == linked_spec(entries@),
{
    let ghost vs = entries@.map_values(|e: Entry| linked_verdict(e));
    let mut i: usize = 0;
    assert(vs.subrange(0, vs.len() as int) =~= vs);
    while i < entries.len()
        invariant
            i <= entries@.len(),
            vs == entries@.map_values(|e: Entry| linked_verdict(e)),
            first_verdict(vs) == first_verdict(vs.subrange(i as int, vs.len() as int)),
        decreases entries.len() - i,
    {
        let e = entries[i];
        let ghost rest = vs.subrange(i as int, vs.len() as int);
        assert(rest[0] == linked_verdict(e));
        assert(rest.subrange(1, rest.len() as int) =~= vs.subrange(i + 1, vs.len() as int));
        let v: Result<bool, LinkError> = match e.slot {
            Slot::Vacant | Slot::BrokenLink => Ok(false),
            _ => match e.kind {
                EntryKind::File => Ok(matches!(e.slot, Slot::Link { same: true, .. })),
                EntryKind::Dir => Ok(matches!(e.slot, Slot::Dir | Slot::Link { dir: true, .. })),
                EntryKind::Other => Err(LinkError::Unsupported),
            },
        };
        match v {
            Ok(true) => {},
            _ => {
                return v;
            },
        }
        i = i + 1;
    }
    assert(vs.subrange(i as int, vs.len() as int).len() == 0);
    Ok(true)
}

/// The unlinked check of a package, from its entries in walk order.
pub fn check_unlinked(entries: &[Entry]) -> (r: Result<bool, LinkError>)
    ensures
        r == unlinked_spec(entries@),
{
    let ghost vs = entries@.map_values(|e: Entry| unlinked_verdict(e));
    let mut i: usize = 0;
    assert(vs.subrange(0, vs.len() as int) =~= vs);
    while i < entries.len()
        invariant
            i <= entries@.len(),
            vs == entries@.map_values(|e: Entry| unlinked_verdict(e)),
            first_verdict(vs) == first_verdict(vs.subrange(i as int, vs.len() as int)),
        decreases entries.len() - i,
    {
        let e = entries[i];
        let ghost rest = vs.subrange(i as int, vs.len() as int);
        assert(rest[0] == unlinked_verdict(e));
        assert(rest.subrange(1, rest.len() as int) =~= vs.subrange(i + 1, vs.len() as int));
        let v: Result<bool, LinkError> = match e.slot {
            Slot::Vacant | Slot::BrokenLink => Ok(true),
            _ => match e.kind {
                EntryKind::File => Ok(
                    !matches!(e.slot, Slot::Link { same: true, .. } | Slot::File { same: true }),
                ),
                EntryKind::Dir => Ok(true),
                EntryKind::Other => Err(LinkError::Unsupported),
            },
        };
        match v {
            Ok(true) => {},
            _ => {
                return v;
            },
        }
        i = i + 1;
    }
    assert(vs.subrange(i as int, vs.len() as int).len() == 0);
    Ok(true)
}

/// The linking step of one entry.
pub fn link_entry(e: Entry) -> (r: Result<LinkAction, LinkError>)
    ensures
        r == link_step(e),
{
    match e.kind {
        EntryKind::File => match e.slot {
            Slot::Vacant => Ok(LinkAction::CreateSymlink),
            Slot::Link { .. } => Ok(LinkAction::Keep),
            _ => Err(LinkError::AlreadyExists),
        },
        EntryKind::Dir => match e.slot {
            Slot::Vacant => Ok(LinkAction::CreateDir),
            Slot::Dir => Ok(LinkAction::Keep),
            Slot::Link { dir: true, .. } => Ok(LinkAction::Keep),
            _ => Err(LinkError::AlreadyExists),
        },
        EntryKind::Other => Err(LinkError::Unsupported),
    }
}

/// The unlinking step of one entry.
pub fn unlink_entry(e: Entry) -> (r: Result<UnlinkAction, LinkError>)
    ensures
        r == unlink_step(e),
{
    match e.kind {
        EntryKind::File => match e.slot {
            Slot::Link { same: true, .. } => Ok(UnlinkAction::Remove),
            _ => Ok(UnlinkAction::Keep),
        },
        EntryKind::Dir => Ok(UnlinkAction::Keep),
        EntryKind::Other => Err(LinkError::Unsupported),
    }
}

/// The entries of `es` from `i` on have the prefix of all of `es` minus
/// `i`, when `ok` accepts the first `i`.
proof fn lemma_prefix_from(es: Seq<Entry>, ok: spec_fn(Entry) -> bool, i: int)
    requires
        0 <= i < es.len(),
        ok_prefix(es, ok) >= i,
    ensures
        ok_prefix(es.subrange(i, es.len() as int), ok) == ok_prefix(es, ok) - i,
        ok(es[i]) ==> ok_prefix(es, ok) >= i + 1,
    decreases i,
{
    if i > 0 {
        let t = es.subrange(1, es.len() as int);
        assert(t.subrange(i - 1, t.len() as int) =~= es.subrange(i, es.len() as int));
        assert(t[i - 1] == es[i]);
        lemma_prefix_from(t, ok, i - 1);
    } else {
        assert(es.subrange(0, es.len() as int) =~= es);
    }
}

/// The plan for linking a package, from its entries in walk order: the
/// actions of the leading entries whose steps succeed, then the failure of
/// the next, if any. Directories come before their contents in the walk.
pub fn link_package(entries: &[Entry]) -> (r: LinkPlan)
    ensures
        r.actions@.len() == link_prefix(entries@),
        forall|i: int|
            0 <= i < r.actions@.len() ==> link_step(entries@[i]) == Ok::<LinkAction, LinkError>(
                #[trigger] r.actions@[i],
            ),
        r.error == if link_prefix(entries@) < entries@.len() {
            Some(link_step(entries@[link_prefix(entries@) as int])->Err_0)
        } else {
            None::<LinkError>
        },
{
    let mut actions: Vec<LinkAction> = Vec::new();
    let mut i: usize = 0;
    proof {
        assert(entries@.subrange(0, entries@.len() as int) =~= entries@);
    }
    while i < entries.len()
        invariant
            i <= entries@.len(),
            actions@.len() == i,
            link_prefix(entries@) >= i,
            link_prefix(entries@.subrange(i as int, entries@.len() as int)) == link_prefix(
                entries@,
            ) - i,
            forall|j: int|
                0 <= j < i ==> link_step(entries@[j]) == Ok::<LinkAction, LinkError>(
                    #[trigger] actions@[j],
                ),
        decreases entries.len() - i,
    {
        proof {
            lemma_prefix_from(entries@, link_ok(), i as int);
        }
        match link_entry(entries[i]) {
            Ok(a) => {
                actions.push(a);
                proof {
                    let t = entries@.subrange(i as int, entries@.len() as int);
                    assert(t.subrange(1, t.len() as int) =~= entries@.subrange(
                        i + 1,
                        entries@.len() as int,
                    ));
                }
            },
            Err(e) => {
                proof {
                    let t = entries@.subrange(i as int, entries@.len() as int);
                    assert(t[0] == entries@[i as int]);
                }
                return LinkPlan { actions, error: Some(e) };
            },
        }
        i = i + 1;
    }
    proof {
        let t = entries@.subrange(i as int, entries@.len() as int);
        assert(t.len() == 0);
    }
    LinkPlan { actions, error: None }
}

/// The plan for unlinking a package, from its entries in walk order.
/// Directories are never removed: other packages may need them.
pub fn unlink_package(entries: &[Entry]) -> (r: UnlinkPlan)
    ensures
        r.actions@.len() == unlink_prefix(entries@),
        forall|i: int|
            0 <= i < r.actions@.len() ==> unlink_step(entries@[i]) == Ok::<UnlinkAction, LinkError>(
                #[trigger] r.actions@[i],
            ),
        r.error == if unlink_prefix(entries@) < entries@.len() {
            Some(unlink_step(entries@[unlink_prefix(entries@) as int])->Err_0)
        } else {
            None::<LinkError>
        },
{
    let mut actions: Vec<UnlinkAction> = Vec::new();
    let mut i: usize = 0;
    proof {
        assert(entries@.subrange(0, entries@.len() as int) =~= entries@);
    }
    while i < entries.len()
        invariant
            i <= entries@.len(),
            actions@.len() == i,
            unlink_prefix(entries@) >= i,
            unlink_prefix(entries@.subrange(i as int, entries@.len() as int)) == unlink_prefix(
                entries@,
            ) - i,
            forall|j: int|
                0 <= j < i ==> unlink_step(entries@[j]) == Ok::<UnlinkAction, LinkError>(
                    #[trigger] actions@[j],
                ),
        decreases entries.len() - i,
    {
        proof {
            lemma_prefix_from(entries@, unlink_ok(), i as int);
        }
        match unlink_entry(entries[i]) {
            Ok(a) => {
                actions.push(a);
                proof {
                    let t = entries@.subrange(i as int, entries@.len() as int);
                    assert(t.subrange(1, t.len() as int) =~= entries@.subrange(
                        i + 1,
                        entries@.len() as int,
                    ));
                }
            },
            Err(e) => {
                proof {
                    let t = entries@.subrange(i as int, entries@.len() as int);
                    assert(t[0] == entries@[i as int]);
                }
                return UnlinkPlan { actions, error: Some(e) };
            },
        }
        i = i + 1;
    }
    proof {
        let t = entries@.subrange(i as int, entries@.len() as int);
        assert(t.len() == 0);
    }
    UnlinkPlan { actions, error: None }
}

/// What `pathdiff::diff_paths` returns for a path and a base.
pub uninterp spec fn path_diff(path: Seq<char>, base: Seq<char>) -> Option<Seq<char>>;

/// Relies on pathdiff::diff_paths: `path` made relative to `base`, a
/// function of the two texts. An absolute path against a relative base comes
/// back as it is; a relative path against an absolute base has no answer.
#[verifier::external_body]
fn diff_paths(path: &str, base: &str) -> (r: Option<String>)
    ensures
        match r {
            Some(q) => path_diff(path@, base@) == Some(q@),
            None => path_diff(path@, base@) is None,
        },
        is_absolute(path@) && !is_absolute(base@) ==> r is Some && r->0@ == path@,
        !is_absolute(path@) && is_absolute(base@) ==> r is None,
{
    match pathdiff::diff_paths(path, base) {
        Some(p) => Some(p.to_string_lossy().into_owned()),
        None => None,
    }
}

/// The installation path of a walked entry: its path relative to the
/// package directory, appended to the installation directory.
pub fn slot_path(package_dir: &str, install: &str, entry: &str) -> (r: Result<String, LinkError>)
    ensures
        match path_diff(entry@, package_dir@) {
            Some(rel) => r is Ok && r->Ok_0@ == joined_path(install@, rel),
            None => r == Err::<String, LinkError>(LinkError::InvalidPath),
        },
{
    match diff_paths(entry, package_dir) {
        Some(rel) => Ok(join_path(install, rel.as_str())),
        None => Err(LinkError::InvalidPath),
    }
}

/// The target to write into the symlink at `slot` for the file at `entry`:
/// the file's path relative to the symlink's own directory, so that the two
/// trees can move together.
pub fn symlink_target(entry: &str, slot: &str) -> (r: Result<String, LinkError>)
    ensures
        match path_parent(slot@) {
            Some(dir) => match path_diff(entry@, dir) {
                Some(t) => r is Ok && r->Ok_0@ == t,
                None => r == Err::<String, LinkError>(LinkError::InvalidPath),
            },
            None => r == Err::<String, LinkError>(LinkError::InvalidPath),
        },
{
    match parent_of(slot) {
        Some(dir) => match diff_paths(entry, dir.as_str()) {
            Some(t) => Ok(t),
            None => Err(LinkError::InvalidPath),
        },
        None => Err(LinkError::InvalidPath),
    }
}

/// What stands at an entry's installation path after a linking action.
pub open spec fn after_link(e: Entry, a: LinkAction) -> Entry {
    match a {
        LinkAction::CreateSymlink => Entry { kind: e.kind, slot: Slot::Link { same: true, dir: false } },
        LinkAction::CreateDir => Entry { kind: e.kind, slot: Slot::Dir },
        LinkAction::Keep => e,
    }
}

/// What stands at an entry's installation path after an unlinking action.
pub open spec fn after_unlink(e: Entry, a: UnlinkAction) -> Entry {
    match a {
        UnlinkAction::Remove => Entry { kind: e.kind, slot: Slot::Vacant },
        UnlinkAction::Keep => e,
    }
}

/// The entries once the linking plan's actions are carried out.
pub open spec fn linked_entries(es: Seq<Entry>) -> Seq<Entry> {
    Seq::new(
        es.len(),
        |i: int|
            if i < link_prefix(es) {
                after_link(es[i], link_step(es[i])->Ok_0)
            } else {
                es[i]
            },
    )
}

/// The entries once the unlinking plan's actions are carried out.
pub open spec fn unlinked_entries(es: Seq<Entry>) -> Seq<Entry> {
    Seq::new(
        es.len(),
        |i: int|
            if i < unlink_prefix(es) {
                after_unlink(es[i], unlink_step(es[i])->Ok_0)
            } else {
                es[i]
            },
    )
}

/// The prefix is no longer than the entries.
proof fn lemma_prefix_le(es: Seq<Entry>, ok: spec_fn(Entry) -> bool)
    ensures
        ok_prefix(es, ok) <= es.len(),
    decreases es.len(),
{
    if es.len() > 0 {
        lemma_prefix_le(es.subrange(1, es.len() as int), ok);
    }
}

/// `ok` accepts every entry before the prefix's end.
proof fn lemma_prefix_ok(es: Seq<Entry>, ok: spec_fn(Entry) -> bool, i: int)
    requires
        0 <= i < ok_prefix(es, ok),
    ensures
        ok(es[i]),
    decreases i,
{
    lemma_prefix_le(es, ok);
    if i > 0 {
        let t = es.subrange(1, es.len() as int);
        assert(t[i - 1] == es[i]);
        lemma_prefix_ok(t, ok, i - 1);
    }
}

/// When `ok` accepts every entry, the prefix is the whole.
proof fn lemma_prefix_all(es: Seq<Entry>, ok: spec_fn(Entry) -> bool)
    requires
        forall|i: int| 0 <= i < es.len() ==> #[trigger] ok(es[i]),
    ensures
        ok_prefix(es, ok) == es.len(),
    decreases es.len(),
{
    if es.len() > 0 {
        let t = es.subrange(1, es.len() as int);
        assert forall|i: int| 0 <= i < t.len() implies #[trigger] ok(t[i]) by {
            assert(t[i] == es[i + 1]);
        }
        lemma_prefix_all(t, ok);
    }
}

/// Verdicts that are all satisfied make a satisfied check.
proof fn lemma_first_verdict_all(vs: Seq<Result<bool, LinkError>>)
    requires
        forall|i: int| 0 <= i < vs.len() ==> vs[i] == Ok::<bool, LinkError>(true),
    ensures
        first_verdict(vs) == Ok::<bool, LinkError>(true),
    decreases vs.len(),
{
    if vs.len() > 0 {
        let t = vs.subrange(1, vs.len() as int);
        assert forall|i: int| 0 <= i < t.len() implies t[i] == Ok::<bool, LinkError>(true) by {
            assert(t[i] == vs[i + 1]);
        }
        lemma_first_verdict_all(t);
    }
}

/// An unsatisfied verdict with no error before it makes an unsatisfied
/// check.
proof fn lemma_first_verdict_false(vs: Seq<Result<bool, LinkError>>, k: int)
    requires
        0 <= k < vs.len(),
        vs[k] == Ok::<bool, LinkError>(false),
        forall|i: int| 0 <= i < k ==> vs[i] is Ok,
    ensures
        first_verdict(vs) == Ok::<bool, LinkError>(false),
    decreases k,
{
    if k > 0 && vs[0] == Ok::<bool, LinkError>(true) {
        let t = vs.subrange(1, vs.len() as int);
        assert forall|i: int| 0 <= i < k - 1 implies t[i] is Ok by {
            assert(t[i] == vs[i + 1]);
        }
        assert(t[k - 1] == vs[k]);
        lemma_first_verdict_false(t, k - 1);
    } else if k > 0 {
        assert(vs[0] is Ok);
        let b = vs[0]->Ok_0;
        assert(vs[0] == Ok::<bool, LinkError>(b));
        assert(!b);
    }
}

/// Linking converges: once a package's linking plan has been carried out
/// without error, the package passes the linked check, and linking it again
/// keeps every path as it is. This holds unless a file's installation path
/// holds a symlink to some other file, which linking leaves to its owner.
pub proof fn lemma_link_converges(es: Seq<Entry>)
    requires
        link_prefix(es) == es.len(),
        forall|i: int|
            0 <= i < es.len() && es[i].kind == EntryKind::File ==> !(#[trigger] es[i].slot
                matches Slot::Link { same: false, .. }),
    ensures
        linked_spec(linked_entries(es)) == Ok::<bool, LinkError>(true),
        forall|i: int|
            0 <= i < es.len() ==> link_step(#[trigger] linked_entries(es)[i]) == Ok::<
                LinkAction,
                LinkError,
            >(LinkAction::Keep),
        linked_entries(linked_entries(es)) == linked_entries(es),
{
    let after = linked_entries(es);
    assert forall|i: int| 0 <= i < es.len() implies link_step(#[trigger] after[i]) == Ok::<
        LinkAction,
        LinkError,
    >(LinkAction::Keep) && linked_verdict(after[i]) == Ok::<bool, LinkError>(true) by {
        lemma_prefix_ok(es, link_ok(), i);
    }
    let vs = after.map_values(|e: Entry| linked_verdict(e));
    lemma_first_verdict_all(vs);
    assert forall|i: int| 0 <= i < after.len() implies #[trigger] link_step(after[i]) is Ok by {}
    lemma_prefix_all(after, link_ok());
    assert(linked_entries(after) =~= after);
}

/// Unlinking converges: once a package's unlinking plan has been carried
/// out without error, the package passes the unlinked check, and unlinking it
/// again keeps every path as it is. This holds unless a file's installation
/// path is a hard link to the file itself, which unlinking does not remove.
pub proof fn lemma_unlink_converges(es: Seq<Entry>)
    requires
        unlink_prefix(es) == es.len(),
        forall|i: int|
            0 <= i < es.len() && es[i].kind == EntryKind::File ==> #[trigger] es[i].slot
                != (Slot::File { same: true }),
    ensures
        unlinked_spec(unlinked_entries(es)) == Ok::<bool, LinkError>(true),
        forall|i: int|
            0 <= i < es.len() ==> unlink_step(#[trigger] unlinked_entries(es)[i]) == Ok::<
                UnlinkAction,
                LinkError,
            >(UnlinkAction::Keep),
        unlinked_entries(unlinked_entries(es)) == unlinked_entries(es),
{
    let after = unlinked_entries(es);
    assert forall|i: int| 0 <= i < es.len() implies unlink_step(#[trigger] after[i]) == Ok::<
        UnlinkAction,
        LinkError,
    >(UnlinkAction::Keep) && unlinked_verdict(after[i]) == Ok::<bool, LinkError>(true) by {
        lemma_prefix_ok(es, unlink_ok(), i);
    }
    let vs = after.map_values(|e: Entry| unlinked_verdict(e));
    lemma_first_verdict_all(vs);
    assert forall|i: int| 0 <= i < after.len() implies #[trigger] unlink_step(after[i]) is Ok by {}
    lemma_prefix_all(after, unlink_ok());
    assert(unlinked_entries(after) =~= after);
}

/// A file's installation path occupied by something that is not a symlink
/// (a regular file, say) makes linking fail with `AlreadyExists`, and the
/// linked check fails both before and after that attempt; provided no entry
/// walked before it is unsupported, which would fail first.
pub proof fn lemma_conflict_detected(es: Seq<Entry>, k: int)
    requires
        0 <= k < es.len(),
        es[k].kind == EntryKind::File,
        es[k].slot is File,
        forall|i: int| 0 <= i < k ==> #[trigger] es[i].kind != EntryKind::Other,
    ensures
        link_prefix(es) <= k,
        link_step(es[link_prefix(es) as int]) == Err::<LinkAction, LinkError>(
            LinkError::AlreadyExists,
        ),
        linked_spec(es) == Ok::<bool, LinkError>(false),
        linked_spec(linked_entries(es)) == Ok::<bool, LinkError>(false),
{
    if link_prefix(es) > k {
        lemma_prefix_ok(es, link_ok(), k);
    }
    let p = link_prefix(es) as int;
    if p < k {
        assert(es[p].kind != EntryKind::Other);
        if link_step(es[p]) is Ok {
            assert(link_prefix(es.subrange(p, es.len() as int)) == 0) by {
                if p > 0 {
                    lemma_prefix_from(es, link_ok(), p);
                } else {
                    assert(es.subrange(0, es.len() as int) =~= es);
                }
            }
            let t = es.subrange(p, es.len() as int);
            assert(t[0] == es[p]);
        }
    }
    let vs = es.map_values(|e: Entry| linked_verdict(e));
    lemma_first_verdict_false(vs, k);
    let after = linked_entries(es);
    assert forall|i: int| 0 <= i < k implies #[trigger] after[i].kind != EntryKind::Other by {}
    let ws = after.map_values(|e: Entry| linked_verdict(e));
    lemma_first_verdict_false(ws, k);
}

/// One package to reconcile: its name, and whether it is to be linked (or
/// else unlinked).
#[derive(Debug, Clone, Copy)]
pub struct PackageTask {
    pub package: &'static str,
    pub link: bool,
}

/// What to do with a package once its check has given `verdict`.
#[derive(Debug, Clone, Copy, PartialEq, Eq, Structural)]
pub enum PackageNext {
    /// It is in the wanted state; go on to the next package.
    Skip,
    /// Carry out its linking or unlinking plan, then go on.
    Act,
    /// Stop: the check failed.
    Fail(LinkError),
}

impl PackageLinked {
    /// The packages in the order they are checked and applied: each package
    /// to link, in order, then each package to unlink.
    pub fn tasks(&self) -> (r: Vec<PackageTask>)
        ensures
            r@ == self.linked@.map_values(|p: &'static str| PackageTask { package: p, link: true })
                + self.unlinked@.map_values(
                |p: &'static str| PackageTask { package: p, link: false },
            ),
    {
        let mut out: Vec<PackageTask> = Vec::new();
        let mut i: usize = 0;
        while i < self.linked.len()
            invariant
                i <= self.linked@.len(),
                out@ == self.linked@.subrange(0, i as int).map_values(
                    |p: &'static str| PackageTask { package: p, link: true },
                ),
            decreases self.linked.len() - i,
        {
            out.push(PackageTask { package: self.linked[i], link: true });
            i = i + 1;
            assert(out@ =~= self.linked@.subrange(0, i as int).map_values(
                |p: &'static str| PackageTask { package: p, link: true },
            ));
        }
        assert(self.linked@.subrange(0, i as int) =~= self.linked@);
        let ghost first = out@;
        let mut j: usize = 0;
        while j < self.unlinked.len()
            invariant
                j <= self.unlinked@.len(),
                out@ == first + self.unlinked@.subrange(0, j as int).map_values(
                    |p: &'static str| PackageTask { package: p, link: false },
                ),
            decreases self.unlinked.len() - j,
        {
            out.push(PackageTask { package: self.unlinked[j], link: false });
            j = j + 1;
            assert(out@ =~= first + self.unlinked@.subrange(0, j as int).map_values(
                |p: &'static str| PackageTask { package: p, link: false },
            ));
        }
        assert(self.unlinked@.subrange(0, j as int) =~= self.unlinked@);
        out
    }
}

/// What to do with a package after its check: skip it when it is already in
/// the wanted state, act on it when it is not, stop when the check failed.
pub fn package_next(verdict: Result<bool, LinkError>) -> (r: PackageNext)
    ensures
        r == match verdict {
            Ok(true) => PackageNext::Skip,
            Ok(false) => PackageNext::Act,
            Err(e) => PackageNext::Fail(e),
        },
{
    match verdict {
        Ok(true) => PackageNext::Skip,
        Ok(false) => PackageNext::Act,
        Err(e) => PackageNext::Fail(e),
    }
}

} // verus!
