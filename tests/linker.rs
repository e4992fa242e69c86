use rotor::dir::{
    check_linked, check_unlinked, link_package, package_next, path, slot_path, symlink_target,
    unlink_package, Entry, EntryKind, LinkAction, LinkError, PackageNext, Slot, UnlinkAction,
};
use rotor::user_path::{join_path, HomeNotFound, UserPathBuf};

fn e(kind: EntryKind, slot: Slot) -> Entry {
    Entry { kind, slot }
}

#[test]
fn builder_defaults_to_parent() {
    let p = path("/home/u/dotfiles").as_package_source().linked("vim").unlinked_all(&["a", "b"]);
    assert_eq!("/home/u", p.get_install_dir().unwrap().path());
    assert_eq!(vec!["vim"], *p.linked_list());
    assert_eq!(vec!["a", "b"], *p.unlinked_list());
    let q = p.install_to("/opt");
    assert_eq!("/opt", q.get_install_dir().unwrap().path());
}

#[test]
fn builder_without_parent_has_no_target() {
    let p = path("").as_package_source();
    assert_eq!(Some(LinkError::TargetUndefined), p.get_install_dir().err());
}

#[test]
fn link_fresh_package() {
    let es = [
        e(EntryKind::Dir, Slot::Dir),
        e(EntryKind::Dir, Slot::Vacant),
        e(EntryKind::File, Slot::Vacant),
    ];
    assert_eq!(Ok(false), check_linked(&es));
    let plan = link_package(&es);
    assert_eq!(None, plan.error);
    assert_eq!(vec![LinkAction::Keep, LinkAction::CreateDir, LinkAction::CreateSymlink], plan.actions);
    let after = [
        e(EntryKind::Dir, Slot::Dir),
        e(EntryKind::Dir, Slot::Dir),
        e(EntryKind::File, Slot::Link { same: true, dir: false }),
    ];
    assert_eq!(Ok(true), check_linked(&after));
    assert!(link_package(&after).actions.iter().all(|a| *a == LinkAction::Keep));
}

#[test]
fn link_then_other_package_stays_unlinked() {
    // Packages A and B both hold `f`; after A is linked, B's `f` path is a
    // symlink that resolves to A's file, not to B's.
    let b = [e(EntryKind::Dir, Slot::Dir), e(EntryKind::File, Slot::Link { same: false, dir: false })];
    assert_eq!(Ok(true), check_unlinked(&b));
    let plan = unlink_package(&b);
    assert_eq!(vec![UnlinkAction::Keep, UnlinkAction::Keep], plan.actions);
}

#[test]
fn regular_file_in_the_way() {
    let es = [
        e(EntryKind::Dir, Slot::Vacant),
        e(EntryKind::File, Slot::File { same: false }),
        e(EntryKind::File, Slot::Vacant),
    ];
    assert_eq!(Ok(false), check_linked(&es));
    let plan = link_package(&es);
    assert_eq!(vec![LinkAction::CreateDir], plan.actions);
    assert_eq!(Some(LinkError::AlreadyExists), plan.error);
    let after = [
        e(EntryKind::Dir, Slot::Dir),
        e(EntryKind::File, Slot::File { same: false }),
        e(EntryKind::File, Slot::Vacant),
    ];
    assert_eq!(Ok(false), check_linked(&after));
}

#[test]
fn broken_link_in_the_way() {
    let plan = link_package(&[e(EntryKind::File, Slot::BrokenLink)]);
    assert_eq!(Some(LinkError::AlreadyExists), plan.error);
    assert!(plan.actions.is_empty());
}

#[test]
fn symlink_in_package_unsupported() {
    let es = [e(EntryKind::Other, Slot::Dir)];
    assert_eq!(Err(LinkError::Unsupported), check_linked(&es));
    assert_eq!(Err(LinkError::Unsupported), check_unlinked(&es));
    assert_eq!(Some(LinkError::Unsupported), link_package(&es).error);
    assert_eq!(Some(LinkError::Unsupported), unlink_package(&es).error);
    assert_eq!(Ok(false), check_linked(&[e(EntryKind::Other, Slot::Vacant)]));
}

#[test]
fn unlink_removes_own_links_only() {
    let es = [
        e(EntryKind::Dir, Slot::Dir),
        e(EntryKind::File, Slot::Link { same: true, dir: false }),
        e(EntryKind::File, Slot::Link { same: false, dir: false }),
        e(EntryKind::File, Slot::Vacant),
    ];
    assert_eq!(Ok(false), check_unlinked(&es));
    let plan = unlink_package(&es);
    assert_eq!(None, plan.error);
    assert_eq!(
        vec![UnlinkAction::Keep, UnlinkAction::Remove, UnlinkAction::Keep, UnlinkAction::Keep],
        plan.actions
    );
}

#[test]
fn paths_of_slots_and_links() {
    assert_eq!(Ok("/home/u/.config/f".to_string()), slot_path("/repo/vim", "/home/u", "/repo/vim/.config/f"));
    assert_eq!(Ok("/home/u/".to_string()), slot_path("/repo/vim", "/home/u", "/repo/vim"));
    assert_eq!(
        Ok("../../repo/vim/.config/f".to_string()),
        symlink_target("/repo/vim/.config/f", "/home/.config/f")
    );
    assert_eq!(Err(LinkError::InvalidPath), slot_path("/repo/vim", "/home/u", "relative/f"));
}

#[test]
fn user_path_kinds_and_parent() {
    let a = UserPathBuf::new("/a/b");
    assert!(!a.is_home());
    assert_eq!("/a", a.parent().unwrap().path());
    let h = UserPathBuf::new("dotfiles");
    assert!(h.is_home());
    assert_eq!("", h.parent().unwrap().path());
    assert!(UserPathBuf::new("/").parent().is_none());
}

#[test]
fn package_in_both_sets_is_reported() {
    let p = path("/r").as_package_source().linked_all(&["a", "b"]).unlinked_all(&["c", "b"]);
    assert_eq!(Some("b"), p.overlapping());
    let q = path("/r").as_package_source().linked("a").unlinked("c");
    assert_eq!(None, q.overlapping());
}

#[test]
fn expansion_against_a_home() {
    assert_eq!("/home/u/.bashrc", join_path("/home/u", ".bashrc"));
    assert_eq!("/home/u/.bashrc", join_path("/home/u/", ".bashrc"));
    assert_eq!("/etc/x", join_path("/home/u", "/etc/x"));
    assert_eq!("x", join_path("", "x"));
    let h = UserPathBuf::new(".config/user-dirs.conf");
    assert_eq!(Ok("/home/u/.config/user-dirs.conf".to_string()), h.expand_with_home(Some("/home/u")));
    assert_eq!(Err(HomeNotFound), h.expand_with_home(None));
    let a = UserPathBuf::new("/etc/hosts");
    assert_eq!(Ok("/etc/hosts".to_string()), a.expand_with_home(None));
    assert_eq!(Ok("/etc/hosts".to_string()), a.expand_user());
}

#[test]
fn user_paths_shown() {
    assert_eq!("~/dotfiles", UserPathBuf::new("dotfiles").shown());
    assert_eq!("/etc", UserPathBuf::new("/etc").shown());
}

#[test]
fn tasks_linked_then_unlinked() {
    let p = path("dotfiles").as_package_source().unlinked("u").linked_all(&["a", "b"]);
    let t: Vec<(&str, bool)> = p.tasks().iter().map(|t| (t.package, t.link)).collect();
    assert_eq!(vec![("a", true), ("b", true), ("u", false)], t);
    assert_eq!(PackageNext::Skip, package_next(Ok(true)));
    assert_eq!(PackageNext::Act, package_next(Ok(false)));
    assert_eq!(PackageNext::Fail(LinkError::Unsupported), package_next(Err(LinkError::Unsupported)));
}

#[test]
fn install_path_kinds() {
    let p = path("dotfiles/repo").as_package_source();
    assert!(p.install.as_ref().unwrap().is_home());
    let q = p.install_to("/opt");
    assert!(!q.install.as_ref().unwrap().is_home());
    let r = q.install_to("stow");
    assert!(r.install.as_ref().unwrap().is_home());
    assert!(rotor::conf_file::classic_syntax("x.conf").path.is_home());
    assert!(!rotor::conf_file::with_syntax("/etc/x.conf", ';', ':').path.is_home());
}
