use rotor::cmd::PushTarget;
use rotor::host::{AddressError, ConfigError};
use rotor::os::{Any, ArchLinux, Capability, DebianLike, Linux};
use rotor::property::Property;
use rotor::{apt, git, pacman, prop, user, ConfigureUser, PropertyList, RotorBuilder, UserAtHost};
use std::str::FromStr;

#[test]
fn address_parsing() {
    let u = UserAtHost::parse("flandre@teufelsschloss").unwrap();
    assert_eq!("flandre", u.user);
    assert_eq!("teufelsschloss", u.host);
    assert_eq!("flandre@teufelsschloss", u.address());
    assert_eq!(AddressError::Malformed, UserAtHost::parse("a@b@c").unwrap_err());
    assert_eq!(AddressError::Malformed, UserAtHost::parse("ab").unwrap_err());
    assert_eq!(AddressError::MissingUser, UserAtHost::parse("@b").unwrap_err());
    assert_eq!(AddressError::MissingHost, UserAtHost::parse("a@").unwrap_err());
    assert_eq!("Need username before @", UserAtHost::from_str("@b").unwrap_err());
}

#[test]
fn push_targets() {
    assert!(matches!(PushTarget::parse("host").unwrap(), PushTarget::Host(h) if h == "host"));
    assert!(matches!(PushTarget::parse("u@h").unwrap(), PushTarget::User(a) if a.user == "u" && a.host == "h"));
    assert_eq!(AddressError::MissingHost, PushTarget::parse("u@").unwrap_err());
    assert!(PushTarget::from_str("u@h@x").is_err());
}

#[test]
fn capabilities_refine() {
    assert!(Capability::ArchLinux.refines(Capability::Linux));
    assert!(Capability::DebianLike.refines(Capability::Any));
    assert!(!Capability::Linux.refines(Capability::ArchLinux));
    assert!(!Capability::ArchLinux.refines(Capability::DebianLike));
    let arch: PropertyList = prop::<ArchLinux>();
    assert_eq!(Capability::ArchLinux, arch.capability());
    assert!(arch.accepts(&Property::PacmanInstalled(pacman::installed("bash"))));
    assert!(!arch.accepts(&Property::AptInstalled(apt::installed("vim"))));
    assert!(prop::<Linux>().accepts(&Property::GitGlobalConfig(git::global("k").value("v"))));
    assert_eq!(Capability::Any, PropertyList::new::<Any>().capability());
    assert_eq!(Capability::DebianLike, prop::<DebianLike>().capability());
}

#[test]
fn builder_lookups() {
    let root = prop::<DebianLike>().push(Property::AptInstalled(apt::installed("vim")));
    let b = RotorBuilder::new()
        .host("h1", user("root", root).user("user", prop::<DebianLike>()))
        .host("h2", user("x", prop::<ArchLinux>()));
    assert_eq!(1, b.configure_user("root", "h1").unwrap().len());
    assert_eq!(0, b.configure_user("user", "h1").unwrap().len());
    assert_eq!(ConfigError::UserNotConfigured, b.configure_user("nobody", "h1").err().unwrap());
    assert_eq!(ConfigError::HostNotConfigured, b.configure_user("root", "h3").err().unwrap());
    let b = b.host("h1", user("other", prop::<Any>()));
    assert_eq!(ConfigError::UserNotConfigured, b.configure_user("root", "h1").err().unwrap());
    assert_eq!(2, b.hosts().len());
    assert_eq!(vec!["other"], b.hosts()[1].1.list_users());
}

#[test]
fn package_lists() {
    assert_eq!(vec!["a", "b"], apt::installed_all(&["a", "b"]).packages);
    assert_eq!(vec!["a"], apt::removed("a").packages);
    assert_eq!(vec!["a", "b"], apt::removed_all(&["a", "b"]).packages);
    assert_eq!(vec!["a", "b"], pacman::installed_all(&["a", "b"]).packages);
    assert_eq!(vec!["c"], pacman::removed("c").packages);
    assert_eq!(vec!["c", "d"], pacman::removed_all(&["c", "d"]).packages);
}

#[test]
fn apt_policy_output() {
    let p = apt::installed_all(&["vim", "git"]);
    let out: Vec<char> = "vim:\n  Installed: 2:8.2\n  Candidate: 2:8.2\ngit:\n  Installed: 1:2.30\n".chars().collect();
    assert!(p.policy_satisfied(&out));
    let out2: Vec<char> = "vim:\n  Installed: (none)\ngit:\n  Installed: 1:2.30\n".chars().collect();
    assert!(!p.policy_satisfied(&out2));
    let out3: Vec<char> = "vim:\n  Installed: 2:8.2\n".chars().collect();
    assert!(!p.policy_satisfied(&out3));
}

#[test]
fn git_output() {
    let g = git::global("core.quotepath").value("false");
    assert_eq!(Ok(true), g.matches_output(b"false\0"));
    assert_eq!(Ok(true), g.matches_output(b"false"));
    assert_eq!(Ok(false), g.matches_output(b"true\0"));
    assert_eq!(Ok(false), g.matches_output(b""));
    assert!(g.matches_output(&[0xff, 0xfe, 0]).is_err());
    assert!(g.matches_text("false"));
}

#[test]
fn host_users_configure_first_match() {
    let h = user("a", prop::<Any>().push(Property::GitGlobalConfig(git::global("k").value("v"))))
        .user("b", prop::<Any>())
        .user("a", prop::<Any>());
    assert_eq!(vec!["a", "b", "a"], h.list_users());
    assert_eq!(1, h.configure("a").unwrap().len());
    assert_eq!(ConfigError::UserNotConfigured, h.configure("c").err().unwrap());
}
