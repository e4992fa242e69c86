//! The commands of the command line.
use vstd::prelude::*;
use crate::host::{address_parse, AddressError, UserAtHost};
use crate::text::{chars_of, find_char};

verus! {

/// Deploying properties to hosts.
#[derive(Debug)]
pub struct RotorMain {
    pub cmd: RotorSub,
}

/// The subcommands.
#[derive(Debug)]
pub enum RotorSub {
    /// List configured users at hosts.
    List,
    /// Apply configurations for username@hostname locally.
    Apply { user: UserAtHost },
    /// Apply configurations to remote users or hosts.
    Push { targets: Vec<PushTarget> },
}

/// Where to push configurations.
#[derive(Debug)]
pub enum PushTarget {
    /// A single user on a single host.
    User(UserAtHost),
    /// All users on a host.
    Host(String),
}

impl PushTarget {
    /// A text without `@` names a host; one with `@` must be
    /// `username@hostname`.
    pub fn parse(s: &str) -> (r: Result<PushTarget, AddressError>)
        ensures
            !s@.contains('@') ==> match r {
                Ok(PushTarget::Host(h)) => h@ == s@,
                _ => false,
            },
            s@.contains('@') ==> match address_parse(s@) {
                Ok((u, h)) => match r {
                    Ok(PushTarget::User(a)) => a.user@ == u && a.host@ == h,
                    _ => false,
                },
                Err(e) => r == Err::<PushTarget, AddressError>(e),
            },
    {
        let cs = chars_of(s);
        let p = find_char(cs.as_slice(), '@');
        proof {
            crate::text::lemma_char_pos_bounds(s@, '@');
        }
        if p == cs.len() {
            return Ok(PushTarget::Host(s.to_owned()));
        }
        match UserAtHost::parse(s) {
            Ok(u) => Ok(PushTarget::User(u)),
            Err(e) => Err(e),
        }
    }
}

impl std::str::FromStr for PushTarget {
    type Err = &'static str;

    fn from_str(s: &str) -> Result<PushTarget, &'static str> {
        match PushTarget::parse(s) {
            Ok(t) => Ok(t),
            Err(e) => Err(e.message()),
        }
    }
}

} // verus!
