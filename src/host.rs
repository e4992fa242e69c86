//! Hosts, their users, and the configuration of each user.
use vstd::prelude::*;
use crate::property::PropertyList;
use crate::os::Capability;
use crate::text::{char_pos, chars_of, find_char, lemma_char_pos_bounds};

verus! {

/// Why a user at a host cannot be configured.
#[derive(Debug, Clone, Copy, PartialEq, Eq, Structural)]
pub enum ConfigError {
    HostNotConfigured,
    UserNotConfigured,
}

/// The properties of one user.
pub struct UserConf {
    pub name: String,
    pub properties: PropertyList,
}

impl UserConf {
    pub fn new(name: String, properties: PropertyList) -> (r: UserConf)
        ensures
            r.name == name,
            r.properties == properties,
    {
        UserConf { name, properties }
    }
}

/// The users of a host, all under the host's capability.
pub struct HostUsersConf {
    pub os: Capability,
    pub users: Vec<UserConf>,
}

/// The properties of the first user named `name` among `users`, if any.
pub open spec fn first_named(users: Seq<UserConf>, name: Seq<char>) -> Option<PropertyList>
    decreases users.len(),
{
    if users.len() == 0 {
        None
    } else if users[0].name@ == name {
        Some(users[0].properties)
    } else {
        first_named(users.subrange(1, users.len() as int), name)
    }
}

/// A host with one user.
pub fn user(name: &'static str, properties: PropertyList) -> (r: HostUsersConf)
    ensures
        r.os == properties.os(),
        r.users@.len() == 1,
        r.users@[0].name@ == name@,
        r.users@[0].properties == properties,
{
    let os = properties.capability();
    let mut users: Vec<UserConf> = Vec::new();
    users.push(UserConf::new(name.to_owned(), properties));
    HostUsersConf { os, users }
}

impl HostUsersConf {
    /// The host with another user.
    pub fn user(self, name: &'static str, properties: PropertyList) -> (r: HostUsersConf)
        requires
            properties.os() == self.os,
        ensures
            r.os == self.os,
            r.users@.len() == self.users@.len() + 1,
            forall|i: int| 0 <= i < self.users@.len() ==> r.users@[i] == self.users@[i],
            r.users@.last().name@ == name@,
            r.users@.last().properties == properties,
    {
        let mut s = self;
        s.users.push(UserConf::new(name.to_owned(), properties));
        s
    }
}

/// A host's users, listed and looked up by name.
pub trait ConfigureUser {
    /// The names of the users, in order.
    spec fn user_names(&self) -> Seq<Seq<char>>;

    /// The properties of the user called `name`, if there is one.
    spec fn properties_of(&self, name: Seq<char>) -> Option<PropertyList>;

    /// The names of the users, in order.
    fn list_users(&self) -> (r: Vec<&str>)
        ensures
            r@.len() == self.user_names().len(),
            forall|i: int| 0 <= i < r@.len() ==> #[trigger] r@[i]@ == self.user_names()[i],
    ;

    /// The properties of the user called `user_name`.
    fn configure(&self, user_name: &str) -> (r: Result<&PropertyList, ConfigError>)
        ensures
            match self.properties_of(user_name@) {
                Some(l) => r == Ok::<&PropertyList, ConfigError>(&l),
                None => r == Err::<&PropertyList, ConfigError>(ConfigError::UserNotConfigured),
            },
    ;
}

impl ConfigureUser for HostUsersConf {
    open spec fn user_names(&self) -> Seq<Seq<char>> {
        self.users@.map_values(|u: UserConf| u.name@)
    }

    /// The first user with the name counts.
    open spec fn properties_of(&self, name: Seq<char>) -> Option<PropertyList> {
        first_named(self.users@, name)
    }

    fn list_users(&self) -> (r: Vec<&str>) {
        let mut out: Vec<&str> = Vec::new();
        let mut i: usize = 0;
        while i < self.users.len()
            invariant
                i <= self.users@.len(),
                out@.len() == i,
                forall|j: int| 0 <= j < i ==> #[trigger] out@[j]@ == self.users@[j].name@,
            decreases self.users.len() - i,
        {
            out.push(self.users[i].name.as_str());
            i = i + 1;
        }
        out
    }

    fn configure(&self, user_name: &str) -> (r: Result<&PropertyList, ConfigError>) {
        let wanted = user_name.to_owned();
        let mut i: usize = 0;
        assert(self.users@.subrange(0, self.users@.len() as int) =~= self.users@);
        while i < self.users.len()
            invariant
                i <= self.users@.len(),
                wanted@ == user_name@,
                first_named(self.users@, user_name@) == first_named(
                    self.users@.subrange(i as int, self.users@.len() as int),
                    user_name@,
                ),
            decreases self.users.len() - i,
        {
            let ghost rest = self.users@.subrange(i as int, self.users@.len() as int);
            assert(rest[0] == self.users@[i as int]);
            assert(rest.subrange(1, rest.len() as int) =~= self.users@.subrange(
                i + 1,
                self.users@.len() as int,
            ));
            if self.users[i].name == wanted {
                return Ok(&self.users[i].properties);
            }
            i = i + 1;
        }
        Err(ConfigError::UserNotConfigured)
    }
}

/// The configuration of all hosts, each named once.
pub struct RotorBuilder {
    hosts: Vec<(String, HostUsersConf)>,
}

/// The configuration that `hosts` holds for `name`.
pub open spec fn host_named(hosts: Seq<(String, HostUsersConf)>, name: Seq<char>) -> Option<
    HostUsersConf,
>
    decreases hosts.len(),
{
    if hosts.len() == 0 {
        None
    } else if hosts.last().0@ == name {
        Some(hosts.last().1)
    } else {
        host_named(hosts.drop_last(), name)
    }
}

impl RotorBuilder {
    /// The host entries, in the order they were first declared.
    pub closed spec fn entries(&self) -> Seq<(String, HostUsersConf)> {
        self.hosts@
    }

    /// The configuration of the host named `name`, if any.
    pub open spec fn host_conf(&self, name: Seq<char>) -> Option<HostUsersConf> {
        host_named(self.entries(), name)
    }

    /// No host declared.
    pub fn new() -> (r: RotorBuilder)
        ensures
            r.entries().len() == 0,
            forall|n: Seq<char>| r.host_conf(n) is None,
    {
        RotorBuilder { hosts: Vec::new() }
    }

    /// The configuration with `users_conf` for the host `hostname`, in place
    /// of any earlier one for that host.
    pub fn host(self, hostname: &'static str, users_conf: HostUsersConf) -> (r: RotorBuilder)
        ensures
            r.host_conf(hostname@) == Some(users_conf),
            forall|n: Seq<char>| n != hostname@ ==> #[trigger] r.host_conf(n) == self.host_conf(n),
    {
        let mut s = self;
        let name = hostname.to_owned();
        let ghost before = s.hosts@;
        let mut i: usize = 0;
        while i < s.hosts.len()
            invariant_except_break
                before == s.hosts@,
            invariant
                i <= before.len(),
                name@ == hostname@,
                forall|n: Seq<char>| n != hostname@ ==> #[trigger] host_named(s.hosts@, n)
                    == host_named(before, n),
            decreases s.hosts.len() - i,
        {
            if s.hosts[i].0 == name {
                s.hosts.remove(i);
                proof {
                    assert forall|n: Seq<char>| n != hostname@ implies #[trigger] host_named(
                        s.hosts@,
                        n,
                    ) == host_named(before, n) by {
                        lemma_host_named_remove(before, i as int, n);
                    }
                }
                break;
            }
            i = i + 1;
        }
        let ghost mid = s.hosts@;
        s.hosts.push((name, users_conf));
        proof {
            assert(s.hosts@.drop_last() =~= mid);
            assert forall|n: Seq<char>| n != hostname@ implies #[trigger] host_named(s.hosts@, n)
                == host_named(before, n) by {
                assert(host_named(s.hosts@, n) == host_named(mid, n));
            }
        }
        s
    }

    /// The hosts, in the order they were first declared.
    pub fn hosts(&self) -> (r: &Vec<(String, HostUsersConf)>)
        ensures
            r@ == self.entries(),
    {
        &self.hosts
    }

    /// The properties to run for `username` at `hostname`.
    pub fn configure_user(&self, username: &str, hostname: &str) -> (r: Result<
        &PropertyList,
        ConfigError,
    >)
        ensures
            match self.host_conf(hostname@) {
                None => r == Err::<&PropertyList, ConfigError>(ConfigError::HostNotConfigured),
                Some(h) => match first_named(h.users@, username@) {
                    Some(l) => r == Ok::<&PropertyList, ConfigError>(&l),
                    None => r == Err::<&PropertyList, ConfigError>(ConfigError::UserNotConfigured),
                },
            },
    {
        let wanted = hostname.to_owned();
        let mut i: usize = self.hosts.len();
        assert(self.hosts@.subrange(0, i as int) =~= self.hosts@);
        while i > 0
            invariant
                i <= self.hosts@.len(),
                wanted@ == hostname@,
                host_named(self.hosts@, hostname@) == host_named(
                    self.hosts@.subrange(0, i as int),
                    hostname@,
                ),
            decreases i,
        {
            let ghost pre = self.hosts@.subrange(0, i as int);
            assert(pre.last() == self.hosts@[i - 1]);
            assert(pre.drop_last() =~= self.hosts@.subrange(0, i - 1));
            if self.hosts[i - 1].0 == wanted {
                return self.hosts[i - 1].1.configure(username);
            }
            i = i - 1;
        }
        assert(self.hosts@.subrange(0, 0) =~= Seq::<(String, HostUsersConf)>::empty());
        Err(ConfigError::HostNotConfigured)
    }
}

/// Removing an entry for another host changes nothing for `n`.
proof fn lemma_host_named_remove(hosts: Seq<(String, HostUsersConf)>, i: int, n: Seq<char>)
    requires
        0 <= i < hosts.len(),
        hosts[i].0@ != n,
    ensures
        host_named(hosts.remove(i), n) == host_named(hosts, n),
    decreases hosts.len(),
{
    let r = hosts.remove(i);
    if i == hosts.len() - 1 {
        assert(r =~= hosts.drop_last());
    } else {
        assert(r.last() == hosts.last());
        assert(r.drop_last() =~= hosts.drop_last().remove(i));
        lemma_host_named_remove(hosts.drop_last(), i, n);
    }
}

/// A user at a host, written `username@hostname`.
#[derive(Debug)]
pub struct UserAtHost {
    pub user: String,
    pub host: String,
}

/// Why a text is not `username@hostname`.
#[derive(Debug, Clone, Copy, PartialEq, Eq, Structural)]
pub enum AddressError {
    /// The text does not hold exactly one `@`.
    Malformed,
    /// Nothing stands before the `@`.
    MissingUser,
    /// Nothing stands after the `@`.
    MissingHost,
}

impl AddressError {
    /// A description of the error.
    pub fn message(&self) -> &'static str {
        match self {
            AddressError::Malformed => "Need username@hostname",
            AddressError::MissingUser => "Need username before @",
            AddressError::MissingHost => "Need hostname after @",
        }
    }
}

/// The number of times `c` occurs in `s`.
pub open spec fn count_char(s: Seq<char>, c: char) -> nat
    decreases s.len(),
{
    if s.len() == 0 {
        0
    } else {
        count_char(s.drop_last(), c) + if s.last() == c {
            1nat
        } else {
            0nat
        }
    }
}

/// A text without `c` holds it zero times.
proof fn lemma_count_zero(s: Seq<char>, c: char)
    requires
        forall|i: int| 0 <= i < s.len() ==> s[i] != c,
    ensures
        count_char(s, c) == 0,
    decreases s.len(),
{
    if s.len() > 0 {
        assert(s.last() == s[s.len() - 1]);
        lemma_count_zero(s.drop_last(), c);
    }
}

/// What `username@hostname` parses to: exactly one `@`, with text on both
/// sides of it.
pub open spec fn address_parse(s: Seq<char>) -> Result<(Seq<char>, Seq<char>), AddressError> {
    let p = char_pos(s, '@');
    if count_char(s, '@') != 1 {
        Err(AddressError::Malformed)
    } else if p == 0 {
        Err(AddressError::MissingUser)
    } else if p + 1 == s.len() {
        Err(AddressError::MissingHost)
    } else {
        Ok((s.subrange(0, p), s.subrange(p + 1, s.len() as int)))
    }
}

/// The number of times `c` occurs in `s`.
pub fn count_of(s: &[char], c: char) -> (r: usize)
    ensures
        r == count_char(s@, c),
{
    let mut n: usize = 0;
    let mut i: usize = 0;
    while i < s.len()
        invariant
            i <= s@.len(),
            n == count_char(s@.subrange(0, i as int), c),
            n <= i,
        decreases s.len() - i,
    {
        assert(s@.subrange(0, i + 1).drop_last() =~= s@.subrange(0, i as int));
        if s[i] == c {
            n = n + 1;
        }
        i = i + 1;
    }
    assert(s@.subrange(0, s@.len() as int) =~= s@);
    n
}

impl UserAtHost {
    /// Parses `username@hostname`.
    pub fn parse(s: &str) -> (r: Result<UserAtHost, AddressError>)
        ensures
            match address_parse(s@) {
                Ok((u, h)) => r is Ok && r->Ok_0.user@ == u && r->Ok_0.host@ == h,
                Err(e) => r is Err && r->Err_0 == e,
            },
    {
        let cs = chars_of(s);
        if count_of(cs.as_slice(), '@') != 1 {
            return Err(AddressError::Malformed);
        }
        let p = find_char(cs.as_slice(), '@');
        proof {
            lemma_char_pos_bounds(s@, '@');
            if p == cs@.len() {
                lemma_count_zero(s@, '@');
            }
        }
        if p == 0 {
            return Err(AddressError::MissingUser);
        }
        let n = cs.len();
        if p + 1 == n {
            return Err(AddressError::MissingHost);
        }
        let user = s.substring_char(0, p).to_owned();
        let host = s.substring_char(p + 1, n).to_owned();
        Ok(UserAtHost { user, host })
    }

    /// The text `username@hostname`.
    pub fn address(&self) -> (r: String)
        ensures
            r@ == self.user@ + seq!['@'] + self.host@,
    {
        let mut out = self.user.clone();
        let at = "@";
        proof {
            reveal_strlit("@");
        }
        out.append(at);
        out.append(self.host.as_str());
        out
    }
}

impl std::str::FromStr for UserAtHost {
    type Err = &'static str;

    fn from_str(s: &str) -> Result<UserAtHost, &'static str> {
        match UserAtHost::parse(s) {
            Ok(u) => Ok(u),
            Err(e) => Err(e.message()),
        }
    }
}

} // verus!
