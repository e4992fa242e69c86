//! Paths that are either absolute or relative to the user's home directory.
use vstd::prelude::*;

verus! {

/// A path; a relative one is taken relative to the user's home directory
/// when it is used.
#[derive(Clone, Debug)]
pub enum UserPathBuf {
    Home(String),
    Absolute(String),
}

/// On Unix a path is absolute exactly when it starts at the root.
pub open spec fn is_absolute(p: Seq<char>) -> bool {
    p.len() > 0 && p[0] == '/'
}

/// What `std::path::Path::parent` returns for a path.
pub uninterp spec fn path_parent(p: Seq<char>) -> Option<Seq<char>>;

/// Relies on std::path::Path::parent: the path without its last component,
/// a function of the path's text; an empty path has none.
#[verifier::external_body]
pub(crate) fn parent_of(p: &str) -> (r: Option<String>)
    ensures
        match r {
            Some(q) => path_parent(p@) == Some(q@),
            None => path_parent(p@) is None,
        },
        p@.len() == 0 ==> r is None,
{
    match std::path::Path::new(p).parent() {
        Some(q) => Some(q.to_string_lossy().into_owned()),
        None => None,
    }
}

impl UserPathBuf {
    /// The text of the path, whichever its kind.
    pub open spec fn text(&self) -> Seq<char> {
        match self {
            UserPathBuf::Home(p) => p@,
            UserPathBuf::Absolute(p) => p@,
        }
    }

    /// A relative path is taken as relative to the home directory.
    pub fn new(p: &str) -> (r: UserPathBuf)
        ensures
            r.text() == p@,
            r.is_home() == !is_absolute(p@),
    {
        let absolute = p.unicode_len() > 0 && p.get_char(0) == '/';
        if absolute {
            UserPathBuf::Absolute(p.to_owned())
        } else {
            UserPathBuf::Home(p.to_owned())
        }
    }

    /// The path as shown to a user: a home-relative one after `~/`.
    pub fn shown(&self) -> (r: String)
        ensures
            r@ == match self {
                UserPathBuf::Home(p) => seq!['~', '/'] + p@,
                UserPathBuf::Absolute(p) => p@,
            },
    {
        match self {
            UserPathBuf::Home(p) => {
                let mut out = "~/".to_owned();
                proof {
                    reveal_strlit("~/");
                }
                out.append(p.as_str());
                assert(out@ =~= seq!['~', '/'] + p@);
                out
            },
            UserPathBuf::Absolute(p) => p.clone(),
        }
    }

    /// A copy of the path.
    pub fn duplicate(&self) -> (r: UserPathBuf)
        ensures
            r == *self,
    {
        match self {
            UserPathBuf::Home(p) => UserPathBuf::Home(p.clone()),
            UserPathBuf::Absolute(p) => UserPathBuf::Absolute(p.clone()),
        }
    }

    /// Whether the path is relative to the home directory.
    #[verifier::when_used_as_spec(spec_is_home)]
    pub fn is_home(&self) -> (r: bool)
        ensures
            r == self.spec_is_home(),
    {
        match self {
            UserPathBuf::Home(_) => true,
            UserPathBuf::Absolute(_) => false,
        }
    }

    pub open spec fn spec_is_home(&self) -> bool {
        self is Home
    }

    /// The text of the path.
    pub fn path(&self) -> (r: &str)
        ensures
            r@ == self.text(),
    {
        match self {
            UserPathBuf::Home(p) => p.as_str(),
            UserPathBuf::Absolute(p) => p.as_str(),
        }
    }

    /// The parent path, of the same kind; none for an empty path or the root.
    pub fn parent(&self) -> (r: Option<UserPathBuf>)
        ensures
            match r {
                Some(q) => path_parent(self.text()) == Some(q.text()) && q.is_home()
                    == self.is_home(),
                None => path_parent(self.text()) is None,
            },
    {
        match self {
            UserPathBuf::Absolute(p) => match parent_of(p.as_str()) {
                Some(q) => Some(UserPathBuf::Absolute(q)),
                None => None,
            },
            UserPathBuf::Home(p) => match parent_of(p.as_str()) {
                Some(q) => Some(UserPathBuf::Home(q)),
                None => None,
            },
        }
    }
}

/// `rel` appended to `base` as `PathBuf::push` does on Unix: an absolute
/// `rel` replaces `base`; otherwise a separator goes between them unless
/// `base` is empty or already ends with one.
pub open spec fn joined_path(base: Seq<char>, rel: Seq<char>) -> Seq<char> {
    if is_absolute(rel) {
        rel
    } else if base.len() == 0 || base.last() == '/' {
        base + rel
    } else {
        base + seq!['/'] + rel
    }
}

/// `rel` appended to `base`.
pub fn join_path(base: &str, rel: &str) -> (r: String)
    ensures
        r@ == joined_path(base@, rel@),
{
    let rn = rel.unicode_len();
    if rn > 0 && rel.get_char(0) == '/' {
        return rel.to_owned();
    }
    let mut out = base.to_owned();
    let bn = base.unicode_len();
    if bn > 0 && base.get_char(bn - 1) != '/' {
        let sep = "/";
        proof {
            reveal_strlit("/");
        }
        out.append(sep);
    }
    out.append(rel);
    out
}

/// No home directory could be found for a path relative to it.
#[derive(Debug, Clone, Copy, PartialEq, Eq, Structural)]
pub struct HomeNotFound;

/// Relies on dirs::home_dir: the current user's home directory, if one is
/// found and its path is UTF-8; which one depends on the environment, so
/// nothing is stated of it.
#[verifier::external_body]
fn home_dir() -> (r: Option<String>) {
    match dirs::home_dir() {
        Some(h) => h.into_os_string().into_string().ok(),
        None => None,
    }
}

impl UserPathBuf {
    /// The path, a relative one joined to `home`; an error when it is
    /// relative and there is no home.
    pub fn expand_with_home(&self, home: Option<&str>) -> (r: Result<String, HomeNotFound>)
        ensures
            match self {
                UserPathBuf::Absolute(p) => r is Ok && r->Ok_0@ == p@,
                UserPathBuf::Home(p) => match home {
                    Some(h) => r is Ok && r->Ok_0@ == joined_path(h@, p@),
                    None => r == Err::<String, HomeNotFound>(HomeNotFound),
                },
            },
    {
        match self {
            UserPathBuf::Absolute(p) => Ok(p.clone()),
            UserPathBuf::Home(p) => match home {
                Some(h) => Ok(join_path(h, p.as_str())),
                None => Err(HomeNotFound),
            },
        }
    }

    /// The path, a relative one resolved against the user's home directory
    /// as it is at this call; it is not remembered.
    pub fn expand_user(&self) -> (r: Result<String, HomeNotFound>)
        ensures
            self is Absolute ==> r is Ok && r->Ok_0@ == self.text(),
            self is Home && r is Ok ==> exists|h: Seq<char>| r->Ok_0@ == joined_path(h, self.text()),
    {
        match self {
            UserPathBuf::Absolute(_) => self.expand_with_home(None),
            UserPathBuf::Home(_) => {
                let home = home_dir();
                match home {
                    Some(h) => {
                        let r = self.expand_with_home(Some(h.as_str()));
                        assert(r->Ok_0@ == joined_path(h@, self.text()));
                        r
                    },
                    None => self.expand_with_home(None),
                }
            },
        }
    }
}

} // verus!
