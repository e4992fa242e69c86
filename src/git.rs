//! Global git configuration values.
use vstd::prelude::*;
use crate::text::chars_of;
use crate::text::chars_eq;

verus! {

/// A key of git's global configuration.
pub struct GitGlobalConfigKey {
    pub key: &'static str,
}

/// The key of git's global configuration has the value.
#[derive(Clone)]
pub struct GitGlobalConfig {
    pub key: &'static str,
    pub value: &'static str,
}

/// A key of git's global configuration.
pub fn global(key: &'static str) -> (r: GitGlobalConfigKey)
    ensures
        r.key == key,
{
    GitGlobalConfigKey { key }
}

impl GitGlobalConfigKey {
    /// The key has `value`.
    pub fn value(&self, value: &'static str) -> (r: GitGlobalConfig)
        ensures
            r.key == self.key,
            r.value == value,
    {
        GitGlobalConfig { key: self.key, value }
    }
}

/// What `std::str::from_utf8` decodes from the bytes, none when they are not
/// UTF-8.
pub uninterp spec fn utf8_text(b: Seq<u8>) -> Option<Seq<char>>;

/// Relies on std::str::from_utf8: the text that the bytes encode, if they
/// are UTF-8; no bytes decode to the empty text.
#[verifier::external_body]
fn decode_utf8(b: &[u8]) -> (r: Option<String>)
    ensures
        match r {
            Some(s) => utf8_text(b@) == Some(s@),
            None => utf8_text(b@) is None,
        },
        b@.len() == 0 ==> r is Some && r->0@.len() == 0,
{
    match std::str::from_utf8(b) {
        Ok(s) => Some(s.to_string()),
        Err(_) => None,
    }
}

/// The bytes that `git config --null` printed, without the final NUL.
pub open spec fn without_nul(out: Seq<u8>) -> Seq<u8> {
    if out.len() > 0 && out.last() == 0 {
        out.drop_last()
    } else {
        out
    }
}

/// The output is not UTF-8.
#[derive(Debug, Clone, Copy, PartialEq, Eq, Structural)]
pub struct InvalidData;

impl GitGlobalConfig {
    /// Whether `text`, the value that git reported, is the wanted value.
    pub fn matches_text(&self, text: &str) -> (r: bool)
        ensures
            r == (text@ == self.value@),
    {
        let a = chars_of(text);
        let b = chars_of(self.value);
        chars_eq(a.as_slice(), b.as_slice())
    }

    /// Whether the output of `git config --null --global <key>` shows the
    /// wanted value: its final NUL dropped, it must be UTF-8 text equal to the
    /// value.
    pub fn matches_output(&self, out: &[u8]) -> (r: Result<bool, InvalidData>)
        ensures
            r == match utf8_text(without_nul(out@)) {
                Some(t) => Ok(t == self.value@),
                None => Err(InvalidData),
            },
    {
        let n = out.len();
        let body = if n > 0 && out[n - 1] == 0 {
            &out[0..n - 1]
        } else {
            out
        };
        assert(body@ =~= without_nul(out@));
        match decode_utf8(body) {
            Some(s) => Ok(self.matches_text(s.as_str())),
            None => Err(InvalidData),
        }
    }
}

} // verus!
