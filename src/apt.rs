//! Packages on Debian and its derivatives, managed through apt.
use vstd::prelude::*;
use crate::text::{chars_of, lines, split_lines};

verus! {

/// The packages are installed by apt.
#[derive(Clone)]
pub struct AptInstalled {
    pub packages: Vec<&'static str>,
}

/// The packages are not installed.
#[derive(Clone)]
pub struct AptRemoved {
    pub packages: Vec<&'static str>,
}

/// One package is installed.
pub fn installed(package: &'static str) -> (r: AptInstalled)
    ensures
        r.packages@ == seq![package],
{
    let ps = [package];
    let r = installed_all(&ps);
    assert(r.packages@ =~= seq![package]);
    r
}

/// All of `packages` are installed.
pub fn installed_all(packages: &[&'static str]) -> (r: AptInstalled)
    ensures
        r.packages@ == packages@,
{
    AptInstalled { packages: vstd::slice::slice_to_vec(packages) }
}

/// One package is not installed.
pub fn removed(package: &'static str) -> (r: AptRemoved)
    ensures
        r.packages@ == seq![package],
{
    let ps = [package];
    let r = removed_all(&ps);
    assert(r.packages@ =~= seq![package]);
    r
}

/// None of `packages` is installed.
pub fn removed_all(packages: &[&'static str]) -> (r: AptRemoved)
    ensures
        r.packages@ == packages@,
{
    AptRemoved { packages: vstd::slice::slice_to_vec(packages) }
}

/// `pat` occurs in `s`.
pub open spec fn occurs_in(pat: Seq<char>, s: Seq<char>) -> bool {
    exists|i: int| 0 <= i <= s.len() - pat.len() && #[trigger] s.subrange(i, i + pat.len()) == pat
}

/// Whether `pat` occurs in `s`.
pub fn occurs(pat: &[char], s: &[char]) -> (r: bool)
    ensures
        r == occurs_in(pat@, s@),
{
    let slen = s.len();
    if pat.len() > slen {
        return false;
    }
    let mut i: usize = 0;
    while i <= s.len() - pat.len()
        invariant
            pat@.len() <= s@.len(),
            slen == s@.len(),
            i <= s@.len() - pat@.len() + 1,
            forall|j: int| 0 <= j < i ==> #[trigger] s@.subrange(j, j + pat@.len()) != pat@,
        decreases s.len() - pat.len() + 1 - i,
    {
        let mut k: usize = 0;
        let mut same = true;
        while k < pat.len()
            invariant
                pat@.len() <= s@.len(),
                i <= s@.len() - pat@.len(),
                i + pat@.len() <= s@.len(),
                slen == s@.len(),
                k <= pat@.len(),
                same == (forall|m: int| 0 <= m < k ==> s@[i + m] == pat@[m]),
            decreases pat.len() - k,
        {
            if s[i + k] != pat[k] {
                same = false;
            }
            k = k + 1;
        }
        if same {
            assert(s@.subrange(i as int, i + pat@.len()) =~= pat@);
            return true;
        }
        proof {
            if s@.subrange(i as int, i + pat@.len()) == pat@ {
                assert forall|m: int| 0 <= m < pat@.len() implies s@[i + m] == pat@[m] by {
                    assert(s@.subrange(i as int, i + pat@.len())[m] == s@[i + m]);
                }
            }
        }
        i = i + 1;
    }
    false
}

/// What a line of `apt-cache policy` says of a package: not installed when
/// it reads `Installed: (none)`, installed when it reads `Installed: `
/// otherwise, nothing when it reads neither.
pub open spec fn policy_mark(line: Seq<char>) -> Option<bool> {
    if occurs_in("Installed: (none)"@, line) {
        Some(false)
    } else if occurs_in("Installed: "@, line) {
        Some(true)
    } else {
        None
    }
}

/// What the lines of `apt-cache policy` say, one mark per line that says
/// something.
pub open spec fn policy_marks(ls: Seq<Seq<char>>) -> Seq<bool>
    decreases ls.len(),
{
    if ls.len() == 0 {
        seq![]
    } else {
        let m = policy_marks(ls.drop_last());
        match policy_mark(ls.last()) {
            Some(b) => m.push(b),
            None => m,
        }
    }
}

/// The output of `apt-cache policy` for `n` packages says that each is
/// installed: one mark per package, and every mark says installed.
pub open spec fn policy_all_installed(out: Seq<char>, n: nat) -> bool {
    let marks = policy_marks(lines(out));
    marks.len() == n && forall|i: int| 0 <= i < marks.len() ==> marks[i]
}

impl AptInstalled {
    /// Whether the output of `apt-cache policy` for the packages says that all
    /// of them are installed.
    pub fn policy_satisfied(&self, out: &[char]) -> (r: bool)
        ensures
            r == policy_all_installed(out@, self.packages@.len()),
    {
        let none = chars_of("Installed: (none)");
        let some = chars_of("Installed: ");
        let ls = split_lines(out);
        let ghost l = ls.deep_view();
        let mut count: usize = 0;
        let mut all = true;
        let mut i: usize = 0;
        while i < ls.len()
            invariant
                l == ls.deep_view(),
                l == lines(out@),
                none@ == "Installed: (none)"@,
                some@ == "Installed: "@,
                i <= l.len(),
                count == policy_marks(l.subrange(0, i as int)).len(),
                count <= i,
                all == (forall|j: int|
                    0 <= j < count ==> policy_marks(l.subrange(0, i as int))[j]),
            decreases ls.len() - i,
        {
            let line = ls[i].as_slice();
            assert(line@ == l[i as int]);
            let ghost before = policy_marks(l.subrange(0, i as int));
            proof {
                assert(l.subrange(0, i + 1).drop_last() =~= l.subrange(0, i as int));
            }
            if occurs(none.as_slice(), line) {
                count = count + 1;
                all = false;
                proof {
                    let after = policy_marks(l.subrange(0, i + 1));
                    assert(after == before.push(false));
                    assert(!after[count - 1]);
                }
            } else if occurs(some.as_slice(), line) {
                count = count + 1;
                proof {
                    let after = policy_marks(l.subrange(0, i + 1));
                    assert(after == before.push(true));
                    assert forall|j: int| 0 <= j < count - 1 implies after[j] == before[j] by {}
                }
            } else {
                proof {
                    assert(policy_marks(l.subrange(0, i + 1)) == before);
                }
            }
            i = i + 1;
        }
        assert(l.subrange(0, l.len() as int) =~= l);
        all && count == self.packages.len()
    }
}

} // verus!
