//! Setting values in configuration files made of `key = value` lines, with
//! a comment character and an assignment character of the caller's choice.
use vstd::prelude::*;
use crate::text::{
    char_pos, chars_eq, chars_of, find_char, lemma_char_pos, lemma_lines_append_line,
    lemma_lines_no_newline, lemma_trimmed_end, lines, push_all, split_lines, strip_cr, trim,
    trim_chars,
};
use crate::user_path::UserPathBuf;

verus! {

/// A configuration file and its syntax.
#[derive(Clone)]
pub struct ConfFile {
    pub path: UserPathBuf,
    pub comment: char,
    pub equal: char,
}

/// Values that a configuration file must assign, each key once.
#[derive(Clone)]
pub struct ConfFileAssignments {
    file: ConfFile,
    assignments: Vec<(Vec<char>, Vec<char>)>,
}

/// The syntax `# comment` and `key = value`.
pub fn classic_syntax(file: &str) -> (r: ConfFile)
    ensures
        r.path.text() == file@,
        r.path.is_home() == !crate::user_path::is_absolute(file@),
        r.comment == '#',
        r.equal == '=',
{
    with_syntax(file, '#', '=')
}

/// A file whose lines assign with `equal` and start comments with `comment`.
pub fn with_syntax(file: &str, comment: char, equal: char) -> (r: ConfFile)
    ensures
        r.path.text() == file@,
        r.path.is_home() == !crate::user_path::is_absolute(file@),
        r.comment == comment,
        r.equal == equal,
{
    ConfFile { path: UserPathBuf::new(file), comment, equal }
}

/// A file whose lines assign with `equal` and start comments with `comment`.
pub fn conf_file(file: &str, comment: char, equal: char) -> (r: ConfFile)
    ensures
        r.path.text() == file@,
        r.path.is_home() == !crate::user_path::is_absolute(file@),
        r.comment == comment,
        r.equal == equal,
{
    with_syntax(file, comment, equal)
}

/// The key and value that a line assigns: the text before the first comment
/// character, split at its first assignment character, each side trimmed;
/// none when that text holds no assignment character.
pub open spec fn parse_line(line: Seq<char>, comment: char, equal: char) -> Option<
    (Seq<char>, Seq<char>),
> {
    let code = line.subrange(0, char_pos(line, comment));
    let e = char_pos(code, equal);
    if e < code.len() {
        Some((trim(code.subrange(0, e)), trim(code.subrange(e + 1, code.len() as int))))
    } else {
        None
    }
}

/// The key and value that a line assigns, if any.
pub fn line_key_value(line: &[char], comment: char, equal: char) -> (r: Option<
    (Vec<char>, Vec<char>),
>)
    ensures
        match r {
            None => parse_line(line@, comment, equal) is None,
            Some((k, v)) => parse_line(line@, comment, equal) == Some((k@, v@)),
        },
{
    let c = find_char(line, comment);
    let code = &line[0..c];
    let e = find_char(code, equal);
    if e == code.len() {
        return None;
    }
    let key = trim_chars(&code[0..e]);
    let value = trim_chars(&code[e + 1..code.len()]);
    Some((key, value))
}

/// The value that `pairs` gives to `key`: that of its last pair with that key.
pub open spec fn value_for(pairs: Seq<(Seq<char>, Seq<char>)>, key: Seq<char>) -> Option<
    Seq<char>,
>
    decreases pairs.len(),
{
    if pairs.len() == 0 {
        None
    } else if pairs.last().0 == key {
        Some(pairs.last().1)
    } else {
        value_for(pairs.drop_last(), key)
    }
}

/// No key stands twice in `pairs`.
pub open spec fn keys_unique(pairs: Seq<(Seq<char>, Seq<char>)>) -> bool {
    forall|i: int, j: int| 0 <= i < j < pairs.len() ==> pairs[i].0 != pairs[j].0
}

/// Some line of `ls` assigns to `key`, whatever the value.
pub open spec fn key_in_lines(ls: Seq<Seq<char>>, key: Seq<char>, comment: char, equal: char) -> bool {
    exists|i: int| 0 <= i < ls.len() && #[trigger] assigns_key(ls[i], key, comment, equal)
}

/// The line assigns no required key another value than the required one.
pub open spec fn line_agrees(
    line: Seq<char>,
    pairs: Seq<(Seq<char>, Seq<char>)>,
    comment: char,
    equal: char,
) -> bool {
    match parse_line(line, comment, equal) {
        Some((k, v)) => value_for(pairs, k) is Some ==> value_for(pairs, k) == Some(v),
        None => true,
    }
}

/// Whether the line assigns `key`.
pub open spec fn assigns_key(line: Seq<char>, key: Seq<char>, comment: char, equal: char) -> bool {
    match parse_line(line, comment, equal) {
        Some((k, _)) => k == key,
        None => false,
    }
}

/// The lines `ls` assign every key of `pairs` its value, and no line assigns
/// one of those keys another value.
pub open spec fn conf_satisfied(
    ls: Seq<Seq<char>>,
    pairs: Seq<(Seq<char>, Seq<char>)>,
    comment: char,
    equal: char,
) -> bool {
    &&& forall|i: int| 0 <= i < ls.len() ==> #[trigger] line_agrees(ls[i], pairs, comment, equal)
    &&& forall|j: int| 0 <= j < pairs.len() ==> key_in_lines(ls, #[trigger] pairs[j].0, comment, equal)
}

/// The line `key<equal>value` with its line feed.
pub open spec fn assignment_line(key: Seq<char>, equal: char, value: Seq<char>) -> Seq<char> {
    key + seq![equal] + value + seq!['\n']
}

/// A line as the editor writes it back: replaced by `key<equal>value` when
/// it assigns a required key another value, else kept as it is.
pub open spec fn rewrite_line(
    line: Seq<char>,
    pairs: Seq<(Seq<char>, Seq<char>)>,
    comment: char,
    equal: char,
) -> Seq<char> {
    match parse_line(line, comment, equal) {
        Some((k, v)) => match value_for(pairs, k) {
            Some(w) => if w != v {
                assignment_line(k, equal, w)
            } else {
                line + seq!['\n']
            },
            None => line + seq!['\n'],
        },
        None => line + seq!['\n'],
    }
}

/// All lines of `ls`, each written back by `rewrite_line`.
pub open spec fn rewritten(
    ls: Seq<Seq<char>>,
    pairs: Seq<(Seq<char>, Seq<char>)>,
    comment: char,
    equal: char,
) -> Seq<char>
    decreases ls.len(),
{
    if ls.len() == 0 {
        seq![]
    } else {
        rewritten(ls.drop_last(), pairs, comment, equal) + rewrite_line(
            ls.last(),
            pairs,
            comment,
            equal,
        )
    }
}

/// The lines added for the keys of `pairs` that no line of `ls` assigns, in
/// the order of `pairs`.
pub open spec fn added(
    ls: Seq<Seq<char>>,
    pairs: Seq<(Seq<char>, Seq<char>)>,
    comment: char,
    equal: char,
) -> Seq<char>
    decreases pairs.len(),
{
    if pairs.len() == 0 {
        seq![]
    } else {
        let (k, v) = pairs.last();
        added(ls, pairs.drop_last(), comment, equal) + if key_in_lines(ls, k, comment, equal) {
            Seq::<char>::empty()
        } else {
            assignment_line(k, equal, v)
        }
    }
}

/// The whole text written back for `content`.
pub open spec fn conf_applied(
    content: Seq<char>,
    pairs: Seq<(Seq<char>, Seq<char>)>,
    comment: char,
    equal: char,
) -> Seq<char> {
    rewritten(lines(content), pairs, comment, equal) + added(lines(content), pairs, comment, equal)
}

impl ConfFile {
    /// The file must assign `value` to `key`.
    pub fn value_set(self, assignment: (&str, &str)) -> (r: ConfFileAssignments)
        ensures
            r.wf(),
            r.conf() == self,
            forall|k: Seq<char>| #[trigger]
                value_for(r.pairs(), k) == if k == assignment.0@ {
                    Some(assignment.1@)
                } else {
                    None
                },
    {
        let v = vec![assignment];
        let r = self.values_set(v);
        proof {
            let s = seq![(assignment.0@, assignment.1@)];
            assert(given_pairs(v@) =~= s);
            assert(s.drop_last() =~= Seq::<(Seq<char>, Seq<char>)>::empty());
            assert forall|k: Seq<char>| #[trigger]
                value_for(r.pairs(), k) == if k == assignment.0@ {
                    Some(assignment.1@)
                } else {
                    None
                } by {
                assert(value_for(r.pairs(), k) == value_for(given_pairs(v@), k));
                assert(value_for(s.drop_last(), k) is None);
            }
        }
        r
    }

    /// The file must make these assignments; where a key is given twice, the
    /// last value counts.
    pub fn values_set(self, lines: Vec<(&str, &str)>) -> (r: ConfFileAssignments)
        ensures
            r.wf(),
            r.conf() == self,
            forall|k: Seq<char>| #[trigger]
                value_for(r.pairs(), k) == value_for(given_pairs(lines@), k),
    {
        let mut assignments: Vec<(Vec<char>, Vec<char>)> = Vec::new();
        let mut i: usize = 0;
        while i < lines.len()
            invariant
                i <= lines@.len(),
                keys_unique(assignments.deep_view()),
                forall|k: Seq<char>| #[trigger]
                    value_for(assignments.deep_view(), k) == value_for(
                        given_pairs(lines@.subrange(0, i as int)),
                        k,
                    ),
            decreases lines.len() - i,
        {
            let (k, v) = lines[i];
            let key = chars_of(k);
            let value = chars_of(v);
            let ghost before = assignments.deep_view();
            let found = position_of_key(&assignments, &key);
            proof {
                assert(key.deep_view() =~= key@);
                assert(value.deep_view() =~= value@);
            }
            match found {
                Some(j) => {
                    assignments.set(j, (key, value));
                    proof {
                        lemma_value_for_replace(before, j as int, k@, v@);
                        assert(assignments.deep_view() =~= before.update(j as int, (k@, v@)));
                    }
                },
                None => {
                    assignments.push((key, value));
                    proof {
                        assert(assignments.deep_view() =~= before.push((k@, v@)));
                        assert(before.push((k@, v@)).drop_last() =~= before);
                        assert forall|a: int, b: int|
                            0 <= a < b < assignments@.len() implies assignments.deep_view()[a].0
                            != assignments.deep_view()[b].0 by {
                            if b < before.len() {
                                assert(assignments.deep_view()[a] == before[a]);
                                assert(assignments.deep_view()[b] == before[b]);
                            } else {
                                assert(assignments.deep_view()[a] == before[a]);
                            }
                        }
                    }
                },
            }
            proof {
                let s = given_pairs(lines@.subrange(0, i + 1));
                assert(lines@.subrange(0, i + 1).drop_last() =~= lines@.subrange(0, i as int));
                assert(s.drop_last() =~= given_pairs(lines@.subrange(0, i as int)));
            }
            i = i + 1;
        }
        assert(lines@.subrange(0, lines@.len() as int) =~= lines@);
        ConfFileAssignments { file: self, assignments }
    }
}

/// The pairs of `lines` as character sequences.
pub open spec fn given_pairs(lines: Seq<(&str, &str)>) -> Seq<(Seq<char>, Seq<char>)> {
    lines.map_values(|p: (&str, &str)| (p.0@, p.1@))
}

/// Replacing the value of the only pair with a key gives that key the new
/// value and leaves the others.
proof fn lemma_value_for_replace(
    pairs: Seq<(Seq<char>, Seq<char>)>,
    j: int,
    key: Seq<char>,
    value: Seq<char>,
)
    requires
        keys_unique(pairs),
        0 <= j < pairs.len(),
        pairs[j].0 == key,
    ensures
        keys_unique(pairs.update(j, (key, value))),
        forall|k: Seq<char>| #[trigger]
            value_for(pairs.update(j, (key, value)), k) == if k == key {
                Some(value)
            } else {
                value_for(pairs, k)
            },
    decreases pairs.len(),
{
    let u = pairs.update(j, (key, value));
    assert forall|i: int| 0 <= i < pairs.len() implies #[trigger] u[i].0 == pairs[i].0 by {}
    if pairs.len() > 1 {
        assert forall|a: int, b: int| 0 <= a < b < pairs.len() - 1 implies pairs.drop_last()[a].0
            != pairs.drop_last()[b].0 by {
            assert(pairs.drop_last()[a] == pairs[a]);
            assert(pairs.drop_last()[b] == pairs[b]);
        }
    }
    assert forall|k: Seq<char>| #[trigger]
        value_for(u, k) == if k == key {
            Some(value)
        } else {
            value_for(pairs, k)
        } by {
        if j == pairs.len() - 1 {
            assert(u.last() == (key, value));
            assert(pairs.last().0 == key);
            assert(u.drop_last() =~= pairs.drop_last());
            if k != key {
                assert(value_for(u, k) == value_for(u.drop_last(), k));
                assert(value_for(pairs, k) == value_for(pairs.drop_last(), k));
            }
        } else {
            assert(u.last() == pairs.last());
            assert(pairs[j].0 != pairs[pairs.len() - 1].0);
            lemma_value_for_replace(pairs.drop_last(), j, key, value);
            assert(u.drop_last() =~= pairs.drop_last().update(j, (key, value)));
        }
    }
}

/// The index of the pair with key `key`, if any.
fn position_of_key(pairs: &Vec<(Vec<char>, Vec<char>)>, key: &Vec<char>) -> (r: Option<usize>)
    requires
        keys_unique(pairs.deep_view()),
    ensures
        match r {
            Some(j) => j < pairs@.len() && pairs.deep_view()[j as int].0 == key@ && value_for(
                pairs.deep_view(),
                key@,
            ) == Some(pairs.deep_view()[j as int].1),
            None => value_for(pairs.deep_view(), key@) is None && forall|j: int|
                0 <= j < pairs@.len() ==> pairs.deep_view()[j].0 != key@,
        },
{
    let ghost d = pairs.deep_view();
    let mut i: usize = 0;
    while i < pairs.len()
        invariant
            d == pairs.deep_view(),
            keys_unique(d),
            i <= pairs@.len(),
            forall|j: int| 0 <= j < i ==> d[j].0 != key@,
        decreases pairs.len() - i,
    {
        if chars_eq(pairs[i].0.as_slice(), key.as_slice()) {
            proof {
                assert(d[i as int].0 == pairs@[i as int].0@);
                lemma_value_for_unique(d, i as int);
            }
            return Some(i);
        }
        proof {
            assert(d[i as int].0 == pairs@[i as int].0@);
        }
        i = i + 1;
    }
    proof {
        lemma_value_for_absent(d, key@);
    }
    None
}

/// In pairs with unique keys, a key's value is that of its pair.
pub proof fn lemma_value_for_unique(pairs: Seq<(Seq<char>, Seq<char>)>, j: int)
    requires
        keys_unique(pairs),
        0 <= j < pairs.len(),
    ensures
        value_for(pairs, pairs[j].0) == Some(pairs[j].1),
    decreases pairs.len(),
{
    if j < pairs.len() - 1 {
        lemma_value_for_unique(pairs.drop_last(), j);
    }
}

/// A key that no pair holds has no value.
pub proof fn lemma_value_for_absent(pairs: Seq<(Seq<char>, Seq<char>)>, key: Seq<char>)
    requires
        forall|j: int| 0 <= j < pairs.len() ==> pairs[j].0 != key,
    ensures
        value_for(pairs, key) is None,
    decreases pairs.len(),
{
    if pairs.len() > 0 {
        lemma_value_for_absent(pairs.drop_last(), key);
    }
}

impl ConfFileAssignments {
    /// The required assignments, in order.
    pub closed spec fn pairs(&self) -> Seq<(Seq<char>, Seq<char>)> {
        self.assignments.deep_view()
    }

    /// The file and its syntax.
    pub closed spec fn conf(&self) -> ConfFile {
        self.file
    }

    /// The file and its syntax.
    pub fn file(&self) -> (r: &ConfFile)
        ensures
            *r == self.conf(),
    {
        &self.file
    }

    /// The number of required keys.
    pub fn len(&self) -> (r: usize)
        ensures
            r == self.pairs().len(),
    {
        self.assignments.len()
    }

    /// Each key is required once.
    pub closed spec fn wf(&self) -> bool {
        keys_unique(self.assignments.deep_view())
    }
}

/// One more line assigns `key` exactly when the new line does or an
/// earlier one did.
proof fn lemma_key_in_lines_step(
    ls: Seq<Seq<char>>,
    i: int,
    key: Seq<char>,
    comment: char,
    equal: char,
)
    requires
        0 <= i < ls.len(),
    ensures
        key_in_lines(ls.subrange(0, i + 1), key, comment, equal) == (key_in_lines(
            ls.subrange(0, i),
            key,
            comment,
            equal,
        ) || assigns_key(ls[i], key, comment, equal)),
{
    let a = ls.subrange(0, i);
    let b = ls.subrange(0, i + 1);
    if key_in_lines(b, key, comment, equal) {
        let w = choose|w: int| 0 <= w < b.len() && #[trigger] assigns_key(b[w], key, comment, equal);
        if w < i {
            assert(a[w] == b[w]);
        }
    }
    if key_in_lines(a, key, comment, equal) {
        let w = choose|w: int| 0 <= w < a.len() && #[trigger] assigns_key(a[w], key, comment, equal);
        assert(a[w] == b[w]);
    }
    if assigns_key(ls[i], key, comment, equal) {
        assert(b[i] == ls[i]);
    }
}

/// The pair at `j` is the one whose key the line assigns, if any.
proof fn lemma_assigns_which(
    line: Seq<char>,
    pairs: Seq<(Seq<char>, Seq<char>)>,
    found: Option<usize>,
    comment: char,
    equal: char,
    j2: int,
)
    requires
        keys_unique(pairs),
        0 <= j2 < pairs.len(),
        match parse_line(line, comment, equal) {
            Some((k, _)) => match found {
                Some(j) => j < pairs.len() && pairs[j as int].0 == k,
                None => forall|j: int| 0 <= j < pairs.len() ==> pairs[j].0 != k,
            },
            None => true,
        },
    ensures
        assigns_key(line, pairs[j2].0, comment, equal) == (parse_line(line, comment, equal) is Some
            && match found {
            Some(j) => j as int == j2,
            None => false,
        }),
{
    match parse_line(line, comment, equal) {
        Some((k, _)) => match found {
            Some(j) => {
                if j2 < j {
                    assert(pairs[j2].0 != pairs[j as int].0);
                } else if j2 > j {
                    assert(pairs[j as int].0 != pairs[j2].0);
                }
            },
            None => {
                assert(pairs[j2].0 != k);
            },
        },
        None => {},
    }
}

impl ConfFileAssignments {
    /// Whether `content` already assigns every required key its value, with
    /// no line giving one of them another value.
    pub fn check_content(&self, content: &[char]) -> (r: bool)
        requires
            self.wf(),
        ensures
            r == conf_satisfied(lines(content@), self.pairs(), self.conf().comment, self.conf().equal),
    {
        let ls = split_lines(content);
        let ghost l = ls.deep_view();
        let ghost pairs = self.pairs();
        let comment = self.file.comment;
        let equal = self.file.equal;
        let n = self.assignments.len();
        let mut seen: Vec<bool> = Vec::new();
        while seen.len() < n
            invariant
                seen@.len() <= n,
                forall|j: int| 0 <= j < seen@.len() ==> !seen@[j],
            decreases n - seen.len(),
        {
            seen.push(false);
        }
        let mut i: usize = 0;
        proof {
            assert forall|j: int| 0 <= j < n implies seen@[j] == key_in_lines(
                l.subrange(0, 0),
                #[trigger] pairs[j].0,
                comment,
                equal,
            ) by {}
        }
        while i < ls.len()
            invariant
                l == ls.deep_view(),
                l == lines(content@),
                pairs == self.pairs(),
                self.wf(),
                n == pairs.len(),
                comment == self.conf().comment,
                equal == self.conf().equal,
                i <= l.len(),
                seen@.len() == n,
                forall|i2: int| 0 <= i2 < i ==> #[trigger] line_agrees(l[i2], pairs, comment, equal),
                forall|j: int|
                    0 <= j < n ==> seen@[j] == key_in_lines(
                        l.subrange(0, i as int),
                        #[trigger] pairs[j].0,
                        comment,
                        equal,
                    ),
            decreases ls.len() - i,
        {
            let line = ls[i].as_slice();
            assert(line@ == l[i as int]);
            let parsed = line_key_value(line, comment, equal);
            let mut found: Option<usize> = None;
            if let Some((k, v)) = parsed {
                found = position_of_key(&self.assignments, &k);
                if let Some(j) = found {
                    if !chars_eq(v.as_slice(), self.assignments[j].1.as_slice()) {
                        proof {
                            assert(pairs[j as int].1 == self.assignments@[j as int].1@);
                            assert(!line_agrees(l[i as int], pairs, comment, equal));
                        }
                        return false;
                    }
                    proof {
                        assert(pairs[j as int].1 == self.assignments@[j as int].1@);
                    }
                    seen.set(j, true);
                }
            }
            proof {
                assert forall|j2: int| 0 <= j2 < n implies seen@[j2] == key_in_lines(
                    l.subrange(0, i + 1),
                    #[trigger] pairs[j2].0,
                    comment,
                    equal,
                ) by {
                    lemma_key_in_lines_step(l, i as int, pairs[j2].0, comment, equal);
                    lemma_assigns_which(l[i as int], pairs, found, comment, equal, j2);
                }
            }
            i = i + 1;
        }
        proof {
            assert(l.subrange(0, l.len() as int) =~= l);
        }
        let mut j: usize = 0;
        while j < n
            invariant
                l == lines(content@),
                pairs == self.pairs(),
                n == pairs.len(),
                comment == self.conf().comment,
                equal == self.conf().equal,
                seen@.len() == n,
                j <= n,
                forall|i2: int| 0 <= i2 < l.len() ==> #[trigger] line_agrees(l[i2], pairs, comment, equal),
                forall|j2: int|
                    0 <= j2 < n ==> seen@[j2] == key_in_lines(l, #[trigger] pairs[j2].0, comment, equal),
                forall|j2: int| 0 <= j2 < j ==> seen@[j2],
            decreases n - j,
        {
            if !seen[j] {
                proof {
                    assert(!key_in_lines(l, pairs[j as int].0, comment, equal));
                }
                return false;
            }
            j = j + 1;
        }
        true
    }

    /// The text to write back for `content`: each line that assigns a
    /// required key another value replaced by `key<equal>value`, every other
    /// line kept, each ended by a line feed; then a line for each required key
    /// that no line assigns, in the order the keys were given.
    pub fn apply_content(&self, content: &[char]) -> (r: Vec<char>)
        requires
            self.wf(),
        ensures
            r@ == conf_applied(content@, self.pairs(), self.conf().comment, self.conf().equal),
    {
        let ls = split_lines(content);
        let ghost l = ls.deep_view();
        let ghost pairs = self.pairs();
        let comment = self.file.comment;
        let equal = self.file.equal;
        let n = self.assignments.len();
        let mut seen: Vec<bool> = Vec::new();
        while seen.len() < n
            invariant
                seen@.len() <= n,
                forall|j: int| 0 <= j < seen@.len() ==> !seen@[j],
            decreases n - seen.len(),
        {
            seen.push(false);
        }
        let mut out: Vec<char> = Vec::new();
        let mut i: usize = 0;
        proof {
            assert forall|j: int| 0 <= j < n implies seen@[j] == key_in_lines(
                l.subrange(0, 0),
                #[trigger] pairs[j].0,
                comment,
                equal,
            ) by {}
            assert(out@ =~= rewritten(l.subrange(0, 0), pairs, comment, equal));
        }
        while i < ls.len()
            invariant
                l == ls.deep_view(),
                l == lines(content@),
                pairs == self.pairs(),
                self.wf(),
                n == pairs.len(),
                comment == self.conf().comment,
                equal == self.conf().equal,
                i <= l.len(),
                seen@.len() == n,
                out@ == rewritten(l.subrange(0, i as int), pairs, comment, equal),
                forall|j: int|
                    0 <= j < n ==> seen@[j] == key_in_lines(
                        l.subrange(0, i as int),
                        #[trigger] pairs[j].0,
                        comment,
                        equal,
                    ),
            decreases ls.len() - i,
        {
            let line = ls[i].as_slice();
            assert(line@ == l[i as int]);
            let ghost before = out@;
            let parsed = line_key_value(line, comment, equal);
            let mut found: Option<usize> = None;
            let mut replaced = false;
            if let Some((k, v)) = parsed {
                found = position_of_key(&self.assignments, &k);
                if let Some(j) = found {
                    seen.set(j, true);
                    let w = self.assignments[j].1.as_slice();
                    proof {
                        assert(pairs[j as int].1 == w@);
                    }
                    if !chars_eq(v.as_slice(), w) {
                        push_all(&mut out, k.as_slice());
                        out.push(equal);
                        push_all(&mut out, w);
                        out.push('\n');
                        replaced = true;
                        proof {
                            assert(out@ =~= before + assignment_line(k@, equal, w@));
                        }
                    }
                }
            }
            if !replaced {
                push_all(&mut out, line);
                out.push('\n');
                assert(out@ =~= before + (line@ + seq!['\n']));
            }
            proof {
                assert(out@ =~= before + rewrite_line(l[i as int], pairs, comment, equal));
                assert(l.subrange(0, i + 1).drop_last() =~= l.subrange(0, i as int));
                assert forall|j2: int| 0 <= j2 < n implies seen@[j2] == key_in_lines(
                    l.subrange(0, i + 1),
                    #[trigger] pairs[j2].0,
                    comment,
                    equal,
                ) by {
                    lemma_key_in_lines_step(l, i as int, pairs[j2].0, comment, equal);
                    lemma_assigns_which(l[i as int], pairs, found, comment, equal, j2);
                }
            }
            i = i + 1;
        }
        proof {
            assert(l.subrange(0, l.len() as int) =~= l);
            assert(added(l, pairs.subrange(0, 0), comment, equal) =~= Seq::<char>::empty());
            assert(out@ =~= rewritten(l, pairs, comment, equal) + added(
                l,
                pairs.subrange(0, 0),
                comment,
                equal,
            ));
        }
        let mut j: usize = 0;
        while j < n
            invariant
                l == lines(content@),
                pairs == self.pairs(),
                n == pairs.len(),
                comment == self.conf().comment,
                equal == self.conf().equal,
                seen@.len() == n,
                j <= n,
                forall|j2: int|
                    0 <= j2 < n ==> seen@[j2] == key_in_lines(l, #[trigger] pairs[j2].0, comment, equal),
                out@ == rewritten(l, pairs, comment, equal) + added(
                    l,
                    pairs.subrange(0, j as int),
                    comment,
                    equal,
                ),
            decreases n - j,
        {
            let ghost before = out@;
            let k = self.assignments[j].0.as_slice();
            let w = self.assignments[j].1.as_slice();
            proof {
                assert(pairs[j as int] == (k@, w@));
                assert(pairs.subrange(0, j + 1).drop_last() =~= pairs.subrange(0, j as int));
            }
            if !seen[j] {
                push_all(&mut out, k);
                out.push(equal);
                push_all(&mut out, w);
                out.push('\n');
                assert(out@ =~= before + assignment_line(k@, equal, w@));
            } else {
                assert(out@ =~= before + Seq::<char>::empty());
            }
            j = j + 1;
        }
        assert(pairs.subrange(0, n as int) =~= pairs);
        out
    }
}

/// Keys and values that read back as they are written: no line feed, no
/// comment character, no assignment character in a key, no white space at
/// either end.
pub open spec fn clean_pairs(pairs: Seq<(Seq<char>, Seq<char>)>, comment: char, equal: char) -> bool {
    forall|j: int|
        0 <= j < pairs.len() ==> {
            let (k, v) = #[trigger] pairs[j];
            &&& !k.contains('\n')
            &&& !v.contains('\n')
            &&& !k.contains(comment)
            &&& !v.contains(comment)
            &&& !k.contains(equal)
            &&& trim(k) == k
            &&& trim(v) == v
        }
}

/// A line as the editor writes it back, without its line feed.
pub open spec fn rewrite_text(
    line: Seq<char>,
    pairs: Seq<(Seq<char>, Seq<char>)>,
    comment: char,
    equal: char,
) -> Seq<char> {
    match parse_line(line, comment, equal) {
        Some((k, v)) => match value_for(pairs, k) {
            Some(w) => if w != v {
                k + seq![equal] + w
            } else {
                line
            },
            None => line,
        },
        None => line,
    }
}

/// The lines that `added` writes, without their line feeds.
pub open spec fn added_lines(
    ls: Seq<Seq<char>>,
    pairs: Seq<(Seq<char>, Seq<char>)>,
    comment: char,
    equal: char,
) -> Seq<Seq<char>>
    decreases pairs.len(),
{
    if pairs.len() == 0 {
        seq![]
    } else {
        let (k, v) = pairs.last();
        let m = added_lines(ls, pairs.drop_last(), comment, equal);
        if key_in_lines(ls, k, comment, equal) {
            m
        } else {
            m.push(k + seq![equal] + v)
        }
    }
}

/// A value that `pairs` gives comes from one of its pairs.
proof fn lemma_value_for_some(pairs: Seq<(Seq<char>, Seq<char>)>, key: Seq<char>)
    requires
        value_for(pairs, key) is Some,
    ensures
        exists|j: int|
            0 <= j < pairs.len() && #[trigger] pairs[j] == (key, value_for(pairs, key)->0),
    decreases pairs.len(),
{
    if pairs.last().0 == key {
        assert(pairs[pairs.len() - 1] == (key, value_for(pairs, key)->0));
    } else {
        lemma_value_for_some(pairs.drop_last(), key);
        let j = choose|j: int|
            0 <= j < pairs.drop_last().len() && #[trigger] pairs.drop_last()[j] == (
                key,
                value_for(pairs.drop_last(), key)->0,
            );
        assert(pairs[j] == pairs.drop_last()[j]);
    }
}

/// An assignment line of a clean pair reads back as that pair.
proof fn lemma_assignment_parses(k: Seq<char>, w: Seq<char>, comment: char, equal: char)
    requires
        !k.contains('\n'),
        !w.contains('\n'),
        !k.contains(comment),
        !w.contains(comment),
        !k.contains(equal),
        trim(k) == k,
        trim(w) == w,
        comment != equal,
        equal != '\n',
        equal != '\r',
    ensures
        parse_line(k + seq![equal] + w, comment, equal) == Some((k, w)),
        strip_cr(k + seq![equal] + w) == k + seq![equal] + w,
        !(k + seq![equal] + w).contains('\n'),
{
    let t = k + seq![equal] + w;
    let n = k.len() as int;
    assert forall|i: int| 0 <= i < t.len() implies t[i] != comment && t[i] != '\n' by {
        if i < n {
            assert(t[i] == k[i]);
        } else if i > n {
            assert(t[i] == w[i - n - 1]);
        }
    }
    lemma_char_pos(t, comment, t.len() as int);
    assert(t.subrange(0, t.len() as int) =~= t);
    assert forall|i: int| 0 <= i < n implies t[i] != equal by {
        assert(t[i] == k[i]);
    }
    lemma_char_pos(t, equal, n);
    assert(t.subrange(0, n) =~= k);
    assert(t.subrange(n + 1, t.len() as int) =~= w);
    if w.len() > 0 {
        lemma_trimmed_end(w);
        assert(t.last() == w.last());
    }
}

/// The text written for the lines `ls` reads back as their written-back
/// texts, one per line.
proof fn lemma_rewritten_lines(
    ls: Seq<Seq<char>>,
    pairs: Seq<(Seq<char>, Seq<char>)>,
    comment: char,
    equal: char,
)
    requires
        forall|i: int| 0 <= i < ls.len() ==> !(#[trigger] ls[i]).contains('\n'),
        clean_pairs(pairs, comment, equal),
        comment != equal,
        equal != '\n',
        equal != '\r',
    ensures
        lines(rewritten(ls, pairs, comment, equal)) == Seq::new(
            ls.len(),
            |i: int| strip_cr(rewrite_text(ls[i], pairs, comment, equal)),
        ),
        rewritten(ls, pairs, comment, equal).len() == 0 || rewritten(
            ls,
            pairs,
            comment,
            equal,
        ).last() == '\n',
    decreases ls.len(),
{
    if ls.len() == 0 {
        assert(lines(Seq::<char>::empty()) =~= Seq::<Seq<char>>::empty());
        assert(Seq::new(
            ls.len(),
            |i: int| strip_cr(rewrite_text(ls[i], pairs, comment, equal)),
        ) =~= Seq::<Seq<char>>::empty());
    } else {
        let d = ls.drop_last();
        assert forall|i: int| 0 <= i < d.len() implies !(#[trigger] d[i]).contains('\n') by {
            assert(d[i] == ls[i]);
        }
        lemma_rewritten_lines(d, pairs, comment, equal);
        let l = ls.last();
        assert(!ls[ls.len() - 1].contains('\n'));
        let x = rewrite_text(l, pairs, comment, equal);
        match parse_line(l, comment, equal) {
            Some((k, v)) => match value_for(pairs, k) {
                Some(w) => if w != v {
                    lemma_value_for_some(pairs, k);
                    let j = choose|j: int| 0 <= j < pairs.len() && #[trigger] pairs[j] == (k, w);
                    assert(pairs[j] == (k, w));
                    lemma_assignment_parses(k, w, comment, equal);
                    assert(rewrite_line(l, pairs, comment, equal) =~= x + seq!['\n']);
                } else {
                    assert(rewrite_line(l, pairs, comment, equal) =~= x + seq!['\n']);
                },
                None => {
                    assert(rewrite_line(l, pairs, comment, equal) =~= x + seq!['\n']);
                },
            },
            None => {
                assert(rewrite_line(l, pairs, comment, equal) =~= x + seq!['\n']);
            },
        }
        let r0 = rewritten(d, pairs, comment, equal);
        assert(rewritten(ls, pairs, comment, equal) =~= r0 + x + seq!['\n']);
        lemma_lines_append_line(r0, x);
        assert(lines(rewritten(ls, pairs, comment, equal)) =~= Seq::new(
            ls.len(),
            |i: int| strip_cr(rewrite_text(ls[i], pairs, comment, equal)),
        ));
    }
}

/// The text added after `r` reads back as the added lines.
proof fn lemma_added_read(
    r: Seq<char>,
    ls: Seq<Seq<char>>,
    pairs: Seq<(Seq<char>, Seq<char>)>,
    comment: char,
    equal: char,
)
    requires
        r.len() == 0 || r.last() == '\n',
        clean_pairs(pairs, comment, equal),
        comment != equal,
        equal != '\n',
        equal != '\r',
    ensures
        lines(r + added(ls, pairs, comment, equal)) == lines(r) + added_lines(
            ls,
            pairs,
            comment,
            equal,
        ),
        (r + added(ls, pairs, comment, equal)).len() == 0 || (r + added(
            ls,
            pairs,
            comment,
            equal,
        )).last() == '\n',
        forall|m: int|
            0 <= m < added_lines(ls, pairs, comment, equal).len() ==> exists|j: int|
                0 <= j < pairs.len() && #[trigger] added_lines(ls, pairs, comment, equal)[m] == (
                pairs[j].0 + seq![equal] + pairs[j].1),
        forall|j: int|
            0 <= j < pairs.len() && !key_in_lines(ls, (#[trigger] pairs[j]).0, comment, equal)
                ==> added_lines(ls, pairs, comment, equal).contains(
                pairs[j].0 + seq![equal] + pairs[j].1,
            ),
    decreases pairs.len(),
{
    if pairs.len() == 0 {
        assert(r + added(ls, pairs, comment, equal) =~= r);
        assert(lines(r) + added_lines(ls, pairs, comment, equal) =~= lines(r));
    } else {
        let d = pairs.drop_last();
        assert forall|j: int| 0 <= j < d.len() implies {
            let (k, v) = #[trigger] d[j];
            &&& !k.contains('\n')
            &&& !v.contains('\n')
            &&& !k.contains(comment)
            &&& !v.contains(comment)
            &&& !k.contains(equal)
            &&& trim(k) == k
            &&& trim(v) == v
        } by {
            assert(d[j] == pairs[j]);
        }
        lemma_added_read(r, ls, d, comment, equal);
        let (k, v) = pairs.last();
        assert(pairs[pairs.len() - 1] == (k, v));
        let r0 = r + added(ls, d, comment, equal);
        let m0 = added_lines(ls, d, comment, equal);
        if key_in_lines(ls, k, comment, equal) {
            assert(r + added(ls, pairs, comment, equal) =~= r0);
        } else {
            lemma_assignment_parses(k, v, comment, equal);
            assert(r + added(ls, pairs, comment, equal) =~= r0 + (k + seq![equal] + v) + seq![
                '\n',
            ]);
            lemma_lines_append_line(r0, k + seq![equal] + v);
            assert(lines(r + added(ls, pairs, comment, equal)) =~= lines(r) + added_lines(
                ls,
                pairs,
                comment,
                equal,
            ));
        }
        let all = added_lines(ls, pairs, comment, equal);
        assert forall|m: int| 0 <= m < all.len() implies exists|j: int|
            0 <= j < pairs.len() && #[trigger] all[m] == (pairs[j].0 + seq![equal]
                + pairs[j].1) by {
            if m < m0.len() {
                assert(all[m] == m0[m]);
                let j = choose|j: int|
                    0 <= j < d.len() && #[trigger] m0[m] == (d[j].0 + seq![equal] + d[j].1);
                assert(d[j] == pairs[j]);
            } else {
                assert(all[m] == pairs[pairs.len() - 1].0 + seq![equal] + pairs[pairs.len()
                    - 1].1);
            }
        }
        assert forall|j: int|
            0 <= j < pairs.len() && !key_in_lines(
                ls,
                (#[trigger] pairs[j]).0,
                comment,
                equal,
            ) implies all.contains(pairs[j].0 + seq![equal] + pairs[j].1) by {
            if j < d.len() {
                assert(d[j] == pairs[j]);
                let t = pairs[j].0 + seq![equal] + pairs[j].1;
                assert(m0.contains(t));
                let q = choose|q: int| 0 <= q < m0.len() && m0[q] == t;
                assert(all[q] == m0[q]);
            } else {
                assert(all[m0.len() as int] == pairs[j].0 + seq![equal] + pairs[j].1);
            }
        }
    }
}

/// Once written back, a file passes the check: every required key is
/// assigned its value and no line assigns one another value. Left out are
/// the inputs on which the written text would read back otherwise: keys or
/// values with line feeds, comment characters, surrounding white space, or
/// (for keys) the assignment character; a comment character equal to the
/// assignment character, an assignment character that is a line feed or a
/// carriage return; and lines that end with a carriage return after reading,
/// which writing back would cut.
pub proof fn lemma_conf_converges(
    content: Seq<char>,
    pairs: Seq<(Seq<char>, Seq<char>)>,
    comment: char,
    equal: char,
)
    requires
        keys_unique(pairs),
        clean_pairs(pairs, comment, equal),
        comment != equal,
        equal != '\n',
        equal != '\r',
        forall|i: int|
            0 <= i < lines(content).len() ==> !(#[trigger] lines(content)[i].len() > 0 && lines(
                content,
            )[i].last() == '\r'),
    ensures
        conf_satisfied(lines(conf_applied(content, pairs, comment, equal)), pairs, comment, equal),
{
    let ls = lines(content);
    lemma_lines_no_newline(content);
    lemma_rewritten_lines(ls, pairs, comment, equal);
    let r = rewritten(ls, pairs, comment, equal);
    lemma_added_read(r, ls, pairs, comment, equal);
    let out = lines(conf_applied(content, pairs, comment, equal));
    let l1 = Seq::new(ls.len(), |i: int| strip_cr(rewrite_text(ls[i], pairs, comment, equal)));
    let l2 = added_lines(ls, pairs, comment, equal);
    assert(out == l1 + l2);
    // What each written line reads back as.
    assert forall|i: int| 0 <= i < ls.len() implies #[trigger] l1[i] == strip_cr(
        rewrite_text(ls[i], pairs, comment, equal),
    ) && line_agrees(l1[i], pairs, comment, equal) && match parse_line(ls[i], comment, equal) {
        Some((k, _)) => assigns_key(l1[i], k, comment, equal),
        None => true,
    } by {
        let l = ls[i];
        match parse_line(l, comment, equal) {
            Some((k, v)) => match value_for(pairs, k) {
                Some(w) => if w != v {
                    lemma_value_for_some(pairs, k);
                    let j = choose|j: int| 0 <= j < pairs.len() && #[trigger] pairs[j] == (k, w);
                    assert(pairs[j] == (k, w));
                    lemma_assignment_parses(k, w, comment, equal);
                } else {
                    assert(strip_cr(l) == l);
                },
                None => {
                    assert(strip_cr(l) == l);
                },
            },
            None => {
                assert(strip_cr(l) == l);
            },
        }
    }
    assert forall|i: int| 0 <= i < out.len() implies #[trigger] line_agrees(
        out[i],
        pairs,
        comment,
        equal,
    ) by {
        if i < ls.len() {
            assert(out[i] == l1[i]);
        } else {
            let m = i - ls.len();
            assert(out[i] == l2[m]);
            let j = choose|j: int|
                0 <= j < pairs.len() && #[trigger] l2[m] == (pairs[j].0 + seq![equal] + pairs[j].1);
            let (k, v) = pairs[j];
            lemma_assignment_parses(k, v, comment, equal);
            lemma_value_for_unique(pairs, j);
        }
    }
    assert forall|j: int| 0 <= j < pairs.len() implies key_in_lines(
        out,
        #[trigger] pairs[j].0,
        comment,
        equal,
    ) by {
        let (k, v) = pairs[j];
        if key_in_lines(ls, k, comment, equal) {
            let i = choose|i: int| 0 <= i < ls.len() && #[trigger] assigns_key(ls[i], k, comment, equal);
            assert(out[i] == l1[i]);
            assert(assigns_key(out[i], k, comment, equal));
        } else {
            let t = k + seq![equal] + v;
            assert(l2.contains(t));
            let m = choose|m: int| 0 <= m < l2.len() && l2[m] == t;
            lemma_assignment_parses(k, v, comment, equal);
            assert(out[ls.len() + m] == l2[m]);
            assert(assigns_key(out[ls.len() + m], k, comment, equal));
        }
    }
}

/// Texts each followed by a line feed, one after the other.
pub open spec fn with_newlines(xs: Seq<Seq<char>>) -> Seq<char>
    decreases xs.len(),
{
    if xs.len() == 0 {
        seq![]
    } else {
        with_newlines(xs.drop_last()) + xs.last() + seq!['\n']
    }
}

proof fn lemma_with_newlines_add(a: Seq<Seq<char>>, b: Seq<Seq<char>>)
    ensures
        with_newlines(a + b) == with_newlines(a) + with_newlines(b),
    decreases b.len(),
{
    if b.len() == 0 {
        assert(a + b =~= a);
        assert(with_newlines(a) + with_newlines(b) =~= with_newlines(a));
    } else {
        lemma_with_newlines_add(a, b.drop_last());
        assert((a + b).drop_last() =~= a + b.drop_last());
        assert((a + b).last() == b.last());
        assert(with_newlines(a + b) =~= with_newlines(a) + with_newlines(b));
    }
}

/// The written-back text of lines is their written-back texts, each with a
/// line feed.
proof fn lemma_rewritten_text(
    ls: Seq<Seq<char>>,
    pairs: Seq<(Seq<char>, Seq<char>)>,
    comment: char,
    equal: char,
)
    ensures
        rewritten(ls, pairs, comment, equal) == with_newlines(
            Seq::new(ls.len(), |i: int| rewrite_text(ls[i], pairs, comment, equal)),
        ),
    decreases ls.len(),
{
    let xs = Seq::new(ls.len(), |i: int| rewrite_text(ls[i], pairs, comment, equal));
    if ls.len() > 0 {
        let d = ls.drop_last();
        lemma_rewritten_text(d, pairs, comment, equal);
        assert(xs.drop_last() =~= Seq::new(
            d.len(),
            |i: int| rewrite_text(d[i], pairs, comment, equal),
        ));
        let l = ls.last();
        assert(rewrite_line(l, pairs, comment, equal) =~= rewrite_text(l, pairs, comment, equal)
            + seq!['\n']);
        assert(rewritten(ls, pairs, comment, equal) =~= with_newlines(xs));
    } else {
        assert(xs.len() == 0);
    }
}

/// The added text is the added lines, each with a line feed.
proof fn lemma_added_text(
    ls: Seq<Seq<char>>,
    pairs: Seq<(Seq<char>, Seq<char>)>,
    comment: char,
    equal: char,
)
    ensures
        added(ls, pairs, comment, equal) == with_newlines(added_lines(ls, pairs, comment, equal)),
    decreases pairs.len(),
{
    if pairs.len() > 0 {
        lemma_added_text(ls, pairs.drop_last(), comment, equal);
        let (k, v) = pairs.last();
        if key_in_lines(ls, k, comment, equal) {
            assert(added(ls, pairs, comment, equal) =~= added(ls, pairs.drop_last(), comment, equal));
        } else {
            let m = added_lines(ls, pairs.drop_last(), comment, equal);
            assert(m.push(k + seq![equal] + v).drop_last() =~= m);
            assert(added(ls, pairs, comment, equal) =~= with_newlines(
                added_lines(ls, pairs, comment, equal),
            ));
        }
    }
}

/// Nothing is added when every key is assigned.
proof fn lemma_added_none(
    ls: Seq<Seq<char>>,
    pairs: Seq<(Seq<char>, Seq<char>)>,
    comment: char,
    equal: char,
)
    requires
        forall|j: int| 0 <= j < pairs.len() ==> key_in_lines(ls, #[trigger] pairs[j].0, comment, equal),
    ensures
        added(ls, pairs, comment, equal) == Seq::<char>::empty(),
    decreases pairs.len(),
{
    if pairs.len() > 0 {
        let d = pairs.drop_last();
        assert forall|j: int| 0 <= j < d.len() implies key_in_lines(
            ls,
            #[trigger] d[j].0,
            comment,
            equal,
        ) by {
            assert(d[j] == pairs[j]);
        }
        lemma_added_none(ls, d, comment, equal);
        assert(pairs[pairs.len() - 1] == pairs.last());
        assert(added(ls, pairs, comment, equal) =~= Seq::<char>::empty());
    }
}

/// A line that reads back as itself is written back as it reads.
proof fn lemma_rewrite_text_plain(
    l: Seq<char>,
    pairs: Seq<(Seq<char>, Seq<char>)>,
    comment: char,
    equal: char,
)
    requires
        !(l.len() > 0 && l.last() == '\r'),
        clean_pairs(pairs, comment, equal),
        comment != equal,
        equal != '\n',
        equal != '\r',
    ensures
        strip_cr(rewrite_text(l, pairs, comment, equal)) == rewrite_text(l, pairs, comment, equal),
{
    match parse_line(l, comment, equal) {
        Some((k, v)) => match value_for(pairs, k) {
            Some(w) => if w != v {
                lemma_value_for_some(pairs, k);
                let j = choose|j: int| 0 <= j < pairs.len() && #[trigger] pairs[j] == (k, w);
                assert(pairs[j] == (k, w));
                lemma_assignment_parses(k, w, comment, equal);
            },
            None => {},
        },
        None => {},
    }
}

/// Writing a file back twice gives the same text as writing it back once,
/// on the inputs of `lemma_conf_converges`.
pub proof fn lemma_conf_idempotent(
    content: Seq<char>,
    pairs: Seq<(Seq<char>, Seq<char>)>,
    comment: char,
    equal: char,
)
    requires
        keys_unique(pairs),
        clean_pairs(pairs, comment, equal),
        comment != equal,
        equal != '\n',
        equal != '\r',
        forall|i: int|
            0 <= i < lines(content).len() ==> !(#[trigger] lines(content)[i].len() > 0 && lines(
                content,
            )[i].last() == '\r'),
    ensures
        conf_applied(conf_applied(content, pairs, comment, equal), pairs, comment, equal)
            == conf_applied(content, pairs, comment, equal),
{
    let ls = lines(content);
    let once = conf_applied(content, pairs, comment, equal);
    lemma_conf_converges(content, pairs, comment, equal);
    lemma_lines_no_newline(content);
    lemma_rewritten_lines(ls, pairs, comment, equal);
    let r = rewritten(ls, pairs, comment, equal);
    lemma_added_read(r, ls, pairs, comment, equal);
    let l1 = Seq::new(ls.len(), |i: int| strip_cr(rewrite_text(ls[i], pairs, comment, equal)));
    let x1 = Seq::new(ls.len(), |i: int| rewrite_text(ls[i], pairs, comment, equal));
    let l2 = added_lines(ls, pairs, comment, equal);
    let big = lines(once);
    assert(big == l1 + l2);
    assert forall|i: int| 0 <= i < ls.len() implies #[trigger] l1[i] == x1[i] by {
        lemma_rewrite_text_plain(ls[i], pairs, comment, equal);
    }
    assert(l1 =~= x1);
    lemma_rewritten_text(ls, pairs, comment, equal);
    lemma_added_text(ls, pairs, comment, equal);
    lemma_with_newlines_add(l1, l2);
    assert(once == with_newlines(big));
    // Writing back again changes no line and adds none.
    assert forall|i: int| 0 <= i < big.len() implies #[trigger] rewrite_text(
        big[i],
        pairs,
        comment,
        equal,
    ) == big[i] by {
        assert(line_agrees(big[i], pairs, comment, equal));
    }
    lemma_rewritten_text(big, pairs, comment, equal);
    assert(Seq::new(big.len(), |i: int| rewrite_text(big[i], pairs, comment, equal)) =~= big);
    lemma_added_none(big, pairs, comment, equal);
    assert(conf_applied(once, pairs, comment, equal) =~= with_newlines(big));
}

} // verus!
