//! Properties of single files: exact byte content, and lines that the file
//! must contain.
use vstd::prelude::*;
use crate::text::{
    chars_eq, chars_of, keeps_lines, lemma_lines_after_newline, lemma_lines_extend,
    lemma_lines_piece, lines, push_all, split_lines, strip_cr,
};
use crate::user_path::UserPathBuf;

verus! {

/// A file that has its content managed by this program.
pub struct ManagedFile {
    pub path: UserPathBuf,
}

/// The file's bytes are exactly `bytes`.
#[derive(Clone)]
pub struct ContentBytes {
    pub path: UserPathBuf,
    pub bytes: &'static [u8],
}

/// The file contains each of `lines` as a line.
#[derive(Clone)]
pub struct ContainsLines {
    pub file: UserPathBuf,
    pub lines: Vec<Vec<char>>,
}

/// A file, relative to the home directory unless the path is absolute.
pub fn file(path: &str) -> (r: ManagedFile)
    ensures
        r.path.text() == path@,
        r.path.is_home() == !crate::user_path::is_absolute(path@),
{
    ManagedFile { path: UserPathBuf::new(path) }
}

/// The characters of each of `lines`.
fn lines_of_strs(lines: &[&str]) -> (r: Vec<Vec<char>>)
    ensures
        r.deep_view() == lines@.map_values(|l: &str| l@),
{
    let mut out: Vec<Vec<char>> = Vec::new();
    let mut i: usize = 0;
    while i < lines.len()
        invariant
            i <= lines@.len(),
            out.deep_view() == lines@.subrange(0, i as int).map_values(|l: &str| l@),
        decreases lines.len() - i,
    {
        let l = chars_of(lines[i]);
        let ghost before = out.deep_view();
        proof {
            assert(l.deep_view() =~= l@);
        }
        out.push(l);
        proof {
            assert(out.deep_view() =~= before.push(lines@[i as int]@));
            assert(lines@.subrange(0, i + 1).map_values(|l: &str| l@) =~= lines@.subrange(
                0,
                i as int,
            ).map_values(|l: &str| l@).push(lines@[i as int]@));
        }
        i = i + 1;
    }
    assert(lines@.subrange(0, lines@.len() as int) =~= lines@);
    out
}

/// The file at `file` contains `line`.
pub fn contains_line(file: &str, line: &str) -> (r: ContainsLines)
    ensures
        r.file.text() == file@,
        r.lines.deep_view() == seq![line@],
{
    let ls = [line];
    let r = contains_lines(file, &ls);
    assert(ls@.map_values(|l: &str| l@) =~= seq![line@]);
    r
}

/// The file at `file` contains each of `lines`.
pub fn contains_lines(file: &str, lines: &[&str]) -> (r: ContainsLines)
    ensures
        r.file.text() == file@,
        r.lines.deep_view() == lines@.map_values(|l: &str| l@),
{
    ContainsLines { file: UserPathBuf::new(file), lines: lines_of_strs(lines) }
}

impl ManagedFile {
    /// The file's content is exactly `bytes`.
    pub fn content_bytes(&self, bytes: &'static [u8]) -> (r: ContentBytes)
        ensures
            r.path == self.path,
            r.bytes@ == bytes@,
    {
        ContentBytes { path: self.path.duplicate(), bytes }
    }

    /// The file contains `line`.
    pub fn contains_line(&self, line: &str) -> (r: ContainsLines)
        ensures
            r.file == self.path,
            r.lines.deep_view() == seq![line@],
    {
        let ls = [line];
        let r = self.contains_lines(&ls);
        assert(ls@.map_values(|l: &str| l@) =~= seq![line@]);
        r
    }

    /// The file contains each of `lines`.
    pub fn contains_lines(&self, lines: &[&str]) -> (r: ContainsLines)
        ensures
            r.file == self.path,
            r.lines.deep_view() == lines@.map_values(|l: &str| l@),
    {
        ContainsLines { file: self.path.duplicate(), lines: lines_of_strs(lines) }
    }
}

impl ContentBytes {
    /// The length to cut a file of `file_len` bytes to, when it is longer
    /// than the wanted content.
    pub fn truncation(&self, file_len: u64) -> (r: Option<u64>)
        ensures
            r == if file_len > self.bytes@.len() {
                Some(self.bytes@.len() as u64)
            } else {
                None
            },
    {
        if file_len > self.bytes.len() as u64 {
            Some(self.bytes.len() as u64)
        } else {
            None
        }
    }

    /// Whether a file holds the wanted content, from what was observed of
    /// it: whether it exists, its length, and where a comparison of its
    /// bytes with the wanted ones first found them to part.
    pub fn is_satisfied(&self, exists: bool, file_len: u64, difference: Option<usize>) -> (r: bool)
        ensures
            r == (exists && file_len == self.bytes@.len() && difference is None),
    {
        exists && file_len == self.bytes.len() as u64 && difference.is_none()
    }
}

/// The lines of `required` that are not among `present`, in their order.
pub open spec fn missing_from(required: Seq<Seq<char>>, present: Seq<Seq<char>>) -> Seq<Seq<char>>
    decreases required.len(),
{
    if required.len() == 0 {
        seq![]
    } else {
        let m = missing_from(required.drop_last(), present);
        if present.contains(required.last()) {
            m
        } else {
            m.push(required.last())
        }
    }
}

/// `ms` joined with line feeds between them.
pub open spec fn joined(ms: Seq<Seq<char>>) -> Seq<char>
    decreases ms.len(),
{
    if ms.len() == 0 {
        seq![]
    } else if ms.len() == 1 {
        ms[0]
    } else {
        joined(ms.drop_last()) + seq!['\n'] + ms.last()
    }
}

/// What is appended to a file of `content` for the `required` lines: when
/// some are missing, a line feed, the missing lines joined by line feeds, and
/// a final line feed; when none is, nothing.
pub open spec fn union_appended(required: Seq<Seq<char>>, content: Seq<char>) -> Seq<char> {
    let ms = missing_from(required, lines(content));
    if ms.len() == 0 {
        seq![]
    } else {
        seq!['\n'] + joined(ms) + seq!['\n']
    }
}

/// Whether `line` is among `present`.
fn is_present(present: &Vec<Vec<char>>, line: &Vec<char>) -> (r: bool)
    ensures
        r == present.deep_view().contains(line@),
{
    let ghost d = present.deep_view();
    let mut i: usize = 0;
    while i < present.len()
        invariant
            d == present.deep_view(),
            i <= present@.len(),
            forall|j: int| 0 <= j < i ==> d[j] != line@,
        decreases present.len() - i,
    {
        assert(d[i as int] == present@[i as int]@);
        if chars_eq(present[i].as_slice(), line.as_slice()) {
            return true;
        }
        i = i + 1;
    }
    false
}

impl ContainsLines {
    /// Whether every required line is a line of `content`.
    pub fn check_content(&self, content: &[char]) -> (r: bool)
        ensures
            r == (forall|i: int|
                0 <= i < self.lines@.len() ==> lines(content@).contains(
                    #[trigger] self.lines.deep_view()[i],
                )),
    {
        let present = split_lines(content);
        let mut i: usize = 0;
        while i < self.lines.len()
            invariant
                present.deep_view() == lines(content@),
                i <= self.lines@.len(),
                forall|j: int|
                    0 <= j < i ==> lines(content@).contains(#[trigger] self.lines.deep_view()[j]),
            decreases self.lines.len() - i,
        {
            assert(self.lines.deep_view()[i as int] == self.lines@[i as int]@);
            if !is_present(&present, &self.lines[i]) {
                return false;
            }
            i = i + 1;
        }
        true
    }

    /// The required lines that `content` lacks, in their order.
    pub fn missing(&self, content: &[char]) -> (r: Vec<Vec<char>>)
        ensures
            r.deep_view() == missing_from(self.lines.deep_view(), lines(content@)),
    {
        let present = split_lines(content);
        let ghost req = self.lines.deep_view();
        let mut out: Vec<Vec<char>> = Vec::new();
        let mut i: usize = 0;
        while i < self.lines.len()
            invariant
                req == self.lines.deep_view(),
                present.deep_view() == lines(content@),
                i <= self.lines@.len(),
                out.deep_view() == missing_from(req.subrange(0, i as int), lines(content@)),
            decreases self.lines.len() - i,
        {
            let ghost before = out.deep_view();
            assert(req[i as int] == self.lines@[i as int]@);
            proof {
                assert(req.subrange(0, i + 1).drop_last() =~= req.subrange(0, i as int));
                assert(req.subrange(0, i + 1).last() == req[i as int]);
                assert(missing_from(req.subrange(0, i + 1), lines(content@)) == if lines(
                    content@,
                ).contains(req[i as int]) {
                    missing_from(req.subrange(0, i as int), lines(content@))
                } else {
                    missing_from(req.subrange(0, i as int), lines(content@)).push(req[i as int])
                });
            }
            if !is_present(&present, &self.lines[i]) {
                let l = vstd::slice::slice_to_vec(self.lines[i].as_slice());
                proof {
                    assert(l.deep_view() =~= l@);
                }
                out.push(l);
                assert(out.deep_view() =~= before.push(req[i as int]));
            }
            i = i + 1;
        }
        assert(req.subrange(0, req.len() as int) =~= req);
        out
    }

    /// The text to append to a file of `content`: a line feed, the missing
    /// lines joined by line feeds, and a final line feed; nothing when no line
    /// is missing. Existing lines are never rewritten.
    pub fn appended_text(&self, content: &[char]) -> (r: Vec<char>)
        ensures
            r@ == union_appended(self.lines.deep_view(), content@),
    {
        let ms = self.missing(content);
        let ghost m = ms.deep_view();
        let mut out: Vec<char> = Vec::new();
        if ms.len() == 0 {
            assert(out@ =~= Seq::<char>::empty());
            return out;
        }
        out.push('\n');
        let mut i: usize = 0;
        while i < ms.len()
            invariant
                m == ms.deep_view(),
                i <= m.len(),
                out@ == seq!['\n'] + joined(m.subrange(0, i as int)),
            decreases ms.len() - i,
        {
            let ghost before = out@;
            assert(m[i as int] == ms@[i as int]@);
            if i > 0 {
                out.push('\n');
            }
            push_all(&mut out, ms[i].as_slice());
            proof {
                let s = m.subrange(0, i + 1);
                assert(s.drop_last() =~= m.subrange(0, i as int));
                if i == 0 {
                    assert(joined(m.subrange(0, 0)) =~= Seq::<char>::empty());
                    assert(out@ =~= seq!['\n'] + joined(s));
                } else {
                    assert(out@ =~= seq!['\n'] + joined(s));
                }
            }
            i = i + 1;
        }
        out.push('\n');
        assert(m.subrange(0, m.len() as int) =~= m);
        out
    }
}

/// A line that can stand in a file as it is: no line feed inside, no
/// carriage return at its end (which reading would drop).
pub open spec fn plain_line(l: Seq<char>) -> bool {
    !l.contains('\n') && !(l.len() > 0 && l.last() == '\r')
}

/// A required line that is not present is among the missing ones.
proof fn lemma_missing_contains(required: Seq<Seq<char>>, present: Seq<Seq<char>>, i: int)
    requires
        0 <= i < required.len(),
        !present.contains(required[i]),
    ensures
        missing_from(required, present).contains(required[i]),
    decreases required.len(),
{
    let m = missing_from(required.drop_last(), present);
    if i == required.len() - 1 {
        assert(missing_from(required, present) == m.push(required.last()));
        assert(m.push(required.last())[m.len() as int] == required[i]);
    } else {
        assert(required.drop_last()[i] == required[i]);
        lemma_missing_contains(required.drop_last(), present, i);
        let j = choose|j: int| 0 <= j < m.len() && m[j] == required[i];
        if present.contains(required.last()) {
        } else {
            assert(m.push(required.last())[j] == required[i]);
        }
    }
}

/// The missing lines are required lines.
proof fn lemma_missing_from_required(required: Seq<Seq<char>>, present: Seq<Seq<char>>, j: int)
    requires
        0 <= j < missing_from(required, present).len(),
    ensures
        required.contains(missing_from(required, present)[j]),
    decreases required.len(),
{
    let m = missing_from(required.drop_last(), present);
    if j < m.len() {
        lemma_missing_from_required(required.drop_last(), present, j);
        let k = choose|k: int| 0 <= k < required.drop_last().len() && required.drop_last()[k] == m[j];
        assert(required[k] == m[j]);
    } else {
        assert(required[required.len() - 1] == required.last());
    }
}

/// Text, a line feed, lines joined by line feeds and a final line feed
/// keeps the lines of the text and has each joined line as a line.
proof fn lemma_joined_lines(c: Seq<char>, ms: Seq<Seq<char>>)
    requires
        ms.len() >= 1,
        forall|j: int| 0 <= j < ms.len() ==> plain_line(#[trigger] ms[j]),
    ensures
        keeps_lines(lines(c), lines(c + seq!['\n'] + joined(ms) + seq!['\n'])),
        forall|j: int|
            0 <= j < ms.len() ==> lines(c + seq!['\n'] + joined(ms) + seq!['\n']).contains(
                #[trigger] ms[j],
            ),
    decreases ms.len(),
{
    let t = c + seq!['\n'] + joined(ms) + seq!['\n'];
    let last = ms.last();
    assert(plain_line(ms[ms.len() - 1]));
    if ms.len() == 1 {
        assert(joined(ms) == ms[0]);
        assert(t =~= c + seq!['\n'] + (last + seq!['\n']));
        lemma_lines_extend(c, last + seq!['\n']);
        let a = c.len() + 1int;
        let e = a + last.len();
        assert(t.subrange(a, e) =~= last);
        assert forall|i: int| a <= i < e implies t[i] != '\n' by {
            assert(t[i] == last[i - a]);
        }
        lemma_lines_piece(t, a, e);
        assert(strip_cr(last) == last);
    } else {
        let d = ms.drop_last();
        assert forall|j: int| 0 <= j < d.len() implies plain_line(#[trigger] d[j]) by {
            assert(d[j] == ms[j]);
        }
        lemma_joined_lines(c, d);
        let t1 = c + seq!['\n'] + joined(d) + seq!['\n'];
        assert(t =~= t1 + (last + seq!['\n']));
        assert(t1.last() == '\n');
        lemma_lines_after_newline(t1, last + seq!['\n']);
        let a = t1.len() as int;
        let e = a + last.len();
        assert(t.subrange(a, e) =~= last);
        assert forall|i: int| a <= i < e implies t[i] != '\n' by {
            assert(t[i] == last[i - a]);
        }
        lemma_lines_piece(t, a, e);
        assert(strip_cr(last) == last);
        assert forall|i: int| 0 <= i < lines(c).len() implies #[trigger] lines(t)[i] == lines(
            c,
        )[i] || lines(t)[i] == strip_cr(lines(c)[i]) by {
            assert(lines(t)[i] == lines(t1)[i]);
        }
        assert forall|j: int| 0 <= j < ms.len() implies lines(t).contains(#[trigger] ms[j]) by {
            if j < d.len() {
                assert(d[j] == ms[j]);
                assert(lines(t1).contains(d[j]));
                let k = choose|k: int| 0 <= k < lines(t1).len() && lines(t1)[k] == d[j];
                assert(lines(t)[k] == lines(t1)[k]);
            }
        }
    }
}

/// Appending the missing lines makes the file hold every required line and
/// keeps the lines it had (a last line without a line feed loses a final
/// carriage return to the one put after it); a second append adds nothing, so
/// applying twice leaves the file as applying once. Required lines that hold
/// a line feed or end with a carriage return are left out, as no line of a
/// file can equal them.
pub proof fn lemma_union_converges(required: Seq<Seq<char>>, content: Seq<char>)
    requires
        forall|i: int| 0 <= i < required.len() ==> plain_line(#[trigger] required[i]),
    ensures
        forall|i: int|
            0 <= i < required.len() ==> lines(content + union_appended(required, content)).contains(
                #[trigger] required[i],
            ),
        keeps_lines(lines(content), lines(content + union_appended(required, content))),
        union_appended(required, content + union_appended(required, content)) == Seq::<
            char,
        >::empty(),
        content + union_appended(required, content) + union_appended(
            required,
            content + union_appended(required, content),
        ) == content + union_appended(required, content),
{
    let present = lines(content);
    let ms = missing_from(required, present);
    let after = content + union_appended(required, content);
    if ms.len() == 0 {
        assert(after =~= content);
        assert forall|i: int| 0 <= i < present.len() implies #[trigger] lines(after)[i]
            == present[i] || lines(after)[i] == strip_cr(present[i]) by {}
    } else {
        assert(after =~= content + seq!['\n'] + joined(ms) + seq!['\n']);
        assert forall|j: int| 0 <= j < ms.len() implies plain_line(#[trigger] ms[j]) by {
            lemma_missing_from_required(required, present, j);
        }
        lemma_joined_lines(content, ms);
    }
    assert forall|i: int| 0 <= i < required.len() implies lines(after).contains(
        #[trigger] required[i],
    ) by {
        if present.contains(required[i]) {
            let k = choose|k: int| 0 <= k < present.len() && present[k] == required[i];
            assert(lines(after)[k] == present[k] || lines(after)[k] == strip_cr(present[k]));
            assert(plain_line(required[i]));
            assert(lines(after)[k] == required[i]);
        } else {
            lemma_missing_contains(required, present, i);
            let j = choose|j: int| 0 <= j < ms.len() && ms[j] == required[i];
            assert(lines(after).contains(ms[j]));
        }
    }
    lemma_none_missing(required, lines(after));
    assert(union_appended(required, after) =~= Seq::<char>::empty());
    assert(after + union_appended(required, after) =~= after);
}

/// When every required line is present, none is missing.
proof fn lemma_none_missing(required: Seq<Seq<char>>, present: Seq<Seq<char>>)
    requires
        forall|i: int| 0 <= i < required.len() ==> present.contains(#[trigger] required[i]),
    ensures
        missing_from(required, present).len() == 0,
    decreases required.len(),
{
    if required.len() > 0 {
        let d = required.drop_last();
        assert forall|i: int| 0 <= i < d.len() implies present.contains(#[trigger] d[i]) by {
            assert(d[i] == required[i]);
        }
        lemma_none_missing(d, present);
        assert(present.contains(required[required.len() - 1]));
    }
}

} // verus!
