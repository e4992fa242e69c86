//! Text as sequences of characters: white space, searching, trimming and
//! splitting into lines the way `str::trim` and `str::lines` do.
use vstd::prelude::*;

verus! {

/// The characters that `char::is_whitespace` accepts: Unicode White_Space.
pub open spec fn is_white_space(c: char) -> bool {
    let u = c as u32;
    ||| 0x09 <= u <= 0x0D
    ||| u == 0x20
    ||| u == 0x85
    ||| u == 0xA0
    ||| u == 0x1680
    ||| 0x2000 <= u <= 0x200A
    ||| u == 0x2028
    ||| u == 0x2029
    ||| u == 0x202F
    ||| u == 0x205F
    ||| u == 0x3000
}

/// Whether `c` is white space.
pub fn white_space(c: char) -> (r: bool)
    ensures
        r == is_white_space(c),
{
    let u = c as u32;
    (0x09 <= u && u <= 0x0D) || u == 0x20 || u == 0x85 || u == 0xA0 || u == 0x1680 || (0x2000
        <= u && u <= 0x200A) || u == 0x2028 || u == 0x2029 || u == 0x202F || u == 0x205F || u
        == 0x3000
}

/// The index of the first `c` in `s`, or the length of `s` when it holds none.
pub open spec fn char_pos(s: Seq<char>, c: char) -> int
    decreases s.len(),
{
    if s.len() == 0 {
        0
    } else if s[0] == c {
        0
    } else {
        1 + char_pos(s.subrange(1, s.len() as int), c)
    }
}

/// `p` is where the first `c` stands in `s`, or the length when none does.
pub proof fn lemma_char_pos(s: Seq<char>, c: char, p: int)
    requires
        0 <= p <= s.len(),
        forall|i: int| 0 <= i < p ==> s[i] != c,
        p == s.len() || s[p] == c,
    ensures
        char_pos(s, c) == p,
    decreases p,
{
    if p > 0 {
        let t = s.subrange(1, s.len() as int);
        assert(s[0] != c);
        assert forall|i: int| 0 <= i < p - 1 implies t[i] != c by {
            assert(t[i] == s[i + 1]);
        }
        if p < s.len() {
            assert(t[p - 1] == s[p]);
        }
        lemma_char_pos(t, c, p - 1);
    }
}

/// The first `c` in `s` stands at `char_pos`, and none before it.
pub proof fn lemma_char_pos_bounds(s: Seq<char>, c: char)
    ensures
        0 <= char_pos(s, c) <= s.len(),
        forall|i: int| 0 <= i < char_pos(s, c) ==> s[i] != c,
        char_pos(s, c) == s.len() || s[char_pos(s, c)] == c,
    decreases s.len(),
{
    if s.len() > 0 && s[0] != c {
        let t = s.subrange(1, s.len() as int);
        lemma_char_pos_bounds(t, c);
        assert forall|i: int| 0 <= i < char_pos(s, c) implies s[i] != c by {
            if i > 0 {
                assert(s[i] == t[i - 1]);
            }
        }
    }
}

/// The index of the first `c` in `s`, or the length of `s` when it holds none.
pub fn find_char(s: &[char], c: char) -> (r: usize)
    ensures
        r == char_pos(s@, c),
        r <= s@.len(),
{
    let mut i: usize = 0;
    while i < s.len()
        invariant
            i <= s@.len(),
            forall|j: int| 0 <= j < i ==> s@[j] != c,
        decreases s.len() - i,
    {
        if s[i] == c {
            proof {
                lemma_char_pos(s@, c, i as int);
            }
            return i;
        }
        i = i + 1;
    }
    proof {
        lemma_char_pos(s@, c, i as int);
    }
    i
}

/// The number of white-space characters at the start of `s`.
pub open spec fn lead_ws(s: Seq<char>) -> int
    decreases s.len(),
{
    if s.len() > 0 && is_white_space(s[0]) {
        1 + lead_ws(s.subrange(1, s.len() as int))
    } else {
        0
    }
}

/// The number of white-space characters at the end of `s`.
pub open spec fn trail_ws(s: Seq<char>) -> int
    decreases s.len(),
{
    if s.len() > 0 && is_white_space(s.last()) {
        1 + trail_ws(s.subrange(0, s.len() - 1))
    } else {
        0
    }
}

/// `s` without the white space at either end, as `str::trim` gives it.
pub open spec fn trim(s: Seq<char>) -> Seq<char> {
    let t = s.subrange(lead_ws(s), s.len() as int);
    t.subrange(0, t.len() - trail_ws(t))
}

/// `s` starts with exactly `a` white-space characters.
pub proof fn lemma_lead_ws(s: Seq<char>, a: int)
    requires
        0 <= a <= s.len(),
        forall|i: int| 0 <= i < a ==> is_white_space(#[trigger] s[i]),
        a == s.len() || !is_white_space(s[a]),
    ensures
        lead_ws(s) == a,
    decreases a,
{
    if a > 0 {
        let t = s.subrange(1, s.len() as int);
        assert forall|i: int| 0 <= i < a - 1 implies is_white_space(#[trigger] t[i]) by {
            assert(t[i] == s[i + 1]);
        }
        if a < s.len() {
            assert(t[a - 1] == s[a]);
        }
        lemma_lead_ws(t, a - 1);
    }
}

/// `s` ends with exactly `k` white-space characters.
pub proof fn lemma_trail_ws(s: Seq<char>, k: int)
    requires
        0 <= k <= s.len(),
        forall|i: int| s.len() - k <= i < s.len() ==> is_white_space(#[trigger] s[i]),
        k == s.len() || !is_white_space(s[s.len() - k - 1]),
    ensures
        trail_ws(s) == k,
    decreases k,
{
    if k > 0 {
        let t = s.subrange(0, s.len() - 1);
        assert(is_white_space(s[s.len() - 1]));
        assert forall|i: int| t.len() - (k - 1) <= i < t.len() implies is_white_space(
            #[trigger] t[i],
        ) by {
            assert(t[i] == s[i]);
        }
        if k < s.len() {
            assert(t[t.len() - (k - 1) - 1] == s[s.len() - k - 1]);
        }
        lemma_trail_ws(t, k - 1);
    }
}

/// A copy of `s` without the white space at either end.
pub fn trim_chars(s: &[char]) -> (r: Vec<char>)
    ensures
        r@ == trim(s@),
{
    let mut a: usize = 0;
    while a < s.len() && white_space(s[a])
        invariant
            a <= s@.len(),
            forall|i: int| 0 <= i < a ==> is_white_space(#[trigger] s@[i]),
        decreases s.len() - a,
    {
        a = a + 1;
    }
    proof {
        lemma_lead_ws(s@, a as int);
    }
    let mut b: usize = s.len();
    while b > a && white_space(s[b - 1])
        invariant
            a <= b <= s@.len(),
            forall|i: int| b <= i < s@.len() ==> is_white_space(#[trigger] s@[i]),
        decreases b,
    {
        b = b - 1;
    }
    let ghost t = s@.subrange(a as int, s@.len() as int);
    proof {
        let k = s@.len() - b;
        assert forall|i: int| t.len() - k <= i < t.len() implies is_white_space(#[trigger] t[i]) by {
            assert(t[i] == s@[i + a]);
        }
        if b > a {
            assert(t[t.len() - k - 1] == s@[b - 1]);
        }
        lemma_trail_ws(t, k);
        assert(t.subrange(0, t.len() - k) =~= s@.subrange(a as int, b as int));
    }
    vstd::slice::slice_to_vec(&s[a..b])
}

/// `s` without one carriage return at its end.
pub open spec fn strip_cr(s: Seq<char>) -> Seq<char> {
    if s.len() > 0 && s.last() == '\r' {
        s.subrange(0, s.len() - 1)
    } else {
        s
    }
}

/// The lines of `s`, as `str::lines` gives them: split at each line feed,
/// a carriage return just before a line feed dropped with it, and no empty
/// line after a final line feed. A last line with no line feed after it is
/// kept whole, carriage return included.
pub open spec fn lines(s: Seq<char>) -> Seq<Seq<char>>
    decreases s.len(),
    via lines_decreases
{
    if s.len() == 0 {
        seq![]
    } else {
        let p = char_pos(s, '\n');
        if p < s.len() {
            seq![strip_cr(s.subrange(0, p))] + lines(s.subrange(p + 1, s.len() as int))
        } else {
            seq![s]
        }
    }
}

#[via_fn]
proof fn lines_decreases(s: Seq<char>) {
    lemma_char_pos_bounds(s, '\n');
}

/// A copy of `s` without one carriage return at its end.
fn strip_cr_chars(s: &[char]) -> (r: Vec<char>)
    ensures
        r@ == strip_cr(s@),
{
    if s.len() > 0 && s[s.len() - 1] == '\r' {
        vstd::slice::slice_to_vec(&s[0..s.len() - 1])
    } else {
        vstd::slice::slice_to_vec(s)
    }
}

/// The lines of `s`, as `str::lines` gives them.
pub fn split_lines(s: &[char]) -> (r: Vec<Vec<char>>)
    ensures
        r.deep_view() == lines(s@),
{
    let mut out: Vec<Vec<char>> = Vec::new();
    let mut start: usize = 0;
    proof {
        assert(s@.subrange(0, s@.len() as int) =~= s@);
        assert(out.deep_view() =~= Seq::<Seq<char>>::empty());
        assert(Seq::<Seq<char>>::empty() + lines(s@) =~= lines(s@));
    }
    while start < s.len()
        invariant
            start <= s@.len(),
            lines(s@) == out.deep_view() + lines(s@.subrange(start as int, s@.len() as int)),
        decreases s.len() - start,
    {
        let rest = &s[start..s.len()];
        let p = find_char(rest, '\n');
        let ghost before = out.deep_view();
        proof {
            lemma_char_pos_bounds(rest@, '\n');
        }
        if p < rest.len() {
            let line = strip_cr_chars(&rest[0..p]);
            proof {
                assert(line.deep_view() =~= line@);
            }
            out.push(line);
            proof {
                assert(out.deep_view() =~= before.push(strip_cr(rest@.subrange(0, p as int))));
                assert(rest@.subrange(p + 1, rest@.len() as int) =~= s@.subrange(
                    start + p + 1,
                    s@.len() as int,
                ));
            }
            start = start + p + 1;
        } else {
            let line = vstd::slice::slice_to_vec(rest);
            proof {
                assert(line.deep_view() =~= line@);
            }
            out.push(line);
            proof {
                assert(out.deep_view() =~= before.push(rest@));
                assert(s@.subrange(s@.len() as int, s@.len() as int) =~= Seq::<char>::empty());
            }
            start = s.len();
        }
    }
    proof {
        assert(s@.subrange(start as int, s@.len() as int) =~= Seq::<char>::empty());
        assert(out.deep_view() + Seq::<Seq<char>>::empty() =~= out.deep_view());
    }
    out
}

/// Whether two character sequences are equal.
pub fn chars_eq(a: &[char], b: &[char]) -> (r: bool)
    ensures
        r == (a@ == b@),
{
    if a.len() != b.len() {
        return false;
    }
    let mut i: usize = 0;
    while i < a.len()
        invariant
            a@.len() == b@.len(),
            i <= a@.len(),
            forall|j: int| 0 <= j < i ==> a@[j] == b@[j],
        decreases a.len() - i,
    {
        if a[i] != b[i] {
            return false;
        }
        i = i + 1;
    }
    assert(a@ =~= b@);
    true
}

/// The characters of `s`.
pub fn chars_of(s: &str) -> (r: Vec<char>)
    ensures
        r@ == s@,
{
    let n = s.unicode_len();
    let mut out: Vec<char> = Vec::new();
    let mut i: usize = 0;
    while i < n
        invariant
            n == s@.len(),
            i <= n,
            out@ == s@.subrange(0, i as int),
        decreases n - i,
    {
        out.push(s.get_char(i));
        i = i + 1;
        assert(out@ =~= s@.subrange(0, i as int));
    }
    assert(out@ =~= s@);
    out
}

/// Appends the characters of `s` to `out`.
pub fn push_all(out: &mut Vec<char>, s: &[char])
    ensures
        final(out)@ == old(out)@ + s@,
{
    let ghost start = out@;
    let mut i: usize = 0;
    while i < s.len()
        invariant
            i <= s@.len(),
            out@ == start + s@.subrange(0, i as int),
        decreases s.len() - i,
    {
        out.push(s[i]);
        i = i + 1;
        assert(out@ =~= start + s@.subrange(0, i as int));
    }
    assert(s@.subrange(0, s@.len() as int) =~= s@);
}

/// The lines `a` begin the lines `b`, each one kept or, for a line that
/// had no line feed after it, with a final carriage return dropped.
pub open spec fn keeps_lines(a: Seq<Seq<char>>, b: Seq<Seq<char>>) -> bool {
    a.len() <= b.len() && forall|i: int|
        0 <= i < a.len() ==> #[trigger] b[i] == a[i] || b[i] == strip_cr(a[i])
}

/// `p` is a prefix of `q`.
pub open spec fn is_prefix<A>(p: Seq<A>, q: Seq<A>) -> bool {
    p.len() <= q.len() && forall|i: int| 0 <= i < p.len() ==> #[trigger] q[i] == p[i]
}

/// The lines of `s` split at `p`, its first line feed.
proof fn lemma_lines_unfold(s: Seq<char>, p: int)
    requires
        0 <= p < s.len(),
        s[p] == '\n',
        forall|i: int| 0 <= i < p ==> s[i] != '\n',
    ensures
        lines(s) == seq![strip_cr(s.subrange(0, p))] + lines(s.subrange(p + 1, s.len() as int)),
{
    lemma_char_pos(s, '\n', p);
}

/// Lines stay lines when a line feed and more text follow: the lines of `c`
/// begin the lines of `c`, a line feed, and `rest`, but for a carriage return
/// that the new line feed takes with it.
pub proof fn lemma_lines_extend(c: Seq<char>, rest: Seq<char>)
    ensures
        keeps_lines(lines(c), lines(c + seq!['\n'] + rest)),
    decreases c.len(),
{
    let s = c + seq!['\n'] + rest;
    lemma_char_pos_bounds(c, '\n');
    let p = char_pos(c, '\n');
    if c.len() == 0 {
    } else if p < c.len() {
        assert forall|i: int| 0 <= i < p implies s[i] != '\n' by {
            assert(s[i] == c[i]);
        }
        assert(s[p] == c[p]);
        lemma_lines_unfold(s, p);
        let c2 = c.subrange(p + 1, c.len() as int);
        assert(s.subrange(0, p) =~= c.subrange(0, p));
        assert(s.subrange(p + 1, s.len() as int) =~= c2 + seq!['\n'] + rest);
        lemma_lines_extend(c2, rest);
        let l2 = lines(s.subrange(p + 1, s.len() as int));
        assert forall|i: int| 0 <= i < lines(c).len() implies #[trigger] lines(s)[i] == lines(
            c,
        )[i] || lines(s)[i] == strip_cr(lines(c)[i]) by {
            if i > 0 {
                assert(lines(s)[i] == l2[i - 1]);
                assert(lines(c)[i] == lines(c2)[i - 1]);
            }
        }
    } else {
        let n = c.len() as int;
        assert forall|i: int| 0 <= i < n implies s[i] != '\n' by {
            assert(s[i] == c[i]);
        }
        lemma_lines_unfold(s, n);
        assert(s.subrange(0, n) =~= c);
    }
}

/// Text that ends with a line feed keeps its lines whatever follows it.
pub proof fn lemma_lines_after_newline(b: Seq<char>, x: Seq<char>)
    requires
        b.len() > 0,
        b.last() == '\n',
    ensures
        is_prefix(lines(b), lines(b + x)),
    decreases b.len(),
{
    let s = b + x;
    lemma_char_pos_bounds(b, '\n');
    let p = char_pos(b, '\n');
    if p == b.len() {
        assert(b[b.len() - 1] == '\n');
    }
    assert forall|i: int| 0 <= i < p implies s[i] != '\n' by {
        assert(s[i] == b[i]);
    }
    assert(s[p] == b[p]);
    lemma_lines_unfold(s, p);
    lemma_lines_unfold(b, p);
    let b2 = b.subrange(p + 1, b.len() as int);
    assert(s.subrange(0, p) =~= b.subrange(0, p));
    assert(s.subrange(p + 1, s.len() as int) =~= b2 + x);
    if b2.len() > 0 {
        assert(b2.last() == b.last());
        lemma_lines_after_newline(b2, x);
        let l2 = lines(b2 + x);
        assert forall|i: int| 0 <= i < lines(b).len() implies #[trigger] lines(s)[i] == lines(
            b,
        )[i] by {
            if i > 0 {
                assert(lines(s)[i] == l2[i - 1]);
                assert(lines(b)[i] == lines(b2)[i - 1]);
            }
        }
    }
}

/// The text between two line feeds (or from the start to a line feed) is a
/// line.
pub proof fn lemma_lines_piece(s: Seq<char>, a: int, e: int)
    requires
        0 <= a <= e < s.len(),
        a == 0 || s[a - 1] == '\n',
        s[e] == '\n',
        forall|i: int| a <= i < e ==> s[i] != '\n',
    ensures
        lines(s).contains(strip_cr(s.subrange(a, e))),
    decreases s.len(),
{
    lemma_char_pos_bounds(s, '\n');
    let p = char_pos(s, '\n');
    if a == 0 {
        lemma_char_pos(s, '\n', e);
        assert(lines(s)[0] == strip_cr(s.subrange(0, e)));
    } else {
        if p > a - 1 {
            assert(s[a - 1] != '\n');
        }
        lemma_lines_unfold(s, p);
        let t = s.subrange(p + 1, s.len() as int);
        let a2 = a - p - 1;
        let e2 = e - p - 1;
        if a2 > 0 {
            assert(t[a2 - 1] == s[a - 1]);
        }
        assert(t[e2] == s[e]);
        assert forall|i: int| a2 <= i < e2 implies t[i] != '\n' by {
            assert(t[i] == s[i + p + 1]);
        }
        lemma_lines_piece(t, a2, e2);
        assert(t.subrange(a2, e2) =~= s.subrange(a, e));
        let x = strip_cr(s.subrange(a, e));
        let j = choose|j: int| 0 <= j < lines(t).len() && lines(t)[j] == x;
        assert(lines(s)[j + 1] == x);
    }
}

/// No line holds a line feed.
pub proof fn lemma_lines_no_newline(s: Seq<char>)
    ensures
        forall|i: int| 0 <= i < lines(s).len() ==> !(#[trigger] lines(s)[i]).contains('\n'),
    decreases s.len(),
{
    if s.len() > 0 {
        lemma_char_pos_bounds(s, '\n');
        let p = char_pos(s, '\n');
        let first = s.subrange(0, p);
        assert(!first.contains('\n')) by {
            if first.contains('\n') {
                let j = choose|j: int| 0 <= j < first.len() && first[j] == '\n';
                assert(s[j] == '\n');
            }
        }
        assert(!strip_cr(first).contains('\n')) by {
            if strip_cr(first).contains('\n') {
                let j = choose|j: int| 0 <= j < strip_cr(first).len() && strip_cr(first)[j] == '\n';
                assert(first[j] == '\n');
            }
        }
        if p < s.len() {
            let t = s.subrange(p + 1, s.len() as int);
            lemma_lines_no_newline(t);
            assert forall|i: int| 0 <= i < lines(s).len() implies !(#[trigger] lines(s)[i]).contains(
                '\n',
            ) by {
                if i > 0 {
                    assert(lines(s)[i] == lines(t)[i - 1]);
                }
            }
        } else {
            assert(first =~= s);
        }
    }
}

/// A line and a line feed after text that is empty or ends with a line feed
/// add one line.
pub proof fn lemma_lines_append_line(a: Seq<char>, x: Seq<char>)
    requires
        a.len() == 0 || a.last() == '\n',
        !x.contains('\n'),
    ensures
        lines(a + x + seq!['\n']) == lines(a).push(strip_cr(x)),
    decreases a.len(),
{
    let s = a + x + seq!['\n'];
    if a.len() == 0 {
        assert(s =~= x + seq!['\n']);
        assert forall|i: int| 0 <= i < x.len() implies s[i] != '\n' by {
            assert(s[i] == x[i]);
            if x[i] == '\n' {
                assert(x.contains('\n'));
            }
        }
        lemma_lines_unfold(s, x.len() as int);
        assert(s.subrange(0, x.len() as int) =~= x);
        assert(s.subrange(x.len() + 1int, s.len() as int) =~= Seq::<char>::empty());
        assert(lines(a) =~= Seq::<Seq<char>>::empty());
        assert(lines(s) =~= lines(a).push(strip_cr(x)));
    } else {
        lemma_char_pos_bounds(a, '\n');
        let p = char_pos(a, '\n');
        if p == a.len() {
            assert(a[a.len() - 1] == '\n');
        }
        assert forall|i: int| 0 <= i < p implies s[i] != '\n' by {
            assert(s[i] == a[i]);
        }
        assert(s[p] == a[p]);
        lemma_lines_unfold(s, p);
        lemma_lines_unfold(a, p);
        let a2 = a.subrange(p + 1, a.len() as int);
        assert(s.subrange(0, p) =~= a.subrange(0, p));
        assert(s.subrange(p + 1, s.len() as int) =~= a2 + x + seq!['\n']);
        if a2.len() > 0 {
            assert(a2.last() == a.last());
        }
        lemma_lines_append_line(a2, x);
        assert(lines(s) =~= lines(a).push(strip_cr(x)));
    }
}

/// The white space counted at either end lies within the text.
pub proof fn lemma_ws_bounds(s: Seq<char>)
    ensures
        0 <= lead_ws(s) <= s.len(),
        0 <= trail_ws(s) <= s.len(),
    decreases s.len(),
{
    if s.len() > 0 {
        lemma_ws_bounds(s.subrange(1, s.len() as int));
        lemma_ws_bounds(s.subrange(0, s.len() - 1));
    }
}

/// Text equal to its trimmed self does not end in white space.
pub proof fn lemma_trimmed_end(w: Seq<char>)
    requires
        trim(w) == w,
        w.len() > 0,
    ensures
        !is_white_space(w.last()),
{
    lemma_ws_bounds(w);
    let t = w.subrange(lead_ws(w), w.len() as int);
    lemma_ws_bounds(t);
    assert(trim(w).len() == t.len() - trail_ws(t));
    assert(lead_ws(w) == 0);
    assert(t =~= w);
    assert(trail_ws(w) == 0);
    lemma_ws_bounds(w.subrange(0, w.len() - 1));
}

} // verus!
