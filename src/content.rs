//! Byte-exact file content: finding where a file first departs from the
//! wanted bytes, by streaming, and the patch that rewrites it from there.
use vstd::prelude::*;
use vstd::std_specs::cmp::PartialEqSpec;

verus! {

/// The size of the chunks in which a reader is compared with its target.
pub const BUF_SIZE: usize = 262144;

/// std's `std::io::Error`, which a failed read hands back and which is passed
/// on untouched.
#[verifier::external_type_specification]
#[verifier::external_body]
pub struct ExIoError(std::io::Error);

/// All of the first `n` elements of `a` and `b` are equal.
pub open spec fn agree_before<A: PartialEq>(a: Seq<A>, b: Seq<A>, n: int) -> bool {
    forall|i: int| 0 <= i < n ==> #[trigger] a[i].eq_spec(&b[i])
}

/// `p` is the first place where `a` and `b` part: the first index at which
/// they hold different elements, or the shorter length when one of them is a
/// proper prefix of the other.
pub open spec fn parts_at<A: PartialEq>(a: Seq<A>, b: Seq<A>, p: int) -> bool {
    &&& 0 <= p <= a.len()
    &&& p <= b.len()
    &&& agree_before(a, b, p)
    &&& ((p < a.len() && p < b.len() && !a[p].eq_spec(&b[p]))
        || ((p == a.len() || p == b.len()) && a.len() != b.len()))
}

/// `a` and `b` have equal length and agree everywhere.
pub open spec fn same_elements<A: PartialEq>(a: Seq<A>, b: Seq<A>) -> bool {
    a.len() == b.len() && agree_before(a, b, a.len() as int)
}

/// Searches for the first position where two slices differ; returns the
/// length of the shorter slice, at once, if their lengths differ.
pub fn find_slice_not_eq<A: PartialEq>(this: &[A], other: &[A]) -> (r: Option<usize>)
    requires
        A::obeys_eq_spec(),
    ensures
        this@.len() != other@.len() ==> r == Some(
            if this@.len() < other@.len() { this.len() } else { other.len() },
        ),
        this@.len() == other@.len() ==> match r {
            None => same_elements(this@, other@),
            Some(p) => parts_at(this@, other@, p as int),
        },
{
    let l = if this.len() < other.len() {
        this.len()
    } else {
        other.len()
    };
    if this.len() != other.len() {
        return Some(l);
    }
    let mut i: usize = 0;
    while i < l
        invariant
            A::obeys_eq_spec(),
            l == this.len(),
            l == other.len(),
            i <= l,
            agree_before(this@, other@, i as int),
        decreases l - i,
    {
        if !this[i].eq(&other[i]) {
            return Some(i);
        }
        i = i + 1;
    }
    None
}

/// Relies on std::io::Read::read: on success it reports how many bytes it
/// placed at the front of `buf`, never more than `buf` holds; the length of
/// `buf` is unchanged.
#[verifier::external_body]
fn read_chunk<R: std::io::Read>(reader: &mut R, buf: &mut Vec<u8>) -> (r: std::io::Result<usize>)
    ensures
        final(buf)@.len() == old(buf)@.len(),
        match r {
            Ok(n) => n <= old(buf)@.len(),
            Err(_) => true,
        },
{
    reader.read(buf.as_mut_slice())
}

/// What a comparison of `expected` with the bytes `data` reports: nothing
/// when they are equal, else the place where they first part.
pub open spec fn reports_difference(expected: Seq<u8>, data: Seq<u8>, d: Option<usize>) -> bool {
    match d {
        None => data == expected,
        Some(p) => parts_at(expected, data, p as int),
    }
}

/// One step of a streaming comparison: `expected@[0..pos]` has been matched
/// so far and `chunk` holds the bytes read next. The result is where the
/// bytes read so far first part from `expected` when the chunk departs from
/// `expected[pos..]` or runs past its end, and none when the chunk agrees
/// with `expected` and fits within it.
pub fn scan_chunk(expected: &[u8], pos: usize, chunk: &[u8]) -> (r: Option<usize>)
    requires
        pos <= expected@.len(),
    ensures
        r is None <==> (pos + chunk@.len() <= expected@.len() && chunk@ == expected@.subrange(
            pos as int,
            pos + chunk@.len(),
        )),
        match r {
            Some(p) => parts_at(expected@, expected@.subrange(0, pos as int) + chunk@, p as int),
            None => true,
        },
{
    let ghost data = expected@.subrange(0, pos as int) + chunk@;
    let avail = expected.len() - pos;
    let take: usize = if chunk.len() > avail {
        avail
    } else {
        chunk.len()
    };
    let left = &expected[pos..pos + take];
    let right = &chunk[0..take];
    proof {
        assert forall|j: int| 0 <= j < pos implies #[trigger] expected@[j].eq_spec(&data[j]) by {}
    }
    if let Some(i) = find_slice_not_eq(left, right) {
        assert(parts_at(expected@, data, (pos + i) as int)) by {
            assert forall|j: int| 0 <= j < pos + i implies #[trigger] expected@[j].eq_spec(
                &data[j],
            ) by {
                if j >= pos {
                    assert(left@[j - pos] == expected@[j]);
                    assert(right@[j - pos] == data[j]);
                }
            }
            assert(left@[i as int] == expected@[pos + i]);
            assert(right@[i as int] == data[pos + i]);
        }
        proof {
            if pos + chunk@.len() <= expected@.len() && chunk@ == expected@.subrange(
                pos as int,
                pos + chunk@.len(),
            ) {
                assert(right@[i as int] == chunk@[i as int]);
            }
        }
        return Some(pos + i);
    }
    proof {
        assert forall|j: int| 0 <= j < pos + take implies #[trigger] expected@[j].eq_spec(
            &data[j],
        ) by {
            if j >= pos {
                assert(left@[j - pos] == expected@[j]);
                assert(right@[j - pos] == data[j]);
            }
        }
    }
    if take < chunk.len() {
        assert(parts_at(expected@, data, (pos + take) as int));
        return Some(pos + take);
    }
    proof {
        assert forall|j: int| 0 <= j < chunk@.len() implies chunk@[j] == expected@[pos + j] by {
            assert(left@[j].eq_spec(&right@[j]));
            assert(left@[j] == expected@[pos + j]);
            assert(right@[j] == chunk@[j]);
        }
        assert(chunk@ =~= expected@.subrange(pos as int, pos + chunk@.len()));
    }
    None
}

/// The last step of a streaming comparison: the input ended after
/// `expected[0..pos]` matched. Nothing parts when all of `expected` was read;
/// otherwise the input stopped short at `pos`.
pub fn scan_end(expected_len: usize, pos: usize) -> (r: Option<usize>)
    ensures
        r == if pos == expected_len {
            None::<usize>
        } else {
            Some(pos)
        },
{
    if pos == expected_len {
        None
    } else {
        Some(pos)
    }
}

/// A report on given bytes is unique: two right reports agree.
pub proof fn lemma_report_unique(
    expected: Seq<u8>,
    data: Seq<u8>,
    d: Option<usize>,
    e: Option<usize>,
)
    requires
        reports_difference(expected, data, d),
        reports_difference(expected, data, e),
    ensures
        d == e,
{
    match (d, e) {
        (Some(p), Some(q)) => {
            if p < q {
                assert(expected[p as int].eq_spec(&data[p as int]));
            } else if q < p {
                assert(expected[q as int].eq_spec(&data[q as int]));
            }
        },
        (Some(p), None) => {
            if p < expected.len() && p < data.len() {
                assert(expected[p as int] == data[p as int]);
            }
        },
        (None, Some(q)) => {
            if q < expected.len() && q < data.len() {
                assert(expected[q as int] == data[q as int]);
            }
        },
        (None, None) => {},
    }
}

/// Compares the bytes of a reader with `expected` in chunks of `BUF_SIZE`,
/// without holding more than one chunk, and reports the first offset at which
/// they part (none when the reader yields exactly `expected`). The reader is
/// handed back. Each chunk goes through `scan_chunk` and the end of input
/// through `scan_end`, whose contracts fix the report for given bytes; what
/// the reader yields is outside the library, so what is stated here is that
/// the report is the right one for the bytes it yielded, whatever they were.
pub fn find_read_not_eq<R: std::io::Read>(reader: R, expected: &[u8]) -> (r: std::io::Result<
    (R, Option<usize>),
>)
    ensures
        match r {
            Ok((_, d)) => exists|data: Seq<u8>| reports_difference(expected@, data, d),
            Err(_) => true,
        },
{
    let mut reader = reader;
    let mut buf: Vec<u8> = vec![0u8; BUF_SIZE];
    let mut pos: usize = 0;
    let elen = expected.len();
    let mut n: usize = match read_chunk(&mut reader, &mut buf) {
        Ok(n) => n,
        Err(e) => return Err(e),
    };
    while n > 0
        invariant
            buf@.len() == BUF_SIZE,
            n <= BUF_SIZE,
            pos <= expected@.len(),
            elen == expected@.len(),
        decreases expected@.len() - pos,
    {
        let chunk = &buf.as_slice()[0..n];
        let step = scan_chunk(expected, pos, chunk);
        if let Some(p) = step {
            assert(reports_difference(expected@, expected@.subrange(0, pos as int) + chunk@, Some(p)));
            return Ok((reader, Some(p)));
        }
        assert(chunk@.len() == n);
        assert(step is None);
        pos = pos + n;
        n = match read_chunk(&mut reader, &mut buf) {
            Ok(n) => n,
            Err(e) => return Err(e),
        };
    }
    let d = scan_end(expected.len(), pos);
    let ghost seen = expected@.subrange(0, pos as int);
    proof {
        if pos == expected@.len() {
            assert(seen =~= expected@);
        } else {
            assert forall|j: int| 0 <= j < pos implies #[trigger] expected@[j].eq_spec(&seen[j]) by {}
            assert(parts_at(expected@, seen, pos as int));
        }
    }
    assert(reports_difference(expected@, seen, d));
    Ok((reader, d))
}

/// `current` cut to `len` bytes when it is longer.
pub open spec fn truncated(current: Seq<u8>, len: nat) -> Seq<u8> {
    if current.len() > len {
        current.subrange(0, len as int)
    } else {
        current
    }
}

/// The file's bytes after the patch toward `target`: cut to the target's
/// length, then, where `d` reports that the cut file and the target part, the
/// rest of the target written from there on. Nothing before that offset is
/// rewritten.
pub open spec fn patched(current: Seq<u8>, target: Seq<u8>, d: Option<usize>) -> Seq<u8> {
    let cut = truncated(current, target.len());
    match d {
        None => cut,
        Some(p) => cut.subrange(0, p as int) + target.subrange(p as int, target.len() as int),
    }
}

/// Once patched, a file holds exactly the target; patching it again finds
/// no difference and leaves it as it is.
pub proof fn lemma_patch_converges(
    current: Seq<u8>,
    target: Seq<u8>,
    d: Option<usize>,
    again: Option<usize>,
)
    requires
        reports_difference(target, truncated(current, target.len()), d),
        reports_difference(target, patched(current, target, d), again),
    ensures
        patched(current, target, d) == target,
        again is None,
        patched(patched(current, target, d), target, again) == patched(current, target, d),
{
    let cut = truncated(current, target.len());
    match d {
        None => {},
        Some(p) => {
            let r = patched(current, target, d);
            assert forall|j: int| 0 <= j < target.len() implies r[j] == target[j] by {
                if j < p {
                    assert(target[j].eq_spec(&cut[j]));
                }
            }
            assert(r =~= target);
        },
    }
    if let Some(q) = again {
        assert(target[q as int].eq_spec(&target[q as int]));
    }
}

/// A file of the target's length that differs from it at the single offset
/// `p` is reported to part at `p`, and the patch keeps every byte before `p`.
pub proof fn lemma_patch_minimal_write(
    current: Seq<u8>,
    target: Seq<u8>,
    p: int,
    d: Option<usize>,
)
    requires
        current.len() == target.len(),
        0 <= p < target.len(),
        current[p] != target[p],
        forall|i: int| 0 <= i < target.len() && i != p ==> current[i] == target[i],
        reports_difference(target, truncated(current, target.len()), d),
    ensures
        d == Some(p as usize),
        patched(current, target, d).subrange(0, p) == current.subrange(0, p),
        patched(current, target, d) == target,
{
    assert(truncated(current, target.len()) == current);
    match d {
        None => {
            assert(current[p] == target[p]);
        },
        Some(q) => {
            if q < p {
                assert(current[q as int] == target[q as int]);
            } else if q > p {
                assert(target[p].eq_spec(&current[p]));
            }
        },
    }
    let r = patched(current, target, d);
    assert forall|j: int| 0 <= j < target.len() implies r[j] == target[j] by {
        if j < p {
            assert(current[j] == target[j]);
        }
    }
    assert(r =~= target);
    assert(patched(current, target, d).subrange(0, p) =~= current.subrange(0, p));
}

/// A file that holds the target followed by more bytes is cut to the
/// target's length, after which it holds exactly the target.
pub proof fn lemma_patch_truncates(current: Seq<u8>, target: Seq<u8>, d: Option<usize>)
    requires
        current.len() > target.len(),
        current.subrange(0, target.len() as int) == target,
        reports_difference(target, truncated(current, target.len()), d),
    ensures
        truncated(current, target.len()) == target,
        d is None,
        patched(current, target, d) == target,
{
    if let Some(q) = d {
        assert(target[q as int].eq_spec(&target[q as int]));
    }
}

} // verus!
