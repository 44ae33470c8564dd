//! Line-wise comparison of file contents: splitting bytes into lines and
//! finding the runs of consecutive lines on which two versions disagree.

use vstd::prelude::*;

verus! {

/// A line without the carriage return that ended it, if any.
pub open spec fn strip_cr(l: Seq<u8>) -> Seq<u8> {
    if l.len() > 0 && l.last() == 13u8 {
        l.drop_last()
    } else {
        l
    }
}

/// The lines of `b` from the line that starts at `start`, scanning from
/// position `i`: lines end at a line feed (after which a carriage return is
/// dropped too); text after the last line feed is a last line.
pub open spec fn lines_from(b: Seq<u8>, start: int, i: int) -> Seq<Seq<u8>>
    decreases b.len() - i,
{
    if i < 0 || i >= b.len() {
        if 0 <= start < b.len() {
            seq![b.subrange(start, b.len() as int)]
        } else {
            Seq::empty()
        }
    } else if b[i] == 10u8 {
        seq![strip_cr(b.subrange(start, i))] + lines_from(b, i + 1, i + 1)
    } else {
        lines_from(b, start, i + 1)
    }
}

/// The lines of `b`.
pub open spec fn lines_of(b: Seq<u8>) -> Seq<Seq<u8>> {
    lines_from(b, 0, 0)
}

/// Whether line `i` (from zero) differs between `a` and `b`; a line that
/// only one side has differs.
pub open spec fn line_differs(a: Seq<Seq<u8>>, b: Seq<Seq<u8>>, i: int) -> bool {
    i >= a.len() || i >= b.len() || a[i] != b[i]
}

/// The larger of two counts.
pub open spec fn max_len(a: int, b: int) -> int {
    if a >= b {
        a
    } else {
        b
    }
}

/// The runs of differing lines from line `i` (from zero) on, as inclusive
/// ranges of line numbers counted from one; `open_at` is the number of the
/// first line of a run still open, or zero.
pub open spec fn runs_from(a: Seq<Seq<u8>>, b: Seq<Seq<u8>>, i: int, open_at: int) -> Seq<(int, int)>
    decreases max_len(a.len() as int, b.len() as int) - i,
{
    let n = max_len(a.len() as int, b.len() as int);
    if i < 0 || i >= n {
        if open_at > 0 {
            seq![(open_at, n)]
        } else {
            Seq::empty()
        }
    } else if line_differs(a, b, i) {
        runs_from(a, b, i + 1, if open_at > 0 { open_at } else { i + 1 })
    } else if open_at > 0 {
        seq![(open_at, i)] + runs_from(a, b, i + 1, 0)
    } else {
        runs_from(a, b, i + 1, 0)
    }
}

/// The runs of consecutive lines on which `a` and `b` disagree.
pub open spec fn conflict_runs(a: Seq<Seq<u8>>, b: Seq<Seq<u8>>) -> Seq<(int, int)> {
    runs_from(a, b, 0, 0)
}

/// The bytes of `b` from `start` up to `end`.
pub fn copy_range(b: &[u8], start: usize, end: usize) -> (r: Vec<u8>)
    requires
        start <= end <= b@.len(),
    ensures
        r@ == b@.subrange(start as int, end as int),
{
    let mut out: Vec<u8> = Vec::new();
    let mut i: usize = start;
    while i < end
        invariant
            start <= i <= end,
            end <= b@.len(),
            out@ == b@.subrange(start as int, i as int),
        decreases end - i,
    {
        out.push(b[i]);
        i += 1;
        assert(out@ =~= b@.subrange(start as int, i as int));
    }
    out
}

/// Whether two byte strings are equal.
pub fn bytes_equal(a: &[u8], b: &[u8]) -> (r: bool)
    ensures
        r == (a@ == b@),
{
    if a.len() != b.len() {
        return false;
    }
    let mut i: usize = 0;
    while i < a.len()
        invariant
            i <= a@.len(),
            a@.len() == b@.len(),
            forall|j: int| 0 <= j < i ==> a@[j] == b@[j],
        decreases a@.len() - i,
    {
        if a[i] != b[i] {
            return false;
        }
        i += 1;
    }
    assert(a@ =~= b@);
    true
}

/// The lines of `b`.
pub fn split_lines(b: &[u8]) -> (r: Vec<Vec<u8>>)
    ensures
        r@.map_values(|l: Vec<u8>| l@) == lines_of(b@),
{
    let mut acc: Vec<Vec<u8>> = Vec::new();
    let mut start: usize = 0;
    let mut i: usize = 0;
    assert(acc@.map_values(|l: Vec<u8>| l@) + lines_from(b@, 0, 0) =~= lines_from(b@, 0, 0));
    while i < b.len()
        invariant
            start <= i <= b@.len(),
            lines_of(b@) == acc@.map_values(|l: Vec<u8>| l@) + lines_from(b@, start as int, i as int),
        decreases b@.len() - i,
    {
        if b[i] == 10u8 {
            let mut end: usize = i;
            if end > start && b[end - 1] == 13u8 {
                end = end - 1;
            }
            let line = copy_range(b, start, end);
            proof {
                let whole = b@.subrange(start as int, i as int);
                assert(strip_cr(whole) =~= b@.subrange(start as int, end as int));
            }
            let ghost before = acc@.map_values(|l: Vec<u8>| l@);
            acc.push(line);
            assert(acc@.map_values(|l: Vec<u8>| l@) =~= before.push(strip_cr(b@.subrange(start as int, i as int))));
            assert(before + lines_from(b@, start as int, i as int) =~= acc@.map_values(|l: Vec<u8>| l@)
                + lines_from(b@, i + 1, i + 1));
            i += 1;
            start = i;
        } else {
            i += 1;
        }
    }
    if start < b.len() {
        let line = copy_range(b, start, b.len());
        let ghost before = acc@.map_values(|l: Vec<u8>| l@);
        acc.push(line);
        assert(acc@.map_values(|l: Vec<u8>| l@) =~= before + lines_from(b@, start as int, i as int));
    } else {
        assert(acc@.map_values(|l: Vec<u8>| l@) =~= acc@.map_values(|l: Vec<u8>| l@) + lines_from(b@, start as int, i as int));
    }
    acc
}

/// The runs of consecutive lines on which `a` and `b` disagree, as
/// inclusive `(first, last)` line numbers counted from one.
pub fn disagreeing_runs(a: &Vec<Vec<u8>>, b: &Vec<Vec<u8>>) -> (r: Vec<(usize, usize)>)
    ensures
        r@.map_values(|p: (usize, usize)| (p.0 as int, p.1 as int))
            == conflict_runs(a@.map_values(|l: Vec<u8>| l@), b@.map_values(|l: Vec<u8>| l@)),
{
    let ghost av = a@.map_values(|l: Vec<u8>| l@);
    let ghost bv = b@.map_values(|l: Vec<u8>| l@);
    let n: usize = if a.len() >= b.len() { a.len() } else { b.len() };
    let mut out: Vec<(usize, usize)> = Vec::new();
    let mut open_at: usize = 0;
    let mut i: usize = 0;
    assert(out@.map_values(|p: (usize, usize)| (p.0 as int, p.1 as int)) + runs_from(av, bv, 0, 0)
        =~= runs_from(av, bv, 0, 0));
    while i < n
        invariant
            i <= n,
            n as int == max_len(av.len() as int, bv.len() as int),
            av.len() == a@.len(),
            bv.len() == b@.len(),
            av == a@.map_values(|l: Vec<u8>| l@),
            bv == b@.map_values(|l: Vec<u8>| l@),
            open_at <= i,
            conflict_runs(av, bv) == out@.map_values(|p: (usize, usize)| (p.0 as int, p.1 as int))
                + runs_from(av, bv, i as int, open_at as int),
        decreases n - i,
    {
        let differs = if i >= a.len() || i >= b.len() {
            true
        } else {
            !bytes_equal(a[i].as_slice(), b[i].as_slice())
        };
        let ghost before = out@.map_values(|p: (usize, usize)| (p.0 as int, p.1 as int));
        if differs {
            if open_at == 0 {
                open_at = i + 1;
            }
        } else if open_at > 0 {
            out.push((open_at, i));
            assert(out@.map_values(|p: (usize, usize)| (p.0 as int, p.1 as int)) + runs_from(av, bv, i + 1, 0)
                =~= before + (seq![(open_at as int, i as int)] + runs_from(av, bv, i + 1, 0)));
            open_at = 0;
        }
        i += 1;
    }
    if open_at > 0 {
        let ghost before = out@.map_values(|p: (usize, usize)| (p.0 as int, p.1 as int));
        out.push((open_at, n));
        assert(out@.map_values(|p: (usize, usize)| (p.0 as int, p.1 as int)) =~= before + seq![(open_at as int, n as int)]);
    } else {
        assert(out@.map_values(|p: (usize, usize)| (p.0 as int, p.1 as int))
            =~= out@.map_values(|p: (usize, usize)| (p.0 as int, p.1 as int)) + Seq::<(int, int)>::empty());
    }
    out
}

} // verus!
