//! Sequence edits that the contracts of the buffer are stated with.

use vstd::prelude::*;

verus! {

/// `s` with `t` put in before index `at`.
pub open spec fn splice<A>(s: Seq<A>, at: int, t: Seq<A>) -> Seq<A> {
    s.subrange(0, at) + t + s.subrange(at, s.len() as int)
}

/// `s` without the elements at the indices `from..to`.
pub open spec fn cut<A>(s: Seq<A>, from: int, to: int) -> Seq<A> {
    s.subrange(0, from) + s.subrange(to, s.len() as int)
}

/// `s` with the elements from index `at` on overwritten by `t`, the length kept.
pub open spec fn overwrite<A>(s: Seq<A>, at: int, t: Seq<A>) -> Seq<A> {
    s.subrange(0, at) + t + s.subrange(at + t.len(), s.len() as int)
}

/// The smaller of `a` and `b`.
pub open spec fn min_int(a: int, b: int) -> int {
    if a <= b {
        a
    } else {
        b
    }
}

/// The smaller of `a` and `b`.
pub fn min_usize(a: usize, b: usize) -> (m: usize)
    ensures
        m == min_int(a as int, b as int),
{
    if a <= b {
        a
    } else {
        b
    }
}

/// Cutting a range out of `l + r` cuts from each part what of the range
/// falls into it.
pub proof fn lemma_cut_concat<A>(l: Seq<A>, r: Seq<A>, start: int, end: int)
    requires
        0 <= start < end,
        start <= l.len() + r.len(),
    ensures
        ({
            let stop = min_int(end, (l.len() + r.len()) as int);
            let l2 = if start <= l.len() {
                cut(l, start, min_int(end, l.len() as int))
            } else {
                l
            };
            let from = if start < l.len() {
                0
            } else {
                start - l.len()
            };
            let r2 = if end > l.len() {
                cut(r, from, min_int(end - l.len(), r.len() as int))
            } else {
                r
            };
            &&& cut(l + r, start, stop) == l2 + r2
            &&& l2.len() == l.len() - (if start <= l.len() {
                min_int(end, l.len() as int) - start
            } else {
                0
            })
            &&& r2.len() == r.len() - (if end > l.len() {
                min_int(end - l.len(), r.len() as int) - from
            } else {
                0
            })
        }),
{
    let stop = min_int(end, (l.len() + r.len()) as int);
    let l2 = if start <= l.len() {
        cut(l, start, min_int(end, l.len() as int))
    } else {
        l
    };
    let from = if start < l.len() {
        0
    } else {
        start - l.len()
    };
    let r2 = if end > l.len() {
        cut(r, from, min_int(end - l.len(), r.len() as int))
    } else {
        r
    };
    assert(cut(l + r, start, stop) =~= l2 + r2);
}

/// A range of `l + r` is made of what of the range falls into `l` and what
/// of it falls into `r`.
pub proof fn lemma_subrange_concat<A>(l: Seq<A>, r: Seq<A>, start: int, end: int)
    requires
        0 <= start <= end <= l.len() + r.len(),
    ensures
        ({
            let l2 = if start < l.len() {
                l.subrange(start, min_int(end, l.len() as int))
            } else {
                Seq::empty()
            };
            let from = if start < l.len() {
                0
            } else {
                start - l.len()
            };
            let r2 = if end > l.len() {
                r.subrange(from, end - l.len())
            } else {
                Seq::empty()
            };
            (l + r).subrange(start, end) == l2 + r2
        }),
{
    let l2 = if start < l.len() {
        l.subrange(start, min_int(end, l.len() as int))
    } else {
        Seq::empty()
    };
    let from = if start < l.len() {
        0
    } else {
        start - l.len()
    };
    let r2 = if end > l.len() {
        r.subrange(from, end - l.len())
    } else {
        Seq::empty()
    };
    assert((l + r).subrange(start, end) =~= l2 + r2);
}

/// The two parts of a sequence without repeats have no repeats and share
/// no element.
pub proof fn lemma_no_duplicates_concat<A>(l: Seq<A>, r: Seq<A>)
    requires
        (l + r).no_duplicates(),
    ensures
        l.no_duplicates(),
        r.no_duplicates(),
        forall|i: int, j: int| 0 <= i < l.len() && 0 <= j < r.len() ==> l[i] != r[j],
{
    let s = l + r;
    assert forall|i: int, j: int| 0 <= i < l.len() && 0 <= j < l.len() && i != j implies l[i] != l[j] by {
        assert(s[i] == l[i] && s[j] == l[j]);
    }
    assert forall|i: int, j: int| 0 <= i < r.len() && 0 <= j < r.len() && i != j implies r[i] != r[j] by {
        assert(s[l.len() + i] == r[i] && s[l.len() + j] == r[j]);
    }
    assert forall|i: int, j: int| 0 <= i < l.len() && 0 <= j < r.len() implies l[i] != r[j] by {
        assert(s[i] == l[i] && s[l.len() + j] == r[j]);
    }
}

/// Splicing into `l + r` splices into the part that the offset falls
/// into, the left one where it falls between the two.
pub proof fn lemma_splice_concat<A>(l: Seq<A>, r: Seq<A>, at: int, t: Seq<A>)
    requires
        0 <= at <= l.len() + r.len(),
    ensures
        at <= l.len() ==> splice(l + r, at, t) == splice(l, at, t) + r,
        at > l.len() ==> splice(l + r, at, t) == l + splice(r, at - l.len(), t),
{
    if at <= l.len() {
        assert(splice(l + r, at, t) =~= splice(l, at, t) + r);
    } else {
        assert(splice(l + r, at, t) =~= l + splice(r, at - l.len(), t));
    }
}

} // verus!
