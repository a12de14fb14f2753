//! Run-length encoding of per-row values into row ranges.

use vstd::prelude::*;
use core::ops::Range;

verus! {

/// A value that can be merged into a run with its neighbours.
pub trait RunValue: Sized {
    /// Whether `other` continues a run that started with `self`.
    spec fn same_run(&self, other: &Self) -> bool;

    /// Tells whether `other` continues a run that started with `self`.
    fn is_same_run(&self, other: &Self) -> (r: bool)
        ensures
            r == self.same_run(other),
    ;
}

impl RunValue for i32 {
    open spec fn same_run(&self, other: &Self) -> bool {
        *self == *other
    }

    fn is_same_run(&self, other: &Self) -> (r: bool) {
        *self == *other
    }
}

impl RunValue for i64 {
    open spec fn same_run(&self, other: &Self) -> bool {
        *self == *other
    }

    fn is_same_run(&self, other: &Self) -> (r: bool) {
        *self == *other
    }
}

impl RunValue for u32 {
    open spec fn same_run(&self, other: &Self) -> bool {
        *self == *other
    }

    fn is_same_run(&self, other: &Self) -> (r: bool) {
        *self == *other
    }
}

impl RunValue for u64 {
    open spec fn same_run(&self, other: &Self) -> bool {
        *self == *other
    }

    fn is_same_run(&self, other: &Self) -> (r: bool) {
        *self == *other
    }
}

impl RunValue for usize {
    open spec fn same_run(&self, other: &Self) -> bool {
        *self == *other
    }

    fn is_same_run(&self, other: &Self) -> (r: bool) {
        *self == *other
    }
}

/// The value in force at position `i`: the last value at or before `i`
/// (`None` marks a position that repeats the value before it).
pub open spec fn filled<T>(xs: Seq<Option<T>>, i: int) -> T
    decreases i,
{
    if i <= 0 || xs[i] is Some {
        xs[i]->Some_0
    } else {
        filled(xs, i - 1)
    }
}

/// `out` is the run encoding of the first `len` positions of `xs`:
/// non-empty ranges that follow one another from 0 to `len`, each starting
/// at a value that does not continue the run before it, and holding only
/// gaps and values that continue its run.
pub open spec fn encodes_prefix<T: RunValue>(
    xs: Seq<Option<T>>,
    len: int,
    out: Seq<(T, Range<usize>)>,
) -> bool {
    &&& (out.len() == 0 <==> len == 0)
    &&& out.len() > 0 ==> out[0].1.start == 0 && out[out.len() - 1].1.end == len
    &&& forall|k: int| 0 <= k < out.len() ==> (#[trigger] out[k]).1.start < out[k].1.end
    &&& forall|k: int| 0 <= k < out.len() - 1 ==> (#[trigger] out[k]).1.end == out[k + 1].1.start
    &&& forall|k: int| 0 <= k < out.len() ==> xs[(#[trigger] out[k]).1.start as int] == Some(out[k].0)
    &&& forall|k: int, i: int|
        #![trigger out[k], xs[i]]
        0 <= k < out.len() && out[k].1.start < i < out[k].1.end ==> (xs[i] is None
            || out[k].0.same_run(&xs[i]->Some_0))
    &&& forall|k: int| 0 <= k < out.len() - 1 ==> !(#[trigger] out[k]).0.same_run(&out[k + 1].0)
}

/// `out` is the run encoding of all of `xs`.
pub open spec fn is_run_encoding<T: RunValue>(
    xs: Seq<Option<T>>,
    out: Seq<(T, Range<usize>)>,
) -> bool {
    encodes_prefix(xs, xs.len() as int, out)
}

/// Merges runs of values into `(value, rows)` pairs. A `None` repeats the
/// value before it; a value that continues the current run joins it.
pub fn range_encode<T: RunValue>(items: Vec<Option<T>>) -> (r: Vec<(T, Range<usize>)>)
    requires
        items@.len() == 0 || items@[0] is Some,
    ensures
        is_run_encoding(items@, r@),
{
    let ghost xs = items@;
    let mut items = items;
    let n = items.len();
    let mut out: Vec<(T, Range<usize>)> = Vec::new();
    let mut cur: Option<T> = None;
    let mut start: usize = 0;
    let mut i: usize = 0;
    while i < n
        invariant
            n == xs.len(),
            items@.len() == n,
            0 <= i <= n,
            forall|j: int| i <= j < n ==> items@[j] == xs[j],
            xs.len() == 0 || xs[0] is Some,
            (cur is None) == (i == 0),
            i == 0 ==> out@.len() == 0 && start == 0,
            i > 0 ==> start < i && encodes_prefix(
                xs,
                i as int,
                out@.push((cur->Some_0, Range { start, end: i })),
            ),
        decreases n - i,
    {
        let mut x: Option<T> = None;
        items.set_and_swap(i, &mut x);
        proof {
            assert(x == xs[i as int]);
        }
        match x {
            None => {
                proof {
                    lemma_extend_run(xs, out@, cur->Some_0, start, i);
                }
            },
            Some(v) => {
                match cur {
                    None => {
                        proof {
                            let o2 = seq![(v, Range { start: 0usize, end: 1usize })];
                            assert(out@.push((v, Range { start: 0usize, end: 1usize })) =~= o2);
                        }
                        cur = Some(v);
                    },
                    Some(c) => {
                        if c.is_same_run(&v) {
                            proof {
                                lemma_extend_run(xs, out@, c, start, i);
                            }
                            cur = Some(c);
                        } else {
                            proof {
                                lemma_new_run(xs, out@, c, start, i);
                            }
                            out.push((c, Range { start, end: i }));
                            start = i;
                            cur = Some(v);
                        }
                    },
                }
            },
        }
        i = i + 1;
    }
    match cur {
        Some(c) => {
            out.push((c, Range { start, end: n }));
        },
        None => {},
    }
    out
}

proof fn lemma_extend_run<T: RunValue>(
    xs: Seq<Option<T>>,
    prev: Seq<(T, Range<usize>)>,
    c: T,
    start: usize,
    i: usize,
)
    requires
        start < i < xs.len() <= usize::MAX,
        encodes_prefix(xs, i as int, prev.push((c, Range { start, end: i }))),
        xs[i as int] is None || c.same_run(&xs[i as int]->Some_0),
    ensures
        encodes_prefix(xs, i + 1, prev.push((c, Range { start, end: (i + 1) as usize }))),
{
    let o1 = prev.push((c, Range { start, end: i }));
    let o2 = prev.push((c, Range { start, end: (i + 1) as usize }));
    assert forall|k: int, j: int|
        #![trigger o2[k], xs[j]]
        0 <= k < o2.len() && o2[k].1.start < j < o2[k].1.end implies (xs[j] is None
            || o2[k].0.same_run(&xs[j]->Some_0)) by {
        if k < o2.len() - 1 {
            assert(o1[k] == o2[k]);
        } else if j < i {
            assert(o1[k].0 == o2[k].0);
        }
    }
    assert forall|k: int| 0 <= k < o2.len() implies xs[(#[trigger] o2[k]).1.start as int] == Some(
        o2[k].0,
    ) by {
        assert(o1[k] == o2[k] || k == o2.len() - 1);
    }
    assert forall|k: int| 0 <= k < o2.len() - 1 implies (#[trigger] o2[k]).1.end == o2[k
        + 1].1.start by {
        assert(o1[k] == o2[k]);
    }
    assert forall|k: int| 0 <= k < o2.len() - 1 implies !(#[trigger] o2[k]).0.same_run(
        &o2[k + 1].0,
    ) by {
        assert(o1[k] == o2[k]);
        assert(o1[k + 1] == o2[k + 1] || k + 1 == o2.len() - 1);
    }
    assert forall|k: int| 0 <= k < o2.len() implies (#[trigger] o2[k]).1.start < o2[k].1.end by {
        assert(o1[k] == o2[k] || k == o2.len() - 1);
    }
    assert(o2.len() > 0 ==> o2[0].1.start == 0 && o2[o2.len() - 1].1.end == i + 1) by {
        assert(o1[0].1.start == o2[0].1.start);
    }
}

proof fn lemma_new_run<T: RunValue>(
    xs: Seq<Option<T>>,
    prev: Seq<(T, Range<usize>)>,
    c: T,
    start: usize,
    i: usize,
)
    requires
        start < i < xs.len() <= usize::MAX,
        encodes_prefix(xs, i as int, prev.push((c, Range { start, end: i }))),
        xs[i as int] is Some,
        !c.same_run(&xs[i as int]->Some_0),
    ensures
        encodes_prefix(
            xs,
            i + 1,
            prev.push((c, Range { start, end: i })).push(
                (xs[i as int]->Some_0, Range { start: i, end: (i + 1) as usize }),
            ),
        ),
{
    let v = xs[i as int]->Some_0;
    let o1 = prev.push((c, Range { start, end: i }));
    let o2 = o1.push((v, Range { start: i, end: (i + 1) as usize }));
    assert forall|k: int, j: int|
        #![trigger o2[k], xs[j]]
        0 <= k < o2.len() && o2[k].1.start < j < o2[k].1.end implies (xs[j] is None
            || o2[k].0.same_run(&xs[j]->Some_0)) by {
        if k < o2.len() - 1 {
            assert(o1[k] == o2[k]);
        }
    }
    assert forall|k: int| 0 <= k < o2.len() implies xs[(#[trigger] o2[k]).1.start as int] == Some(
        o2[k].0,
    ) by {
        if k < o2.len() - 1 {
            assert(o1[k] == o2[k]);
            assert(o1[k] == o2[k] || k == o2.len() - 1);
        }
    }
    assert forall|k: int| 0 <= k < o2.len() - 1 implies (#[trigger] o2[k]).1.end == o2[k
        + 1].1.start by {
        assert(o1[k] == o2[k]);
        if k < o1.len() - 1 {
            assert(o1[k + 1] == o2[k + 1]);
        }
    }
    assert forall|k: int| 0 <= k < o2.len() - 1 implies !(#[trigger] o2[k]).0.same_run(
        &o2[k + 1].0,
    ) by {
        assert(o1[k] == o2[k]);
        if k < o1.len() - 1 {
            assert(o1[k + 1] == o2[k + 1]);
        }
    }
    assert forall|k: int| 0 <= k < o2.len() implies (#[trigger] o2[k]).1.start < o2[k].1.end by {
        assert(o1[k] == o2[k] || k == o2.len() - 1);
    }
    assert(o2[0].1.start == 0) by {
        assert(o1[0] == o2[0]);
    }
}

/// Inflating the runs gives back the input with each gap filled by the
/// value before it: every row of a run holds the run's value or a value that
/// continues it, and so, where values continue a run exactly when they are
/// equal, holds the run's value itself.
pub proof fn lemma_runs_inflate<T: RunValue>(
    xs: Seq<Option<T>>,
    out: Seq<(T, Range<usize>)>,
    k: int,
    i: int,
)
    requires
        is_run_encoding(xs, out),
        0 <= k < out.len(),
        out[k].1.start <= i < out[k].1.end,
    ensures
        filled(xs, i) == out[k].0 || out[k].0.same_run(&filled(xs, i)),
        (forall|a: T, b: T| #[trigger] a.same_run(&b) <==> a == b) ==> filled(xs, i) == out[k].0,
    decreases i,
{
    if i > out[k].1.start {
        if xs[i] is None {
            lemma_runs_inflate(xs, out, k, i - 1);
        } else {
            assert(out[k].0.same_run(&xs[i]->Some_0));
        }
    }
}

} // verus!
