//! Sets of row ranges of a batch that belong to one partition.

use vstd::prelude::*;
use core::ops::Range;
use crate::batch::{Batch, Column, ColumnValues, all_hashable};
use crate::error::{PartitionKeyError, PartitionWriteError, TimeColumnError};
use crate::key_index::{KeyIndex, key_index_entries};
use crate::template::{
    TemplatePart, partition_batch, row_key, parts_valid, is_key_ranges, key_view, same_key,
    MAXIMUM_NUMBER_OF_TEMPLATE_PARTS,
};
use vstd::slice::slice_subrange;

verus! {

/// Row `i` lies in one of `ranges`.
pub open spec fn covers(ranges: Seq<Range<usize>>, i: int) -> bool {
    exists|m: int| 0 <= m < ranges.len() && (#[trigger] ranges[m]).start <= i < ranges[m].end
}

/// The number of rows in `ranges`.
pub open spec fn ranges_len(ranges: Seq<Range<usize>>) -> int
    decreases ranges.len(),
{
    if ranges.len() == 0 {
        0
    } else {
        ranges_len(ranges.drop_last()) + (ranges.last().end - ranges.last().start)
    }
}

/// `ranges` are non-empty, in increasing order without overlap, and end by
/// row `rows`.
pub open spec fn ranges_ordered(ranges: Seq<Range<usize>>, rows: int) -> bool {
    &&& forall|m: int|
        0 <= m < ranges.len() ==> (#[trigger] ranges[m]).start < ranges[m].end <= rows
    &&& forall|m: int| 0 <= m < ranges.len() - 1 ==> (#[trigger] ranges[m]).end <= ranges[m + 1].start
}

/// `m` is the least of `s`.
pub open spec fn is_min_of(s: Seq<i64>, m: i64) -> bool {
    &&& forall|i: int| 0 <= i < s.len() ==> m <= #[trigger] s[i]
    &&& exists|i: int| 0 <= i < s.len() && #[trigger] s[i] == m
}

/// `m` is the greatest of `s`.
pub open spec fn is_max_of(s: Seq<i64>, m: i64) -> bool {
    &&& forall|i: int| 0 <= i < s.len() ==> #[trigger] s[i] <= m
    &&& exists|i: int| 0 <= i < s.len() && #[trigger] s[i] == m
}

/// The rows in `ranges` of batch `b`, with their count and the least and
/// greatest of their timestamps: what a [`PartitionWrite`] holds.
pub open spec fn valid_write(
    b: Batch,
    ranges: Seq<Range<usize>>,
    min: i64,
    max: i64,
    count: usize,
) -> bool {
    &&& b.wf()
    &&& b.time is Some
    &&& ranges.len() > 0
    &&& ranges_ordered(ranges, b.rows as int)
    &&& count == ranges_len(ranges)
    &&& count > 0
    &&& forall|i: int| covers(ranges, i) ==> min <= #[trigger] b.time->Some_0@[i] <= max
    &&& exists|i: int| covers(ranges, i) && #[trigger] b.time->Some_0@[i] == min
    &&& exists|i: int| covers(ranges, i) && #[trigger] b.time->Some_0@[i] == max
}

/// The least and the greatest timestamp of `col`; `(i64::MAX, i64::MIN)`
/// for no timestamps.
pub fn min_max_time(col: &[i64]) -> (r: (i64, i64))
    ensures
        col@.len() == 0 ==> r == (i64::MAX, i64::MIN),
        col@.len() > 0 ==> is_min_of(col@, r.0) && is_max_of(col@, r.1),
{
    let mut min_timestamp = i64::MAX;
    let mut max_timestamp = i64::MIN;
    let mut i: usize = 0;
    while i < col.len()
        invariant
            0 <= i <= col@.len(),
            i == 0 ==> min_timestamp == i64::MAX && max_timestamp == i64::MIN,
            i > 0 ==> is_min_of(col@.take(i as int), min_timestamp),
            i > 0 ==> is_max_of(col@.take(i as int), max_timestamp),
        decreases col@.len() - i,
    {
        let t = col[i];
        let ghost before = col@.take(i as int);
        let ghost after = col@.take(i + 1);
        proof {
            assert forall|j: int| 0 <= j < i implies after[j] == before[j] by {}
            assert(after[i as int] == t);
            if i > 0 {
                let a = choose|j: int| 0 <= j < before.len() && #[trigger] before[j] == min_timestamp;
                let c = choose|j: int| 0 <= j < before.len() && #[trigger] before[j] == max_timestamp;
                assert(after[a] == min_timestamp);
                assert(after[c] == max_timestamp);
            }
        }
        if t < min_timestamp {
            min_timestamp = t;
        }
        if t > max_timestamp {
            max_timestamp = t;
        }
        proof {
            assert(is_min_of(after, min_timestamp));
            assert(is_max_of(after, max_timestamp));
        }
        i = i + 1;
    }
    proof {
        assert(col@.take(i as int) =~= col@);
    }
    (min_timestamp, max_timestamp)
}

proof fn lemma_covers_push(rs: Seq<Range<usize>>, r: Range<usize>, i: int)
    ensures
        covers(rs.push(r), i) <==> covers(rs, i) || (r.start <= i < r.end),
{
    let p = rs.push(r);
    if covers(p, i) {
        let m = choose|m: int| 0 <= m < p.len() && (#[trigger] p[m]).start <= i < p[m].end;
        if m < rs.len() {
            assert(rs[m] == p[m]);
        }
    }
    if covers(rs, i) {
        let m = choose|m: int| 0 <= m < rs.len() && (#[trigger] rs[m]).start <= i < rs[m].end;
        assert(rs[m] == p[m]);
    }
    if r.start <= i < r.end {
        assert(p[rs.len() as int] == r);
    }
}

proof fn lemma_ranges_len_bound(rs: Seq<Range<usize>>, lim: int)
    requires
        ranges_ordered(rs, lim),
    ensures
        0 <= ranges_len(rs),
        rs.len() == 0 ==> ranges_len(rs) == 0,
        rs.len() > 0 ==> ranges_len(rs) <= rs.last().end,
    decreases rs.len(),
{
    if rs.len() > 0 {
        let d = rs.drop_last();
        assert(ranges_ordered(d, lim)) by {
            assert forall|m: int| 0 <= m < d.len() implies (#[trigger] d[m]).start < d[m].end <= lim by {
                assert(d[m] == rs[m]);
            }
            assert forall|m: int| 0 <= m < d.len() - 1 implies (#[trigger] d[m]).end <= d[m
                + 1].start by {
                assert(d[m] == rs[m]);
                assert(d[m + 1] == rs[m + 1]);
            }
        }
        lemma_ranges_len_bound(d, lim);
        if d.len() > 0 {
            assert(d.last() == rs[rs.len() - 2]);
        }
    }
}

proof fn lemma_ranges_len_positive(rs: Seq<Range<usize>>, lim: int, k: int)
    requires
        ranges_ordered(rs, lim),
        0 <= k < rs.len(),
    ensures
        ranges_len(rs) > 0,
    decreases rs.len(),
{
    let d = rs.drop_last();
    assert(ranges_ordered(d, lim)) by {
        assert forall|m: int| 0 <= m < d.len() implies (#[trigger] d[m]).start < d[m].end <= lim by {
            assert(d[m] == rs[m]);
        }
        assert forall|m: int| 0 <= m < d.len() - 1 implies (#[trigger] d[m]).end <= d[m + 1].start by {
            assert(d[m] == rs[m]);
            assert(d[m + 1] == rs[m + 1]);
        }
    }
    lemma_ranges_len_bound(d, lim);
}

proof fn lemma_ordered_push(rs: Seq<Range<usize>>, r: Range<usize>, lim: int, new_lim: int)
    requires
        ranges_ordered(rs, lim),
        lim <= new_lim,
        r.start < r.end <= new_lim,
        rs.len() > 0 ==> rs.last().end <= r.start,
    ensures
        ranges_ordered(rs.push(r), new_lim),
{
    let p = rs.push(r);
    assert forall|m: int| 0 <= m < p.len() implies (#[trigger] p[m]).start < p[m].end <= new_lim by {
        if m < rs.len() {
            assert(p[m] == rs[m]);
        }
    }
    assert forall|m: int| 0 <= m < p.len() - 1 implies (#[trigger] p[m]).end <= p[m + 1].start by {
        assert(p[m] == rs[m]);
        if m + 1 < rs.len() {
            assert(p[m + 1] == rs[m + 1]);
        }
    }
}

/// `out` holds `count` rows in order, ending by row `lim`, whose timestamps
/// lie between `min` and `max`, both reached where `count > 0`.
#[verifier::opaque]
spec fn summary_ok(out: Seq<Range<usize>>, count: usize, min: i64, max: i64, ts: Seq<i64>, lim: int) -> bool {
    &&& ranges_ordered(out, lim)
    &&& count == ranges_len(out)
    &&& count == 0 ==> min == i64::MAX && max == i64::MIN
    &&& forall|j: int| covers(out, j) ==> min <= #[trigger] ts[j] <= max
    &&& count > 0 ==> exists|j: int| covers(out, j) && #[trigger] ts[j] == min
    &&& count > 0 ==> exists|j: int| covers(out, j) && #[trigger] ts[j] == max
}

proof fn lemma_summary_weaken(out: Seq<Range<usize>>, count: usize, min: i64, max: i64, ts: Seq<i64>, lim: int, new_lim: int)
    requires
        summary_ok(out, count, min, max, ts, lim),
        lim <= new_lim,
    ensures
        summary_ok(out, count, min, max, ts, new_lim),
{
    reveal(summary_ok);
}

proof fn lemma_summary_count_bound(out: Seq<Range<usize>>, count: usize, min: i64, max: i64, ts: Seq<i64>, lim: int)
    requires
        summary_ok(out, count, min, max, ts, lim),
        lim >= 0,
    ensures
        count <= lim,
        out.len() > 0 ==> out.last().end <= lim,
        ranges_ordered(out, lim),
{
    reveal(summary_ok);
    lemma_ranges_len_bound(out, lim);
}

proof fn lemma_extend_last(rs: Seq<Range<usize>>, i: int)
    requires
        rs.len() > 0,
        rs.last().end == i,
        0 <= i < usize::MAX,
        ranges_ordered(rs, i),
    ensures
        ({
            let r2 = rs.drop_last().push(Range { start: rs.last().start, end: (i + 1) as usize });
            &&& ranges_len(r2) == ranges_len(rs) + 1
            &&& ranges_ordered(r2, i + 1)
            &&& forall|j: int| #[trigger] covers(r2, j) <==> covers(rs, j) || j == i
        }),
{
    let d = rs.drop_last();
    let r = rs.last();
    let r2 = d.push(Range { start: r.start, end: (i + 1) as usize });
    assert(r2.drop_last() =~= d);
    assert(rs =~= d.push(r));
    assert(rs[rs.len() - 1] == r);
    assert forall|m: int| 0 <= m < r2.len() implies (#[trigger] r2[m]).start < r2[m].end <= i + 1 by {
        if m < d.len() {
            assert(r2[m] == rs[m]);
        }
    }
    assert forall|m: int| 0 <= m < r2.len() - 1 implies (#[trigger] r2[m]).end <= r2[m + 1].start by {
        assert(r2[m] == rs[m]);
        if m + 1 < d.len() {
            assert(r2[m + 1] == rs[m + 1]);
        } else {
            assert(rs[m].end <= rs[m + 1].start);
        }
    }
    assert forall|j: int| #[trigger] covers(r2, j) <==> covers(rs, j) || j == i by {
        lemma_covers_push(d, Range { start: r.start, end: (i + 1) as usize }, j);
        lemma_covers_push(d, r, j);
    }
}

proof fn lemma_push_row(rs: Seq<Range<usize>>, i: int)
    requires
        0 <= i < usize::MAX,
        ranges_ordered(rs, i),
    ensures
        ({
            let r2 = rs.push(Range { start: i as usize, end: (i + 1) as usize });
            &&& ranges_len(r2) == ranges_len(rs) + 1
            &&& ranges_ordered(r2, i + 1)
            &&& forall|j: int| #[trigger] covers(r2, j) <==> covers(rs, j) || j == i
        }),
{
    let r2 = rs.push(Range { start: i as usize, end: (i + 1) as usize });
    assert(r2.drop_last() =~= rs);
    lemma_ordered_push(rs, Range { start: i as usize, end: (i + 1) as usize }, i, i + 1);
    assert forall|j: int| #[trigger] covers(r2, j) <==> covers(rs, j) || j == i by {
        lemma_covers_push(rs, Range { start: i as usize, end: (i + 1) as usize }, j);
    }
}

proof fn lemma_summary_add_row(out: Seq<Range<usize>>, out2: Seq<Range<usize>>, count: usize, min: i64, max: i64, ts: Seq<i64>, i: int)
    requires
        summary_ok(out, count, min, max, ts, i),
        0 <= i < ts.len(),
        count < usize::MAX,
        ranges_len(out2) == ranges_len(out) + 1,
        forall|j: int| #[trigger] covers(out2, j) <==> covers(out, j) || j == i,
        ranges_ordered(out2, i + 1),
    ensures
        summary_ok(
            out2,
            (count + 1) as usize,
            if ts[i] < min { ts[i] } else { min },
            if ts[i] > max { ts[i] } else { max },
            ts,
            i + 1,
        ),
{
    reveal(summary_ok);
    let t = ts[i];
    let nmin = if t < min { t } else { min };
    let nmax = if t > max { t } else { max };
    assert(covers(out2, i));
    if count > 0 {
        let a = choose|j: int| covers(out, j) && #[trigger] ts[j] == min;
        let c = choose|j: int| covers(out, j) && #[trigger] ts[j] == max;
        assert(covers(out2, a));
        assert(covers(out2, c));
    }
    assert forall|j: int| covers(out2, j) implies nmin <= #[trigger] ts[j] <= nmax by {
        if j != i {
            assert(covers(out, j));
        }
    }
}

/// Whether `predicate` keeps the timestamp `t`.
pub open spec fn keeps<F: Fn(i64) -> bool>(predicate: F, t: i64) -> bool {
    predicate.ensures((t,), true)
}

/// `ws` gathers the rows of `b` by partition key: each entry is a key with
/// the write of exactly the rows whose key it is, no key comes twice, and
/// every row is in some write.
pub open spec fn is_partitioning(
    b: Batch,
    parts: Seq<TemplatePart>,
    ws: Seq<(String, PartitionWrite)>,
) -> bool {
    &&& forall|j: int| 0 <= j < ws.len() ==> (#[trigger] ws[j]).1.wf() && ws[j].1.spec_batch() == b
    &&& forall|j1: int, j2: int|
        0 <= j1 < j2 < ws.len() ==> (#[trigger] ws[j1]).0@ != (#[trigger] ws[j2]).0@
    &&& forall|j: int, i: int|
        0 <= j < ws.len() && #[trigger] covers((#[trigger] ws[j]).1.spec_ranges(), i) ==> row_key(
            b,
            parts,
            i,
        ) == Ok::<Seq<char>, PartitionKeyError>(ws[j].0@)
    &&& forall|i: int| 0 <= i < b.rows ==> #[trigger] covers_somewhere(ws, i)
}

/// Row `f` is the first row of `b` whose key fails, with error `e`.
pub open spec fn first_key_error(b: Batch, parts: Seq<TemplatePart>, f: int, e: PartitionKeyError) -> bool {
    &&& 0 <= f < b.rows
    &&& row_key(b, parts, f) == Err::<Seq<char>, PartitionKeyError>(e)
    &&& forall|i: int| 0 <= i < f ==> (#[trigger] row_key(b, parts, i)) is Ok
}

proof fn lemma_write_single(b: Batch, range: Range<usize>, lo: i64, hi: i64)
    requires
        b.wf(),
        b.time is Some,
        range.start < range.end <= b.rows,
        is_min_of(b.time->Some_0@.subrange(range.start as int, range.end as int), lo),
        is_max_of(b.time->Some_0@.subrange(range.start as int, range.end as int), hi),
    ensures
        valid_write(b, seq![range], lo, hi, (range.end - range.start) as usize),
        forall|i: int| #[trigger] covers(seq![range], i) <==> range.start <= i < range.end,
{
    let rs = seq![range];
    let ts = b.time->Some_0@;
    let sub = ts.subrange(range.start as int, range.end as int);
    assert(rs.drop_last() =~= Seq::<Range<usize>>::empty());
    assert(ranges_len(rs.drop_last()) == 0);
    assert forall|i: int| #[trigger] covers(rs, i) <==> range.start <= i < range.end by {
        if range.start <= i < range.end {
            assert(rs[0] == range);
        }
    }
    assert forall|i: int| covers(rs, i) implies lo <= #[trigger] ts[i] <= hi by {
        assert(sub[i - range.start] == ts[i]);
    }
    let a = choose|j: int| 0 <= j < sub.len() && #[trigger] sub[j] == lo;
    let c = choose|j: int| 0 <= j < sub.len() && #[trigger] sub[j] == hi;
    assert(covers(rs, a + range.start));
    assert(ts[a + range.start] == lo);
    assert(covers(rs, c + range.start));
    assert(ts[c + range.start] == hi);
}

#[verifier::spinoff_prover]
#[verifier::rlimit(80)]
proof fn lemma_write_add_range(
    b: Batch,
    rs: Seq<Range<usize>>,
    min: i64,
    max: i64,
    count: usize,
    range: Range<usize>,
    lo: i64,
    hi: i64,
)
    requires
        valid_write(b, rs, min, max, count),
        rs.last().end <= range.start,
        range.start < range.end <= b.rows,
        is_min_of(b.time->Some_0@.subrange(range.start as int, range.end as int), lo),
        is_max_of(b.time->Some_0@.subrange(range.start as int, range.end as int), hi),
    ensures
        count + (range.end - range.start) <= b.rows,
        valid_write(
            b,
            rs.push(range),
            if lo < min { lo } else { min },
            if hi > max { hi } else { max },
            (count + (range.end - range.start)) as usize,
        ),
        forall|i: int| #[trigger] covers(rs.push(range), i) <==> covers(rs, i) || (range.start <= i < range.end),
{
    let p = rs.push(range);
    let ts = b.time->Some_0@;
    let sub = ts.subrange(range.start as int, range.end as int);
    let nmin = if lo < min { lo } else { min };
    let nmax = if hi > max { hi } else { max };
    assert(p.drop_last() =~= rs);
    lemma_ordered_push(rs, range, b.rows as int, b.rows as int);
    lemma_ranges_len_bound(p, b.rows as int);
    assert forall|i: int| #[trigger] covers(p, i) <==> covers(rs, i) || (range.start <= i < range.end) by {
        lemma_covers_push(rs, range, i);
    }
    assert forall|i: int| covers(p, i) implies nmin <= #[trigger] ts[i] <= nmax by {
        if range.start <= i < range.end {
            assert(sub[i - range.start] == ts[i]);
        }
    }
    if lo < min {
        let a = choose|j: int| 0 <= j < sub.len() && #[trigger] sub[j] == lo;
        assert(covers(p, a + range.start));
        assert(ts[a + range.start] == lo);
    } else {
        let a = choose|i: int| covers(rs, i) && #[trigger] ts[i] == min;
        assert(covers(p, a));
    }
    if hi > max {
        let c = choose|j: int| 0 <= j < sub.len() && #[trigger] sub[j] == hi;
        assert(covers(p, c + range.start));
        assert(ts[c + range.start] == hi);
    } else {
        let c = choose|i: int| covers(rs, i) && #[trigger] ts[i] == max;
        assert(covers(p, c));
    }
}

proof fn lemma_row_in_some_write(b: Batch, parts: Seq<TemplatePart>, ws: Seq<(String, PartitionWrite)>, i: int)
    requires
        is_partitioning(b, parts, ws),
    ensures
        covers_somewhere(ws, i) <==> 0 <= i < b.rows,
{
    if covers_somewhere(ws, i) {
        let j = choose|j: int| 0 <= j < ws.len() && #[trigger] covers(ws[j].1.spec_ranges(), i);
        let rs = ws[j].1.spec_ranges();
        let m = choose|m: int| 0 <= m < rs.len() && (#[trigger] rs[m]).start <= i < rs[m].end;
        assert(ws[j].1.wf());
        assert(ranges_ordered(rs, b.rows as int));
        assert(rs[m].end <= b.rows);
    }
}

proof fn lemma_row_in_one_write(b: Batch, parts: Seq<TemplatePart>, ws: Seq<(String, PartitionWrite)>, i: int, j1: int, j2: int)
    requires
        is_partitioning(b, parts, ws),
        0 <= j1 < ws.len(),
        0 <= j2 < ws.len(),
        covers(ws[j1].1.spec_ranges(), i),
        covers(ws[j2].1.spec_ranges(), i),
    ensures
        j1 == j2,
{
    assert(row_key(b, parts, i) == Ok::<Seq<char>, PartitionKeyError>(ws[j1].0@));
    assert(row_key(b, parts, i) == Ok::<Seq<char>, PartitionKeyError>(ws[j2].0@));
    if j1 < j2 {
        assert(ws[j1].0@ != ws[j2].0@);
    } else if j2 < j1 {
        assert(ws[j2].0@ != ws[j1].0@);
    }
}

proof fn lemma_row_in_one_range(rs: Seq<Range<usize>>, lim: int, i: int, m1: int, m2: int)
    requires
        ranges_ordered(rs, lim),
        0 <= m1 < rs.len(),
        0 <= m2 < rs.len(),
        rs[m1].start <= i < rs[m1].end,
        rs[m2].start <= i < rs[m2].end,
    ensures
        m1 == m2,
{
    if m1 < m2 {
        lemma_ordered_before(rs, lim, m1, m2);
    } else if m2 < m1 {
        lemma_ordered_before(rs, lim, m2, m1);
    }
}

/// Partitioning loses no row and repeats none: a row is in some write
/// exactly when it is a row of the batch, no row is in two writes, and no
/// row is in two ranges of one write.
pub proof fn lemma_partition_covers_each_row_once(
    b: Batch,
    parts: Seq<TemplatePart>,
    ws: Seq<(String, PartitionWrite)>,
    i: int,
)
    requires
        is_partitioning(b, parts, ws),
    ensures
        covers_somewhere(ws, i) <==> 0 <= i < b.rows,
        forall|j1: int, j2: int|
            0 <= j1 < ws.len() && 0 <= j2 < ws.len() && covers(#[trigger] ws[j1].1.spec_ranges(), i)
                && covers(#[trigger] ws[j2].1.spec_ranges(), i) ==> j1 == j2,
        forall|j: int, m1: int, m2: int|
            0 <= j < ws.len() && 0 <= m1 < ws[j].1.spec_ranges().len() && 0 <= m2
                < ws[j].1.spec_ranges().len() && (#[trigger] ws[j].1.spec_ranges()[m1]).start <= i
                < ws[j].1.spec_ranges()[m1].end && (#[trigger] ws[j].1.spec_ranges()[m2]).start <= i
                < ws[j].1.spec_ranges()[m2].end ==> m1 == m2,
{
    lemma_row_in_some_write(b, parts, ws, i);
    assert forall|j1: int, j2: int|
        0 <= j1 < ws.len() && 0 <= j2 < ws.len() && covers(#[trigger] ws[j1].1.spec_ranges(), i)
            && covers(#[trigger] ws[j2].1.spec_ranges(), i) implies j1 == j2 by {
        lemma_row_in_one_write(b, parts, ws, i, j1, j2);
    }
    assert forall|j: int, m1: int, m2: int|
        0 <= j < ws.len() && 0 <= m1 < ws[j].1.spec_ranges().len() && 0 <= m2
            < ws[j].1.spec_ranges().len() && (#[trigger] ws[j].1.spec_ranges()[m1]).start <= i
            < ws[j].1.spec_ranges()[m1].end && (#[trigger] ws[j].1.spec_ranges()[m2]).start <= i
            < ws[j].1.spec_ranges()[m2].end implies m1 == m2 by {
        assert(ws[j].1.wf());
        lemma_row_in_one_range(ws[j].1.spec_ranges(), b.rows as int, i, m1, m2);
    }
}

/// Some write of `ws` holds row `i`.
pub open spec fn covers_somewhere(ws: Seq<(String, PartitionWrite)>, i: int) -> bool {
    exists|j: int| 0 <= j < ws.len() && #[trigger] covers(ws[j].1.spec_ranges(), i)
}

proof fn lemma_ordered_before(rs: Seq<Range<usize>>, lim: int, m1: int, m2: int)
    requires
        ranges_ordered(rs, lim),
        0 <= m1 < m2 < rs.len(),
    ensures
        rs[m1].end <= rs[m2].start,
    decreases m2 - m1,
{
    if m2 > m1 + 1 {
        lemma_ordered_before(rs, lim, m1, m2 - 1);
        assert(rs[m2 - 1].start < rs[m2 - 1].end);
        assert(rs[m2 - 1].end <= rs[m2].start);
    }
}

/// The writes `ws`, indexed by `entries`, gather by key exactly the rows of
/// `b` before row `done`.
#[verifier::opaque]
spec fn gathered(
    b: Batch,
    ps: Seq<TemplatePart>,
    ws: Seq<(String, PartitionWrite)>,
    entries: Map<Seq<char>, usize>,
    done: int,
) -> bool {
    &&& forall|j: int|
        0 <= j < ws.len() ==> entries.contains_key((#[trigger] ws[j]).0@) && entries[ws[j].0@] == j
    &&& forall|key: Seq<char>|
        #[trigger] entries.contains_key(key) ==> entries[key] < ws.len() && ws[entries[key] as int].0@
            == key
    &&& forall|j: int| 0 <= j < ws.len() ==> (#[trigger] ws[j]).1.wf() && ws[j].1.spec_batch() == b
    &&& forall|j: int, i: int|
        0 <= j < ws.len() && #[trigger] covers((#[trigger] ws[j]).1.spec_ranges(), i) ==> i < done
            && row_key(b, ps, i) == Ok::<Seq<char>, PartitionKeyError>(ws[j].0@)
    &&& forall|i: int| 0 <= i < done ==> #[trigger] covers_somewhere(ws, i)
}

proof fn lemma_gather_start(b: Batch, ps: Seq<TemplatePart>, entries: Map<Seq<char>, usize>)
    requires
        entries.dom() == Set::<Seq<char>>::empty(),
    ensures
        gathered(b, ps, Seq::empty(), entries, 0),
{
    reveal(gathered);
    assert forall|key: Seq<char>| #[trigger] entries.contains_key(key) implies false by {
        assert(entries.dom().contains(key));
    }
}

proof fn lemma_gather_lookup(
    b: Batch,
    ps: Seq<TemplatePart>,
    ws: Seq<(String, PartitionWrite)>,
    entries: Map<Seq<char>, usize>,
    done: int,
    j: int,
)
    requires
        gathered(b, ps, ws, entries, done),
        0 <= j < ws.len(),
    ensures
        ws[j].1.wf(),
        ws[j].1.spec_batch() == b,
        ws[j].1.spec_ranges().last().end <= done,
{
    reveal(gathered);
    let rs = ws[j].1.spec_ranges();
    let last = rs[rs.len() - 1];
    assert(covers(rs, last.end - 1));
}

proof fn lemma_gather_key(
    b: Batch,
    ps: Seq<TemplatePart>,
    ws: Seq<(String, PartitionWrite)>,
    entries: Map<Seq<char>, usize>,
    done: int,
    key: Seq<char>,
)
    requires
        gathered(b, ps, ws, entries, done),
        entries.contains_key(key),
    ensures
        entries[key] < ws.len(),
        ws[entries[key] as int].0@ == key,
{
    reveal(gathered);
}

proof fn lemma_gather_new(
    b: Batch,
    ps: Seq<TemplatePart>,
    ws: Seq<(String, PartitionWrite)>,
    entries: Map<Seq<char>, usize>,
    done: int,
    entry: (String, PartitionWrite),
    range: Range<usize>,
)
    requires
        gathered(b, ps, ws, entries, done),
        ws.len() <= usize::MAX,
        !entries.contains_key(entry.0@),
        entry.1.wf(),
        entry.1.spec_batch() == b,
        forall|i: int| #[trigger] covers(entry.1.spec_ranges(), i) <==> range.start <= i < range.end,
        done == range.start < range.end,
        forall|i: int|
            range.start <= i < range.end ==> #[trigger] row_key(b, ps, i) == Ok::<
                Seq<char>,
                PartitionKeyError,
            >(entry.0@),
    ensures
        gathered(b, ps, ws.push(entry), entries.insert(entry.0@, ws.len() as usize), range.end as int),
{
    reveal(gathered);
    let nw = ws.push(entry);
    let ne = entries.insert(entry.0@, ws.len() as usize);
    assert(nw[ws.len() as int] == entry);
    assert forall|j: int| 0 <= j < nw.len() implies ne.contains_key((#[trigger] nw[j]).0@) && ne[nw[j].0@]
        == j by {
        if j < ws.len() {
            assert(nw[j] == ws[j]);
            assert(entries.contains_key(ws[j].0@));
        }
    }
    assert forall|key: Seq<char>| #[trigger] ne.contains_key(key) implies ne[key] < nw.len() && nw[ne[key] as int].0@
        == key by {
        if key != entry.0@ {
            assert(entries.contains_key(key));
            assert(nw[entries[key] as int] == ws[entries[key] as int]);
        }
    }
    assert forall|j: int| 0 <= j < nw.len() implies (#[trigger] nw[j]).1.wf() && nw[j].1.spec_batch() == b by {
        if j < ws.len() {
            assert(nw[j] == ws[j]);
        }
    }
    assert forall|j: int, i: int|
        0 <= j < nw.len() && #[trigger] covers((#[trigger] nw[j]).1.spec_ranges(), i) implies i < range.end
            && row_key(b, ps, i) == Ok::<Seq<char>, PartitionKeyError>(nw[j].0@) by {
        if j < ws.len() {
            assert(nw[j] == ws[j]);
        }
    }
    assert forall|i: int| 0 <= i < range.end implies #[trigger] covers_somewhere(nw, i) by {
        if i < done {
            assert(covers_somewhere(ws, i));
            let j = choose|j: int| 0 <= j < ws.len() && #[trigger] covers(ws[j].1.spec_ranges(), i);
            assert(nw[j] == ws[j]);
            assert(covers(nw[j].1.spec_ranges(), i));
        } else {
            assert(covers(nw[ws.len() as int].1.spec_ranges(), i));
        }
    }
}

proof fn lemma_gather_add(
    b: Batch,
    ps: Seq<TemplatePart>,
    ws: Seq<(String, PartitionWrite)>,
    entries: Map<Seq<char>, usize>,
    done: int,
    j: int,
    entry: (String, PartitionWrite),
    range: Range<usize>,
)
    requires
        gathered(b, ps, ws, entries, done),
        0 <= j < ws.len(),
        entry.0 == ws[j].0,
        entry.1.wf(),
        entry.1.spec_batch() == b,
        forall|i: int|
            #[trigger] covers(entry.1.spec_ranges(), i) <==> covers(ws[j].1.spec_ranges(), i) || (
            range.start <= i < range.end),
        done == range.start < range.end,
        forall|i: int|
            range.start <= i < range.end ==> #[trigger] row_key(b, ps, i) == Ok::<
                Seq<char>,
                PartitionKeyError,
            >(entry.0@),
    ensures
        gathered(b, ps, ws.update(j, entry), entries, range.end as int),
{
    reveal(gathered);
    let nw = ws.update(j, entry);
    assert forall|q: int| 0 <= q < nw.len() implies entries.contains_key((#[trigger] nw[q]).0@)
        && entries[nw[q].0@] == q by {
        assert(nw[q].0 == ws[q].0);
    }
    assert forall|key: Seq<char>| #[trigger] entries.contains_key(key) implies entries[key] < nw.len()
        && nw[entries[key] as int].0@ == key by {
        assert(nw[entries[key] as int].0 == ws[entries[key] as int].0);
    }
    assert forall|q: int| 0 <= q < nw.len() implies (#[trigger] nw[q]).1.wf() && nw[q].1.spec_batch() == b by {
        if q != j {
            assert(nw[q] == ws[q]);
        }
    }
    assert forall|q: int, i: int|
        0 <= q < nw.len() && #[trigger] covers((#[trigger] nw[q]).1.spec_ranges(), i) implies i < range.end
            && row_key(b, ps, i) == Ok::<Seq<char>, PartitionKeyError>(nw[q].0@) by {
        if q != j {
            assert(nw[q] == ws[q]);
        } else if !(range.start <= i < range.end) {
            assert(covers(ws[j].1.spec_ranges(), i));
        }
    }
    assert forall|i: int| 0 <= i < range.end implies #[trigger] covers_somewhere(nw, i) by {
        if i < done {
            assert(covers_somewhere(ws, i));
            let q = choose|q: int| 0 <= q < ws.len() && #[trigger] covers(ws[q].1.spec_ranges(), i);
            if q != j {
                assert(nw[q] == ws[q]);
            }
            assert(covers(nw[q].1.spec_ranges(), i));
        } else {
            assert(covers(nw[j].1.spec_ranges(), i));
        }
    }
}

proof fn lemma_gather_end(
    b: Batch,
    ps: Seq<TemplatePart>,
    ws: Seq<(String, PartitionWrite)>,
    entries: Map<Seq<char>, usize>,
)
    requires
        gathered(b, ps, ws, entries, b.rows as int),
    ensures
        is_partitioning(b, ps, ws),
{
    reveal(gathered);
    assert forall|j1: int, j2: int| 0 <= j1 < j2 < ws.len() implies (#[trigger] ws[j1]).0@
        != (#[trigger] ws[j2]).0@ by {
        assert(entries[ws[j1].0@] == j1);
        assert(entries[ws[j2].0@] == j2);
    }
}

/// Adds the rows of `range`, whose key is `key`, to the write of that key,
/// or to a new write at the end of `ws`.
#[verifier::rlimit(60)]
fn gather_range<'a>(
    batch: &'a Batch,
    time: &Vec<i64>,
    key: String,
    range: Range<usize>,
    index: &mut KeyIndex,
    ws: &mut Vec<(String, PartitionWrite<'a>)>,
    Ghost(ps): Ghost<Seq<TemplatePart>>,
)
    requires
        batch.wf(),
        batch.time == Some(*time),
        range.start < range.end <= batch.rows,
        gathered(*batch, ps, old(ws)@, key_index_entries(*old(index)), range.start as int),
        forall|i: int|
            range.start <= i < range.end ==> #[trigger] row_key(*batch, ps, i) == Ok::<
                Seq<char>,
                PartitionKeyError,
            >(key@),
    ensures
        gathered(*batch, ps, final(ws)@, key_index_entries(*final(index)), range.end as int),
{
    let ghost b = *batch;
    let ghost done = range.start;
    let (lo, hi) = min_max_time(slice_subrange(time.as_slice(), range.start, range.end));
    match index.get(key.as_str()) {
        None => {
            let len = range.end - range.start;
            let w = PartitionWrite {
                batch,
                ranges: vec![Range { start: range.start, end: range.end }],
                min_timestamp: lo,
                max_timestamp: hi,
                row_count: len,
            };
            proof {
                lemma_write_single(b, range, lo, hi);
                assert(w.ranges@ =~= seq![range]);
            }
            let ghost old_ws = ws@;
            let ghost old_entries = key_index_entries(*index);
            index.insert(key.clone(), ws.len());
            let ghost entry = (key, w);
            ws.push((key, w));
            proof {
                lemma_gather_new(b, ps, old_ws, old_entries, done as int, entry, range);
                assert(ws@ == old_ws.push(entry));
            }
        },
        Some(j) => {
            proof {
                lemma_gather_key(b, ps, ws@, key_index_entries(*index), done as int, key@);
                lemma_gather_lookup(b, ps, ws@, key_index_entries(*index), done as int, j as int);
            }
            let mut entry = (
                String::new(),
                PartitionWrite {
                    batch,
                    ranges: Vec::new(),
                    min_timestamp: 0,
                    max_timestamp: 0,
                    row_count: 0,
                },
            );
            let ghost old_ws = ws@;
            ws.set_and_swap(j, &mut entry);
            let ghost old_w = entry.1;
            proof {
                assert(entry == old_ws[j as int]);
                lemma_write_add_range(
                    b,
                    old_w.ranges@,
                    old_w.min_timestamp,
                    old_w.max_timestamp,
                    old_w.row_count,
                    range,
                    lo,
                    hi,
                );
            }
            entry.1.ranges.push(Range { start: range.start, end: range.end });
            if lo < entry.1.min_timestamp {
                entry.1.min_timestamp = lo;
            }
            if hi > entry.1.max_timestamp {
                entry.1.max_timestamp = hi;
            }
            entry.1.row_count = entry.1.row_count + (range.end - range.start);
            let ghost new_entry = entry;
            ws.set_and_swap(j, &mut entry);
            proof {
                assert(new_entry.1.ranges@ == old_w.ranges@.push(range));
                assert(ws@ == old_ws.update(j as int, new_entry));
                lemma_gather_add(b, ps, old_ws, key_index_entries(*index), done as int, j as int, new_entry, range);
            }
        },
    }
}

/// What the partition key generator says of the `k`-th range.
proof fn lemma_piece(
    b: Batch,
    ps: Seq<TemplatePart>,
    pcs: Seq<(Result<String, PartitionKeyError>, Range<usize>)>,
    k: int,
)
    requires
        is_key_ranges(b, ps, pcs),
        0 <= k < pcs.len(),
    ensures
        pcs[k].1.start < pcs[k].1.end <= b.rows,
        k == 0 ==> pcs[k].1.start == 0,
        k > 0 ==> pcs[k].1.start == pcs[k - 1].1.end,
        k + 1 < pcs.len() ==> pcs[k].1.end == pcs[k + 1].1.start,
        k + 1 == pcs.len() ==> pcs[k].1.end == b.rows,
        key_view(pcs[k].0) == row_key(b, ps, pcs[k].1.start as int),
        pcs[k].0 is Ok ==> forall|i: int|
            pcs[k].1.start <= i < pcs[k].1.end ==> #[trigger] row_key(b, ps, i) == Ok::<
                Seq<char>,
                PartitionKeyError,
            >(pcs[k].0->Ok_0@),
    decreases pcs.len() - k,
{
    reveal(is_key_ranges);
    if k + 1 < pcs.len() {
        lemma_piece(b, ps, pcs, k + 1);
    }
    if pcs[k].0 is Ok {
        assert forall|i: int| pcs[k].1.start <= i < pcs[k].1.end implies #[trigger] row_key(b, ps, i)
            == Ok::<Seq<char>, PartitionKeyError>(pcs[k].0->Ok_0@) by {
            assert(same_key(key_view(pcs[k].0), row_key(b, ps, i)));
        }
    }
}

/// A batch with no rows has no key ranges, and one with rows has some.
proof fn lemma_pieces_empty(
    b: Batch,
    ps: Seq<TemplatePart>,
    pcs: Seq<(Result<String, PartitionKeyError>, Range<usize>)>,
)
    requires
        is_key_ranges(b, ps, pcs),
    ensures
        pcs.len() == 0 <==> b.rows == 0,
{
    reveal(is_key_ranges);
}

/// The rows of `ranges`, in order.
pub open spec fn row_order(ranges: Seq<Range<usize>>) -> Seq<usize>
    decreases ranges.len(),
{
    if ranges.len() == 0 {
        Seq::empty()
    } else {
        let r = ranges.last();
        row_order(ranges.drop_last()) + Seq::new(
            (r.end - r.start) as nat,
            |j: int| (r.start + j) as usize,
        )
    }
}

proof fn lemma_row_order(ranges: Seq<Range<usize>>, lim: int)
    requires
        ranges_ordered(ranges, lim),
    ensures
        row_order(ranges).len() == ranges_len(ranges),
        forall|p: int| 0 <= p < row_order(ranges).len() ==> covers(ranges, #[trigger] row_order(ranges)[p] as int)
            && row_order(ranges)[p] < lim,
    decreases ranges.len(),
{
    if ranges.len() > 0 {
        let d = ranges.drop_last();
        let r = ranges.last();
        assert(ranges_ordered(d, lim)) by {
            assert forall|m: int| 0 <= m < d.len() implies (#[trigger] d[m]).start < d[m].end <= lim by {
                assert(d[m] == ranges[m]);
            }
            assert forall|m: int| 0 <= m < d.len() - 1 implies (#[trigger] d[m]).end <= d[m + 1].start by {
                assert(d[m] == ranges[m]);
                assert(d[m + 1] == ranges[m + 1]);
            }
        }
        lemma_row_order(d, lim);
        assert(ranges =~= d.push(r));
        let o = row_order(ranges);
        let od = row_order(d);
        assert forall|p: int| 0 <= p < o.len() implies covers(ranges, #[trigger] o[p] as int) && o[p] < lim by {
            lemma_covers_push(d, r, o[p] as int);
            if p >= od.len() {
                assert(o[p] == (r.start + (p - od.len())) as usize);
            } else {
                assert(o[p] == od[p]);
            }
        }
    }
}

/// `c2` holds, at each of its rows, row `order[p]` of column `c`.
pub open spec fn column_rows(c: Column, c2: Column, order: Seq<usize>) -> bool {
    &&& c2.name == c.name
    &&& c2.valid@.len() == order.len()
    &&& forall|p: int| 0 <= p < order.len() ==> c2.valid@[p] == c.valid@[#[trigger] order[p] as int]
    &&& match (c.values, c2.values) {
        (ColumnValues::Tag { dictionary: d, keys: k }, ColumnValues::Tag { dictionary: d2, keys: k2 }) => {
            &&& d2@ == d@
            &&& k2@.len() == order.len()
            &&& forall|p: int| 0 <= p < order.len() ==> k2@[p] == k@[#[trigger] order[p] as int]
        },
        (ColumnValues::Other { type_description: t }, ColumnValues::Other { type_description: t2 }) => t2
            == t,
        _ => false,
    }
}

/// Copies the rows `order` of column `c` into a new column.
fn copy_column(c: &Column, order: &Vec<usize>, Ghost(rows): Ghost<nat>) -> (r: Column)
    requires
        c.wf(rows),
        forall|p: int| 0 <= p < order@.len() ==> #[trigger] order@[p] < rows,
    ensures
        column_rows(*c, r, order@),
        r.wf(order@.len()),
{
    let mut valid: Vec<bool> = Vec::new();
    let mut p: usize = 0;
    while p < order.len()
        invariant
            c.wf(rows),
            forall|q: int| 0 <= q < order@.len() ==> #[trigger] order@[q] < rows,
            0 <= p <= order@.len(),
            valid@.len() == p,
            forall|q: int| 0 <= q < p ==> valid@[q] == c.valid@[#[trigger] order@[q] as int],
        decreases order@.len() - p,
    {
        valid.push(c.valid[order[p]]);
        p = p + 1;
    }
    let values = match &c.values {
        ColumnValues::Tag { dictionary, keys } => {
            let mut d2: Vec<String> = Vec::new();
            let mut i: usize = 0;
            while i < dictionary.len()
                invariant
                    0 <= i <= dictionary@.len(),
                    d2@ == dictionary@.take(i as int),
                decreases dictionary@.len() - i,
            {
                d2.push(dictionary[i].clone());
                proof {
                    assert(dictionary@.take(i + 1) =~= dictionary@.take(i as int).push(dictionary@[i as int]));
                }
                i = i + 1;
            }
            proof {
                assert(dictionary@.take(i as int) =~= dictionary@);
            }
            let mut k2: Vec<usize> = Vec::new();
            let mut p: usize = 0;
            while p < order.len()
                invariant
                    c.wf(rows),
                    c.values == (ColumnValues::Tag { dictionary: *dictionary, keys: *keys }),
                    forall|q: int| 0 <= q < order@.len() ==> #[trigger] order@[q] < rows,
                    0 <= p <= order@.len(),
                    k2@.len() == p,
                    forall|q: int| 0 <= q < p ==> k2@[q] == keys@[#[trigger] order@[q] as int],
                decreases order@.len() - p,
            {
                k2.push(keys[order[p]]);
                p = p + 1;
            }
            ColumnValues::Tag { dictionary: d2, keys: k2 }
        },
        ColumnValues::Other { type_description } => ColumnValues::Other {
            type_description: type_description.clone(),
        },
    };
    let r = Column { name: c.name.clone(), valid, values };
    let ghost cv = c.values;
    let ghost rv = r.values;
    proof {
        match (cv, rv) {
            (ColumnValues::Tag { dictionary: d, keys: k }, ColumnValues::Tag { dictionary: d2, keys: k2 }) => {
                assert forall|q: int| 0 <= q < order@.len() && #[trigger] r.valid@[q] implies k2@[q] < d2@.len() by {
                    assert(c.valid@[order@[q] as int]);
                }
                assert(all_hashable(d2@) == all_hashable(d@));
            },
            _ => {},
        }
    }
    r
}

/// Rows of a batch, as a non-empty set of row ranges, that go to one
/// partition, with their count and the least and greatest of their
/// timestamps.
#[derive(Debug)]
pub struct PartitionWrite<'a> {
    batch: &'a Batch,
    ranges: Vec<Range<usize>>,
    min_timestamp: i64,
    max_timestamp: i64,
    row_count: usize,
}

impl<'a> PartitionWrite<'a> {
    /// The batch the rows are in.
    pub closed spec fn spec_batch(&self) -> Batch {
        *self.batch
    }

    /// The row ranges.
    pub closed spec fn spec_ranges(&self) -> Seq<Range<usize>> {
        self.ranges@
    }

    /// The least timestamp.
    pub closed spec fn spec_min(&self) -> i64 {
        self.min_timestamp
    }

    /// The greatest timestamp.
    pub closed spec fn spec_max(&self) -> i64 {
        self.max_timestamp
    }

    /// The number of rows.
    pub closed spec fn spec_rows(&self) -> usize {
        self.row_count
    }

    /// The fields agree with one another and with the batch.
    pub open spec fn wf(&self) -> bool {
        valid_write(
            self.spec_batch(),
            self.spec_ranges(),
            self.spec_min(),
            self.spec_max(),
            self.spec_rows(),
        )
    }

    /// All the rows of `batch`, as one range. Fails with
    /// [`TimeColumnError::NotFound`] where the batch has no time column.
    pub fn new(batch: &'a Batch) -> (r: Result<Self, PartitionWriteError>)
        requires
            batch.wf(),
            batch.rows > 0,
        ensures
            match batch.time {
                None => r == Err::<Self, PartitionWriteError>(
                    PartitionWriteError::TimeColumn(TimeColumnError::NotFound),
                ),
                Some(t) => r is Ok && {
                    let w = r->Ok_0;
                    &&& w.wf()
                    &&& w.spec_batch() == *batch
                    &&& w.spec_ranges() == seq![Range { start: 0usize, end: batch.rows }]
                    &&& w.spec_rows() == batch.rows
                    &&& is_min_of(t@, w.spec_min())
                    &&& is_max_of(t@, w.spec_max())
                },
            },
    {
        let rows = batch.num_rows();
        let time = match batch.time_column() {
            Ok(t) => t,
            Err(e) => {
                return Err(PartitionWriteError::TimeColumn(e));
            },
        };
        let (min_timestamp, max_timestamp) = min_max_time(time.as_slice());
        let ranges = vec![Range { start: 0, end: rows }];
        let w = PartitionWrite { batch, ranges, min_timestamp, max_timestamp, row_count: rows };
        proof {
            let rs = w.ranges@;
            assert(rs.drop_last() =~= Seq::<Range<usize>>::empty());
            assert(ranges_len(rs.drop_last()) == 0);
            assert(ranges_len(rs) == rows);
            assert forall|i: int| covers(rs, i) implies min_timestamp <= #[trigger] time@[i]
                <= max_timestamp by {
                let m = choose|m: int| 0 <= m < rs.len() && (#[trigger] rs[m]).start <= i < rs[m].end;
            }
            let a = choose|j: int| 0 <= j < time@.len() && #[trigger] time@[j] == min_timestamp;
            let c = choose|j: int| 0 <= j < time@.len() && #[trigger] time@[j] == max_timestamp;
            assert(rs[0].start <= a < rs[0].end);
            assert(covers(rs, a));
            assert(rs[0].start <= c < rs[0].end);
            assert(covers(rs, c));
        }
        Ok(w)
    }

    /// The rows that pass `predicate` on their timestamp, in the maximal runs
    /// of passing rows within each range, with their count and timestamps
    /// computed anew; `None` where no row passes.
    pub fn filter<F: Fn(i64) -> bool>(&self, predicate: F) -> (r: Option<PartitionWrite<'a>>)
        requires
            self.wf(),
            forall|t: i64| predicate.requires((t,)),
            forall|t: i64|
                !(#[trigger] predicate.ensures((t,), true) && predicate.ensures((t,), false)),
        ensures
            r is None <==> forall|i: int|
                covers(self.spec_ranges(), i) ==> !keeps(
                    predicate,
                    #[trigger] self.spec_batch().time->Some_0@[i],
                ),
            r is Some ==> {
                let w = r->Some_0;
                &&& w.wf()
                &&& w.spec_batch() == self.spec_batch()
                &&& forall|i: int|
                    #[trigger] covers(w.spec_ranges(), i) <==> covers(self.spec_ranges(), i)
                        && keeps(predicate, self.spec_batch().time->Some_0@[i])
            },
    {
        let ghost b = *self.batch;
        let time = match &self.batch.time {
            Some(t) => t,
            None => {
                return None;
            },
        };
        let ghost ts = time@;
        let ghost rs = self.ranges@;
        let mut out: Vec<Range<usize>> = Vec::new();
        let mut min_timestamp = i64::MAX;
        let mut max_timestamp = i64::MIN;
        let mut count: usize = 0;
        let mut frontier: usize = 0;
        let mut m: usize = 0;
        proof {
            reveal(summary_ok);
            assert(rs.take(0) =~= Seq::<Range<usize>>::empty());
        }
        while m < self.ranges.len()
            invariant
                ts == time@,
                rs == self.ranges@,
                ts.len() == b.rows,
                ranges_ordered(rs, b.rows as int),
                forall|t: i64| predicate.requires((t,)),
                forall|t: i64|
                    !(#[trigger] predicate.ensures((t,), true) && predicate.ensures((t,), false)),
                0 <= m <= rs.len(),
                m < rs.len() ==> frontier <= rs[m as int].start,
                frontier <= b.rows,
                summary_ok(out@, count, min_timestamp, max_timestamp, ts, frontier as int),
                forall|j: int|
                    #[trigger] covers(out@, j) <==> covers(rs.take(m as int), j) && keeps(
                        predicate,
                        ts[j],
                    ),
            decreases rs.len() - m,
        {
            let range = Range { start: self.ranges[m].start, end: self.ranges[m].end };
            let mut i: usize = range.start;
            let mut open = false;
            let ghost start_out = out@;
            proof {
                lemma_summary_weaken(out@, count, min_timestamp, max_timestamp, ts, frontier as int, range.start as int);
            }
            while i < range.end
                invariant
                    ts == time@,
                    ts.len() == b.rows,
                    forall|t: i64| predicate.requires((t,)),
                    forall|t: i64|
                        !(#[trigger] predicate.ensures((t,), true) && predicate.ensures((t,), false)),
                    range.start <= i <= range.end,
                    range.end <= b.rows,
                    summary_ok(out@, count, min_timestamp, max_timestamp, ts, i as int),
                    open ==> out@.len() > 0 && out@.last().end == i && out@.last().start >= range.start,
                    forall|j: int|
                        #[trigger] covers(out@, j) <==> covers(start_out, j) || (range.start <= j < i
                            && keeps(predicate, ts[j])),
                decreases range.end - i,
            {
                let t = time[i];
                let pass = predicate(t);
                proof {
                    assert(ts[i as int] == t);
                    lemma_summary_count_bound(out@, count, min_timestamp, max_timestamp, ts, i as int);
                }
                if pass {
                    let ghost before = out@;
                    if open {
                        let last = out.len() - 1;
                        let lo = out[last].start;
                        out.set(last, Range { start: lo, end: i + 1 });
                        proof {
                            lemma_extend_last(before, i as int);
                            assert(out@ == before.drop_last().push(Range { start: lo, end: (i + 1) as usize }));
                        }
                    } else {
                        out.push(Range { start: i, end: i + 1 });
                        proof {
                            lemma_push_row(before, i as int);
                        }
                    }
                    proof {
                        lemma_summary_add_row(before, out@, count, min_timestamp, max_timestamp, ts, i as int);
                    }
                    count = count + 1;
                    if t < min_timestamp {
                        min_timestamp = t;
                    }
                    if t > max_timestamp {
                        max_timestamp = t;
                    }
                    open = true;
                } else {
                    proof {
                        assert(!keeps(predicate, ts[i as int]));
                        lemma_summary_weaken(out@, count, min_timestamp, max_timestamp, ts, i as int, i + 1);
                    }
                    open = false;
                }
                i = i + 1;
            }
            proof {
                assert(rs.take(m + 1) =~= rs.take(m as int).push(range));
                assert forall|j: int| #[trigger] covers(rs.take(m + 1), j) <==> covers(rs.take(m as int), j) || (
                range.start <= j < range.end) by {
                    lemma_covers_push(rs.take(m as int), range, j);
                }
                if m + 1 < rs.len() {
                    assert(rs[m as int].end <= rs[m + 1].start);
                }
            }
            frontier = range.end;
            m = m + 1;
        }
        proof {
            assert(rs.take(m as int) =~= rs);
            reveal(summary_ok);
            lemma_ranges_len_bound(out@, frontier as int);
        }
        if count == 0 {
            proof {
                assert forall|i: int| covers(rs, i) implies !keeps(predicate, #[trigger] ts[i]) by {
                    if keeps(predicate, ts[i]) {
                        assert(covers(out@, i));
                        let k = choose|k: int| 0 <= k < out@.len() && (#[trigger] out@[k]).start <= i < out@[k].end;
                        lemma_ranges_len_positive(out@, frontier as int, k);
                    }
                }
            }
            return None;
        }
        proof {
            let j = choose|j: int| covers(out@, j) && #[trigger] ts[j] == min_timestamp;
            assert(covers(rs, j));
        }
        Some(
            PartitionWrite {
                batch: self.batch,
                ranges: out,
                min_timestamp,
                max_timestamp,
                row_count: count,
            },
        )
    }

    /// Gathers the rows of `batch` by their partition key under the template
    /// `parts`: one write per distinct key, in the order the keys first
    /// appear, each holding every range of rows with that key. Fails with
    /// [`TimeColumnError::NotFound`] where the batch has no time column, and
    /// with the error of the first row whose key cannot be generated.
    #[verifier::rlimit(100)]
    pub fn partition(batch: &'a Batch, parts: &[TemplatePart<'a>]) -> (r: Result<
        Vec<(String, PartitionWrite<'a>)>,
        PartitionWriteError,
    >)
        requires
            batch.wf(),
            parts@.len() <= MAXIMUM_NUMBER_OF_TEMPLATE_PARTS,
            parts_valid(parts@),
        ensures
            batch.time is None ==> r == Err::<Vec<(String, PartitionWrite<'a>)>, PartitionWriteError>(
                PartitionWriteError::TimeColumn(TimeColumnError::NotFound),
            ),
            batch.time is Some ==> match r {
                Ok(ws) => {
                    &&& forall|i: int| 0 <= i < batch.rows ==> (#[trigger] row_key(*batch, parts@, i)) is Ok
                    &&& is_partitioning(*batch, parts@, ws@)
                },
                Err(e) => exists|f: int, ke: PartitionKeyError|
                    first_key_error(*batch, parts@, f, ke) && e == PartitionWriteError::PartitionKey(ke),
            },
    {
        let ghost b = *batch;
        let ghost ps = parts@;
        let time = match batch.time_column() {
            Ok(t) => t,
            Err(e) => {
                return Err(PartitionWriteError::TimeColumn(e));
            },
        };
        let ghost ts = time@;
        let mut pieces = partition_batch(batch, parts);
        let ghost pcs = pieces@;
        let mut index = KeyIndex::new();
        let mut ws: Vec<(String, PartitionWrite<'a>)> = Vec::new();
        let mut done: usize = 0;
        let mut k: usize = 0;
        let n = pieces.len();
        proof {
            lemma_gather_start(b, ps, key_index_entries(index));
            lemma_pieces_empty(b, ps, pcs);
            if n > 0 {
                lemma_piece(b, ps, pcs, 0);
            }
        }
        while k < n
            invariant
                b == *batch,
                ps == parts@,
                b.wf(),
                b.time == Some(*time),
                ts == time@,
                is_key_ranges(b, ps, pcs),
                n == pcs.len(),
                pieces@.len() == n,
                0 <= k <= n,
                forall|q: int| k <= q < n ==> pieces@[q] == pcs[q],
                k < n ==> done == pcs[k as int].1.start,
                k == n ==> done == b.rows,
                k == 0 ==> done == 0,
                done <= b.rows,
                forall|i: int| 0 <= i < done ==> (#[trigger] row_key(b, ps, i)) is Ok,
                gathered(b, ps, ws@, key_index_entries(index), done as int),
            decreases n - k,
        {
            let mut piece = (Err(PartitionKeyError::FmtError), Range { start: 0, end: 0 });
            pieces.set_and_swap(k, &mut piece);
            let (key, range) = piece;
            proof {
                assert((key, range) == pcs[k as int]);
                lemma_piece(b, ps, pcs, k as int);
            }
            let key = match key {
                Ok(s) => s,
                Err(e) => {
                    proof {
                        assert(first_key_error(b, ps, range.start as int, e));
                    }
                    return Err(PartitionWriteError::PartitionKey(e));
                },
            };
            gather_range(batch, time, key, Range { start: range.start, end: range.end }, &mut index, &mut ws, Ghost(ps));
            done = range.end;
            k = k + 1;
        }
        proof {
            lemma_gather_end(b, ps, ws@, key_index_entries(index));
        }
        Ok(ws)
    }

    /// A batch of exactly the rows of this write, in order: row `p` of the
    /// result is row `row_order(ranges)[p]` of the source batch, in the time
    /// column and in every column.
    pub fn write_to_batch(&self) -> (r: Batch)
        requires
            self.wf(),
        ensures
            r.wf(),
            r.rows == self.spec_rows(),
            r.time is Some,
            r.columns@.len() == self.spec_batch().columns@.len(),
            ({
                let order = row_order(self.spec_ranges());
                &&& order.len() == r.rows
                &&& forall|p: int|
                    0 <= p < order.len() ==> r.time->Some_0@[p] == self.spec_batch().time->Some_0@[
                        #[trigger] order[p] as int]
                &&& forall|c: int|
                    0 <= c < r.columns@.len() ==> column_rows(
                        self.spec_batch().columns@[c],
                        #[trigger] r.columns@[c],
                        order,
                    )
            }),
    {
        let ghost b = *self.batch;
        let ghost rs = self.ranges@;
        proof {
            lemma_row_order(rs, b.rows as int);
        }
        let mut order: Vec<usize> = Vec::new();
        let mut m: usize = 0;
        while m < self.ranges.len()
            invariant
                rs == self.ranges@,
                ranges_ordered(rs, b.rows as int),
                0 <= m <= rs.len(),
                order@ == row_order(rs.take(m as int)),
            decreases rs.len() - m,
        {
            let start = self.ranges[m].start;
            let end = self.ranges[m].end;
            let ghost before = order@;
            let mut i: usize = start;
            while i < end
                invariant
                    start <= end,
                    start <= i <= end,
                    order@ == before + Seq::new((i - start) as nat, |j: int| (start + j) as usize),
                decreases end - i,
            {
                order.push(i);
                proof {
                    assert(order@ =~= before + Seq::new((i + 1 - start) as nat, |j: int| (start + j) as usize));
                }
                i = i + 1;
            }
            proof {
                assert(rs.take(m + 1).drop_last() =~= rs.take(m as int));
                assert(rs.take(m + 1).last() == rs[m as int]);
            }
            m = m + 1;
        }
        proof {
            assert(rs.take(m as int) =~= rs);
        }
        let time = match &self.batch.time {
            Some(t) => t,
            None => {
                return Batch::new();
            },
        };
        let mut t2: Vec<i64> = Vec::new();
        let mut p: usize = 0;
        while p < order.len()
            invariant
                b.time == Some(*time),
                b.wf(),
                forall|q: int| 0 <= q < order@.len() ==> #[trigger] order@[q] < b.rows,
                0 <= p <= order@.len(),
                t2@.len() == p,
                forall|q: int| 0 <= q < p ==> t2@[q] == time@[#[trigger] order@[q] as int],
            decreases order@.len() - p,
        {
            t2.push(time[order[p]]);
            p = p + 1;
        }
        let mut columns: Vec<Column> = Vec::new();
        let mut c: usize = 0;
        while c < self.batch.columns.len()
            invariant
                b == *self.batch,
                b.wf(),
                forall|q: int| 0 <= q < order@.len() ==> #[trigger] order@[q] < b.rows,
                0 <= c <= b.columns@.len(),
                columns@.len() == c,
                forall|q: int| 0 <= q < c ==> column_rows(b.columns@[q], #[trigger] columns@[q], order@),
                forall|q: int| 0 <= q < c ==> (#[trigger] columns@[q]).wf(order@.len()),
            decreases b.columns@.len() - c,
        {
            let col = copy_column(&self.batch.columns[c], &order, Ghost(b.rows as nat));
            columns.push(col);
            c = c + 1;
        }
        let r = Batch { rows: order.len(), time: Some(t2), columns };
        proof {
            assert forall|i: int, j: int|
                0 <= i < j < r.columns@.len() implies (#[trigger] r.columns@[i]).name@
                    != (#[trigger] r.columns@[j]).name@ by {
                assert(b.columns@[i].name@ != b.columns@[j].name@);
            }
        }
        r
    }

    /// The least timestamp of the rows.
    pub fn min_timestamp(&self) -> (r: i64)
        ensures
            r == self.spec_min(),
    {
        self.min_timestamp
    }

    /// The greatest timestamp of the rows.
    pub fn max_timestamp(&self) -> (r: i64)
        ensures
            r == self.spec_max(),
    {
        self.max_timestamp
    }

    /// The number of rows, which is never zero.
    pub fn rows(&self) -> (r: usize)
        requires
            self.wf(),
        ensures
            r == self.spec_rows(),
            r > 0,
    {
        self.row_count
    }

    /// The row ranges, in increasing order.
    pub fn ranges(&self) -> (r: &[Range<usize>])
        ensures
            r@ == self.spec_ranges(),
    {
        self.ranges.as_slice()
    }
}

} // verus!
