//! Rendering the partition key of each row from a partition template.

use vstd::prelude::*;
use core::ops::Range;
use crate::batch::{Batch, Column, ColumnValues, lemma_tag_value_hashable};
use crate::bucket::{BucketHasher, bucket_of};
use crate::encode::{
    encode_key_part, encode_key_part_spec, lemma_key_part_well_formed, string_from_ascii,
    PARTITION_KEY_VALUE_NULL, PARTITION_KEY_DELIMITER, PARTITION_KEY_MAX_PART_LEN,
};
use vstd::utf8::is_ascii_chars;
use crate::error::PartitionKeyError;
use crate::rle::{range_encode, RunValue, filled, is_run_encoding, encodes_prefix};
use crate::strftime::{StrftimeFormatter, render_time, reduced_timestamp, strftime_utc};

verus! {

/// The most parts that a partition template may have.
pub const MAXIMUM_NUMBER_OF_TEMPLATE_PARTS: usize = 8;

/// One part of a partition template.
#[derive(Debug, Clone, Copy, PartialEq, Eq)]
pub enum TemplatePart<'a> {
    /// The value of the named tag column.
    TagValue(&'a str),
    /// The row's timestamp, rendered with a strftime format in UTC.
    TimeFormat(&'a str),
    /// The bucket of the named tag column's value, among the given number
    /// of buckets.
    Bucket(&'a str, u32),
}

/// The parts can be rendered: each bucket part has at least one bucket.
pub open spec fn parts_valid(parts: Seq<TemplatePart>) -> bool {
    forall|j: int|
        0 <= j < parts.len() ==> match #[trigger] parts[j] {
            TemplatePart::Bucket(_, n) => n > 0,
            _ => true,
        }
}

/// The character of a decimal digit.
pub open spec fn digit_char(d: nat) -> char {
    ((d + 48) as u8) as char
}

/// The decimal digits of `n`.
pub open spec fn decimal(n: nat) -> Seq<char>
    decreases n,
{
    if n < 10 {
        seq![digit_char(n)]
    } else {
        decimal(n / 10).push(digit_char(n % 10))
    }
}

/// What a part renders for a tag that is absent.
pub open spec fn null_part() -> Seq<char> {
    seq![PARTITION_KEY_VALUE_NULL]
}

/// What template part `p` renders for row `row` of `b`.
pub open spec fn render_part(b: Batch, p: TemplatePart, row: int) -> Result<
    Seq<char>,
    PartitionKeyError,
> {
    match p {
        TemplatePart::TagValue(name) => match b.column_named(name@) {
            None => Ok(null_part()),
            Some(c) => if !c.valid@[row] {
                Ok(null_part())
            } else {
                match c.values {
                    ColumnValues::Tag { dictionary, keys } => Ok(
                        encode_key_part_spec(dictionary@[keys@[row] as int]@),
                    ),
                    ColumnValues::Other { type_description } => Err(
                        PartitionKeyError::TagValueNotTag(type_description),
                    ),
                }
            },
        },
        TemplatePart::TimeFormat(format) => render_time(format@, b.time->Some_0@[row]),
        TemplatePart::Bucket(name, n) => match b.column_named(name@) {
            None => Ok(null_part()),
            Some(c) => if !c.valid@[row] {
                Ok(null_part())
            } else {
                match c.values {
                    ColumnValues::Tag { dictionary, keys } => Ok(
                        decimal(bucket_of(dictionary@[keys@[row] as int]@, n) as nat),
                    ),
                    ColumnValues::Other { type_description } => Err(
                        PartitionKeyError::TagValueNotTag(type_description),
                    ),
                }
            },
        },
    }
}

/// The first `n` parts of row `row`'s key joined by `|`, or the error of the
/// first of them that fails.
pub open spec fn render_upto(b: Batch, parts: Seq<TemplatePart>, row: int, n: int) -> Result<
    Seq<char>,
    PartitionKeyError,
>
    decreases n,
{
    if n <= 0 {
        Ok(Seq::empty())
    } else {
        match render_upto(b, parts, row, n - 1) {
            Err(e) => Err(e),
            Ok(acc) => match render_part(b, parts[n - 1], row) {
                Err(e) => Err(e),
                Ok(s) => Ok(
                    if n == 1 {
                        s
                    } else {
                        acc.push(PARTITION_KEY_DELIMITER) + s
                    },
                ),
            },
        }
    }
}

/// The partition key of row `row`, rendered on its own.
#[verifier::opaque]
pub open spec fn row_key(b: Batch, parts: Seq<TemplatePart>, row: int) -> Result<
    Seq<char>,
    PartitionKeyError,
> {
    render_upto(b, parts, row, parts.len() as int)
}

/// A key with its string seen as characters.
pub open spec fn key_view(k: Result<String, PartitionKeyError>) -> Result<
    Seq<char>,
    PartitionKeyError,
> {
    match k {
        Ok(s) => Ok(s@),
        Err(e) => Err(e),
    }
}

/// Two keys are the same key, or the same error.
pub open spec fn same_key(
    a: Result<Seq<char>, PartitionKeyError>,
    b: Result<Seq<char>, PartitionKeyError>,
) -> bool {
    match (a, b) {
        (Ok(x), Ok(y)) => x == y,
        (Err(x), Err(y)) => x.same(&y),
        _ => false,
    }
}

impl RunValue for Result<String, PartitionKeyError> {
    open spec fn same_run(&self, other: &Self) -> bool {
        same_key(key_view(*self), key_view(*other))
    }

    fn is_same_run(&self, other: &Self) -> (r: bool) {
        match (self, other) {
            (Ok(a), Ok(b)) => a.eq(b),
            (Err(a), Err(b)) => a.eq(b),
            _ => false,
        }
    }
}

/// Whether the cheap check finds that part `p` renders row `row` as it
/// rendered row `prev`, from identity keys, bucket numbers and reduced
/// timestamps alone. A valid row of a column that is not a tag column is
/// never identical.
pub open spec fn part_identical(b: Batch, p: TemplatePart, prev: int, row: int) -> bool {
    match p {
        TemplatePart::TagValue(name) => match b.column_named(name@) {
            None => true,
            Some(c) => {
                ||| (c.valid@[row] && c.valid@[prev] && c.tag_key(row) is Some && c.tag_key(row)
                    == c.tag_key(prev))
                ||| (!c.valid@[row] && !c.valid@[prev])
            },
        },
        TemplatePart::TimeFormat(format) => reduced_timestamp(format@, b.time->Some_0@[row])
            == reduced_timestamp(format@, b.time->Some_0@[prev]),
        TemplatePart::Bucket(name, n) => match b.column_named(name@) {
            None => true,
            Some(c) => match c.values {
                ColumnValues::Tag { dictionary, keys } => {
                    ||| (c.valid@[row] && c.valid@[prev] && bucket_of(
                        dictionary@[keys@[row] as int]@,
                        n,
                    ) == bucket_of(dictionary@[keys@[prev] as int]@, n))
                    ||| (!c.valid@[row] && !c.valid@[prev])
                },
                ColumnValues::Other { .. } => !c.valid@[row] && !c.valid@[prev],
            },
        },
    }
}

/// `out` is the output of the key generator for `b`: one entry per row,
/// the key of each rendered row, and `None` for a row that was not rendered
/// because its key is that of the row before, which rendered without error.
pub open spec fn is_dedup_of(
    b: Batch,
    parts: Seq<TemplatePart>,
    out: Seq<Option<Result<String, PartitionKeyError>>>,
) -> bool {
    &&& out.len() == b.rows
    &&& out.len() > 0 ==> out[0] is Some
    &&& forall|i: int|
        0 <= i < out.len() && (#[trigger] out[i]) is Some ==> key_view(out[i]->Some_0) == row_key(
            b,
            parts,
            i,
        )
    &&& forall|i: int|
        0 <= i < out.len() && (#[trigger] out[i]) is None ==> i > 0 && row_key(b, parts, i)
            == row_key(b, parts, i - 1) && row_key(b, parts, i) is Ok
}

/// Row `i > 0` is skipped exactly where the row before it rendered without
/// error and every part finds row `i` identical to it.
pub open spec fn skips_exactly(
    b: Batch,
    parts: Seq<TemplatePart>,
    out: Seq<Option<Result<String, PartitionKeyError>>>,
) -> bool {
    forall|i: int|
        0 < i < out.len() ==> ((#[trigger] out[i]) is None <==> (row_key(b, parts, i - 1) is Ok
            && forall|j: int| 0 <= j < parts.len() ==> #[trigger] part_identical(b, parts[j], i - 1, i)))
}

/// The per-batch state of one template part, with what it remembers of the
/// last row it rendered.
pub enum Template<'a> {
    TagValue(&'a Column, Option<usize>),
    TimeFormat(&'a Vec<i64>, StrftimeFormatter<'a>),
    Bucket(&'a Column, BucketHasher, Option<usize>),
    /// The batch has no column of that name.
    MissingTag,
}

/// `t` is the state of part `p` for batch `b`.
pub open spec fn matches_part(t: Template, b: Batch, p: TemplatePart) -> bool {
    match p {
        TemplatePart::TagValue(name) => match b.column_named(name@) {
            Some(c) => t is TagValue && *t->TagValue_0 == c,
            None => t is MissingTag,
        },
        TemplatePart::TimeFormat(format) => {
            &&& t is TimeFormat
            &&& b.time == Some(*t->TimeFormat_0)
            &&& t->TimeFormat_1.wf()
            &&& t->TimeFormat_1.spec_format() == format@
        },
        TemplatePart::Bucket(name, n) => match b.column_named(name@) {
            Some(c) => {
                &&& t is Bucket
                &&& *t->Bucket_0 == c
                &&& t->Bucket_1.spec_num_buckets() == n
                &&& n > 0
            },
            None => t is MissingTag,
        },
    }
}

/// What `t` remembers is row `row`.
pub open spec fn tracks_row(t: Template, row: int) -> bool {
    match t {
        Template::TagValue(col, last) => last == col.tag_key(row),
        Template::TimeFormat(times, fmt) => fmt.spec_last() == Some(
            reduced_timestamp(fmt.spec_format(), times@[row]),
        ),
        Template::Bucket(col, h, last) => match last {
            None => !col.valid@[row],
            Some(k) => match col.values {
                ColumnValues::Tag { dictionary, keys } => {
                    let n = h.spec_num_buckets();
                    let here = bucket_of(dictionary@[keys@[row] as int]@, n);
                    &&& col.valid@[row]
                    &&& k < dictionary@.len()
                    &&& bucket_of(dictionary@[k as int]@, n) == here
                    &&& h.spec_last_bucket() == Some(here)
                },
                ColumnValues::Other { .. } => false,
            },
        },
        Template::MissingTag => true,
    }
}

/// `u` names the same column, the same timestamps and the same number of
/// buckets as `t`, and remembers the same identity key and formatter state.
pub open spec fn same_memory(t: Template, u: Template) -> bool {
    match (t, u) {
        (Template::TagValue(c1, l1), Template::TagValue(c2, l2)) => c1 == c2 && l1 == l2,
        (Template::Bucket(c1, h1, l1), Template::Bucket(c2, h2, l2)) => {
            &&& c1 == c2
            &&& l1 == l2
            &&& h1.spec_num_buckets() == h2.spec_num_buckets()
        },
        (Template::TimeFormat(t1, f1), Template::TimeFormat(t2, f2)) => t1 == t2 && f1 == f2,
        (Template::MissingTag, Template::MissingTag) => true,
        _ => false,
    }
}

/// What `t` remembers is exactly row `row`: its identity key, and the
/// bucket or reduced timestamp rendered for it.
pub open spec fn remembers_row(t: Template, row: int) -> bool {
    match t {
        Template::TagValue(col, last) => last == col.tag_key(row),
        Template::Bucket(col, h, last) => {
            &&& last == col.tag_key(row)
            &&& match col.tag_value(row) {
                Some(v) => h.spec_last_bucket() == Some(bucket_of(v, h.spec_num_buckets())),
                None => true,
            }
        },
        Template::TimeFormat(times, fmt) => fmt.spec_last() == Some(
            reduced_timestamp(fmt.spec_format(), times@[row]),
        ),
        Template::MissingTag => true,
    }
}

/// The number of delimiters in `s`.
pub open spec fn delimiter_count(s: Seq<char>) -> nat
    decreases s.len(),
{
    if s.len() == 0 {
        0
    } else {
        delimiter_count(s.drop_last()) + if s.last() == PARTITION_KEY_DELIMITER {
            1nat
        } else {
            0nat
        }
    }
}

/// The decimal digits of `n`.
fn decimal_string(n: u32) -> (r: String)
    ensures
        r@ == decimal(n as nat),
    decreases n,
{
    let d = (n % 10) as u8 + 48;
    let digit = string_from_ascii(vec![d]);
    proof {
        assert(digit@ =~= seq![digit_char((n % 10) as nat)]);
    }
    if n < 10 {
        digit
    } else {
        let mut head = decimal_string(n / 10);
        head.append(digit.as_str());
        proof {
            assert(head@ =~= decimal((n / 10) as nat).push(digit_char((n % 10) as nat)));
        }
        head
    }
}

fn null_string() -> (r: String)
    ensures
        r@ == null_part(),
{
    let r = String::from_str("!");
    proof {
        reveal_strlit("!");
        assert(r@ =~= null_part());
    }
    r
}

impl<'a> Template<'a> {
    /// Appends this part's rendering of row `idx` to `out`.
    fn fmt_row(
        &mut self,
        out: &mut String,
        idx: usize,
        Ghost(b): Ghost<Batch>,
        Ghost(p): Ghost<TemplatePart>,
    ) -> (r: Result<(), PartitionKeyError>)
        requires
            b.wf(),
            idx < b.rows,
            matches_part(*old(self), b, p),
        ensures
            matches_part(*final(self), b, p),
            match render_part(b, p, idx as int) {
                Ok(s) => {
                    &&& r is Ok
                    &&& final(out)@ == old(out)@ + s
                    &&& tracks_row(*final(self), idx as int)
                    &&& remembers_row(*final(self), idx as int)
                },
                Err(e) => {
                    &&& r == Err::<(), PartitionKeyError>(e)
                    &&& final(out)@ == old(out)@
                    &&& *final(self) == *old(self)
                },
            },
    {
        proof {
            lemma_named_column_wf(b, p);
        }
        match self {
            Template::TagValue(col, last_key) => {
                if col.is_valid(idx) {
                    match col.get_tag_identity_key(idx) {
                        None => {
                            return Err(PartitionKeyError::TagValueNotTag(col.type_description()));
                        },
                        Some(k) => {
                            *last_key = Some(k);
                            match col.get_tag_value(k) {
                                Some(v) => {
                                    let e = encode_key_part(v);
                                    out.append(e.as_str());
                                },
                                None => {},
                            }
                        },
                    }
                } else {
                    *last_key = None;
                    let s = null_string();
                    out.append(s.as_str());
                }
            },
            Template::TimeFormat(times, fmt) => {
                let ts = times[idx];
                fmt.render(ts, out)?;
            },
            Template::Bucket(col, hasher, last_key) => {
                if col.is_valid(idx) {
                    match col.get_tag_identity_key(idx) {
                        None => {
                            return Err(PartitionKeyError::TagValueNotTag(col.type_description()));
                        },
                        Some(k) => {
                            match col.get_tag_value(k) {
                                Some(v) => {
                                    proof {
                                        lemma_tag_value_hashable(**col, b.rows as nat, k);
                                    }
                                    let bucket = hasher.assign_bucket(v);
                                    *last_key = Some(k);
                                    let s = decimal_string(bucket);
                                    out.append(s.as_str());
                                },
                                None => {},
                            }
                        },
                    }
                } else {
                    *last_key = None;
                    let s = null_string();
                    out.append(s.as_str());
                }
            },
            Template::MissingTag => {
                let s = null_string();
                out.append(s.as_str());
            },
        }
        Ok(())
    }
}

impl<'a> Template<'a> {
    /// Whether row `idx` renders as the remembered row `prev` did, decided
    /// without rendering. A row whose tag column is not a tag column counts
    /// as different, so that rendering reports the error.
    pub fn is_identical(
        &mut self,
        idx: usize,
        Ghost(b): Ghost<Batch>,
        Ghost(p): Ghost<TemplatePart>,
        Ghost(prev): Ghost<int>,
    ) -> (r: bool)
        requires
            b.wf(),
            0 <= prev < idx < b.rows,
            matches_part(*old(self), b, p),
            tracks_row(*old(self), prev),
            render_part(b, p, prev) is Ok,
        ensures
            matches_part(*final(self), b, p),
            same_memory(*old(self), *final(self)),
            r == part_identical(b, p, prev, idx as int),
            r ==> render_part(b, p, idx as int) == render_part(b, p, prev),
            r ==> tracks_row(*final(self), idx as int),
    {
        proof {
            lemma_named_column_wf(b, p);
        }
        match self {
            Template::TagValue(col, last_key) => {
                if col.is_valid(idx) {
                    match col.get_tag_identity_key(idx) {
                        None => false,
                        Some(k) => match *last_key {
                            Some(l) => l == k,
                            None => false,
                        },
                    }
                } else {
                    last_key.is_none()
                }
            },
            Template::TimeFormat(times, fmt) => fmt.equals_last(times[idx]),
            Template::Bucket(col, hasher, last_key) => {
                if col.is_valid(idx) {
                    match col.get_tag_identity_key(idx) {
                        None => false,
                        Some(k) => match *last_key {
                            Some(l) => {
                                if l == k {
                                    true
                                } else {
                                    match col.get_tag_value(k) {
                                        Some(v) => match hasher.last_assigned_bucket() {
                                            Some(last_bucket) => {
                                                proof {
                                                    lemma_tag_value_hashable(**col, b.rows as nat, k);
                                                }
                                                let bucket = hasher.assign_bucket(v);
                                                last_bucket == bucket
                                            },
                                            None => false,
                                        },
                                        None => false,
                                    }
                                }
                            },
                            None => false,
                        },
                    }
                } else {
                    last_key.is_none()
                }
            },
            Template::MissingTag => true,
        }
    }
}

proof fn lemma_render_upto_parts_ok(b: Batch, parts: Seq<TemplatePart>, row: int, n: int)
    requires
        0 <= n <= parts.len(),
        render_upto(b, parts, row, n) is Ok,
    ensures
        forall|j: int| 0 <= j < n ==> (#[trigger] render_part(b, parts[j], row)) is Ok,
    decreases n,
{
    if n > 0 {
        lemma_render_upto_parts_ok(b, parts, row, n - 1);
    }
}

proof fn lemma_render_upto_same(b: Batch, parts: Seq<TemplatePart>, r1: int, r2: int, n: int)
    requires
        0 <= n <= parts.len(),
        forall|j: int|
            0 <= j < n ==> #[trigger] render_part(b, parts[j], r1) == render_part(b, parts[j], r2),
    ensures
        render_upto(b, parts, r1, n) == render_upto(b, parts, r2, n),
    decreases n,
{
    if n > 0 {
        lemma_render_upto_same(b, parts, r1, r2, n - 1);
        assert(render_part(b, parts[n - 1], r1) == render_part(b, parts[n - 1], r2));
    }
}

proof fn lemma_render_upto_err(b: Batch, parts: Seq<TemplatePart>, row: int, m: int, n: int)
    requires
        0 <= m <= n,
        render_upto(b, parts, row, m) is Err,
    ensures
        render_upto(b, parts, row, n) == render_upto(b, parts, row, m),
    decreases n,
{
    if n > m {
        lemma_render_upto_err(b, parts, row, m, n - 1);
    }
}

/// Checks part by part, in order and stopping at the first difference,
/// whether row `idx` renders as row `prev` did.
fn all_identical(
    template: &mut Vec<Template>,
    idx: usize,
    Ghost(b): Ghost<Batch>,
    Ghost(parts): Ghost<Seq<TemplatePart>>,
    Ghost(prev): Ghost<int>,
) -> (r: bool)
    requires
        b.wf(),
        0 <= prev < idx < b.rows,
        old(template)@.len() == parts.len(),
        forall|j: int| 0 <= j < parts.len() ==> matches_part(#[trigger] old(template)@[j], b, parts[j]),
        forall|j: int| 0 <= j < parts.len() ==> tracks_row(#[trigger] old(template)@[j], prev),
        row_key(b, parts, prev) is Ok,
    ensures
        final(template)@.len() == parts.len(),
        forall|j: int| 0 <= j < parts.len() ==> matches_part(#[trigger] final(template)@[j], b, parts[j]),
        r ==> forall|j: int| 0 <= j < parts.len() ==> tracks_row(#[trigger] final(template)@[j], idx as int),
        r ==> row_key(b, parts, idx as int) == row_key(b, parts, prev),
        r == forall|j: int| 0 <= j < parts.len() ==> #[trigger] part_identical(b, parts[j], prev, idx as int),
{
    proof {
        reveal(row_key);
        lemma_render_upto_parts_ok(b, parts, prev, parts.len() as int);
    }
    let mut j: usize = 0;
    let mut all = true;
    while j < template.len() && all
        invariant
            b.wf(),
            0 <= prev < idx < b.rows,
            template@.len() == parts.len(),
            0 <= j <= parts.len(),
            forall|i: int| 0 <= i < parts.len() ==> matches_part(#[trigger] template@[i], b, parts[i]),
            all ==> forall|i: int| j <= i < parts.len() ==> tracks_row(#[trigger] template@[i], prev),
            forall|i: int| 0 <= i < parts.len() ==> (#[trigger] render_part(b, parts[i], prev)) is Ok,
            all ==> forall|i: int| 0 <= i < j ==> tracks_row(#[trigger] template@[i], idx as int),
            all ==> forall|i: int|
                0 <= i < j ==> #[trigger] render_part(b, parts[i], idx as int) == render_part(
                    b,
                    parts[i],
                    prev,
                ),
            all ==> forall|i: int| 0 <= i < j ==> #[trigger] part_identical(b, parts[i], prev, idx as int),
            !all ==> j < parts.len() && !part_identical(b, parts[j as int], prev, idx as int),
        decreases parts.len() - j + (if all { 1int } else { 0int }),
    {
        let mut t = Template::MissingTag;
        template.set_and_swap(j, &mut t);
        proof {
            assert(render_part(b, parts[j as int], prev) is Ok);
        }
        let same = t.is_identical(idx, Ghost(b), Ghost(parts[j as int]), Ghost(prev));
        template.set_and_swap(j, &mut t);
        if same {
            j = j + 1;
        } else {
            all = false;
        }
    }
    proof {
        reveal(row_key);
        if all {
            lemma_render_upto_same(b, parts, idx as int, prev, parts.len() as int);
        }
    }
    all
}

/// Renders the key of row `idx`: its parts joined by `|`, or the first
/// error.
fn evaluate_template(
    template: &mut Vec<Template>,
    idx: usize,
    Ghost(b): Ghost<Batch>,
    Ghost(parts): Ghost<Seq<TemplatePart>>,
) -> (r: Result<String, PartitionKeyError>)
    requires
        b.wf(),
        idx < b.rows,
        old(template)@.len() == parts.len(),
        forall|j: int| 0 <= j < parts.len() ==> matches_part(#[trigger] old(template)@[j], b, parts[j]),
    ensures
        final(template)@.len() == parts.len(),
        forall|j: int| 0 <= j < parts.len() ==> matches_part(#[trigger] final(template)@[j], b, parts[j]),
        key_view(r) == row_key(b, parts, idx as int),
        r is Ok ==> forall|j: int|
            0 <= j < parts.len() ==> tracks_row(#[trigger] final(template)@[j], idx as int),
        r is Ok ==> forall|j: int|
            0 <= j < parts.len() ==> remembers_row(#[trigger] final(template)@[j], idx as int),
        r is Ok && parts.len() > 0 ==> delimiter_count(r->Ok_0@) + 1 == parts.len(),
        r is Ok ==> forall|j: int|
            0 <= j < parts.len() ==> (#[trigger] render_part(b, parts[j], idx as int)) is Ok
                && render_part(b, parts[j], idx as int)->Ok_0.len() <= PARTITION_KEY_MAX_PART_LEN,
        r is Err ==> exists|f: int|
            0 <= f < parts.len() && (#[trigger] render_part(b, parts[f], idx as int)) is Err
                && (forall|j: int| 0 <= j < f ==> (#[trigger] render_part(b, parts[j], idx as int)) is Ok)
                && (forall|j: int| f <= j < parts.len() ==> #[trigger] final(template)@[j] == old(template)@[j]),
{
    let mut buf = String::new();
    let mut j: usize = 0;
    let n = template.len();
    while j < n
        invariant
            b.wf(),
            idx < b.rows,
            n == parts.len(),
            template@.len() == parts.len(),
            0 <= j <= n,
            forall|i: int| 0 <= i < parts.len() ==> matches_part(#[trigger] template@[i], b, parts[i]),
            forall|i: int| 0 <= i < j ==> tracks_row(#[trigger] template@[i], idx as int),
            forall|i: int| 0 <= i < j ==> remembers_row(#[trigger] template@[i], idx as int),
            forall|i: int| j <= i < n ==> #[trigger] template@[i] == old(template)@[i],
            render_upto(b, parts, idx as int, j as int) == Ok::<Seq<char>, PartitionKeyError>(buf@),
        decreases n - j,
    {
        if j > 0 {
            proof {
                reveal_strlit("|");
            }
            buf.append("|");
        }
        let ghost before = buf@;
        let mut t = Template::MissingTag;
        template.set_and_swap(j, &mut t);
        let res = t.fmt_row(&mut buf, idx, Ghost(b), Ghost(parts[j as int]));
        template.set_and_swap(j, &mut t);
        match res {
            Err(e) => {
                proof {
                    reveal(row_key);
                    lemma_render_upto_err(b, parts, idx as int, j + 1, parts.len() as int);
                    lemma_render_upto_parts_ok(b, parts, idx as int, j as int);
                    assert(render_part(b, parts[j as int], idx as int) is Err);
                    assert forall|i: int| j <= i < n implies #[trigger] template@[i] == old(template)@[i] by {}
                }
                return Err(e);
            },
            Ok(()) => {},
        }
        proof {
            if j > 0 {
                let acc = render_upto(b, parts, idx as int, j as int)->Ok_0;
                let s = render_part(b, parts[j as int], idx as int)->Ok_0;
                assert(buf@ =~= acc.push(PARTITION_KEY_DELIMITER) + s);
            } else {
                assert(buf@ =~= render_part(b, parts[0], idx as int)->Ok_0);
            }
        }
        j = j + 1;
    }
    proof {
        reveal(row_key);
        lemma_key_splits_into_parts(b, parts, idx as int);
    }
    Ok(buf)
}

fn build_template<'a>(batch: &'a Batch, time: &'a Vec<i64>, parts: &[TemplatePart<'a>]) -> (r: Vec<
    Template<'a>,
>)
    requires
        batch.wf(),
        batch.time == Some(*time),
        parts_valid(parts@),
    ensures
        r@.len() == parts@.len(),
        forall|j: int| 0 <= j < parts@.len() ==> matches_part(#[trigger] r@[j], *batch, parts@[j]),
{
    let mut template: Vec<Template<'a>> = Vec::new();
    let mut j: usize = 0;
    while j < parts.len()
        invariant
            batch.wf(),
            batch.time == Some(*time),
            parts_valid(parts@),
            0 <= j <= parts@.len(),
            template@.len() == j,
            forall|i: int| 0 <= i < j ==> matches_part(#[trigger] template@[i], *batch, parts@[i]),
        decreases parts@.len() - j,
    {
        let t = match parts[j] {
            TemplatePart::TagValue(name) => match batch.column(name) {
                Some(c) => Template::TagValue(c, None),
                None => Template::MissingTag,
            },
            TemplatePart::TimeFormat(format) => Template::TimeFormat(
                time,
                StrftimeFormatter::new(format),
            ),
            TemplatePart::Bucket(name, num_buckets) => {
                proof {
                    assert(match parts@[j as int] {
                        TemplatePart::Bucket(_, n) => n > 0,
                        _ => true,
                    });
                }
                match batch.column(name) {
                    Some(c) => Template::Bucket(c, BucketHasher::new(num_buckets), None),
                    None => Template::MissingTag,
                }
            },
        };
        template.push(t);
        j = j + 1;
    }
    template
}

/// The key of each row of `batch` under the template `parts`: `Some` with
/// the key (or its error) for each rendered row, `None` for a row whose key
/// is known to be that of the row before. The first row is always rendered,
/// and so is each row after one whose rendering failed.
pub fn partition_keys<'a>(batch: &'a Batch, parts: &[TemplatePart<'a>]) -> (r: Vec<
    Option<Result<String, PartitionKeyError>>,
>)
    requires
        batch.wf(),
        batch.time is Some,
        parts_valid(parts@),
    ensures
        is_dedup_of(*batch, parts@, r@),
        skips_exactly(*batch, parts@, r@),
{
    let ghost b = *batch;
    let ghost ps = parts@;
    let time = match batch.time_column() {
        Ok(t) => t,
        Err(_) => {
            return Vec::new();
        },
    };
    let mut template = build_template(batch, time, parts);
    let n = batch.num_rows();
    let mut out: Vec<Option<Result<String, PartitionKeyError>>> = Vec::new();
    if n == 0 {
        return out;
    }
    let first = evaluate_template(&mut template, 0, Ghost(b), Ghost(ps));
    let mut last_ok = first.is_ok();
    out.push(Some(first));
    let mut idx: usize = 1;
    while idx < n
        invariant
            b == *batch,
            ps == parts@,
            b.wf(),
            n == b.rows,
            1 <= idx <= n,
            template@.len() == ps.len(),
            forall|j: int| 0 <= j < ps.len() ==> matches_part(#[trigger] template@[j], b, ps[j]),
            last_ok ==> row_key(b, ps, idx - 1) is Ok,
            last_ok ==> forall|j: int|
                0 <= j < ps.len() ==> tracks_row(#[trigger] template@[j], idx - 1),
            out@.len() == idx,
            out@[0] is Some,
            forall|i: int|
                0 <= i < idx && (#[trigger] out@[i]) is Some ==> key_view(out@[i]->Some_0)
                    == row_key(b, ps, i),
            forall|i: int|
                0 <= i < idx && (#[trigger] out@[i]) is None ==> i > 0 && row_key(b, ps, i)
                    == row_key(b, ps, i - 1) && row_key(b, ps, i) is Ok,
            !last_ok ==> out@[idx - 1] is Some && out@[idx - 1]->Some_0 is Err,
            last_ok ==> (out@[idx - 1] is Some ==> out@[idx - 1]->Some_0 is Ok),
            forall|i: int|
                0 < i < idx ==> ((#[trigger] out@[i]) is None <==> (row_key(b, ps, i - 1) is Ok
                    && forall|j: int| 0 <= j < ps.len() ==> #[trigger] part_identical(b, ps[j], i - 1, i))),
        decreases n - idx,
    {
        let mut skip = false;
        if last_ok {
            skip = all_identical(&mut template, idx, Ghost(b), Ghost(ps), Ghost(idx - 1));
        }
        if skip {
            out.push(None);
        } else {
            let k = evaluate_template(&mut template, idx, Ghost(b), Ghost(ps));
            last_ok = k.is_ok();
            out.push(Some(k));
        }
        idx = idx + 1;
    }
    out
}

/// Expanding the key generator's output, each `None` taking the key before
/// it, gives every row the key that rendering it on its own gives.
pub proof fn lemma_dedup_expands_to_row_keys(
    b: Batch,
    parts: Seq<TemplatePart>,
    out: Seq<Option<Result<String, PartitionKeyError>>>,
    i: int,
)
    requires
        is_dedup_of(b, parts, out),
        0 <= i < out.len(),
    ensures
        key_view(filled(out, i)) == row_key(b, parts, i),
    decreases i,
{
    if out[i] is None {
        lemma_dedup_expands_to_row_keys(b, parts, out, i - 1);
    }
}

/// `out` gives the rows of `b` in ranges: non-empty, one after another from
/// the first row to the last, each holding rows whose keys are its key, and
/// no two ranges side by side with the same key.
#[verifier::opaque]
pub open spec fn is_key_ranges(
    b: Batch,
    parts: Seq<TemplatePart>,
    out: Seq<(Result<String, PartitionKeyError>, Range<usize>)>,
) -> bool {
    &&& (out.len() == 0 <==> b.rows == 0)
    &&& out.len() > 0 ==> out[0].1.start == 0 && out[out.len() - 1].1.end == b.rows
    &&& forall|k: int| 0 <= k < out.len() ==> (#[trigger] out[k]).1.start < out[k].1.end
    &&& forall|k: int| 0 <= k < out.len() - 1 ==> (#[trigger] out[k]).1.end == out[k + 1].1.start
    &&& forall|k: int| 0 <= k < out.len() ==> key_view((#[trigger] out[k]).0) == row_key(b, parts, out[k].1.start as int)
    &&& forall|k: int, i: int|
        0 <= k < out.len() && (#[trigger] out[k]).1.start <= i < out[k].1.end ==> same_key(
            key_view(out[k].0),
            #[trigger] row_key(b, parts, i),
        )
    &&& forall|k: int|
        0 <= k < out.len() - 1 ==> !same_key(key_view((#[trigger] out[k]).0), key_view(out[k + 1].0))
}

proof fn lemma_run_keys(
    keys: Seq<Option<Result<String, PartitionKeyError>>>,
    want: Seq<Result<Seq<char>, PartitionKeyError>>,
    out: Seq<(Result<String, PartitionKeyError>, Range<usize>)>,
    k: int,
    i: int,
)
    requires
        keys.len() == want.len(),
        forall|j: int|
            0 <= j < keys.len() && (#[trigger] keys[j]) is Some ==> key_view(keys[j]->Some_0)
                == want[j],
        forall|j: int|
            0 <= j < keys.len() && (#[trigger] keys[j]) is None ==> j > 0 && want[j] == want[j
                - 1],
        is_run_encoding(keys, out),
        0 <= k < out.len(),
        out[k].1.start <= i < out[k].1.end,
    ensures
        same_key(key_view(out[k].0), want[i]),
    decreases i,
{
    let lo = out[k].1.start as int;
    assert(keys[lo] == Some(out[k].0));
    lemma_run_end_bound(keys, out, k);
    if i > lo {
        if keys[i] is None {
            lemma_run_keys(keys, want, out, k, i - 1);
        } else {
            assert(out[k].0.same_run(&keys[i]->Some_0));
        }
    }
}

proof fn lemma_run_end_bound<T: RunValue>(xs: Seq<Option<T>>, out: Seq<(T, Range<usize>)>, k: int)
    requires
        is_run_encoding(xs, out),
        0 <= k < out.len(),
    ensures
        out[k].1.end <= xs.len(),
    decreases out.len() - k,
{
    if k < out.len() - 1 {
        lemma_run_end_bound(xs, out, k + 1);
    }
}

/// The partition key of each run of rows of `batch` under the template
/// `parts`, with the range of the run.
pub fn partition_batch<'a>(batch: &'a Batch, parts: &[TemplatePart<'a>]) -> (r: Vec<
    (Result<String, PartitionKeyError>, Range<usize>),
>)
    requires
        batch.wf(),
        batch.time is Some,
        parts@.len() <= MAXIMUM_NUMBER_OF_TEMPLATE_PARTS,
        parts_valid(parts@),
    ensures
        is_key_ranges(*batch, parts@, r@),
{
    let keys = partition_keys(batch, parts);
    let ghost ks = keys@;
    let r = range_encode(keys);
    proof {
        reveal(is_key_ranges);
        let out = r@;
        let want = Seq::new(ks.len(), |i: int| row_key(*batch, parts@, i));
        assert forall|k: int, i: int|
            0 <= k < out.len() && (#[trigger] out[k]).1.start <= i < out[k].1.end implies same_key(
            key_view(out[k].0),
            #[trigger] row_key(*batch, parts@, i),
        ) by {
            lemma_run_end_bound(ks, out, k);
            lemma_run_keys(ks, want, out, k, i);
        }
        assert forall|k: int| 0 <= k < out.len() implies key_view((#[trigger] out[k]).0) == row_key(
            *batch,
            parts@,
            out[k].1.start as int,
        ) by {
            lemma_run_end_bound(ks, out, k);
            assert(ks[out[k].1.start as int] == Some(out[k].0));
        }
    }
    r
}

/// Ten to the power `k`.
pub open spec fn pow10(k: nat) -> nat
    decreases k,
{
    if k == 0 {
        1
    } else {
        10 * pow10((k - 1) as nat)
    }
}

proof fn lemma_decimal_digits(n: nat, k: nat)
    requires
        k >= 1,
        n < pow10(k),
    ensures
        decimal(n).len() <= k,
        forall|i: int| 0 <= i < decimal(n).len() ==> '0' <= #[trigger] decimal(n)[i] <= '9',
    decreases n,
{
    if n >= 10 {
        assert(k >= 2) by {
            if k == 1 {
                assert(pow10(0) == 1);
            }
        }
        let p = pow10((k - 1) as nat);
        assert(n / 10 < p) by (nonlinear_arith)
            requires
                n < 10 * p,
        ;
        lemma_decimal_digits(n / 10, (k - 1) as nat);
    }
}

/// Every part of a key is at most 200 characters of ASCII, so at most 200
/// bytes, and holds no `|`: it is the null marker, an encoded tag value or
/// timestamp, or the digits of a bucket number.
pub proof fn lemma_rendered_part_well_formed(b: Batch, p: TemplatePart, row: int)
    requires
        render_part(b, p, row) is Ok,
    ensures
        ({
            let s = render_part(b, p, row)->Ok_0;
            &&& s.len() <= PARTITION_KEY_MAX_PART_LEN
            &&& is_ascii_chars(s)
            &&& forall|i: int| 0 <= i < s.len() ==> #[trigger] s[i] != PARTITION_KEY_DELIMITER
        }),
{
    let s = render_part(b, p, row)->Ok_0;
    if s != null_part() {
        match p {
            TemplatePart::TagValue(name) => {
                let c = b.column_named(name@)->Some_0;
                match c.values {
                    ColumnValues::Tag { dictionary, keys } => {
                        lemma_key_part_well_formed(dictionary@[keys@[row] as int]@);
                    },
                    ColumnValues::Other { .. } => {},
                }
            },
            TemplatePart::Bucket(name, n) => {
                let c = b.column_named(name@)->Some_0;
                match c.values {
                    ColumnValues::Tag { dictionary, keys } => {
                        let v = bucket_of(dictionary@[keys@[row] as int]@, n) as nat;
                        reveal_with_fuel(pow10, 11);
                        assert(pow10(10) == 10000000000nat);
                        lemma_decimal_digits(v, 10);
                    },
                    ColumnValues::Other { .. } => {},
                }
            },
            TemplatePart::TimeFormat(format) => {
                let ts = b.time->Some_0@[row];
                lemma_key_part_well_formed(
                    strftime_utc(format@, reduced_timestamp(format@, ts))->Some_0,
                );
            },
        }
    }
}

proof fn lemma_delimiter_count_concat(a: Seq<char>, c: Seq<char>)
    ensures
        delimiter_count(a + c) == delimiter_count(a) + delimiter_count(c),
    decreases c.len(),
{
    if c.len() == 0 {
        assert(a + c =~= a);
    } else {
        lemma_delimiter_count_concat(a, c.drop_last());
        assert((a + c).drop_last() =~= a + c.drop_last());
    }
}

proof fn lemma_no_delimiter(s: Seq<char>)
    requires
        forall|i: int| 0 <= i < s.len() ==> #[trigger] s[i] != PARTITION_KEY_DELIMITER,
    ensures
        delimiter_count(s) == 0,
    decreases s.len(),
{
    if s.len() > 0 {
        lemma_no_delimiter(s.drop_last());
    }
}

proof fn lemma_render_upto_delimiters(b: Batch, parts: Seq<TemplatePart>, row: int, n: int)
    requires
        1 <= n <= parts.len(),
        render_upto(b, parts, row, n) is Ok,
    ensures
        delimiter_count(render_upto(b, parts, row, n)->Ok_0) + 1 == n,
    decreases n,
{
    let s = render_part(b, parts[n - 1], row)->Ok_0;
    lemma_rendered_part_well_formed(b, parts[n - 1], row);
    lemma_no_delimiter(s);
    if n > 1 {
        lemma_render_upto_delimiters(b, parts, row, n - 1);
        let acc = render_upto(b, parts, row, n - 1)->Ok_0;
        lemma_delimiter_count_concat(acc.push(PARTITION_KEY_DELIMITER), s);
        assert(acc.push(PARTITION_KEY_DELIMITER).drop_last() =~= acc);
    }
}

/// A key splits at its delimiters into exactly one piece per template part:
/// it holds one `|` fewer than the template has parts, and each part's
/// rendering is at most 200 bytes and holds no `|`.
pub proof fn lemma_key_splits_into_parts(b: Batch, parts: Seq<TemplatePart>, row: int)
    requires
        row_key(b, parts, row) is Ok,
    ensures
        parts.len() > 0 ==> delimiter_count(row_key(b, parts, row)->Ok_0) + 1 == parts.len(),
        forall|j: int|
            0 <= j < parts.len() ==> (#[trigger] render_part(b, parts[j], row)) is Ok
                && render_part(b, parts[j], row)->Ok_0.len() <= PARTITION_KEY_MAX_PART_LEN
                && forall|i: int|
                0 <= i < render_part(b, parts[j], row)->Ok_0.len() ==> render_part(b, parts[j], row)->Ok_0[i]
                    != PARTITION_KEY_DELIMITER,
{
    reveal(row_key);
    lemma_render_upto_parts_ok(b, parts, row, parts.len() as int);
    if parts.len() > 0 {
        lemma_render_upto_delimiters(b, parts, row, parts.len() as int);
    }
    assert forall|j: int| 0 <= j < parts.len() implies (#[trigger] render_part(b, parts[j], row)) is Ok
        && render_part(b, parts[j], row)->Ok_0.len() <= PARTITION_KEY_MAX_PART_LEN
        && forall|i: int|
        0 <= i < render_part(b, parts[j], row)->Ok_0.len() ==> render_part(b, parts[j], row)->Ok_0[i]
            != PARTITION_KEY_DELIMITER by {
        lemma_rendered_part_well_formed(b, parts[j], row);
    }
}

/// The column that a part names is well formed.
proof fn lemma_named_column_wf(b: Batch, p: TemplatePart)
    requires
        b.wf(),
    ensures
        match p {
            TemplatePart::TagValue(name) => match b.column_named(name@) {
                Some(c) => c.wf(b.rows as nat),
                None => true,
            },
            TemplatePart::Bucket(name, _) => match b.column_named(name@) {
                Some(c) => c.wf(b.rows as nat),
                None => true,
            },
            _ => true,
        },
{
    match p {
        TemplatePart::TagValue(name) => {
            if b.has_column(name@) {
                let i = choose|i: int|
                    0 <= i < b.columns@.len() && (#[trigger] b.columns@[i]).name@ == name@;
                assert(b.columns@[i].wf(b.rows as nat));
            }
        },
        TemplatePart::Bucket(name, _) => {
            if b.has_column(name@) {
                let i = choose|i: int|
                    0 <= i < b.columns@.len() && (#[trigger] b.columns@[i]).name@ == name@;
                assert(b.columns@[i].wf(b.rows as nat));
            }
        },
        _ => {},
    }
}

} // verus!
