//! Rendering of timestamps with a strftime format, with a cache of the last
//! rendering.

use vstd::prelude::*;
use crate::error::PartitionKeyError;
use crate::encode::{encode_key_part, encode_key_part_spec};

verus! {

/// The number of nanoseconds in a day.
pub const DAY_NANOSECONDS: i64 = 86_400_000_000_000;

/// What chrono renders for the UTC instant `nanos` nanoseconds after the
/// epoch under the strftime `format`, or `None` where it reports an error.
pub uninterp spec fn strftime_utc(format: Seq<char>, nanos: i64) -> Option<Seq<char>>;

/// Relies on chrono: `Utc.timestamp_nanos` (total over `i64`) and
/// `DateTime::format_with_items` with `StrftimeItems::new(format)`, written
/// with `DelayedFormat::write_to`, which fails on an invalid item.
#[verifier::external_body]
fn format_utc_nanos(format: &str, nanos: i64) -> (r: Option<String>)
    ensures
        match r {
            Some(s) => strftime_utc(format@, nanos) == Some(s@),
            None => strftime_utc(format@, nanos) == None::<Seq<char>>,
        },
{
    let items = chrono::format::StrftimeItems::new(format);
    let time = chrono::TimeZone::timestamp_nanos(&chrono::Utc, nanos);
    let mut out = String::new();
    match time.format_with_items(items).write_to(&mut out) {
        Ok(()) => Some(out),
        Err(_) => None,
    }
}

/// The format of the default template, which renders a day.
pub open spec fn ymd_format() -> Seq<char> {
    seq!['%', 'Y', '-', '%', 'm', '-', '%', 'd']
}

/// The timestamp that is rendered for `ts`: with the day format, a
/// non-negative timestamp is taken back to the start of its day, so that all
/// the timestamps of a day share one cached rendering.
pub open spec fn reduced_timestamp(format: Seq<char>, ts: i64) -> i64 {
    if format == ymd_format() && ts >= 0 {
        (ts - ts % DAY_NANOSECONDS) as i64
    } else {
        ts
    }
}

/// What a time part renders for `ts` under `format`: chrono's rendering,
/// encoded and bounded as a tag value is, so that the format's literal text
/// cannot hold a bare delimiter.
pub open spec fn render_time(format: Seq<char>, ts: i64) -> Result<Seq<char>, PartitionKeyError> {
    match strftime_utc(format, reduced_timestamp(format, ts)) {
        Some(s) => Ok(encode_key_part_spec(s)),
        None => Err(PartitionKeyError::InvalidStrftime),
    }
}

/// Renders timestamps with a strftime format, remembering the last
/// rendering.
pub struct StrftimeFormatter<'a> {
    format: &'a str,
    is_ymd_format: bool,
    last: Option<(i64, String)>,
}

impl<'a> StrftimeFormatter<'a> {
    /// The format.
    pub closed spec fn spec_format(&self) -> Seq<char> {
        self.format@
    }

    /// The reduced timestamp of the last successful rendering, if any.
    pub closed spec fn spec_last(&self) -> Option<i64> {
        match self.last {
            Some((t, _)) => Some(t),
            None => None,
        }
    }

    /// The cache holds a true rendering.
    pub closed spec fn wf(&self) -> bool {
        &&& self.is_ymd_format == (self.format@ == ymd_format())
        &&& match self.last {
            Some((t, s)) => match strftime_utc(self.format@, t) {
                Some(raw) => s@ == encode_key_part_spec(raw),
                None => false,
            },
            None => true,
        }
    }

    /// A formatter for `format` with nothing rendered yet.
    pub fn new(format: &'a str) -> (r: Self)
        ensures
            r.wf(),
            r.spec_format() == format@,
            r.spec_last() == None::<i64>,
    {
        let ymd = String::from_str("%Y-%m-%d");
        proof {
            reveal_strlit("%Y-%m-%d");
        }
        let is_ymd_format = String::from_str(format) == ymd;
        proof {
            assert(ymd@ =~= ymd_format());
        }
        StrftimeFormatter { format, is_ymd_format, last: None }
    }

    fn reduce(&self, ts: i64) -> (r: i64)
        requires
            self.wf(),
        ensures
            r == reduced_timestamp(self.spec_format(), ts),
    {
        if self.is_ymd_format && ts >= 0 {
            ts - ts % DAY_NANOSECONDS
        } else {
            ts
        }
    }

    /// Appends the rendering of `ts`, encoded as a key part, to `out`. On an
    /// error `out` and the formatter are left as they were.
    pub fn render(&mut self, ts: i64, out: &mut String) -> (r: Result<(), PartitionKeyError>)
        requires
            old(self).wf(),
        ensures
            final(self).wf(),
            final(self).spec_format() == old(self).spec_format(),
            match render_time(old(self).spec_format(), ts) {
                Ok(s) => {
                    &&& r is Ok
                    &&& final(out)@ == old(out)@ + s
                    &&& final(self).spec_last() == Some(
                        reduced_timestamp(old(self).spec_format(), ts),
                    )
                },
                Err(e) => {
                    &&& r == Err::<(), PartitionKeyError>(e)
                    &&& final(out)@ == old(out)@
                    &&& *final(self) == *old(self)
                },
            },
    {
        let t = self.reduce(ts);
        match &self.last {
            Some((last_ts, last_str)) => {
                if *last_ts == t {
                    out.append(last_str.as_str());
                    return Ok(());
                }
            },
            None => {},
        }
        match format_utc_nanos(self.format, t) {
            Some(raw) => {
                let s = encode_key_part(raw.as_str());
                out.append(s.as_str());
                self.last = Some((t, s));
                Ok(())
            },
            None => Err(PartitionKeyError::InvalidStrftime),
        }
    }

    /// Whether rendering `ts` would repeat the last successful rendering.
    pub fn equals_last(&self, ts: i64) -> (r: bool)
        requires
            self.wf(),
        ensures
            r == (self.spec_last() == Some(reduced_timestamp(self.spec_format(), ts))),
    {
        let t = self.reduce(ts);
        match &self.last {
            Some((last_ts, _)) => *last_ts == t,
            None => false,
        }
    }
}

} // verus!
