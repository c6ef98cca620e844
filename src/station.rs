use vstd::prelude::*;

use crate::decimal::{decimal_text, push_decimal};
use crate::measurement::Measurement;

verus! {

/// The running statistics of one station, as mathematical integers; values in tenths.
pub struct Stats {
    pub total: int,
    pub count: int,
    pub min: int,
    pub max: int,
}

/// The statistics of a single measurement.
pub open spec fn single(v: int) -> Stats {
    Stats { total: v, count: 1, min: v, max: v }
}

/// The statistics of the union of two disjoint sets of measurements.
pub open spec fn combine(a: Stats, b: Stats) -> Stats {
    Stats {
        total: a.total + b.total,
        count: a.count + b.count,
        min: if a.min <= b.min { a.min } else { b.min },
        max: if a.max >= b.max { a.max } else { b.max },
    }
}

/// What any non-empty set of measurements gives: at least one value, every value
/// between the extremes.
pub open spec fn stats_wf(s: Stats) -> bool {
    &&& s.count >= 1
    &&& s.min <= s.max
    &&& s.min * s.count <= s.total <= s.max * s.count
}

/// Whether the statistics can be held in a [`Station`].
pub open spec fn stats_fit(s: Stats) -> bool {
    &&& i64::MIN <= s.total <= i64::MAX
    &&& 0 <= s.count <= u64::MAX
    &&& i32::MIN <= s.min <= i32::MAX
    &&& i32::MIN <= s.max <= i32::MAX
}

/// `total / count`, truncated toward zero.
pub open spec fn mean_truncated(total: int, count: int) -> int {
    if total >= 0 {
        total / count
    } else {
        -((-total) / count)
    }
}

/// A value in tenths as text: an optional `-`, the whole part, `.`, one digit.
pub open spec fn tenths_text(v: int) -> Seq<u8> {
    let m = if v < 0 { -v } else { v };
    let sign = if v < 0 { seq![45u8] } else { Seq::<u8>::empty() };
    sign + decimal_text((m / 10) as nat) + seq![46u8, (48 + m % 10) as u8]
}

/// The running statistics of one station.
#[derive(Clone, Copy, Debug)]
pub struct Station {
    pub total: i64,
    pub count: u64,
    pub min: i32,
    pub max: i32,
}

impl View for Station {
    type V = Stats;

    open spec fn view(&self) -> Stats {
        Stats {
            total: self.total as int,
            count: self.count as int,
            min: self.min as int,
            max: self.max as int,
        }
    }
}

/// The mean of well-formed statistics lies between their extremes.
pub proof fn lemma_mean_between_extremes(s: Stats)
    requires
        stats_wf(s),
    ensures
        s.min <= mean_truncated(s.total, s.count) <= s.max,
{
    let (t, c, lo, hi) = (s.total, s.count, s.min, s.max);
    if t >= 0 {
        assert(lo <= t / c) by (nonlinear_arith)
            requires
                lo * c <= t,
                c >= 1,
        {
            assert(t == c * (t / c) + t % c) by (nonlinear_arith)
                requires
                    c >= 1,
            ;
            assert(0 <= t % c < c) by (nonlinear_arith)
                requires
                    c >= 1,
            ;
        }
        assert(t / c <= hi) by (nonlinear_arith)
            requires
                t <= hi * c,
                c >= 1,
                t >= 0,
        {
            assert(t == c * (t / c) + t % c) by (nonlinear_arith)
                requires
                    c >= 1,
            ;
            assert(0 <= t % c < c) by (nonlinear_arith)
                requires
                    c >= 1,
            ;
        }
    } else {
        let u = -t;
        assert(-hi * c <= u && u <= -lo * c) by (nonlinear_arith)
            requires
                lo * c <= t <= hi * c,
                u == -t,
        ;
        assert(-hi <= u / c) by (nonlinear_arith)
            requires
                -hi * c <= u,
                c >= 1,
        {
            assert(u == c * (u / c) + u % c) by (nonlinear_arith)
                requires
                    c >= 1,
            ;
            assert(0 <= u % c < c) by (nonlinear_arith)
                requires
                    c >= 1,
            ;
        }
        assert(u / c <= -lo) by (nonlinear_arith)
            requires
                u <= -lo * c,
                c >= 1,
                u >= 0,
        {
            assert(u == c * (u / c) + u % c) by (nonlinear_arith)
                requires
                    c >= 1,
            ;
            assert(0 <= u % c < c) by (nonlinear_arith)
                requires
                    c >= 1,
            ;
        }
    }
}

/// Combining well-formed statistics gives well-formed statistics.
pub proof fn lemma_combine_wf(a: Stats, b: Stats)
    requires
        stats_wf(a),
        stats_wf(b),
    ensures
        stats_wf(combine(a, b)),
{
    let r = combine(a, b);
    assert(r.min * a.count <= a.min * a.count) by (nonlinear_arith)
        requires
            r.min <= a.min,
            a.count >= 1,
    ;
    assert(r.min * b.count <= b.min * b.count) by (nonlinear_arith)
        requires
            r.min <= b.min,
            b.count >= 1,
    ;
    assert(a.max * a.count <= r.max * a.count) by (nonlinear_arith)
        requires
            a.max <= r.max,
            a.count >= 1,
    ;
    assert(b.max * b.count <= r.max * b.count) by (nonlinear_arith)
        requires
            b.max <= r.max,
            b.count >= 1,
    ;
    assert(r.min * r.count == r.min * a.count + r.min * b.count) by (nonlinear_arith)
        requires
            r.count == a.count + b.count,
    ;
    assert(r.max * r.count == r.max * a.count + r.max * b.count) by (nonlinear_arith)
        requires
            r.count == a.count + b.count,
    ;
}

impl Station {
    /// Whether the station holds statistics of a non-empty set of measurements.
    pub open spec fn wf(&self) -> bool {
        stats_wf(self@)
    }

    /// The statistics of one measurement.
    pub fn new_from_entry(measurement: Measurement) -> (r: Station)
        requires
            i32::MIN <= measurement.value <= i32::MAX,
        ensures
            r@ == single(measurement.value as int),
            r.wf(),
    {
        Station {
            total: measurement.value,
            count: 1,
            min: measurement.value as i32,
            max: measurement.value as i32,
        }
    }

    /// The statistics of both stations together, or `None` where the total or the
    /// count would not fit.
    pub fn combined(&self, other: &Station) -> (r: Option<Station>)
        ensures
            r.is_some() <==> stats_fit(combine(self@, other@)),
            r.is_some() ==> r.unwrap()@ == combine(self@, other@),
    {
        let total = match self.total.checked_add(other.total) {
            Some(t) => t,
            None => return None,
        };
        let count = match self.count.checked_add(other.count) {
            Some(c) => c,
            None => return None,
        };
        Some(Station {
            total,
            count,
            min: if self.min <= other.min { self.min } else { other.min },
            max: if self.max >= other.max { self.max } else { other.max },
        })
    }

    /// The smallest value, in tenths.
    pub fn get_min(&self) -> (r: i32)
        ensures
            r == self.min,
    {
        self.min
    }

    /// The largest value, in tenths.
    pub fn get_max(&self) -> (r: i32)
        ensures
            r == self.max,
    {
        self.max
    }

    /// The mean, in tenths, truncated toward zero.
    pub fn get_average(&self) -> (r: i64)
        requires
            self.wf(),
        ensures
            r as int == mean_truncated(self.total as int, self.count as int),
            self.min <= r <= self.max,
    {
        proof {
            lemma_mean_between_extremes(self@);
        }
        let t = self.total as i128;
        let c = self.count as i128;
        if t >= 0 {
            (t / c) as i64
        } else {
            (-((-t) / c)) as i64
        }
    }
}

/// Appends the text of a value in tenths: an optional `-`, the whole part, `.`, one digit.
pub fn push_tenths(out: &mut Vec<u8>, v: i64)
    ensures
        final(out)@ == old(out)@ + tenths_text(v as int),
{
    let m: u64 = if v < 0 { (-(v as i128)) as u64 } else { v as u64 };
    if v < 0 {
        out.push(45u8);
    }
    let ghost mid = out@;
    push_decimal(out, m / 10);
    out.push(46u8);
    out.push((48 + m % 10) as u8);
    proof {
        let sign = if v < 0 { seq![45u8] } else { Seq::<u8>::empty() };
        assert(mid =~= old(out)@ + sign);
        assert(final(out)@ =~= old(out)@ + tenths_text(v as int));
    }
}

} // verus!
