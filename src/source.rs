use vstd::prelude::*;

use crate::accumulator::{aggregate, can_fold_in, fold_in, Accumulator, Overflow};
use crate::measurement::{parse_line, parse_line_spec, Measurement, ParseError};
use crate::station::{single, Stats};

verus! {

/// Why a line of a source could not be folded in.
#[derive(Clone, Copy, Debug, PartialEq, Eq, Structural)]
pub enum LineError {
    /// The line holds no `;`.
    MalformedLine,
    /// The value is not `[-]D+.D`, or does not fit in an `i64`.
    InvalidNumber,
    /// The value does not fit in an `i32`, or the station's total or count would overflow.
    Overflow,
}

/// What folding one line into the statistics `m` gives.
pub open spec fn line_step(m: Map<Seq<u8>, Stats>, line: Seq<u8>) -> Result<Map<Seq<u8>, Stats>, LineError> {
    match parse_line_spec(line) {
        Err(ParseError::MalformedLine) => Err(LineError::MalformedLine),
        Err(ParseError::InvalidNumber) => Err(LineError::InvalidNumber),
        Ok((name, v)) => if i32::MIN <= v <= i32::MAX && can_fold_in(m, name, single(v)) {
            Ok(fold_in(m, name, single(v)))
        } else {
            Err(LineError::Overflow)
        },
    }
}

/// What folding the lines in order gives: the statistics, or the position of the
/// first line that fails and why.
pub open spec fn run_lines(lines: Seq<Seq<u8>>) -> Result<Map<Seq<u8>, Stats>, (int, LineError)>
    decreases lines.len(),
{
    if lines.len() == 0 {
        Ok(Map::empty())
    } else {
        match run_lines(lines.drop_last()) {
            Err(e) => Err(e),
            Ok(m) => match line_step(m, lines.last()) {
                Ok(m2) => Ok(m2),
                Err(e) => Err((lines.len() - 1, e)),
            },
        }
    }
}

/// Once a prefix of the lines fails, the whole fails the same way.
pub(crate) proof fn lemma_run_lines_err_extends(ls: Seq<Seq<u8>>, j: int)
    requires
        0 <= j <= ls.len(),
        run_lines(ls.take(j)) is Err,
    ensures
        run_lines(ls) == run_lines(ls.take(j)),
    decreases ls.len() - j,
{
    if j < ls.len() {
        assert(ls.take(j + 1).drop_last() =~= ls.take(j));
        lemma_run_lines_err_extends(ls, j + 1);
    } else {
        assert(ls.take(j) =~= ls);
    }
}

/// The measurement a line stands for, where it reads as one.
pub open spec fn measurement_of(line: Seq<u8>) -> (Seq<u8>, int) {
    match parse_line_spec(line) {
        Ok(p) => p,
        Err(_) => (Seq::empty(), 0),
    }
}

/// The measurements that the lines stand for, in order.
pub open spec fn measurements_of(lines: Seq<Seq<u8>>) -> Seq<(Seq<u8>, int)> {
    lines.map_values(|l: Seq<u8>| measurement_of(l))
}

/// The lines as byte sequences.
pub open spec fn lines_view(lines: Seq<Vec<u8>>) -> Seq<Seq<u8>> {
    lines.map_values(|l: Vec<u8>| l@)
}

impl Accumulator {
    /// Reads one line and folds its measurement in. On `Err` nothing changes.
    pub fn add_line(&mut self, line: &[u8]) -> (r: Result<(), LineError>)
        requires
            old(self).wf(),
        ensures
            final(self).wf(),
            match r {
                Ok(()) => line_step(old(self)@, line@) == Ok::<Map<Seq<u8>, Stats>, LineError>(final(self)@),
                Err(e) => line_step(old(self)@, line@) == Err::<Map<Seq<u8>, Stats>, LineError>(e)
                    && final(self)@ == old(self)@,
            },
    {
        match parse_line(line) {
            Err(ParseError::MalformedLine) => Err(LineError::MalformedLine),
            Err(ParseError::InvalidNumber) => Err(LineError::InvalidNumber),
            Ok(m) => match add_to_stations(self, m) {
                Ok(()) => Ok(()),
                Err(_) => Err(LineError::Overflow),
            },
        }
    }
}

/// Folds one measurement into the stations; see [`Accumulator::update`].
pub fn add_to_stations(stations: &mut Accumulator, measurement: Measurement) -> (r: Result<(), Overflow>)
    requires
        old(stations).wf(),
    ensures
        final(stations).wf(),
        r.is_ok() <==> (i32::MIN <= measurement.value <= i32::MAX && can_fold_in(
            old(stations)@,
            measurement.name@,
            single(measurement.value as int),
        )),
        r.is_ok() ==> final(stations)@ == fold_in(old(stations)@, measurement.name@, single(measurement.value as int)),
        r.is_err() ==> final(stations)@ == old(stations)@,
{
    stations.update(measurement)
}

/// Folds every line of a source in order into a new accumulator. `Err` gives the
/// position of the first line that fails and why; its statistics are those of
/// [`aggregate`] over the lines' measurements.
pub fn aggregate_lines(lines: &Vec<Vec<u8>>) -> (r: Result<Accumulator, (usize, LineError)>)
    ensures
        match r {
            Ok(a) => a.wf() && run_lines(lines_view(lines@)) == Ok::<Map<Seq<u8>, Stats>, (int, LineError)>(a@)
                && a@ == aggregate(measurements_of(lines_view(lines@))),
            Err((i, e)) => run_lines(lines_view(lines@)) == Err::<Map<Seq<u8>, Stats>, (int, LineError)>((i as int, e)),
        },
{
    let ghost ls = lines_view(lines@);
    let mut acc = Accumulator::new();
    let n = lines.len();
    let mut i: usize = 0;
    proof {
        assert(ls.take(0) =~= Seq::<Seq<u8>>::empty());
        assert(measurements_of(ls.take(0)) =~= Seq::<(Seq<u8>, int)>::empty());
    }
    while i < n
        invariant
            ls == lines_view(lines@),
            n == lines@.len(),
            i <= n,
            acc.wf(),
            run_lines(ls.take(i as int)) == Ok::<Map<Seq<u8>, Stats>, (int, LineError)>(acc@),
            acc@ == aggregate(measurements_of(ls.take(i as int))),
        decreases n - i,
    {
        let ghost before = acc@;
        let ghost prefix = ls.take(i + 1);
        proof {
            assert(prefix.drop_last() =~= ls.take(i as int));
            assert(prefix.last() == lines@[i as int]@);
            assert(measurements_of(prefix).drop_last() =~= measurements_of(ls.take(i as int)));
        }
        match acc.add_line(lines[i].as_slice()) {
            Ok(()) => {},
            Err(e) => {
                proof {
                    lemma_run_lines_err_extends(ls, i + 1);
                }
                return Err((i, e));
            },
        }
        proof {
            let (name, v) = measurement_of(prefix.last());
            assert(measurements_of(prefix).last() == (name, v));
        }
        i = i + 1;
    }
    proof {
        assert(ls.take(n as int) =~= ls);
    }
    Ok(acc)
}

} // verus!
