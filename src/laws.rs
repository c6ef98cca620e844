//! Properties that hold of the aggregation as a whole.
use vstd::prelude::*;

use crate::accumulator::{aggregate, fold_in, merge_maps};
use crate::decimal::{digit_value, is_digit, lemma_decimal_text_value};
use crate::measurement::{fits_i64, is_first_separator, parse_line_spec, tenths_value, ParseError, SEPARATOR};
use crate::station::{combine, lemma_combine_wf, lemma_mean_between_extremes, mean_truncated, single, stats_wf, tenths_text, Stats};
use crate::report::report_text;

verus! {

/// Reading the text of a value in tenths gives the value back.
pub proof fn lemma_tenths_round_trip(v: int)
    ensures
        tenths_value(tenths_text(v)) == Some(v),
{
    let m = if v < 0 { -v } else { v };
    let digits = crate::decimal::decimal_text((m / 10) as nat);
    lemma_decimal_text_value((m / 10) as nat);
    let tail = digits + seq![46u8, (48 + m % 10) as u8];
    let t = tenths_text(v);
    if v < 0 {
        assert(t =~= seq![45u8] + tail);
        assert(t.skip(1) =~= tail);
    } else {
        assert(t =~= tail);
        assert(is_digit(digits[0]));
    }
    let n = tail.len() as int;
    assert(tail.take(n - 2) =~= digits);
    assert(tail[n - 2] == 46u8);
    assert(tail[n - 1] == (48 + m % 10) as u8);
    assert(digit_value(tail[n - 1]) == m % 10);
}

/// A line made of a name without `;`, a `;` and the text of a value reads back as
/// that name and value.
pub proof fn lemma_parse_line_round_trip(name: Seq<u8>, v: int)
    requires
        forall|i: int| 0 <= i < name.len() ==> name[i] != SEPARATOR,
        fits_i64(v),
    ensures
        parse_line_spec(name + seq![SEPARATOR] + tenths_text(v)) == Ok::<(Seq<u8>, int), ParseError>((name, v)),
{
    let line = name + seq![SEPARATOR] + tenths_text(v);
    let p = name.len() as int;
    assert(is_first_separator(line, p));
    let q = choose|i: int| is_first_separator(line, i);
    assert(q == p) by {
        if q < p {
            assert(line[q] == name[q]);
        } else if q > p {
            assert(line[p] == SEPARATOR);
        }
    }
    assert(line.skip(p + 1) =~= tenths_text(v));
    assert(line.take(p) =~= name);
    lemma_tenths_round_trip(v);
}

/// Every station of an aggregate holds well-formed statistics.
pub proof fn lemma_aggregate_wf(ms: Seq<(Seq<u8>, int)>)
    ensures
        forall|k: Seq<u8>| #[trigger] aggregate(ms).contains_key(k) ==> stats_wf(aggregate(ms)[k]),
    decreases ms.len(),
{
    if ms.len() > 0 {
        lemma_aggregate_wf(ms.drop_last());
        let prev = aggregate(ms.drop_last());
        let (k, v) = ms.last();
        assert(stats_wf(single(v)));
        if prev.contains_key(k) {
            lemma_combine_wf(prev[k], single(v));
        }
    }
}

/// After any sequence of measurements, each station's truncated mean lies between
/// its minimum and its maximum.
pub proof fn lemma_mean_within_extremes(ms: Seq<(Seq<u8>, int)>, name: Seq<u8>)
    requires
        aggregate(ms).contains_key(name),
    ensures
        aggregate(ms)[name].min <= mean_truncated(aggregate(ms)[name].total, aggregate(ms)[name].count)
            <= aggregate(ms)[name].max,
{
    lemma_aggregate_wf(ms);
    lemma_mean_between_extremes(aggregate(ms)[name]);
}

proof fn lemma_combine_associative(a: Stats, b: Stats, c: Stats)
    ensures
        combine(combine(a, b), c) == combine(a, combine(b, c)),
{
}

proof fn lemma_combine_commutative(a: Stats, b: Stats)
    ensures
        combine(a, b) == combine(b, a),
{
}

/// Merging is associative and commutative: any grouping and any order of three
/// accumulators' merges gives the same statistics for every station.
pub proof fn lemma_merge_associative(a: Map<Seq<u8>, Stats>, b: Map<Seq<u8>, Stats>, c: Map<Seq<u8>, Stats>)
    ensures
        merge_maps(merge_maps(a, b), c) == merge_maps(a, merge_maps(b, c)),
        merge_maps(merge_maps(a, c), b) == merge_maps(merge_maps(a, b), c),
        merge_maps(a, b) == merge_maps(b, a),
{
    assert forall|x: Stats, y: Stats, z: Stats| #![auto] combine(combine(x, y), z) == combine(x, combine(y, z)) by {
        lemma_combine_associative(x, y, z);
    }
    assert forall|x: Stats, y: Stats| #![auto] combine(x, y) == combine(y, x) by {
        lemma_combine_commutative(x, y);
    }
    assert(merge_maps(merge_maps(a, b), c) =~= merge_maps(a, merge_maps(b, c)));
    assert(merge_maps(merge_maps(a, c), b) =~= merge_maps(merge_maps(a, b), c));
    assert(merge_maps(a, b) =~= merge_maps(b, a));
}

proof fn lemma_fold_in_merge(a: Map<Seq<u8>, Stats>, p: Map<Seq<u8>, Stats>, k: Seq<u8>, s: Stats)
    ensures
        fold_in(merge_maps(a, p), k, s) == merge_maps(a, fold_in(p, k, s)),
{
    if a.contains_key(k) && p.contains_key(k) {
        lemma_combine_associative(a[k], p[k], s);
    }
    assert(fold_in(merge_maps(a, p), k, s) =~= merge_maps(a, fold_in(p, k, s)));
}

/// Aggregating two consecutive lists of measurements separately and merging gives
/// the statistics of aggregating them as one list.
pub proof fn lemma_aggregate_split(xs: Seq<(Seq<u8>, int)>, ys: Seq<(Seq<u8>, int)>)
    ensures
        aggregate(xs + ys) == merge_maps(aggregate(xs), aggregate(ys)),
    decreases ys.len(),
{
    if ys.len() == 0 {
        assert(xs + ys =~= xs);
        assert(merge_maps(aggregate(xs), aggregate(ys)) =~= aggregate(xs));
    } else {
        lemma_aggregate_split(xs, ys.drop_last());
        assert((xs + ys).drop_last() =~= xs + ys.drop_last());
        assert((xs + ys).last() == ys.last());
        lemma_fold_in_merge(aggregate(xs), aggregate(ys.drop_last()), ys.last().0, single(ys.last().1));
    }
}

/// The statistics of each shard, aggregated on its own, merged in order.
pub open spec fn merge_shards(shards: Seq<Seq<(Seq<u8>, int)>>) -> Map<Seq<u8>, Stats>
    decreases shards.len(),
{
    if shards.len() == 0 {
        Map::empty()
    } else {
        merge_maps(merge_shards(shards.drop_last()), aggregate(shards.last()))
    }
}

/// Splitting a list of measurements into any number of consecutive shards,
/// aggregating each on its own and merging the results gives the same statistics,
/// and so the same report, as aggregating the whole list at once.
pub proof fn lemma_sharding_invariance(shards: Seq<Seq<(Seq<u8>, int)>>)
    ensures
        aggregate(shards.flatten()) == merge_shards(shards),
        report_text(aggregate(shards.flatten())) == report_text(merge_shards(shards)),
    decreases shards.len(),
{
    if shards.len() > 0 {
        let init = shards.drop_last();
        lemma_sharding_invariance(init);
        assert(init.push(shards.last()) =~= shards);
        init.lemma_flatten_push(shards.last());
        lemma_aggregate_split(init.flatten(), shards.last());
    } else {
        assert(shards.flatten() =~= Seq::<(Seq<u8>, int)>::empty());
        assert(aggregate(shards.flatten()) =~= Map::<Seq<u8>, Stats>::empty());
    }
}

} // verus!
