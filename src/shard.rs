use vstd::prelude::*;
use vstd::slice::slice_subrange;

use crate::accumulator::{aggregate, merge_maps, Accumulator};
use crate::laws::{lemma_aggregate_split, merge_shards};
use crate::source::{lemma_run_lines_err_extends, measurements_of, run_lines, LineError};
use crate::station::Stats;

verus! {

/// The complete lines of `t` (each without its line break) and the text after
/// the last line break.
pub open spec fn lines_acc(t: Seq<u8>) -> (Seq<Seq<u8>>, Seq<u8>)
    decreases t.len(),
{
    if t.len() == 0 {
        (Seq::empty(), Seq::empty())
    } else {
        let (done, current) = lines_acc(t.drop_last());
        if t.last() == 10u8 {
            (done.push(current), Seq::empty())
        } else {
            (done, current.push(t.last()))
        }
    }
}

/// The lines of `t`: the pieces between line breaks, with a last line that has no
/// line break counted where it is not empty.
pub open spec fn lines_of(t: Seq<u8>) -> Seq<Seq<u8>> {
    let (done, current) = lines_acc(t);
    if current.len() == 0 {
        done
    } else {
        done.push(current)
    }
}

/// Whether a line starts at position `p` of `t`.
pub open spec fn at_line_start(t: Seq<u8>, p: int) -> bool {
    p == 0 || (0 < p <= t.len() && t[p - 1] == 10u8)
}

/// The first position at or after `p` where a line starts, or the end of `t`.
pub open spec fn snap_forward(t: Seq<u8>, p: int) -> int
    decreases t.len() - p,
{
    if p >= t.len() {
        t.len() as int
    } else if at_line_start(t, p) {
        p
    } else {
        snap_forward(t, p + 1)
    }
}

proof fn lemma_lines_acc_append(a: Seq<u8>, b: Seq<u8>)
    requires
        lines_acc(a).1.len() == 0,
    ensures
        lines_acc(a + b).0 == lines_acc(a).0 + lines_acc(b).0,
        lines_acc(a + b).1 == lines_acc(b).1,
    decreases b.len(),
{
    if b.len() == 0 {
        assert(a + b =~= a);
        assert(lines_acc(a).0 + lines_acc(b).0 =~= lines_acc(a).0);
    } else {
        lemma_lines_acc_append(a, b.drop_last());
        assert((a + b).drop_last() =~= a + b.drop_last());
        assert((a + b).last() == b.last());
        let (d, c) = lines_acc(b.drop_last());
        if b.last() == 10u8 {
            assert(lines_acc(a).0 + d.push(c) =~= (lines_acc(a).0 + d).push(c));
        }
    }
}

/// Lines split at a line start: the lines of the whole are those of the part
/// before, then those of the part after.
pub proof fn lemma_lines_of_split(t: Seq<u8>, p: int)
    requires
        0 <= p <= t.len(),
        at_line_start(t, p),
    ensures
        lines_of(t) == lines_of(t.take(p)) + lines_of(t.skip(p)),
{
    let (a, b) = (t.take(p), t.skip(p));
    assert(t =~= a + b);
    if p > 0 {
        assert(a.last() == 10u8);
        assert(lines_acc(a).1.len() == 0);
    } else {
        assert(a.len() == 0);
    }
    lemma_lines_acc_append(a, b);
    let (d, c) = lines_acc(b);
    if c.len() != 0 {
        assert(lines_acc(a).0 + d.push(c) =~= (lines_acc(a).0 + d).push(c));
    }
}

/// Cutting a text at a line start, aggregating each part on its own and merging
/// gives the statistics of aggregating the whole text.
pub proof fn lemma_line_aligned_shards(t: Seq<u8>, p: int)
    requires
        0 <= p <= t.len(),
        at_line_start(t, p),
    ensures
        aggregate(measurements_of(lines_of(t))) == merge_maps(
            aggregate(measurements_of(lines_of(t.take(p)))),
            aggregate(measurements_of(lines_of(t.skip(p)))),
        ),
{
    lemma_lines_of_split(t, p);
    let (x, y) = (lines_of(t.take(p)), lines_of(t.skip(p)));
    assert(measurements_of(x + y) =~= measurements_of(x) + measurements_of(y));
    lemma_aggregate_split(measurements_of(x), measurements_of(y));
}

/// The measurements of each piece of `t` between consecutive bounds.
pub open spec fn pieces(t: Seq<u8>, bounds: Seq<int>) -> Seq<Seq<(Seq<u8>, int)>> {
    Seq::new(
        (if bounds.len() == 0 { 0 } else { bounds.len() - 1 }) as nat,
        |i: int| measurements_of(lines_of(t.subrange(bounds[i], bounds[i + 1]))),
    )
}

/// Cutting a text at ascending line starts, aggregating each piece on its own and
/// merging in order gives the statistics of aggregating the whole text.
pub proof fn lemma_line_aligned_pieces(t: Seq<u8>, bounds: Seq<int>)
    requires
        bounds.len() >= 1,
        bounds[0] == 0,
        bounds.last() == t.len(),
        forall|i: int, j: int| 0 <= i <= j < bounds.len() ==> #[trigger] bounds[i] <= #[trigger] bounds[j],
        forall|i: int| 0 <= i < bounds.len() ==> at_line_start(t, #[trigger] bounds[i]) || bounds[i] == t.len(),
    ensures
        aggregate(measurements_of(lines_of(t))) == merge_shards(pieces(t, bounds)),
    decreases bounds.len(),
{
    let k = bounds.len() - 1;
    if k == 0 {
        assert(t.len() == 0);
        assert(lines_acc(t) == (Seq::<Seq<u8>>::empty(), Seq::<u8>::empty()));
        assert(measurements_of(lines_of(t)) =~= Seq::<(Seq<u8>, int)>::empty());
        assert(aggregate(measurements_of(lines_of(t))) =~= Map::<Seq<u8>, Stats>::empty());
    } else {
        let c = bounds[k - 1];
        let head = t.take(c);
        let init = bounds.drop_last();
        assert forall|i: int| 0 <= i < init.len() implies at_line_start(head, #[trigger] init[i]) || init[i]
            == head.len() by {
            assert(bounds[i] <= c);
            if at_line_start(t, bounds[i]) && 0 < bounds[i] {
                assert(head[bounds[i] - 1] == t[bounds[i] - 1]);
            }
        }
        lemma_line_aligned_pieces(head, init);
        assert(pieces(t, bounds).drop_last() =~= pieces(head, init)) by {
            assert forall|i: int| 0 <= i < k - 1 implies #[trigger] t.subrange(bounds[i], bounds[i + 1])
                == head.subrange(init[i], init[i + 1]) by {
                assert(bounds[i + 1] <= c);
                assert(t.subrange(bounds[i], bounds[i + 1]) =~= head.subrange(init[i], init[i + 1]));
            }
        }
        assert(pieces(t, bounds).last() == measurements_of(lines_of(t.skip(c)))) by {
            assert(t.subrange(c, bounds[k]) =~= t.skip(c));
        }
        if c == t.len() {
            assert(t.take(c) =~= t);
            assert(t.skip(c).len() == 0);
            assert(lines_acc(t.skip(c)) == (Seq::<Seq<u8>>::empty(), Seq::<u8>::empty()));
            assert(measurements_of(lines_of(t.skip(c))) =~= Seq::<(Seq<u8>, int)>::empty());
            assert(merge_maps(aggregate(measurements_of(lines_of(head))), Map::<Seq<u8>, Stats>::empty())
                =~= aggregate(measurements_of(lines_of(head))));
        } else {
            lemma_line_aligned_shards(t, c);
        }
    }
}

/// The `k`-th of `n + 1` shard bounds of `t`.
spec fn bound_at(t: Seq<u8>, k: int, n: int) -> int {
    if k <= 0 {
        0
    } else if k >= n {
        t.len() as int
    } else {
        snap_forward(t, k * t.len() / n)
    }
}

proof fn lemma_snap_forward_bounds(t: Seq<u8>, p: int)
    requires
        0 <= p,
    ensures
        p <= t.len() ==> p <= snap_forward(t, p),
        snap_forward(t, p) <= t.len(),
        at_line_start(t, snap_forward(t, p)) || snap_forward(t, p) == t.len(),
    decreases t.len() - p,
{
    if p < t.len() && !at_line_start(t, p) {
        lemma_snap_forward_bounds(t, p + 1);
    }
}

proof fn lemma_snap_forward_monotone(t: Seq<u8>, p: int, q: int)
    requires
        0 <= p <= q,
    ensures
        snap_forward(t, p) <= snap_forward(t, q),
    decreases t.len() - p,
{
    lemma_snap_forward_bounds(t, q);
    if p < t.len() && !at_line_start(t, p) && p < q {
        lemma_snap_forward_monotone(t, p + 1, q);
    }
}

proof fn lemma_bound_at_ordered(t: Seq<u8>, k: int, j: int, n: int)
    requires
        0 <= k <= j <= n,
        n >= 1,
    ensures
        bound_at(t, k, n) <= bound_at(t, j, n),
{
    let len = t.len() as int;
    if 0 < k && j < n {
        assert(k * len / n <= j * len / n) by (nonlinear_arith)
            requires
                0 <= k <= j,
                len >= 0,
                n >= 1,
        {
            assert(k * len <= j * len) by (nonlinear_arith)
                requires
                    k <= j,
                    len >= 0,
            ;
            vstd::arithmetic::div_mod::lemma_div_is_ordered(k * len, j * len, n);
        }
        assert(k * len / n >= 0) by (nonlinear_arith)
            requires
                k >= 0,
                len >= 0,
                n >= 1,
        ;
        lemma_snap_forward_monotone(t, k * len / n, j * len / n);
    } else if 0 < k && k < n {
        assert(k * len / n >= 0) by (nonlinear_arith)
            requires
                k >= 0,
                len >= 0,
                n >= 1,
        ;
        lemma_snap_forward_bounds(t, k * len / n);
    } else if k == 0 && 0 < j && j < n {
        assert(j * len / n >= 0) by (nonlinear_arith)
            requires
                j >= 0,
                len >= 0,
                n >= 1,
        ;
        lemma_snap_forward_bounds(t, j * len / n);
    }
}

/// Where `shards` shards of `text` start, and the end: the `i`-th split point is
/// `i * len / shards` moved forward to the next line start, so that no line is
/// divided between two shards.
pub fn shard_bounds(text: &[u8], shards: usize) -> (r: Vec<usize>)
    requires
        shards >= 1,
    ensures
        r@.len() == shards + 1,
        r@[0] == 0,
        r@[shards as int] == text@.len(),
        forall|i: int| 0 < i < shards ==> #[trigger] r@[i] == snap_forward(text@, i * text@.len() / shards as int),
        forall|i: int| 0 <= i <= shards ==> at_line_start(text@, #[trigger] r@[i] as int) || r@[i] == text@.len(),
        forall|i: int, j: int| 0 <= i <= j <= shards ==> #[trigger] r@[i] <= #[trigger] r@[j],
{
    let len = text.len();
    let mut r: Vec<usize> = Vec::new();
    r.push(0);
    let mut i: usize = 1;
    while i < shards
        invariant
            1 <= i <= shards,
            len == text@.len(),
            r@.len() == i,
            r@[0] == 0,
            forall|k: int| 0 < k < i ==> #[trigger] r@[k] == snap_forward(text@, k * len / shards as int),
        decreases shards - i,
    {
        assert((i as int) * (len as int) <= u128::MAX) by (nonlinear_arith)
            requires
                i <= usize::MAX,
                len <= usize::MAX,
                usize::MAX < 0x1_0000_0000_0000_0000int,
        ;
        let product: u128 = (i as u128) * (len as u128);
        assert(product as int / shards as int <= len) by (nonlinear_arith)
            requires
                product == i * len,
                i < shards,
                len >= 0,
        {
            assert(product <= shards * len) by (nonlinear_arith)
                requires
                    product == i * len,
                    i < shards,
                    len >= 0,
            ;
            vstd::arithmetic::div_mod::lemma_div_is_ordered(product as int, shards * len, shards as int);
            vstd::arithmetic::div_mod::lemma_div_multiples_vanish(len as int, shards as int);
        }
        let target = (product / (shards as u128)) as usize;
        let mut p = target;
        while p < len && !(p == 0 || text[p - 1] == 10u8)
            invariant
                target <= p <= len,
                len == text@.len(),
                snap_forward(text@, target as int) == snap_forward(text@, p as int),
            decreases len - p,
        {
            p = p + 1;
        }
        r.push(p);
        i = i + 1;
    }
    r.push(len);
    proof {
        let n = shards as int;
        assert forall|k: int| 0 <= k <= n implies #[trigger] r@[k] == bound_at(text@, k, n) by {
            if 0 < k < n {
                assert(r@[k] == snap_forward(text@, k * len / n));
            }
        }
        assert forall|k: int| 0 <= k <= n implies at_line_start(text@, #[trigger] r@[k] as int) || r@[k] == text@.len() by {
            if 0 < k < n {
                lemma_snap_forward_bounds(text@, k * len / n);
            }
        }
        assert forall|k: int, j: int| 0 <= k <= j <= n implies #[trigger] r@[k] <= #[trigger] r@[j] by {
            lemma_bound_at_ordered(text@, k, j, n);
        }
    }
    r
}

/// Folds every line of a text in order into a new accumulator, as
/// [`crate::aggregate_lines`] does for the text's lines.
pub fn aggregate_text(text: &[u8]) -> (r: Result<Accumulator, (usize, LineError)>)
    ensures
        match r {
            Ok(a) => a.wf() && run_lines(lines_of(text@)) == Ok::<Map<Seq<u8>, Stats>, (int, LineError)>(a@)
                && a@ == aggregate(measurements_of(lines_of(text@))),
            Err((i, e)) => run_lines(lines_of(text@)) == Err::<Map<Seq<u8>, Stats>, (int, LineError)>((i as int, e)),
        },
{
    let mut acc = Accumulator::new();
    let len = text.len();
    let mut start: usize = 0;
    let mut i: usize = 0;
    let mut line: usize = 0;
    while i < len
        invariant
            start <= i <= len == text@.len(),
            line <= i,
            acc.wf(),
            lines_acc(text@.take(i as int)).1 == text@.subrange(start as int, i as int),
            lines_acc(text@.take(i as int)).0.len() == line,
            run_lines(lines_acc(text@.take(i as int)).0) == Ok::<Map<Seq<u8>, Stats>, (int, LineError)>(acc@),
            acc@ == aggregate(measurements_of(lines_acc(text@.take(i as int)).0)),
        decreases len - i,
    {
        assert(text@.take(i + 1).drop_last() =~= text@.take(i as int));
        if text[i] == 10u8 {
            let piece = slice_subrange(text, start, i);
            let ghost done = lines_acc(text@.take(i as int)).0;
            let ghost next = done.push(piece@);
            match acc.add_line(piece) {
                Ok(()) => {},
                Err(e) => {
                    proof {
                        assert(next.drop_last() =~= done);
                        assert(text@.take(i + 1).last() == 10u8);
                        assert(lines_acc(text@.take(i + 1)).0 == next);
                        assert(text@.take(i + 1).take(i + 1) =~= text@.take(i + 1));
                        lemma_lines_of_split(text@, i + 1);
                        assert(lines_of(text@.take(i + 1)) == next);
                        assert(lines_of(text@).take(line + 1) =~= next);
                        lemma_run_lines_err_extends(lines_of(text@), line + 1);
                    }
                    return Err((line, e));
                },
            }
            proof {
                assert(next.drop_last() =~= done);
                assert(measurements_of(next).drop_last() =~= measurements_of(done));
            }
            line = line + 1;
            start = i + 1;
        } else {
            assert(text@.subrange(start as int, i + 1) =~= text@.subrange(start as int, i as int).push(text@[i as int]));
        }
        i = i + 1;
    }
    assert(text@.take(len as int) =~= text@);
    if start < len {
        let piece = slice_subrange(text, start, len);
        let ghost done = lines_acc(text@).0;
        let ghost next = done.push(piece@);
        match acc.add_line(piece) {
            Ok(()) => {},
            Err(e) => {
                proof {
                    assert(next.drop_last() =~= done);
                }
                return Err((line, e));
            },
        }
        proof {
            assert(next.drop_last() =~= done);
            assert(measurements_of(next).drop_last() =~= measurements_of(done));
        }
    }
    Ok(acc)
}

} // verus!
