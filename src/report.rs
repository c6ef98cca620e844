use vstd::prelude::*;

use crate::accumulator::{strictly_sorted, Accumulator};
use crate::order::{bytes_lt, lemma_bytes_lt_irreflexive, lemma_bytes_lt_transitive};
use crate::station::{mean_truncated, push_tenths, tenths_text, Stats};

verus! {

/// The names of `m` in ascending byte order.
pub open spec fn sorted_keys(m: Map<Seq<u8>, Stats>) -> Seq<Seq<u8>> {
    choose|s: Seq<Seq<u8>>| strictly_sorted(s) && s.to_set() == m.dom()
}

/// One report entry: `name=min/mean/max`, each value with one decimal.
pub open spec fn entry_text(name: Seq<u8>, s: Stats) -> Seq<u8> {
    name + seq![61u8] + tenths_text(s.min) + seq![47u8] + tenths_text(mean_truncated(s.total, s.count))
        + seq![47u8] + tenths_text(s.max)
}

/// The entries for the first `n` of `keys`, separated by `", "`.
pub open spec fn entries_text(keys: Seq<Seq<u8>>, m: Map<Seq<u8>, Stats>, n: int) -> Seq<u8>
    decreases n,
{
    if n <= 0 {
        Seq::empty()
    } else if n == 1 {
        entry_text(keys[0], m[keys[0]])
    } else {
        entries_text(keys, m, n - 1) + seq![44u8, 32u8] + entry_text(keys[n - 1], m[keys[n - 1]])
    }
}

/// The report of `m`: `{name=min/mean/max, ...}` in ascending byte order of name,
/// then a line break; `{}` and a line break where `m` is empty.
pub open spec fn report_text(m: Map<Seq<u8>, Stats>) -> Seq<u8> {
    let keys = sorted_keys(m);
    seq![123u8] + entries_text(keys, m, keys.len() as int) + seq![125u8, 10u8]
}

/// Two strictly sorted sequences with the same elements are the same sequence.
pub proof fn lemma_sorted_unique(a: Seq<Seq<u8>>, b: Seq<Seq<u8>>)
    requires
        strictly_sorted(a),
        strictly_sorted(b),
        a.to_set() == b.to_set(),
    ensures
        a == b,
    decreases a.len(),
{
    if a.len() == 0 {
        if b.len() > 0 {
            assert(b.to_set().contains(b[0]));
        }
        assert(a =~= b);
    } else {
        assert(a.to_set().contains(a[0]));
        assert(b.len() > 0);
        assert(b.to_set().contains(b[0]));
        let k = choose|k: int| 0 <= k < a.len() && a[k] == b[0];
        let m = choose|m: int| 0 <= m < b.len() && b[m] == a[0];
        if k > 0 && m > 0 {
            assert(bytes_lt(a[0], a[k]));
            assert(bytes_lt(b[0], b[m]));
            lemma_bytes_lt_transitive(a[0], b[0], a[0]);
            lemma_bytes_lt_irreflexive(a[0]);
        }
        assert(a[0] == b[0]) by {
            if k == 0 {
            } else {
                assert(m == 0);
            }
        }
        let (a1, b1) = (a.drop_first(), b.drop_first());
        assert(strictly_sorted(a1));
        assert(strictly_sorted(b1));
        assert forall|x: Seq<u8>| #![auto] a1.to_set().contains(x) == b1.to_set().contains(x) by {
            lemma_bytes_lt_irreflexive(a[0]);
            if a1.to_set().contains(x) {
                let i = choose|i: int| 0 <= i < a1.len() && a1[i] == x;
                assert(a[i + 1] == x);
                assert(a.to_set().contains(x));
                let j = choose|j: int| 0 <= j < b.len() && b[j] == x;
                if j == 0 {
                    assert(bytes_lt(a[0], a[i + 1]));
                }
                assert(b1[j - 1] == x);
            }
            if b1.to_set().contains(x) {
                let i = choose|i: int| 0 <= i < b1.len() && b1[i] == x;
                assert(b[i + 1] == x);
                assert(b.to_set().contains(x));
                let j = choose|j: int| 0 <= j < a.len() && a[j] == x;
                if j == 0 {
                    assert(bytes_lt(b[0], b[i + 1]));
                }
                assert(a1[j - 1] == x);
            }
        }
        assert(a1.to_set() =~= b1.to_set());
        lemma_sorted_unique(a1, b1);
        assert(a =~= seq![a[0]] + a1);
        assert(b =~= seq![b[0]] + b1);
    }
}

/// Appends every byte of `bytes` to `out`.
fn push_bytes(out: &mut Vec<u8>, bytes: &[u8])
    ensures
        final(out)@ == old(out)@ + bytes@,
{
    let mut i: usize = 0;
    while i < bytes.len()
        invariant
            i <= bytes@.len(),
            out@ == old(out)@ + bytes@.take(i as int),
        decreases bytes@.len() - i,
    {
        out.push(bytes[i]);
        i = i + 1;
        assert(out@ =~= old(out)@ + bytes@.take(i as int));
    }
    assert(bytes@.take(i as int) =~= bytes@);
}

impl Accumulator {
    /// The names in ascending byte order are the sorted keys of the view.
    pub(crate) proof fn lemma_names_sorted_keys(&self)
        requires
            self.wf(),
        ensures
            self.names_view() == sorted_keys(self@),
    {
        let names = self.names_view();
        assert(names.to_set() =~= self@.dom());
        lemma_sorted_unique(sorted_keys(self@), names);
    }

    /// The report: `{name=min/mean/max, ...}` in ascending byte order of name, each
    /// value in tenths shown with one decimal and the mean truncated toward zero,
    /// then a line break. An empty accumulator gives `{}` and a line break.
    pub fn render(&self) -> (r: Vec<u8>)
        requires
            self.wf(),
        ensures
            r@ == report_text(self@),
    {
        proof {
            self.lemma_names_sorted_keys();
        }
        let ghost keys = self.names_view();
        let ghost m = self@;
        let mut out: Vec<u8> = Vec::new();
        out.push(123u8);
        let n = self.names.len();
        let mut i: usize = 0;
        while i < n
            invariant
                self.wf(),
                n == self.names@.len(),
                keys == self.names_view(),
                keys == sorted_keys(m),
                m == self@,
                i <= n,
                out@ == seq![123u8] + entries_text(keys, m, i as int),
            decreases n - i,
        {
            let ghost before = out@;
            if i > 0 {
                out.push(44u8);
                out.push(32u8);
            }
            let station = self.stations[i];
            proof {
                self.lemma_entry(i as int);
            }
            push_bytes(&mut out, self.names[i].as_slice());
            out.push(61u8);
            push_tenths(&mut out, station.min as i64);
            out.push(47u8);
            let mean = station.get_average();
            push_tenths(&mut out, mean);
            out.push(47u8);
            push_tenths(&mut out, station.max as i64);
            proof {
                let e = entry_text(keys[i as int], m[keys[i as int]]);
                assert(m[keys[i as int]] == station@);
                if i > 0 {
                    assert(out@ =~= before + seq![44u8, 32u8] + e);
                } else {
                    assert(out@ =~= before + e);
                }
                assert(out@ =~= seq![123u8] + entries_text(keys, m, i + 1));
            }
            i = i + 1;
        }
        out.push(125u8);
        out.push(10u8);
        assert(out@ =~= report_text(self@));
        out
    }
}

} // verus!
