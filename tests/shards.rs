use no_utils::{aggregate_text, shard_bounds, Accumulator, LineError};

const TEXT: &[u8] = b"Abha;30.1\nTokyo;-1.2\nAbha;12.2\nZurich;5.0\nTokyo;40.0\nAbha;-3.3\nLima;0.0\n";

fn report(acc: &Accumulator) -> String {
    String::from_utf8(acc.render()).unwrap()
}

#[test]
fn bounds_snap_to_line_starts() {
    let text = b"a;1.0\nbb;2.0\nc;3.0\n";
    assert_eq!(shard_bounds(text, 3), vec![0, 6, 13, 19]);
    assert_eq!(shard_bounds(text, 1), vec![0, 19]);
    assert_eq!(shard_bounds(b"x;1.0\n", 4), vec![0, 6, 6, 6, 6]);
    assert_eq!(shard_bounds(b"", 2), vec![0, 0, 0]);
}

#[test]
fn bounds_never_divide_a_line() {
    for shards in 1..12 {
        let bounds = shard_bounds(TEXT, shards);
        assert_eq!(bounds.len(), shards + 1);
        assert_eq!(*bounds.last().unwrap(), TEXT.len());
        for w in bounds.windows(2) {
            assert!(w[0] <= w[1]);
        }
        for &b in &bounds {
            assert!(b == 0 || b == TEXT.len() || TEXT[b - 1] == b'\n');
        }
    }
}

#[test]
fn text_with_and_without_final_line_break() {
    let a = aggregate_text(b"Abha;30.1\nAbha;12.2\nZurich;5.0\n").unwrap();
    let b = aggregate_text(b"Abha;30.1\nAbha;12.2\nZurich;5.0").unwrap();
    assert_eq!(report(&a), "{Abha=12.2/21.1/30.1, Zurich=5.0/5.0/5.0}\n");
    assert_eq!(report(&a), report(&b));
    assert_eq!(report(&aggregate_text(b"").unwrap()), "{}\n");
}

#[test]
fn text_errors_give_the_line() {
    assert_eq!(aggregate_text(b"Abha;1.0\nBadLine\n").err(), Some((1, LineError::MalformedLine)));
    assert_eq!(aggregate_text(b"Abha;1.0\n\nAbha;2.0").err(), Some((1, LineError::MalformedLine)));
    assert_eq!(aggregate_text(b"Abha;1.0\nName;abc").err(), Some((1, LineError::InvalidNumber)));
}

#[test]
fn sharded_text_gives_the_same_report() {
    let whole = report(&aggregate_text(TEXT).unwrap());
    for shards in 1..12 {
        let bounds = shard_bounds(TEXT, shards);
        let mut merged = Accumulator::new();
        for w in bounds.windows(2) {
            merged = merged.merge(aggregate_text(&TEXT[w[0]..w[1]]).unwrap()).unwrap();
        }
        assert_eq!(report(&merged), whole);
    }
}
