use no_utils::{
    aggregate_lines, compare_bytes, decimal_digits, parse_line, parse_tenths, push_tenths, Accumulator,
    LineError, Measurement, Overflow, ParseError, Station,
};

fn lines(text: &[&str]) -> Vec<Vec<u8>> {
    text.iter().map(|l| l.as_bytes().to_vec()).collect()
}

fn accumulate(ms: &[(&str, i64)]) -> Accumulator {
    let mut acc = Accumulator::new();
    for (name, value) in ms {
        acc.update(Measurement::new_from_data(name.as_bytes(), *value)).unwrap();
    }
    acc
}

fn report(acc: &Accumulator) -> String {
    String::from_utf8(acc.render()).unwrap()
}

fn fields(s: Station) -> (i64, u64, i32, i32) {
    (s.total, s.count, s.min, s.max)
}

#[test]
fn parse_negative_value_in_tenths() {
    let m = parse_line(b"Hamburg;-3.2").unwrap();
    assert_eq!(m.name, b"Hamburg");
    assert_eq!(m.value, -32);
}

#[test]
fn parse_hundred_in_tenths() {
    let m = parse_line(b"Abha;100.0").unwrap();
    assert_eq!(m.name, b"Abha");
    assert_eq!(m.value, 1000);
}

#[test]
fn parse_splits_on_first_separator() {
    let m = parse_line(b"A;B;1.0");
    assert_eq!(m.err(), Some(ParseError::InvalidNumber));
    let m = parse_line(b";0.5").unwrap();
    assert_eq!(m.name, b"");
    assert_eq!(m.value, 5);
}

#[test]
fn parse_malformed_line() {
    assert_eq!(parse_line(b"BadLine").err(), Some(ParseError::MalformedLine));
    assert_eq!(parse_line(b"").err(), Some(ParseError::MalformedLine));
}

#[test]
fn parse_invalid_numbers() {
    for text in ["Name;abc", "Name;3", "Name;3.", "Name;.5", "Name;3.25", "Name;-", "Name;-.5", "Name;+3.2", "Name;1.x", "Name;1 .2", "Name;"] {
        assert_eq!(parse_line(text.as_bytes()).err(), Some(ParseError::InvalidNumber), "{}", text);
    }
}

#[test]
fn parse_tenths_limits() {
    assert_eq!(parse_tenths(b"922337203685477580.7"), Some(i64::MAX));
    assert_eq!(parse_tenths(b"-922337203685477580.8"), Some(i64::MIN));
    assert_eq!(parse_tenths(b"922337203685477580.8"), None);
    assert_eq!(parse_tenths(b"99999999999999999999999.0"), None);
    assert_eq!(parse_tenths(b"-0.0"), Some(0));
    assert_eq!(parse_tenths(b"007.5"), Some(75));
}

#[test]
fn tenths_text() {
    let cases: [(i64, &str); 6] = [(0, "0.0"), (-5, "-0.5"), (1234, "123.4"), (-32, "-3.2"), (50, "5.0"), (i64::MIN, "-922337203685477580.8")];
    for (v, text) in cases {
        let mut out = Vec::new();
        push_tenths(&mut out, v);
        assert_eq!(out, text.as_bytes());
    }
}

#[test]
fn decimal_text_of_numbers() {
    assert_eq!(decimal_digits(0), b"0");
    assert_eq!(decimal_digits(1234), b"1234");
    assert_eq!(decimal_digits(u64::MAX), u64::MAX.to_string().as_bytes());
}

#[test]
fn byte_order() {
    assert!(compare_bytes(b"Abha", b"Tokyo") < 0);
    assert!(compare_bytes(b"Zurich", b"Tokyo") > 0);
    assert!(compare_bytes(b"Ab", b"Abha") < 0);
    assert_eq!(compare_bytes(b"Abha", b"Abha"), 0);
    assert!(compare_bytes(b"Z", b"a") < 0);
}

#[test]
fn concrete_report() {
    let acc = aggregate_lines(&lines(&["Abha;30.1", "Abha;12.2", "Zurich;5.0"])).unwrap();
    assert_eq!(report(&acc), "{Abha=12.2/21.1/30.1, Zurich=5.0/5.0/5.0}\n");
}

#[test]
fn report_orders_names_bytewise() {
    let acc = accumulate(&[("Zurich", 10), ("Abha", 20), ("Tokyo", 30)]);
    assert_eq!(report(&acc), "{Abha=2.0/2.0/2.0, Tokyo=3.0/3.0/3.0, Zurich=1.0/1.0/1.0}\n");
    let acc = accumulate(&[("Tokyo", 30), ("Zurich", 10), ("Abha", 20)]);
    assert_eq!(report(&acc), "{Abha=2.0/2.0/2.0, Tokyo=3.0/3.0/3.0, Zurich=1.0/1.0/1.0}\n");
}

#[test]
fn empty_source_gives_empty_report() {
    let acc = aggregate_lines(&Vec::new()).unwrap();
    assert_eq!(acc.len(), 0);
    assert_eq!(report(&acc), "{}\n");
    assert_eq!(report(&Accumulator::new()), "{}\n");
}

#[test]
fn mean_truncates_toward_zero() {
    let acc = accumulate(&[("Oslo", -15), ("Oslo", -2)]);
    let s = acc.get(b"Oslo").unwrap();
    assert_eq!(s.get_average(), -8);
    assert_eq!(s.get_min(), -15);
    assert_eq!(s.get_max(), -2);
    assert_eq!(report(&acc), "{Oslo=-1.5/-0.8/-0.2}\n");
    let acc = accumulate(&[("Lima", 1), ("Lima", 2)]);
    assert_eq!(acc.get(b"Lima").unwrap().get_average(), 1);
}

#[test]
fn mean_between_extremes_after_updates() {
    let values = [37, -120, 5, 999, -1, 0, 44, -7, 250];
    let mut acc = Accumulator::new();
    for v in values {
        acc.update(Measurement::new_from_data(b"X", v)).unwrap();
        let s = acc.get(b"X").unwrap();
        assert!(s.min as i64 <= s.get_average() && s.get_average() <= s.max as i64);
    }
    let s = acc.get(b"X").unwrap();
    assert_eq!(fields(s), (1207, 9, -120, 999));
    assert_eq!(s.get_average(), 134);
}

#[test]
fn station_lifecycle() {
    let m = parse_line(b"Abha;30.1").unwrap();
    let s = Station::new_from_entry(m);
    assert_eq!(fields(s), (301, 1, 301, 301));
    let t = Station::new_from_entry(Measurement::new_from_data(b"Abha", 122));
    assert_eq!(fields(s.combined(&t).unwrap()), (423, 2, 122, 301));
    let big = Station { total: i64::MAX - 100, count: 1 << 40, min: 0, max: i32::MAX };
    assert!(big.combined(&t).is_none());
    let many = Station { total: 0, count: u64::MAX, min: 0, max: 0 };
    assert!(many.combined(&t).is_none());
}

#[test]
fn merge_is_associative_and_commutative() {
    let a = [("Abha", 301), ("Tokyo", -12), ("Oslo", 7)];
    let b = [("Abha", 122), ("Zurich", 50)];
    let c = [("Tokyo", 88), ("Abha", -40), ("Lima", 199)];
    let ab_c = accumulate(&a).merge(accumulate(&b)).unwrap().merge(accumulate(&c)).unwrap();
    let a_bc = accumulate(&a).merge(accumulate(&b).merge(accumulate(&c)).unwrap()).unwrap();
    let ac_b = accumulate(&a).merge(accumulate(&c)).unwrap().merge(accumulate(&b)).unwrap();
    for name in ["Abha", "Tokyo", "Oslo", "Zurich", "Lima"] {
        let x = fields(ab_c.get(name.as_bytes()).unwrap());
        assert_eq!(x, fields(a_bc.get(name.as_bytes()).unwrap()));
        assert_eq!(x, fields(ac_b.get(name.as_bytes()).unwrap()));
    }
    assert_eq!(fields(ab_c.get(b"Abha").unwrap()), (383, 3, -40, 301));
    assert_eq!(report(&ab_c), report(&a_bc));
    assert_eq!(report(&ab_c), report(&ac_b));
}

#[test]
fn sharding_gives_the_same_report() {
    let text = ["Abha;30.1", "Tokyo;-1.2", "Abha;12.2", "Zurich;5.0", "Tokyo;40.0", "Abha;-3.3", "Lima;0.0"];
    let whole = report(&aggregate_lines(&lines(&text)).unwrap());
    for cuts in [vec![1], vec![3], vec![2, 5], vec![1, 2, 3, 4, 5, 6], vec![0, 7]] {
        let mut merged = Accumulator::new();
        let mut start = 0;
        for end in cuts.iter().copied().chain(std::iter::once(text.len())) {
            let shard = aggregate_lines(&lines(&text[start..end])).unwrap();
            merged = merged.merge(shard).unwrap();
            start = end;
        }
        assert_eq!(report(&merged), whole);
    }
}

#[test]
fn merge_overflow() {
    // i32::MAX observed 2^32 times: a total just below i64::MAX.
    let heavy = Station { total: (i32::MAX as i64) << 32, count: 1 << 32, min: i32::MAX, max: i32::MAX };
    let mut a = accumulate(&[("Y", 1)]);
    a.absorb(b"X", heavy).unwrap();
    let mut b = Accumulator::new();
    b.absorb(b"X", heavy).unwrap();
    assert_eq!(a.merge(b).err(), Some(Overflow));
    let mut c = Accumulator::new();
    c.absorb(b"Z", heavy).unwrap();
    let merged = accumulate(&[("Y", 1)]).merge(c).unwrap();
    assert_eq!(fields(merged.get(b"Z").unwrap()), fields(heavy));
}

#[test]
fn update_overflow_leaves_state() {
    let mut acc = accumulate(&[("X", 1)]);
    let r = acc.update(Measurement::new_from_data(b"X", 3_000_000_000));
    assert_eq!(r, Err(Overflow));
    assert_eq!(fields(acc.get(b"X").unwrap()), (1, 1, 1, 1));
    assert_eq!(report(&acc), "{X=0.1/0.1/0.1}\n");
}

#[test]
fn line_errors_report_position() {
    let r = aggregate_lines(&lines(&["Abha;1.0", "BadLine", "Name;abc"]));
    assert_eq!(r.err(), Some((1, LineError::MalformedLine)));
    let r = aggregate_lines(&lines(&["Abha;1.0", "Name;abc"]));
    assert_eq!(r.err(), Some((1, LineError::InvalidNumber)));
    let r = aggregate_lines(&lines(&["Abha;300000000.0"]));
    assert_eq!(r.err(), Some((0, LineError::Overflow)));
}

#[test]
fn add_line_skips_bad_lines_without_harm() {
    let mut acc = Accumulator::new();
    assert_eq!(acc.add_line(b"Abha;30.1"), Ok(()));
    assert_eq!(acc.add_line(b"BadLine"), Err(LineError::MalformedLine));
    assert_eq!(acc.add_line(b"Name;abc"), Err(LineError::InvalidNumber));
    assert_eq!(acc.add_line(b"Abha;12.2"), Ok(()));
    assert_eq!(acc.len(), 1);
    assert_eq!(report(&acc), "{Abha=12.2/21.1/30.1}\n");
}

#[test]
fn add_to_stations_counts() {
    let mut acc = Accumulator::new();
    no_utils::add_to_stations(&mut acc, Measurement::new_from_data(b"B", 5)).unwrap();
    no_utils::add_to_stations(&mut acc, Measurement::new_from_data(b"B", -5)).unwrap();
    assert_eq!(fields(acc.get(b"B").unwrap()), (0, 2, -5, 5));
    assert!(acc.get(b"C").is_none());
}
