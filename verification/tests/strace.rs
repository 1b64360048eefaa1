use drain::metric::Metric;
use drain::strace::{parse_histogram, StraceResult};

fn num(s: &str) -> Option<Metric> {
    s.parse::<f64>().ok().map(|x| Metric { bits: x.to_bits() })
}

const HISTOGRAM: &str = "strace: Process 42 attached
% time     seconds  usecs/call     calls    errors syscall
------ ----------- ----------- --------- --------- ----------------
 45.30    0.001234         123        10            poll
 30.00    0.000800          80        10         2 read
 20.00    0.000600          50        12           futex
  4.70    0.000089          10         1         1 odd name
 bad row
------ ----------- ----------- --------- --------- ----------------
100.00    0.002723                    25         0  total
";

#[test]
fn histogram_is_read_and_ranked() {
    let (rows, total) = parse_histogram(HISTOGRAM, num);
    let shown: Vec<(&str, u64, u64, f64, f64)> = rows
        .iter()
        .map(|r| {
            (
                r.syscall.as_str(),
                r.calls,
                r.errors,
                f64::from_bits(r.pct_time.bits),
                f64::from_bits(r.seconds.bits),
            )
        })
        .collect();
    assert_eq!(
        shown,
        vec![
            ("futex", 12, 0, 20.0, 0.0006),
            ("poll", 10, 0, 45.3, 0.001234),
            ("read", 10, 2, 30.0, 0.0008),
            ("odd name", 1, 1, 4.7, 0.000089),
        ]
    );
    assert_eq!(total, 25);
}

#[test]
fn histogram_total_may_have_a_time_per_call() {
    let text = "% time     seconds  usecs/call     calls    errors syscall
------ ----------- ----------- --------- --------- ----------------
100.00    0.000010          10         1           poll
------ ----------- ----------- --------- --------- ----------------
100.00    0.002723         108        33         4 total
";
    let (rows, total) = parse_histogram(text, num);
    assert_eq!(rows.len(), 1);
    assert_eq!(total, 33);
    let loose = "% time x\n100.00 0.002723 108 44 4 total\n";
    assert_eq!(parse_histogram(loose, num).1, 44);
    let full = "% time x\n1 2 3 7                                5 total\n";
    assert_eq!(full.lines().nth(1).and_then(|l| l.find('5')), Some(39));
    assert_eq!(parse_histogram(full, num).1, 7);
    let last = format!("% time x\n1.0 0.1 5 7{}total\n", " ".repeat(24));
    assert_eq!(last.lines().nth(1).map(|l| l.len()), Some(40));
    assert_eq!(parse_histogram(&last, num).1, 7);
    let word = format!("% time x\n1.0 0.1 5 7{}many total\n", " ".repeat(25));
    assert_eq!(word.find("many"), Some(9 + 36));
    assert_eq!(parse_histogram(&word, num).1, 7);
    let short = "% time x\n100.00 0.002723 total\n";
    assert_eq!(parse_histogram(short, num).1, 0);
}

#[test]
fn histogram_needs_its_title() {
    let (rows, total) = parse_histogram(" 45.30    0.001234         123        10            poll\n", num);
    assert!(rows.is_empty());
    assert_eq!(total, 0);
}

#[test]
fn histogram_numbers_default_to_zero() {
    let (rows, _) = parse_histogram("% time\nx y z many poll\n", num);
    assert_eq!(rows.len(), 1);
    assert_eq!((rows[0].calls, rows[0].errors, rows[0].syscall.as_str()), (0, 0, "poll"));
    assert_eq!((rows[0].pct_time, rows[0].seconds), (Metric::zero(), Metric::zero()));
}

#[test]
fn runs_start_and_fail() {
    let s = StraceResult::started(7);
    assert_eq!((s.pid, s.running, s.error, s.rows.len(), s.total_calls), (7, true, None, 0, 0));
    let f = StraceResult::failed(7, "not found");
    assert_eq!((f.pid, f.running), (7, false));
    assert_eq!(f.error, Some("strace spawn failed: not found".to_string()));
}

#[test]
fn refused_attach_is_reported() {
    let r = StraceResult::finished(7, "strace: attach: ptrace(7): Operation not permitted\nmore\n", num);
    assert!(!r.running);
    assert_eq!(
        r.error,
        Some("strace: attach: ptrace(7): Operation not permitted".to_string())
    );
    let quiet = StraceResult::finished(7, "nothing to see\n", num);
    assert_eq!(quiet.error, None);
    let good = StraceResult::finished(42, HISTOGRAM, num);
    assert_eq!((good.error, good.rows.len(), good.total_calls), (None, 4, 25));
}
