use drain::ledger::{peaks, report, Ledger, Report};
use drain::metric::Metric;

fn metric(x: f64) -> Metric {
    Metric { bits: x.to_bits() }
}

fn number(m: Metric) -> f64 {
    f64::from_bits(m.bits)
}

fn num(s: &str) -> Option<Metric> {
    s.parse::<f64>().ok().map(metric)
}

fn plus(a: Metric, b: Metric) -> Metric {
    metric(number(a) + number(b))
}

fn share(wh: Metric, own: Metric, all: Metric) -> Metric {
    metric(number(wh) * number(own) / number(all))
}

fn energy(wh: Metric, w: Metric, dt: Metric) -> Metric {
    metric(number(wh) + number(w) * number(dt) / 3600.0)
}

fn charge(secs: Metric, pct: Metric, dt: Metric) -> Metric {
    metric(number(secs) + number(pct) / 100.0 * number(dt))
}

fn tenths(m: Metric) -> String {
    format!("{:.1}", number(m))
}

fn thousandths(m: Metric) -> String {
    format!("{:.3}", number(m))
}

fn procs(v: &[(&str, f64)]) -> Vec<(String, Metric)> {
    v.iter().map(|(c, p)| (c.to_string(), metric(*p))).collect()
}

fn rows(r: &Report) -> Vec<(&str, f64, f64)> {
    r.rows.iter().map(|(c, s, e)| (c.as_str(), number(*s), number(*e))).collect()
}

#[test]
fn ticks_charge_the_busy() {
    let mut l = Ledger::new("2026-03-01".to_string());
    l.tick(
        metric(2.0),
        Some(metric(9.0)),
        &procs(&[("glass", 50.0), ("idle", 0.1), ("tile", 0.2), ("glass", 25.0)]),
        energy,
        charge,
    );
    assert_eq!(number(l.wh), 9.0 * 2.0 / 3600.0);
    assert_eq!(l.cpu.get("glass").map(number), Some(1.5));
    assert_eq!(l.cpu.get("tile").map(number), Some(0.2 / 100.0 * 2.0));
    assert_eq!(l.cpu.get("idle"), None);
    l.tick(metric(2.0), None, &procs(&[("glass", 50.0)]), energy, charge);
    assert_eq!(number(l.wh), 9.0 * 2.0 / 3600.0);
    assert_eq!(l.cpu.get("glass").map(number), Some(2.5));
}

#[test]
fn sessions_are_saved_as_lines() {
    let mut l = Ledger::new("2026-03-01".to_string());
    assert_eq!(l.save(tenths, thousandths), None);
    l.cpu.put("short", metric(0.99));
    l.cpu.put("second", metric(1.0));
    l.cpu.put("most", metric(12.34));
    l.wh = metric(1.5);
    assert_eq!(
        l.save(tenths, thousandths),
        Some(
            "2026-03-01\tmost\t12.3\n2026-03-01\tsecond\t1.0\n2026-03-01\t__wh__\t1.500\n"
                .to_string()
        )
    );
    let mut idle = Ledger::new("d".to_string());
    idle.cpu.put("short", metric(0.5));
    assert_eq!(idle.save(tenths, thousandths), Some(String::new()));
}

#[test]
fn sessions_keep_forty_commands() {
    let mut l = Ledger::new("d".to_string());
    for i in 0..50u32 {
        l.cpu.put(&format!("c{}", i), metric(f64::from(i) + 1.0));
    }
    let text = l.save(tenths, thousandths).unwrap();
    let lines: Vec<&str> = text.lines().collect();
    assert_eq!(lines.len(), 40);
    assert_eq!(lines[0], "d\tc49\t50.0");
    assert_eq!(lines[39], "d\tc10\t11.0");
}

#[test]
fn peaks_are_shown_newest_first() {
    let text = "2026-03-01 10:00\t7.1\ta:9%\n2026-03-02 11:00\t8.0\tb:3% c:1%\n";
    assert_eq!(
        peaks(text, 5),
        vec!["2026-03-02 11:00  8.0  b:3% c:1%", "2026-03-01 10:00  7.1  a:9%"]
    );
    assert_eq!(peaks(text, 1).len(), 1);
    assert_eq!(peaks(text, 0).len(), 0);
    assert!(peaks("", 3).is_empty());
}

#[test]
fn energy_of_each_day_is_apportioned_by_that_days_cpu() {
    let text = "2026-03-01\tglass\t30.0
2026-03-01\ttile\t10.0
2026-03-01\t__wh__\t8.0
2026-03-02\ttile\t5.0
2026-03-02\t__wh__\t1.0
2026-03-02\t__wh__\t2.0
";
    let r = report(text, 7, num, plus, share);
    assert_eq!(r.days, 2);
    assert_eq!(number(r.total_wh), 11.0);
    assert_eq!(rows(&r), vec![("glass", 30.0, 6.0), ("tile", 15.0, 5.0)]);
}

#[test]
fn report_covers_the_last_days() {
    let text = "2026-03-05\ta\t1.0
2026-02-28\tb\t1.0
2026-03-04\tc\t2.0
2026-03-05\ta\t1.5
";
    let r = report(text, 2, num, plus, share);
    assert_eq!(r.days, 2);
    assert_eq!(rows(&r), vec![("a", 2.5, 0.0), ("c", 2.0, 0.0)]);
    assert_eq!(report(text, 0, num, plus, share).days, 0);
    assert_eq!(report("", 7, num, plus, share).days, 0);
}

#[test]
fn report_passes_over_what_is_no_entry() {
    let text = "2026-03-01\tglass\n2026-03-01\tglass\tmany\n2026-03-01\tglass\t2.0\textra\n\n";
    let r = report(text, 7, num, plus, share);
    assert_eq!(r.days, 2);
    assert_eq!(rows(&r), vec![("glass", 2.0, 0.0)]);
}

#[test]
fn saved_session_reads_back() {
    let mut l = Ledger::new("2026-03-01".to_string());
    l.cpu.put("tmux: server", metric(4.0));
    l.cpu.put("glass", metric(12.0));
    l.wh = metric(2.0);
    let before = "2026-02-01\told\t9.0\n";
    let text = format!("{}{}", before, l.save(tenths, thousandths).unwrap());
    let r = report(&text, 1, num, plus, share);
    assert_eq!(number(r.total_wh), 2.0);
    assert_eq!(rows(&r), vec![("glass", 12.0, 1.5), ("tmux: server", 4.0, 0.5)]);
}

#[test]
fn estimates_add_up_to_the_day() {
    let text = "d\ta\t1.0\nd\tb\t2.0\nd\tc\t5.0\nd\ta\t8.0\nd\t__wh__\t4.0\n";
    let r = report(text, 1, num, plus, share);
    let parts: Vec<f64> = r.rows.iter().map(|x| number(x.2)).collect();
    assert_eq!(parts, vec![2.25, 1.25, 0.5]);
    assert_eq!(parts.iter().sum::<f64>(), number(r.total_wh));
}
