use drain::metric::Metric;
use drain::sample::Delta;
use drain::tally::{
    append, bat_dir, discharging, energy_wh, field, is_power_event, peak_threshold, read_num,
    reading, record_peak, today, Heard, Meter, Store, Upower, Watch, FLUSH_WH,
};

fn metric(x: f64) -> Metric {
    Metric { bits: x.to_bits() }
}

fn number(m: Metric) -> f64 {
    f64::from_bits(m.bits)
}

fn num(s: &str) -> Option<Metric> {
    s.parse::<f64>().ok().map(metric)
}

fn accrue(pending: Metric, before: Metric, now: Metric) -> Metric {
    metric(number(pending) + (number(before) - number(now)))
}

fn show(m: Metric) -> String {
    format!("{:.3}", number(m))
}

fn text(s: &str) -> Option<String> {
    Some(s.to_string())
}

fn line(comm: &str, cpu: f64) -> Delta {
    Delta {
        pid: 1,
        comm: comm.to_string(),
        state: 'R',
        ppid: 1,
        cpu_pct: metric(cpu),
        wakes_per_s: metric(0.0),
        nvol_per_s: metric(0.0),
        io_kbs: metric(0.0),
        drain: metric(0.0),
    }
}

#[test]
fn files_are_trimmed() {
    assert_eq!(bat_dir(&vec![text("Mains\n"), None, text("Battery\n"), text("Battery")]), Some(2));
    assert_eq!(bat_dir(&vec![text("Mains\n")]), None);
    assert!(discharging(&text("Discharging\n")));
    assert!(!discharging(&text("Charging\n")));
    assert!(!discharging(&None));
    assert_eq!(read_num(&text(" 12.5\n"), &num), Some(metric(12.5)));
    assert_eq!(read_num(&text("x"), &num), None);
    assert_eq!(today(&text("2026-03-01\n")), "2026-03-01");
    assert_eq!(today(&None), "");
}

#[test]
fn energy_goes_before_charge() {
    let e = energy_wh(&text("15970000\n"), &text("1"), &text("1"), num);
    assert_eq!(e, Some(Store::Energy { uwh: metric(15970000.0) }));
    let c = energy_wh(&None, &text("2000000"), &text("12000000"), num);
    assert_eq!(c, Some(Store::Charge { uah: metric(2000000.0), uv: metric(12000000.0) }));
    assert_eq!(energy_wh(&text("?"), &text("2000000"), &None, num), None);
    assert_eq!(energy_wh(&None, &None, &text("1"), num), None);
}

#[test]
fn mark_is_a_quarter() {
    assert_eq!(FLUSH_WH, 0.25f64.to_bits());
}

#[test]
fn threshold_is_six_unless_asked() {
    assert_eq!(number(peak_threshold(&None, num)), 6.0);
    assert_eq!(number(peak_threshold(&text("4.5"), num)), 4.5);
    assert_eq!(number(peak_threshold(&text("high"), num)), 6.0);
}

#[test]
fn kernel_messages_are_filtered() {
    assert!(is_power_event("change@/devices/x\0SUBSYSTEM=power_supply\0"));
    assert!(!is_power_event("add@/devices/usb"));
}

const SIGNAL: &str = "/org/freedesktop/UPower/devices/battery_BAT0: org.freedesktop.DBus.Properties.PropertiesChanged ('org.freedesktop.UPower.Device', {'UpdateTime': <uint64 1>, 'Energy': <15.97>, 'EnergyRate': <7.25>}, @as [])";

#[test]
fn fields_stand_behind_their_key() {
    assert_eq!(field(SIGNAL, "'Energy': <", &num), Some(metric(15.97)));
    assert_eq!(field(SIGNAL, "'EnergyRate': <", &num), Some(metric(7.25)));
    assert_eq!(field(SIGNAL, "'Voltage': <", &num), None);
    assert_eq!(field("'E': < 3 ", "'E': <", &num), Some(metric(3.0)));
    assert_eq!(field("k1k2>", "k", &num), Some(metric(1.0)));
    assert_eq!(field("'E': <x>", "'E': <", &num), None);
    assert_eq!(field("74>", "", &num), Some(metric(7.0)));
    assert_eq!(field("", "", &num), None);
}

#[test]
fn only_lines_of_the_battery_count() {
    assert_eq!(reading(SIGNAL, &num), Some((metric(15.97), Some(metric(7.25)))));
    let display = SIGNAL.replace("battery_BAT0", "DisplayDevice");
    assert_eq!(reading(&display, &num), None);
    let steady = SIGNAL.replace(", 'EnergyRate': <7.25>", "");
    assert_eq!(reading(&steady, &num), Some((metric(15.97), None)));
    let broken = SIGNAL.replace("15.97", "?");
    assert_eq!(reading(&broken, &num), None);
}

#[test]
fn rows_need_watt_hours() {
    assert_eq!(append("2026-03-01", metric(0.5), &show), text("2026-03-01\t__wh__\t0.500\n"));
    assert_eq!(append("2026-03-01", metric(0.0), &show), None);
    assert_eq!(append("2026-03-01", metric(-0.5), &show), None);
    assert_eq!(append("d", metric(f64::NAN), &show), text("d\t__wh__\tNaN\n"));
}

#[test]
fn falls_on_battery_are_drain() {
    let mut m = Meter::new(None, "d1".to_string());
    assert_eq!(m.settle(metric(20.0), true, "d1".to_string(), accrue, show), None);
    assert_eq!(number(m.pending), 0.0);
    assert_eq!(m.settle(metric(19.875), true, "d1".to_string(), accrue, show), None);
    assert_eq!(number(m.pending), 0.125);
    // Charging, and a pack that settles while it is plugged in.
    assert_eq!(m.settle(metric(21.0), true, "d1".to_string(), accrue, show), None);
    assert_eq!(m.settle(metric(20.5), false, "d1".to_string(), accrue, show), None);
    assert_eq!(number(m.pending), 0.125);
    assert_eq!(
        m.settle(metric(20.375), true, "d1".to_string(), accrue, show),
        text("d1\t__wh__\t0.250\n")
    );
    assert_eq!(number(m.pending), 0.0);
    assert_eq!(m.finish(show), None);
}

#[test]
fn days_end_with_a_row() {
    let mut m = Meter::new(Some(metric(20.0)), "d1".to_string());
    assert_eq!(
        m.settle(metric(19.9375), true, "d2".to_string(), accrue, show),
        text("d1\t__wh__\t0.062\n")
    );
    assert_eq!((m.date.as_str(), number(m.pending)), ("d2", 0.0));
    assert_eq!(m.settle(metric(19.9375), true, "d3".to_string(), accrue, show), None);
    assert_eq!(m.date, "d3");
    m.settle(metric(19.875), true, "d3".to_string(), accrue, show);
    assert_eq!(m.finish(show), text("d3\t__wh__\t0.062\n"));
}

#[test]
fn events_without_a_reading_wait() {
    let mut m = Meter::new(Some(metric(20.0)), "d1".to_string());
    assert_eq!(m.settle_event(None, true, "d2".to_string(), accrue, show), None);
    assert_eq!((m.last, m.date.as_str()), (None, "d1"));
    assert_eq!(m.settle_event(Some(metric(19.0)), true, "d2".to_string(), accrue, show), None);
    assert_eq!((m.last, m.date.as_str()), (Some(metric(19.0)), "d1"));
    assert_eq!(
        m.settle_event(Some(metric(18.0)), true, "d1".to_string(), accrue, show),
        text("d1\t__wh__\t1.000\n")
    );
}

#[test]
fn samples_are_taken_apart() {
    let mut w = Watch::new(metric(6.0));
    assert_eq!(w.observe(Some(metric(5.9)), 1000, true), None);
    assert_eq!(w.observe(Some(metric(6.0)), 1000, false), None);
    assert_eq!(w.observe(None, 1001, true), Some(metric(6.0)));
    assert_eq!(w.observe(Some(metric(9.0)), 1300, true), None);
    assert_eq!(w.observe(None, 1301, true), Some(metric(9.0)));
    assert_eq!(w.observe(None, 5, true), None);
    assert!(w.seen);
    assert_eq!(w.last_peak, 1301);
}

#[test]
fn feed_is_heard_and_accounted_for() {
    let mut u = Upower::new(metric(7.0), "d1".to_string());
    assert_eq!(u.hear("noise", 1000, true, num), Heard::Nothing);
    assert!(!u.watch.seen);
    assert_eq!(u.account(true, "d9".to_string(), accrue, show), None);
    assert_eq!(u.meter.date, "d1");
    assert_eq!(u.hear(SIGNAL, 1000, true, num), Heard::Peak(metric(7.25)));
    assert_eq!(u.account(true, "d1".to_string(), accrue, show), None);
    let next = SIGNAL.replace("15.97", "15.47");
    assert_eq!(u.hear(&next, 1010, true, num), Heard::Reading);
    assert_eq!(u.reading, Some(metric(15.47)));
    assert_eq!(u.account(true, "d1".to_string(), accrue, show), text("d1\t__wh__\t0.500\n"));
    assert_eq!(u.reading, None);
    assert!(u.watch.seen);
}

fn seconds(m: Metric) -> String {
    format!("{:.3}", number(m) / 100.0)
}

fn tenths(m: Metric) -> String {
    format!("{:.1}", number(m))
}

fn percent(m: Metric) -> String {
    format!("{:.0}", number(m))
}

#[test]
fn peaks_name_the_busiest_five() {
    let lines = vec![
        line("a", 1.0),
        line("b", 90.0),
        line("c", 0.09),
        line("d", 5.0),
        line("e", 4.0),
        line("f", 3.0),
        line("g", 0.1),
    ];
    let p = record_peak(
        "2026-03-01",
        "2026-03-01 10:00",
        metric(7.25),
        lines,
        seconds,
        tenths,
        percent,
    )
    .unwrap();
    assert_eq!(
        p.rows,
        "2026-03-01\tb\t0.900\n2026-03-01\td\t0.050\n2026-03-01\te\t0.040\n2026-03-01\tf\t0.030\n2026-03-01\ta\t0.010\n"
    );
    assert_eq!(p.line, "2026-03-01 10:00\t7.2\tb:90% d:5% e:4% f:3% a:1%\n");
}

#[test]
fn peaks_without_the_busy_are_not_recorded() {
    let p = record_peak("d", "c", metric(7.0), vec![line("a", 0.05)], seconds, tenths, percent);
    assert!(p.is_none());
}

#[test]
fn peaks_and_rows_are_read_by_the_report() {
    let p = record_peak(
        "2026-03-01",
        "clock",
        metric(7.0),
        vec![line("glass", 30.0), line("tile", 10.0)],
        seconds,
        tenths,
        percent,
    )
    .unwrap();
    let row = append("2026-03-01", metric(2.0), &show).unwrap();
    let text = format!("{}{}", p.rows, row);
    let r = drain::ledger::report(
        &text,
        7,
        num,
        |a: Metric, b: Metric| metric(number(a) + number(b)),
        |wh: Metric, own: Metric, all: Metric| metric(number(wh) * number(own) / number(all)),
    );
    let rows: Vec<(&str, f64, f64)> =
        r.rows.iter().map(|(c, s, e)| (c.as_str(), number(*s), number(*e))).collect();
    assert_eq!(rows, vec![("glass", 0.3, 2.0 * 0.3 / 0.4), ("tile", 0.1, 2.0 * 0.1 / 0.4)]);
    assert_eq!(number(r.total_wh), 2.0);
}

#[test]
fn runs_account_for_every_fall() {
    let readings = [
        (20.0, true, "d1"),
        (19.875, true, "d1"),
        (19.5, true, "d1"),
        (19.25, false, "d1"),
        (21.0, false, "d1"),
        (20.9375, true, "d2"),
        (20.5, true, "d2"),
        (20.4375, true, "d3"),
        (20.375, true, "d3"),
    ];
    let mut m = Meter::new(None, "d1".to_string());
    let mut lines = Vec::new();
    for (now, on_battery, day) in readings {
        lines.extend(m.settle(metric(now), on_battery, day.to_string(), accrue, exact));
    }
    lines.extend(m.finish(exact));
    let carried: f64 = lines
        .iter()
        .map(|l| l.trim_end().rsplit('\t').next().unwrap().parse::<f64>().unwrap())
        .sum();
    assert_eq!(carried, 0.125 + 0.375 + 0.0625 + 0.4375 + 0.0625 + 0.0625);
}

fn exact(m: Metric) -> String {
    format!("{}", number(m))
}
