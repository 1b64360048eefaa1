use drain::metric::Metric;
use drain::sample::Delta;
use drain::suite::{format_line, summarize, SuiteRow};

fn metric(x: f64) -> Metric {
    Metric { bits: x.to_bits() }
}

fn number(m: Metric) -> f64 {
    f64::from_bits(m.bits)
}

fn plus(a: Metric, b: Metric) -> Metric {
    metric(number(a) + number(b))
}

fn show(m: Metric) -> String {
    format!("{:.1}", number(m))
}

fn line(comm: &str, wakes: f64, cpu: f64) -> Delta {
    Delta {
        pid: 1,
        comm: comm.to_string(),
        state: 'S',
        ppid: 1,
        cpu_pct: metric(cpu),
        wakes_per_s: metric(wakes),
        nvol_per_s: metric(0.0),
        io_kbs: metric(0.0),
        drain: metric(0.0),
    }
}

fn row(name: &'static str, instances: u32, wakes: f64) -> SuiteRow {
    SuiteRow { name, instances, cpu_pct: metric(0.0), wakes_per_s: metric(wakes) }
}

#[test]
fn suite_is_summed_and_ranked() {
    let rows = summarize(
        &vec![
            line("tile", 2.0, 0.5),
            line("firefox", 900.0, 50.0),
            line("glass", 1.5, 1.0),
            line("wintitle", 3.0, 0.0),
            line("glass", 4.0, 2.0),
        ],
        plus,
    );
    let shown: Vec<(&str, u32, f64, f64)> = rows
        .iter()
        .map(|r| (r.name, r.instances, number(r.cpu_pct), number(r.wakes_per_s)))
        .collect();
    assert_eq!(
        shown,
        vec![("glass", 2, 3.0, 5.5), ("wintitle", 1, 0.0, 3.0), ("tile", 1, 0.5, 2.0)]
    );
}

#[test]
fn every_tracked_tool_is_known() {
    let names = [
        "glass", "tile", "strip", "bare", "drain", "battery", "brightness", "clock", "cpu",
        "date", "disk", "ip", "mailbox", "mailbox-multi", "mailfetch", "mem", "moonphase",
        "ping", "pingok", "sep", "uptime", "wintitle",
    ];
    let lines: Vec<Delta> = names.iter().map(|n| line(n, 1.0, 1.0)).collect();
    let rows = summarize(&lines, plus);
    let found: Vec<&str> = rows.iter().map(|r| r.name).collect();
    assert_eq!(found, names);
}

#[test]
fn suite_line_without_tools() {
    assert_eq!(format_line(&Vec::new(), show), "  CHasm suite: (no tracked tools running)");
    assert!(summarize(&vec![line("firefox", 1.0, 1.0)], plus).is_empty());
}

#[test]
fn suite_line_is_colored_by_wakes() {
    assert_eq!(
        format_line(
            &vec![
                row("glass", 3, 50.0),
                row("tile", 1, 20.0),
                row("strip", 1, 10.0),
                row("bare", 2, 1.0),
                row("drain", 1, 0.96),
            ],
            show
        ),
        "  \x1b[38;5;250msuite:\x1b[0m  \x1b[38;5;196mglass\u{d7}3 50.0w/s\x1b[0m  \x1b[38;5;208mtile 20.0w/s\x1b[0m  \x1b[38;5;226mstrip 10.0w/s\x1b[0m  \x1b[38;5;46mbare\u{d7}2 1.0w/s\x1b[0m  \x1b[38;5;244mdrain 1.0w/s\x1b[0m"
    );
}
