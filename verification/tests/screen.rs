use drain::metric::Metric;
use drain::sample::{Change, Delta, Rates, Snap};
use drain::screen::{
    action, bat_color, comm_short, dots, drain_color, strip_ansi_for_width, Action, App, Gauge,
    SortBy, HALF, TICK_S, VERSION,
};
use std::collections::HashMap;

fn metric(x: f64) -> Metric {
    Metric { bits: x.to_bits() }
}

fn number(m: Metric) -> f64 {
    f64::from_bits(m.bits)
}

fn plus(a: Metric, b: Metric) -> Metric {
    metric(number(a) + number(b))
}

fn minus(a: Metric, b: Metric) -> Metric {
    metric(number(a) - number(b))
}

fn over(a: Metric, n: usize) -> Metric {
    metric(number(a) / n as f64)
}

fn hundredths(m: Metric) -> String {
    format!("{:.2}", number(m))
}

fn tenths(m: Metric) -> String {
    format!("{:.1}", number(m))
}

fn line(pid: u32, comm: &str, cpu: f64, wakes: f64, io: f64, drain: f64) -> Delta {
    Delta {
        pid,
        comm: comm.to_string(),
        state: 'S',
        ppid: 1,
        cpu_pct: metric(cpu),
        wakes_per_s: metric(wakes),
        nvol_per_s: metric(4.2),
        io_kbs: metric(io),
        drain: metric(drain),
    }
}

fn app() -> App {
    let mut a = App::new(HashMap::new());
    a.deltas = vec![
        line(1234, "firefox", 12.3, 180.5, 3.1, 21.4),
        line(7, "a-very-long-command", 0.8, 2.0, 900.0, 0.9),
        line(2233, "glass", 3.4, 12.0, 0.0, 4.0),
    ];
    a
}

fn pids(a: &App) -> Vec<u32> {
    a.deltas.iter().map(|d| d.pid).collect()
}

#[test]
fn orders_come_round() {
    let mut s = SortBy::Drain;
    let mut labels = Vec::new();
    for _ in 0..5 {
        labels.push(s.label());
        s = s.next();
    }
    assert_eq!(labels, vec!["drain", "cpu", "wakes", "io", "drain"]);
}

#[test]
fn keys_ask_for_actions() {
    for (keys, a) in [
        (vec!["q", "Q"], Action::Quit),
        (vec!["s", "S"], Action::Sort),
        (vec!["f", "F"], Action::Freeze),
        (vec!["r", "R"], Action::Reset),
        (vec!["h", "H", "?"], Action::Help),
        (vec!["RESIZE"], Action::Resize),
        (vec!["x", "", "qq", "ENTER"], Action::Nothing),
    ] {
        for k in keys {
            assert_eq!(action(Some(k)), a);
        }
    }
    assert_eq!(action(None), Action::Nothing);
}

#[test]
fn sort_key_sorts_the_table() {
    let mut a = app();
    a.sort_deltas();
    assert_eq!(pids(&a), vec![1234, 2233, 7]);
    assert_eq!(a.press(Some("s")), Action::Sort);
    assert_eq!((a.sort, pids(&a)), (SortBy::Cpu, vec![1234, 2233, 7]));
    a.press(Some("s"));
    assert_eq!((a.sort, pids(&a)), (SortBy::Wakes, vec![1234, 2233, 7]));
    a.press(Some("S"));
    assert_eq!((a.sort, pids(&a)), (SortBy::Io, vec![7, 1234, 2233]));
    a.press(Some("s"));
    assert_eq!(a.sort, SortBy::Drain);
}

#[test]
fn freezing_stops_sampling() {
    let mut a = app();
    assert_eq!(TICK_S, 0.9f64.to_bits());
    assert!(a.due(metric(0.9)));
    assert!(!a.due(metric(0.89)));
    a.press(Some("f"));
    assert!(a.frozen);
    assert!(!a.due(metric(5.0)));
    a.press(Some("F"));
    assert!(a.due(metric(5.0)));
}

#[test]
fn reset_forgets_the_average() {
    let mut a = app();
    a.bat_avg.push(metric(4.0));
    a.press(Some("x"));
    assert_eq!(a.bat_avg.len(), 1);
    a.press(Some("r"));
    assert_eq!(a.bat_avg.len(), 0);
}

fn snap(utime: u64) -> Snap {
    Snap {
        utime,
        stime: 0,
        vol_ctx: 0,
        nvol_ctx: 0,
        read_bytes: 0,
        write_bytes: 0,
        comm: "p".to_string(),
        state: 'S',
        ppid: 1,
    }
}

#[test]
fn ticks_take_a_sample_in() {
    let mut a = App::new(HashMap::from([(1, snap(0)), (2, snap(0)), (3, snap(0))]));
    let now = HashMap::from([(1, snap(5)), (2, snap(9)), (4, snap(1))]);
    let rate = |c: Change| Rates {
        cpu_pct: metric(c.ticks as f64),
        wakes_per_s: metric(0.0),
        nvol_per_s: metric(0.0),
        io_kbs: metric(0.0),
        drain: metric(-(c.ticks as f64)),
    };
    a.sort = SortBy::Cpu;
    a.tick(now, rate, Some(HashMap::from([(1, 6)])), Some(metric(4.0)));
    assert_eq!(pids(&a), vec![2, 1]);
    assert_eq!(a.last_snap.len(), 3);
    assert_eq!(a.wsmap.get(&1), Some(&6));
    assert_eq!(a.bat_avg.len(), 1);
    a.frozen = true;
    a.tick(HashMap::new(), rate, Some(HashMap::new()), Some(metric(9.0)));
    assert_eq!((pids(&a), a.last_snap.len(), a.bat_avg.len()), (vec![2, 1], 3, 1));
    assert_eq!(a.wsmap.get(&1), Some(&6));
    a.frozen = false;
    a.tick(HashMap::new(), rate, None, None);
    assert!(a.deltas.is_empty());
    assert_eq!(a.wsmap.get(&1), Some(&6));
    assert_eq!(a.bat_avg.len(), 1);
}

#[test]
fn scores_are_dots() {
    assert_eq!(HALF, 0.5f64.to_bits());
    for (score, five) in [
        (0.0, "○○○○○"),
        (0.49, "○○○○○"),
        (0.5, "●○○○○"),
        (2.9, "●○○○○"),
        (3.0, "●●○○○"),
        (4.9, "●●○○○"),
        (5.0, "●●●○○"),
        (7.9, "●●●○○"),
        (8.0, "●●●●○"),
        (19.9, "●●●●○"),
        (20.0, "●●●●●"),
        (1000.0, "●●●●●"),
        (f64::NAN, "○○○○○"),
    ] {
        assert_eq!(dots(metric(score)), five);
    }
}

#[test]
fn familiar_processes_have_familiar_dots() {
    for (score, five) in [
        (21.387, "●●●●●"),
        (7.35, "●●●○○"),
        (4.0, "●●○○○"),
        (0.9, "●○○○○"),
    ] {
        assert_eq!(dots(metric(score)), five);
    }
}

#[test]
fn scores_and_draws_have_colors() {
    let scores = [(20.0, 196), (19.9, 208), (8.0, 208), (3.0, 226), (1.0, 46), (0.9, 244)];
    for (score, color) in scores {
        assert_eq!(drain_color(metric(score)), color);
    }
    for (watts, color) in [(10.0, 196), (7.0, 208), (6.99, 226), (5.0, 226), (4.0, 46)] {
        assert_eq!(bat_color(metric(watts)), color);
    }
}

#[test]
fn commands_fill_their_column() {
    assert_eq!(comm_short("glass", 8), "glass   ");
    assert_eq!(comm_short("glass", 5), "glass");
    assert_eq!(comm_short("glass", 4), "gla…");
    assert_eq!(comm_short("glass", 1), "…");
    assert_eq!(comm_short("", 0), "");
}

#[test]
fn escapes_have_no_width() {
    assert_eq!(strip_ansi_for_width("a\x1b[38;5;196mb\x1b[0mc"), "abc");
    assert_eq!(strip_ansi_for_width("\x1b[1"), "");
    assert_eq!(strip_ansi_for_width("a\x1b"), "a\x1b");
    assert_eq!(strip_ansi_for_width("\x1bm"), "\x1bm");
    assert_eq!(strip_ansi_for_width("\x1b[1m↓\x1b[0m"), "↓");
    assert_eq!(strip_ansi_for_width("Δ · ✓"), "Δ · ✓");
}

#[test]
fn header_without_a_battery() {
    let mut a = app();
    a.frozen = true;
    assert_eq!(
        a.render_header(None, 0, plus, over, minus, hundredths, tenths),
        " \x1b[1mdrain\x1b[0m  Bat n/a   sort: drain  [FROZEN]"
    );
}

#[test]
fn header_with_a_battery() {
    let mut a = app();
    for _ in 0..30 {
        a.bat_avg.push(metric(5.12));
    }
    let g = Gauge { watts: metric(6.42), hours: Some(metric(4.8)), status: 'D' };
    let plain = " \x1b[1mdrain\x1b[0m  Bat \x1b[38;5;226m6.42 W\x1b[0m ↓  (Δ +1.30 W vs 30-sample avg)   4.8h left   sort: drain";
    assert_eq!(a.render_header(Some(g), 0, plus, over, minus, hundredths, tenths), plain);
    let wide = a.render_header(Some(g), 120, plus, over, minus, hundredths, tenths);
    assert!(wide.starts_with(plain));
    assert_eq!(
        strip_ansi_for_width(plain),
        " drain  Bat 6.42 W ↓  (Δ +1.30 W vs 30-sample avg)   4.8h left   sort: drain"
    );
    assert_eq!(strip_ansi_for_width(&wide).chars().count(), 120);
}

#[test]
fn header_while_charging() {
    let mut a = app();
    a.bat_avg.push(metric(11.0));
    let g = Gauge { watts: metric(10.0), hours: None, status: 'C' };
    assert_eq!(
        a.render_header(Some(g), 0, plus, over, minus, hundredths, tenths),
        " \x1b[1mdrain\x1b[0m  Bat \x1b[38;5;196m10.00 W\x1b[0m ↑  (Δ -1.00 W vs 1-sample avg)   charging   sort: drain"
    );
    let full = Gauge { watts: metric(0.0), hours: None, status: 'F' };
    let line = App::new(HashMap::new())
        .render_header(Some(full), 0, plus, over, minus, hundredths, tenths);
    assert_eq!(line, " \x1b[1mdrain\x1b[0m  Bat \x1b[38;5;46m0.00 W\x1b[0m ✓   sort: drain");
    let other = Gauge { watts: metric(0.0), hours: None, status: 'N' };
    let line = App::new(HashMap::new())
        .render_header(Some(other), 0, plus, over, minus, hundredths, tenths);
    assert!(line.contains(" W\x1b[0m ·   sort"));
}

const TITLE: &str =
    "\x1b[1;38;5;250m   PID  PROC             WS   CPU%   WAKE/s   NVOL/s   IO kB/s  DRAIN\x1b[0m";

#[test]
fn table_shows_what_fits() {
    let mut a = app();
    a.wsmap.insert(1234, 6);
    let want = [
        TITLE,
        "  1234  firefox           7   12.3    180.5      4.2       3.1  \x1b[38;5;196m●●●●●\x1b[0m",
        "     7  a-very-long-com…  ·    0.8      2.0      4.2     900.0  \x1b[38;5;244m●○○○○\x1b[0m",
        "  2233  glass             ·    3.4     12.0      4.2       0.0  \x1b[38;5;226m●●○○○\x1b[0m",
    ];
    assert_eq!(a.render_table(10, tenths), want.join("\n"));
    assert_eq!(a.render_table(5, tenths), want.join("\n"));
    assert_eq!(a.render_table(4, tenths), want[..3].join("\n"));
    assert_eq!(a.render_table(1, tenths), TITLE);
}

#[test]
fn footer_shows_the_keys() {
    let mut a = app();
    assert_eq!(VERSION, "0.1.0");
    assert_eq!(
        a.render_footer(0),
        " q · s sort · f freeze · r reset · h help    drain v0.1.0"
    );
    a.press(Some("h"));
    assert_eq!(
        a.render_footer(0),
        " q quit · s sort (drain) · f freeze · r reset baseline · h hide help"
    );
    let wide = a.render_footer(100);
    assert_eq!(wide.chars().count(), 100);
    a.press(Some("?"));
    assert!(!a.show_help);
}
