use drain::metric::Metric;
use drain::sample::{
    battery, change, deltas, parse_comm, parse_io_field, parse_stat, parse_status_field,
    readable_stat, snapshot, Battery, Change, Draw, ProcEntry, Rates, Snap, Supply,
};
use std::collections::HashMap;

fn metric(x: f64) -> Metric {
    Metric { bits: x.to_bits() }
}

fn number(m: Metric) -> f64 {
    f64::from_bits(m.bits)
}

const STAT: &str = "1234 (tmux: server) S 1 1234 1234 0 -1 4194368 3519 0 0 0 250 50 0 0 20 0 1 0";

fn text(s: &str) -> Option<String> {
    Some(s.to_string())
}

fn entry(name: &str, stat: Option<String>) -> ProcEntry {
    ProcEntry {
        name: name.to_string(),
        stat,
        status: text(
            "Name:\ttmux: server\nvoluntary_ctxt_switches:\t77\nnonvoluntary_ctxt_switches:\t3\n",
        ),
        io: text("rchar: 9\nread_bytes: 4096\nwrite_bytes: 512\ncancelled_write_bytes: 1\n"),
    }
}

fn snap(utime: u64, vol_ctx: u64) -> Snap {
    Snap {
        utime,
        stime: 10,
        vol_ctx,
        nvol_ctx: 2,
        read_bytes: 1024,
        write_bytes: 0,
        comm: "p".to_string(),
        state: 'S',
        ppid: 1,
    }
}

fn rates(c: Change) -> Rates {
    let cpu = c.ticks as f64 / 100.0 / 2.0 * 100.0 / 4.0;
    let wakes = c.wakes as f64 / 2.0;
    let kbs = c.io_bytes as f64 / 2.0 / 1024.0;
    Rates {
        cpu_pct: metric(cpu),
        wakes_per_s: metric(wakes),
        nvol_per_s: metric(c.nvol as f64 / 2.0),
        io_kbs: metric(kbs),
        drain: metric(cpu + wakes * 0.05 + kbs * 0.02),
    }
}

#[test]
fn stat_is_cut_behind_the_last_bracket() {
    assert!(readable_stat(STAT));
    assert_eq!(parse_stat(STAT), Some((250, 50, 'S', 1)));
    assert_eq!(parse_comm(STAT), "tmux: server");
    let odd = "7 (a) b) R 2 0 0 0 0 0 0 0 0 0 11 12";
    assert_eq!(parse_stat(odd), Some((11, 12, 'R', 2)));
    assert_eq!(parse_comm(odd), "a) b");
}

#[test]
fn stat_without_its_fields_gives_nothing() {
    assert_eq!(parse_stat("no brackets"), None);
    assert_eq!(parse_stat("7 (a) R 2 0 0 0 0 0 0 0 0 0 11"), None);
    assert_eq!(parse_stat("7 (a) R x 0 0 0 0 0 0 0 0 0 11 12"), None);
    assert_eq!(parse_stat("7 (a) R 2 0 0 0 0 0 0 0 0 0 11 -12"), None);
    assert!(!readable_stat("7 (a)"));
    assert!(!readable_stat("7 (a)\u{e9} R"));
    assert_eq!(parse_comm(")("), "");
    assert_eq!(parse_comm("no brackets"), "");
}

#[test]
fn fields_are_found_by_their_key() {
    let status = "voluntary_ctxt_switches:\t12\nnonvoluntary_ctxt_switches:\t34 x\n";
    assert_eq!(parse_status_field(status, "voluntary_ctxt_switches"), Some(12));
    assert_eq!(parse_status_field(status, "nonvoluntary_ctxt_switches"), Some(34));
    assert_eq!(parse_status_field(status, "Threads"), None);
    assert_eq!(parse_status_field("Threads: many\nThreads: 2", "Threads"), None);
    assert_eq!(parse_status_field("Threads:\nThreads: 2", "Threads"), Some(2));
    assert_eq!(parse_io_field("read_bytes: 5\n", "read_bytes"), Some(5));
    assert_eq!(parse_io_field("read_bytes: 5\n", "write_bytes"), None);
}

#[test]
fn snapshot_takes_processes_only() {
    let entries = vec![
        entry("1234", text(STAT)),
        entry("self", text(STAT)),
        entry("99", None),
        entry("98", text("98 (gone) Z")),
        ProcEntry { name: "5".to_string(), stat: text(STAT), status: None, io: None },
    ];
    let s = snapshot(&entries);
    let mut pids: Vec<u32> = s.keys().copied().collect();
    pids.sort();
    assert_eq!(pids, vec![5, 1234]);
    let p = &s[&1234];
    assert_eq!((p.utime, p.stime, p.vol_ctx, p.nvol_ctx), (250, 50, 77, 3));
    assert_eq!((p.read_bytes, p.write_bytes, p.state, p.ppid), (4096, 512, 'S', 1));
    assert_eq!(p.comm, "tmux: server");
    let q = &s[&5];
    assert_eq!((q.vol_ctx, q.nvol_ctx, q.read_bytes, q.write_bytes), (0, 0, 0, 0));
}

#[test]
fn counters_that_fall_count_as_standing_still() {
    let c = change(&snap(100, 50), &snap(40, 60));
    assert_eq!(c, Change { ticks: 0, wakes: 10, nvol: 0, io_bytes: 0 });
}

#[test]
fn deltas_hold_what_both_samples_hold_and_go_down() {
    let mut a: HashMap<u32, Snap> = HashMap::new();
    let mut b: HashMap<u32, Snap> = HashMap::new();
    for (pid, ticks) in [(1u32, 8u64), (2, 80), (3, 24)] {
        a.insert(pid, snap(100, 0));
        b.insert(pid, snap(100 + ticks, 4));
    }
    a.insert(8, snap(0, 0));
    b.insert(9, snap(500, 0));
    let d = deltas(&a, &b, rates);
    let pids: Vec<u32> = d.iter().map(|x| x.pid).collect();
    assert_eq!(pids, vec![2, 3, 1]);
    assert_eq!(number(d[0].cpu_pct), 10.0);
    assert_eq!(number(d[0].wakes_per_s), 2.0);
    assert_eq!(number(d[0].drain), 10.1);
    assert_eq!(d[0].comm, "p");
}

fn supply(name: &str, status: &str) -> Supply {
    Supply {
        name: name.to_string(),
        status: text(status),
        power_now: None,
        energy_now: None,
        voltage_now: None,
        current_now: None,
        charge_now: None,
    }
}

#[test]
fn battery_prefers_power() {
    let mut bat = supply("BAT0", "Discharging\n");
    bat.power_now = text("6420000\n");
    bat.energy_now = text("30816000\n");
    bat.voltage_now = text("1\n");
    bat.current_now = text("1\n");
    let supplies = vec![supply("AC", "x"), bat];
    assert_eq!(
        battery(&supplies),
        Some(Battery { draw: Draw::Power { uw: 6420000 }, left: Some(30816000), status: 'D' })
    );
}

#[test]
fn battery_falls_back_to_voltage_and_current() {
    let mut bat = supply("BAT1", "Discharging\n");
    bat.voltage_now = text("12000000\n");
    bat.current_now = text("500000\n");
    bat.charge_now = text("2000000\n");
    assert_eq!(
        battery(&vec![bat]),
        Some(Battery {
            draw: Draw::Flow { uv: 12000000, ua: 500000 },
            left: Some(2000000),
            status: 'D'
        })
    );
}

#[test]
fn battery_says_nothing_of_time_while_it_charges() {
    let mut bat = supply("BAT0", "Charging\n");
    bat.power_now = text("5000000");
    bat.energy_now = text("1000000");
    assert_eq!(battery(&vec![bat]).map(|b| (b.left, b.status)), Some((None, 'C')));
    let mut idle = supply("BAT0", "");
    idle.power_now = text("0");
    assert_eq!(battery(&vec![idle]).map(|b| (b.left, b.status)), Some((None, '?')));
}

#[test]
fn battery_needs_its_files() {
    assert_eq!(battery(&Vec::new()), None);
    assert_eq!(battery(&vec![supply("AC", "x")]), None);
    let mut half = supply("BAT0", "Discharging");
    half.voltage_now = text("12000000");
    let mut whole = supply("BAT1", "Discharging");
    whole.power_now = text("1");
    assert_eq!(battery(&vec![half, whole]), None);
}
