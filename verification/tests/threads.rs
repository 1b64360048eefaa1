use drain::metric::Metric;
use drain::sample::{Change, ProcEntry, Snap};
use drain::threads::{deltas, snapshot_threads, ThreadRates};
use std::collections::HashMap;

fn metric(x: f64) -> Metric {
    Metric { bits: x.to_bits() }
}

fn thread(tid: &str, utime: u64, wakes: u64) -> ProcEntry {
    ProcEntry {
        name: tid.to_string(),
        stat: Some(format!("{} (w{}) R 1 0 0 0 0 0 0 0 0 0 {} 0", tid, tid, utime)),
        status: Some(format!("voluntary_ctxt_switches:\t{}\n", wakes)),
        io: Some("read_bytes: 7\n".to_string()),
    }
}

#[test]
fn threads_do_not_count_io() {
    let s = snapshot_threads(&vec![thread("11", 5, 6), thread("x", 1, 1)]);
    assert_eq!(s.len(), 1);
    assert_eq!((s[&11].utime, s[&11].vol_ctx, s[&11].read_bytes), (5, 6, 0));
    assert_eq!(s[&11].comm, "w11");
}

#[test]
fn threads_that_wake_most_stand_first() {
    let a: HashMap<u32, Snap> = snapshot_threads(&vec![
        thread("11", 0, 0),
        thread("12", 0, 0),
        thread("13", 0, 0),
    ]);
    let b: HashMap<u32, Snap> = snapshot_threads(&vec![
        thread("11", 50, 3),
        thread("12", 0, 30),
        thread("14", 0, 99),
    ]);
    let d = deltas(&a, &b, |c: Change| ThreadRates {
        cpu_pct: metric(c.ticks as f64),
        wakes_per_s: metric(c.wakes as f64),
    });
    let rows: Vec<(u32, f64, f64)> = d
        .iter()
        .map(|t| (t.tid, f64::from_bits(t.cpu_pct.bits), f64::from_bits(t.wakes_per_s.bits)))
        .collect();
    assert_eq!(rows, vec![(12, 0.0, 30.0), (11, 50.0, 3.0)]);
    assert_eq!(d[0].comm, "w12");
}
