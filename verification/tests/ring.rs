use drain::metric::Metric;
use drain::ring::BatRing;

fn metric(x: f64) -> Metric {
    Metric { bits: x.to_bits() }
}

fn number(m: Metric) -> f64 {
    f64::from_bits(m.bits)
}

fn plus(a: Metric, b: Metric) -> Metric {
    metric(number(a) + number(b))
}

fn over(a: Metric, n: usize) -> Metric {
    metric(number(a) / n as f64)
}

#[test]
fn ring_averages_what_it_holds() {
    let mut r = BatRing::new();
    assert_eq!(r.avg(&plus, &over), None);
    r.push(metric(4.0));
    r.push(metric(7.0));
    assert_eq!(r.len(), 2);
    assert_eq!(r.avg(&plus, &over).map(number), Some(5.5));
}

#[test]
fn ring_forgets_all_but_the_last_thirty() {
    let mut r = BatRing::new();
    for i in 0..100u32 {
        r.push(metric(f64::from(i)));
    }
    assert_eq!(r.len(), 30);
    assert_eq!(r.avg(&plus, &over).map(number), Some(84.5));
}
