use drain::baseline::{
    format_json, load, parse_json, parse_number, parse_string_f64_map, quote, unquote,
    BaselineSnapshot,
};
use drain::metric::Metric;
use drain::sample::Delta;
use drain::text::chars_of;

fn metric(x: f64) -> Metric {
    Metric { bits: x.to_bits() }
}

fn number(m: Metric) -> f64 {
    f64::from_bits(m.bits)
}

fn num(s: &str) -> Option<Metric> {
    s.parse::<f64>().ok().map(metric)
}

fn show(m: Metric) -> String {
    format!("{}", number(m))
}

fn blend(a: Metric, b: Metric) -> Metric {
    metric(number(a) * (1.0 - 0.1) + number(b) * 0.1)
}

fn ratio(a: Metric, b: Metric) -> Metric {
    metric(number(a) / number(b))
}

fn line(comm: &str, wakes: f64, cpu: f64) -> Delta {
    Delta {
        pid: 1,
        comm: comm.to_string(),
        state: 'S',
        ppid: 1,
        cpu_pct: metric(cpu),
        wakes_per_s: metric(wakes),
        nvol_per_s: metric(0.0),
        io_kbs: metric(0.0),
        drain: metric(0.0),
    }
}

#[test]
fn first_sample_sets_the_averages() {
    let mut b = BaselineSnapshot::default();
    b.update(&vec![line("glass", 10.0, 2.0)], Some(metric(6.0)), blend);
    assert_eq!(number(b.bat_w_avg), 6.0);
    assert_eq!(b.samples_taken, 1);
    assert_eq!(b.wakes_median.get("glass").map(number), Some(10.0));
    assert_eq!(b.cpu_median.get("glass").map(number), Some(2.0));
}

#[test]
fn later_samples_are_blended() {
    let mut b = BaselineSnapshot::default();
    b.update(&vec![line("glass", 10.0, 2.0)], Some(metric(4.0)), blend);
    b.update(&vec![line("glass", 20.0, 4.0), line("tile", 1.0, 1.0)], Some(metric(6.0)), blend);
    assert_eq!(number(b.bat_w_avg), 4.0 * (1.0 - 0.1) + 6.0 * 0.1);
    assert_eq!(b.wakes_median.get("glass").map(number), Some(10.0 * (1.0 - 0.1) + 20.0 * 0.1));
    assert_eq!(b.wakes_median.get("tile").map(number), Some(1.0 * (1.0 - 0.1) + 1.0 * 0.1));
    b.update(&Vec::new(), None, blend);
    assert_eq!(number(b.bat_w_avg), 4.0 * (1.0 - 0.1) + 6.0 * 0.1);
    assert_eq!(b.samples_taken, 3);
}

#[test]
fn two_processes_of_a_command_are_blended_in_turn() {
    let mut b = BaselineSnapshot::default();
    b.update(&vec![line("glass", 10.0, 0.0), line("glass", 20.0, 0.0)], None, blend);
    assert_eq!(b.wakes_median.get("glass").map(number), Some(10.0 * (1.0 - 0.1) + 20.0 * 0.1));
    assert_eq!(b.wakes_median.len(), 1);
}

#[test]
fn samples_do_not_overflow() {
    let mut b = BaselineSnapshot::default();
    b.samples_taken = u64::MAX;
    b.bat_w_avg = metric(4.0);
    b.update(&Vec::new(), Some(metric(4.0)), blend);
    assert_eq!(b.samples_taken, u64::MAX);
}

#[test]
fn anomaly_is_a_ratio() {
    let mut b = BaselineSnapshot::default();
    b.wakes_median.put("glass", metric(20.0));
    b.wakes_median.put("idle", metric(0.0));
    b.wakes_median.put("almost", metric(0.99));
    b.wakes_median.put("one", metric(1.0));
    assert_eq!(b.wakes_anomaly("glass", metric(20.0), ratio).map(number), Some(1.0));
    assert_eq!(b.wakes_anomaly("glass", metric(50.0), ratio).map(number), Some(2.5));
    assert_eq!(b.wakes_anomaly("idle", metric(50.0), ratio).map(number), Some(50.0));
    assert_eq!(b.wakes_anomaly("almost", metric(5.0), ratio).map(number), Some(5.0));
    assert_eq!(b.wakes_anomaly("one", metric(5.0), ratio).map(number), Some(5.0));
    assert_eq!(b.wakes_anomaly("tile", metric(5.0), ratio), None);
}

#[test]
fn quotes_escape() {
    assert_eq!(quote("glass"), "\"glass\"");
    assert_eq!(quote("a\"b\\c\nd\te\u{1}\u{1f}\u{e9}"), "\"a\\\"b\\\\c\\nd\\te\\u0001\\u001f\u{e9}\"");
}

#[test]
fn snapshot_is_written_as_text() {
    let mut b = BaselineSnapshot::default();
    b.bat_w_avg = metric(4.25);
    b.samples_taken = 12;
    b.wakes_median.put("glass", metric(10.5));
    b.wakes_median.put("tile", metric(0.0));
    assert_eq!(
        format_json(&b, show),
        "{\n  \"bat_w_avg\": 4.25,\n  \"samples_taken\": 12,\n  \"wakes_median\": {\n    \"glass\": 10.5,\n    \"tile\": 0\n  },\n  \"cpu_median\": {\n  }\n}\n"
    );
}

fn rows(t: &drain::table::Table) -> Vec<(String, f64)> {
    (0..t.len()).map(|i| (t.name(i).to_string(), number(t.value(i)))).collect()
}

#[test]
fn saved_snapshot_reads_back() {
    let mut b = BaselineSnapshot::default();
    b.bat_w_avg = metric(5.123456789);
    b.samples_taken = 4321;
    b.wakes_median.put("glass", metric(10.5));
    b.wakes_median.put("tmux: server", metric(1e-7));
    b.wakes_median.put("{brace}, caf\u{e9}", metric(1e21));
    b.cpu_median.put("glass", metric(-0.5));
    let back = parse_json(&format_json(&b, show), num).unwrap();
    assert_eq!(back.bat_w_avg, b.bat_w_avg);
    assert_eq!(back.samples_taken, 4321);
    assert_eq!(rows(&back.wakes_median), rows(&b.wakes_median));
    assert_eq!(rows(&back.cpu_median), rows(&b.cpu_median));
}

#[test]
fn empty_snapshot_reads_back() {
    let back = parse_json(&format_json(&BaselineSnapshot::default(), show), num).unwrap();
    assert_eq!(back.bat_w_avg, metric(0.0));
    assert_eq!((back.samples_taken, back.wakes_median.len(), back.cpu_median.len()), (0, 0, 0));
}

#[test]
fn commands_with_escapes_read_back() {
    let mut b = BaselineSnapshot::default();
    b.samples_taken = 5;
    let names = [
        "a\\b", "a\"b", "\"", "\\", "\\\"", "line\nend\t", "\u{1}\u{1f}\r", "\\n", "\\u0041", "",
    ];
    for (i, n) in names.iter().enumerate() {
        b.wakes_median.put(n, metric(i as f64));
        b.cpu_median.put(n, metric(0.5));
    }
    let back = parse_json(&format_json(&b, show), num).unwrap();
    assert_eq!(rows(&back.wakes_median), rows(&b.wakes_median));
    assert_eq!(rows(&back.cpu_median), rows(&b.cpu_median));
    assert_eq!(back.wakes_median.len(), names.len());
    assert_eq!(load(Some(format_json(&b, show).as_str()), num).samples_taken, 5);
}

#[test]
fn escapes_are_undone() {
    for s in ["", "glass", "a\"b\\c\nd\te\u{1}\u{1f}\u{e9}", "\\\\", "\\u00"] {
        let quoted = quote(s);
        let inner = chars_of(&quoted[1..quoted.len() - 1]);
        assert_eq!(unquote(&inner), s);
    }
    for s in ["\\u00e9", "\\u0041", "\\u0020", "\\u000a", "\\u001F", "a\\qb"] {
        assert_eq!(unquote(&chars_of(s)), s);
    }
    assert_eq!(unquote(&chars_of("\\u001f\\u0000")), "\u{1f}\0");
    assert_eq!(unquote(&chars_of("\\x\\u0100\\u00g0\\")), "\\x\\u0100\\u00g0\\");
}

#[test]
fn unknown_members_are_passed_over() {
    let b = parse_json("{\"other\": 3, \"samples_taken\" : 7.9}", num).unwrap();
    assert_eq!(b.samples_taken, 7);
    let b = parse_json("", num).unwrap();
    assert_eq!(b.samples_taken, 0);
}

#[test]
fn broken_texts_are_refused() {
    assert!(parse_json("\"open", num).is_none());
    assert!(parse_json("\"open\\\"", num).is_none());
    assert!(parse_json("\"open\\", num).is_none());
    assert!(parse_json("{\"bat_w_avg\": x}", num).is_none());
    assert!(parse_json("{\"samples_taken\": }", num).is_none());
    assert!(parse_json("{\"wakes_median\": {\"a\": }}", num).is_none());
    assert!(parse_json("{\"cpu_median\": {\"a", num).is_none());
}

#[test]
fn tables_end_where_no_name_stands() {
    let s = chars_of("x {\n \"a\": 1, \"b\" 2 ! \"c\": 3}");
    let (t, end) = parse_string_f64_map(&s, 0, &num).unwrap();
    assert_eq!(rows(&t), vec![("a".to_string(), 1.0), ("b".to_string(), 2.0)]);
    assert_eq!(s[end], '!');
    let s = chars_of("no brace");
    let (t, end) = parse_string_f64_map(&s, 0, &num).unwrap();
    assert_eq!((t.len(), end), (0, 8));
    let s = chars_of("{\"a\":1,\"a\":2}z");
    let (t, end) = parse_string_f64_map(&s, 0, &num).unwrap();
    assert_eq!(rows(&t), vec![("a".to_string(), 2.0)]);
    assert_eq!(s[end], 'z');
}

#[test]
fn numbers_end_where_the_numeral_ends() {
    let s = chars_of("a-1.5e+2,");
    assert_eq!(parse_number(&s, 1, &num), Some((metric(-150.0), 8)));
    assert_eq!(parse_number(&s, 0, &num), None);
    assert_eq!(parse_number(&s, 9, &num), None);
}

#[test]
fn load_falls_back_to_a_fresh_snapshot() {
    assert_eq!(load(None, num).samples_taken, 0);
    assert_eq!(load(Some("\"broken"), num).samples_taken, 0);
    assert_eq!(load(Some("{\"samples_taken\": 3}"), num).samples_taken, 3);
}
