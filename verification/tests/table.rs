use drain::metric::Metric;
use drain::table::Table;

fn whole(n: u8) -> Metric {
    Metric::whole(n)
}

#[test]
fn table_gives_back_what_was_put_last() {
    let mut t = Table::new();
    assert_eq!(t.len(), 0);
    assert_eq!(t.get("glass"), None);
    t.put("glass", whole(1));
    t.put("tile", whole(2));
    t.put("glass", whole(3));
    assert_eq!(t.get("glass"), Some(whole(3)));
    assert_eq!(t.get("tile"), Some(whole(2)));
    assert_eq!(t.get("strip"), None);
    assert_eq!(t.len(), 2);
    assert_eq!((t.name(0), t.value(0)), ("glass", whole(3)));
    assert_eq!((t.name(1), t.value(1)), ("tile", whole(2)));
}

#[test]
fn table_copies_are_apart() {
    let mut t = Table::new();
    t.put("glass", whole(1));
    let copy = t.clone();
    t.put("glass", whole(2));
    assert_eq!(copy.get("glass"), Some(whole(1)));
    assert_eq!(copy.len(), 1);
}
