use drain::order::rank;

#[test]
fn ranking_is_a_stable_sort() {
    let mut v: Vec<(u32, u32)> = vec![(3, 0), (1, 1), (3, 2), (2, 3), (1, 4), (3, 5)];
    let mut sorted = v.clone();
    sorted.sort_by(|a, b| b.0.cmp(&a.0));
    rank(&mut v, |a: &(u32, u32), b: &(u32, u32)| a.0 > b.0);
    assert_eq!(v, sorted);
    assert_eq!(v, vec![(3, 0), (3, 2), (3, 5), (2, 3), (1, 1), (1, 4)]);
}

#[test]
fn ranking_nothing_gives_nothing() {
    let mut v: Vec<u8> = Vec::new();
    rank(&mut v, |a: &u8, b: &u8| a > b);
    assert!(v.is_empty());
}
