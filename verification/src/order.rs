//! Ranking: the stable sort behind every list that the tool shows.
//!
//! A list is ranked by a relation "stands above". Where neither of two items
//! stands above the other, they keep the order in which they came.
use crate::metric::Metric;
use vstd::prelude::*;

verus! {

/// The first place at or after `i` whose item `x` stands above; the end of the
/// list where there is none.
pub open spec fn place<T>(s: Seq<T>, x: T, above: spec_fn(T, T) -> bool, i: int) -> int
    decreases s.len() - i,
{
    if 0 <= i < s.len() && !above(x, s[i]) {
        place(s, x, above, i + 1)
    } else {
        i
    }
}

/// The ranking of `s`: each item in turn goes in front of the first item that
/// it stands above.
pub open spec fn ranked<T>(s: Seq<T>, above: spec_fn(T, T) -> bool) -> Seq<T>
    decreases s.len(),
{
    if s.len() == 0 {
        Seq::empty()
    } else {
        let r = ranked(s.drop_last(), above);
        r.insert(place(r, s.last(), above, 0), s.last())
    }
}

/// Whether `above` is a strict weak order on the items of `s`: it never holds
/// both ways, and between two items where it holds no third one is level with
/// both.
pub open spec fn orders<T>(s: Seq<T>, above: spec_fn(T, T) -> bool) -> bool {
    &&& forall|a: T, b: T| #[trigger]
        above(a, b) && s.contains(a) && s.contains(b) ==> !above(b, a)
    &&& forall|a: T, b: T, c: T|
        #![trigger above(a, c), s.contains(b)]
        above(a, c) && s.contains(a) && s.contains(b) && s.contains(c) ==> above(a, b) || above(
            b,
            c,
        )
}

/// Whether the executable relation `f` is the relation `g`.
pub open spec fn decides<T, F: Fn(&T, &T) -> bool>(f: F, g: spec_fn(T, T) -> bool) -> bool {
    forall|a: &T, b: &T, r: bool| #[trigger] call_ensures(f, (a, b), r) ==> r == g(*a, *b)
}

/// Where the place is.
proof fn lemma_place<T>(s: Seq<T>, x: T, above: spec_fn(T, T) -> bool, i: int)
    requires
        0 <= i <= s.len(),
    ensures
        i <= place(s, x, above, i) <= s.len(),
        forall|j: int| i <= j < place(s, x, above, i) ==> !above(x, #[trigger] s[j]),
        place(s, x, above, i) < s.len() ==> above(x, s[place(s, x, above, i)]),
    decreases s.len() - i,
{
    if i < s.len() && !above(x, s[i]) {
        lemma_place(s, x, above, i + 1);
    }
}

/// Ranking keeps the items: none is lost, none is added.
pub proof fn law_ranked_keeps_items<T>(s: Seq<T>, above: spec_fn(T, T) -> bool)
    ensures
        ranked(s, above).to_multiset() == s.to_multiset(),
        ranked(s, above).len() == s.len(),
        forall|x: T| ranked(s, above).contains(x) <==> s.contains(x),
    decreases s.len(),
{
    broadcast use vstd::seq_lib::group_to_multiset_ensures;

    if s.len() > 0 {
        law_ranked_keeps_items(s.drop_last(), above);
        let r = ranked(s.drop_last(), above);
        lemma_place(r, s.last(), above, 0);
        let j = place(r, s.last(), above, 0);
        assert(s =~= s.drop_last().push(s.last()));
        vstd::seq_lib::to_multiset_insert(r, j, s.last());
        assert(ranked(s, above).to_multiset() =~= s.to_multiset());
    } else {
        assert(s =~= Seq::empty());
    }
    assert forall|x: T| ranked(s, above).contains(x) <==> s.contains(x) by {
        assert(ranked(s, above).to_multiset().count(x) == s.to_multiset().count(x));
    }
}

/// An order on a list is an order on its front.
proof fn lemma_orders_front<T>(s: Seq<T>, above: spec_fn(T, T) -> bool)
    requires
        s.len() > 0,
        orders(s, above),
    ensures
        orders(s.drop_last(), above),
{
    assert forall|x: T| #[trigger] s.drop_last().contains(x) implies s.contains(x) by {
        let i = choose|i: int| 0 <= i < s.drop_last().len() && s.drop_last()[i] == x;
        assert(s[i] == x);
    }
}

/// In a ranking no item stands above one in front of it.
pub proof fn law_ranked_is_sorted<T>(s: Seq<T>, above: spec_fn(T, T) -> bool)
    requires
        orders(s, above),
    ensures
        forall|i: int, j: int|
            0 <= i < j < s.len() ==> !above(
                #[trigger] ranked(s, above)[j],
                #[trigger] ranked(s, above)[i],
            ),
    decreases s.len(),
{
    law_ranked_keeps_items(s, above);
    if s.len() > 0 {
        lemma_orders_front(s, above);
        law_ranked_is_sorted(s.drop_last(), above);
        law_ranked_keeps_items(s.drop_last(), above);
        let r = ranked(s.drop_last(), above);
        let x = s.last();
        let p = place(r, x, above, 0);
        lemma_place(r, x, above, 0);
        let t = ranked(s, above);
        assert(s.contains(x));
        assert forall|i: int| 0 <= i < r.len() implies s.contains(#[trigger] r[i]) by {
            assert(r.contains(r[i]));
            assert(s.drop_last().contains(r[i]));
            let m = choose|m: int| 0 <= m < s.drop_last().len() && s.drop_last()[m] == r[i];
            assert(s[m] == r[i]);
        }
        assert forall|i: int, j: int| 0 <= i < j < s.len() implies !above(
            #[trigger] t[j],
            #[trigger] t[i],
        ) by {
            if i < p && j < p {
                assert(t[i] == r[i] && t[j] == r[j]);
            } else if i < p && j == p {
                assert(t[i] == r[i] && t[j] == x);
            } else if i < p && j > p {
                assert(t[i] == r[i] && t[j] == r[j - 1]);
            } else if i == p {
                assert(t[i] == x && t[j] == r[j - 1]);
                assert(above(x, r[p]));
                assert(above(x, r[j - 1]) || above(r[j - 1], r[p]));
                if j - 1 > p {
                    assert(!above(r[j - 1], r[p]));
                }
                assert(above(x, r[j - 1]));
            } else {
                assert(t[i] == r[i - 1] && t[j] == r[j - 1]);
            }
        }
    }
}

/// What a filter keeps of a list with one item put in.
proof fn lemma_filter_insert<T>(s: Seq<T>, j: int, x: T, keep: spec_fn(T) -> bool)
    requires
        0 <= j <= s.len(),
        forall|i: int| j <= i < s.len() ==> !keep(#[trigger] s[i]),
    ensures
        s.insert(j, x).filter(keep) == if keep(x) {
            s.filter(keep).push(x)
        } else {
            s.filter(keep)
        },
    decreases s.len() - j,
{
    reveal(Seq::filter);
    if j == s.len() {
        assert(s.insert(j, x) =~= s.push(x));
        assert(s.push(x).drop_last() =~= s);
    } else {
        lemma_filter_insert(s.drop_last(), j, x, keep);
        assert(s.insert(j, x).drop_last() =~= s.drop_last().insert(j, x));
        assert(s.insert(j, x).last() == s.last());
        assert(!keep(s[s.len() - 1]));
    }
}

/// What a filter keeps of a list with one item put in that it drops.
proof fn lemma_filter_insert_dropped<T>(s: Seq<T>, j: int, x: T, keep: spec_fn(T) -> bool)
    requires
        0 <= j <= s.len(),
        !keep(x),
    ensures
        s.insert(j, x).filter(keep) == s.filter(keep),
    decreases s.len() - j,
{
    reveal(Seq::filter);
    if j == s.len() {
        assert(s.insert(j, x) =~= s.push(x));
        assert(s.push(x).drop_last() =~= s);
    } else {
        lemma_filter_insert_dropped(s.drop_last(), j, x, keep);
        assert(s.insert(j, x).drop_last() =~= s.drop_last().insert(j, x));
        assert(s.insert(j, x).last() == s.last());
    }
}

/// Items that are level with one another keep the order in which they came.
pub proof fn law_ranked_is_stable<T>(
    s: Seq<T>,
    above: spec_fn(T, T) -> bool,
    level: spec_fn(T) -> bool,
)
    requires
        orders(s, above),
        forall|a: T, b: T| #[trigger] level(a) && #[trigger] level(b) ==> !above(a, b),
    ensures
        ranked(s, above).filter(level) == s.filter(level),
    decreases s.len(),
{
    reveal(Seq::filter);
    if s.len() > 0 {
        lemma_orders_front(s, above);
        law_ranked_is_stable(s.drop_last(), above, level);
        law_ranked_is_sorted(s.drop_last(), above);
        law_ranked_keeps_items(s.drop_last(), above);
        let r = ranked(s.drop_last(), above);
        let x = s.last();
        let p = place(r, x, above, 0);
        lemma_place(r, x, above, 0);
        if level(x) {
            assert(s.contains(x));
            assert forall|i: int| 0 <= i < r.len() implies s.contains(#[trigger] r[i]) by {
                assert(r.contains(r[i]));
                assert(s.drop_last().contains(r[i]));
                let m = choose|m: int| 0 <= m < s.drop_last().len() && s.drop_last()[m] == r[i];
                assert(s[m] == r[i]);
            }
            assert forall|i: int| p <= i < r.len() implies !level(#[trigger] r[i]) by {
                assert(above(x, r[p]));
                assert(above(x, r[i]) || above(r[i], r[p]));
                if i > p {
                    assert(!above(r[i], r[p]));
                }
            }
            lemma_filter_insert(r, p, x, level);
        } else {
            lemma_filter_insert_dropped(r, p, x, level);
        }
    }
}

/// Ranks `v` in place.
pub fn rank<T, F: Fn(&T, &T) -> bool>(v: &mut Vec<T>, above: F)
    requires
        forall|a: &T, b: &T| call_requires(above, (a, b)),
    ensures
        forall|g: spec_fn(T, T) -> bool|
            decides(above, g) ==> final(v)@ == #[trigger] ranked(old(v)@, g),
{
    let ghost s = v@;
    let mut i: usize = 0;
    let n = v.len();
    assert(s.take(0) =~= Seq::empty());
    while i < n
        invariant
            i <= n,
            n == s.len(),
            v@.len() == n,
            v@.skip(i as int) == s.skip(i as int),
            forall|a: &T, b: &T| call_requires(above, (a, b)),
            forall|g: spec_fn(T, T) -> bool|
                decides(above, g) ==> v@.take(i as int) == #[trigger] ranked(s.take(i as int), g),
        decreases n - i,
    {
        let ghost before = v@;
        assert(s.skip(i as int)[0] == v@.skip(i as int)[0]);
        let x = v.remove(i);
        let mut j: usize = 0;
        while j < i && !above(&x, &v[j])
            invariant
                j <= i < n,
                v@.len() == n - 1,
                v@ == before.remove(i as int),
                before.len() == n,
                x == before[i as int],
                forall|a: &T, b: &T| call_requires(above, (a, b)),
                forall|g: spec_fn(T, T) -> bool|
                    decides(above, g) ==> #[trigger] place(before.take(i as int), x, g, 0) == place(
                        before.take(i as int),
                        x,
                        g,
                        j as int,
                    ),
            decreases i - j,
        {
            proof {
                assert forall|g: spec_fn(T, T) -> bool| decides(above, g) implies #[trigger] place(
                    before.take(i as int),
                    x,
                    g,
                    0,
                ) == place(before.take(i as int), x, g, j + 1) by {
                    assert(v@[j as int] == before.take(i as int)[j as int]);
                }
            }
            j += 1;
        }
        v.insert(j, x);
        proof {
            assert(v@.skip(i + 1) =~= s.skip(i + 1)) by {
                assert(v@.skip(i + 1) =~= before.skip(i as int).skip(1));
                assert(s.skip(i + 1) =~= s.skip(i as int).skip(1));
            }
            assert(s.take(i + 1).drop_last() =~= s.take(i as int));
            assert(s.take(i + 1).last() == x);
            assert forall|g: spec_fn(T, T) -> bool| decides(above, g) implies v@.take(i + 1)
                == #[trigger] ranked(s.take(i + 1), g) by {
                let r = ranked(s.take(i as int), g);
                assert(before.take(i as int) == r);
                if j < i {
                    assert(before.take(i as int)[j as int] == before.remove(i as int)[j as int]);
                }
                assert(place(r, x, g, 0) == j);
                assert(v@.take(i + 1) =~= r.insert(j as int, x));
            }
        }
        i += 1;
    }
    assert(s.take(n as int) =~= s);
    assert(v@.take(n as int) =~= v@);
}

/// The relation that puts the higher reading above.
pub open spec fn higher<T>(key: spec_fn(T) -> Metric) -> spec_fn(T, T) -> bool {
    |a: T, b: T| key(b).below(key(a))
}

/// Among numbers, "higher" is an order.
pub proof fn lemma_higher_orders<T>(s: Seq<T>, key: spec_fn(T) -> Metric)
    requires
        forall|i: int| 0 <= i < s.len() ==> key(#[trigger] s[i]).is_number(),
    ensures
        orders(s, higher(key)),
{
}

/// A ranking by a reading goes down from the highest, where all are numbers.
pub proof fn law_higher_goes_down<T>(s: Seq<T>, key: spec_fn(T) -> Metric)
    requires
        forall|i: int| 0 <= i < s.len() ==> key(#[trigger] s[i]).is_number(),
    ensures
        forall|i: int, j: int|
            0 <= i < j < s.len() ==> key(#[trigger] ranked(s, higher(key))[i]).at_least(
                key(#[trigger] ranked(s, higher(key))[j]),
            ),
{
    lemma_higher_orders(s, key);
    law_ranked_is_sorted(s, higher(key));
    law_ranked_keeps_items(s, higher(key));
    let r = ranked(s, higher(key));
    assert forall|i: int| 0 <= i < r.len() implies key(#[trigger] r[i]).is_number() by {
        assert(r.contains(r[i]));
        assert(s.contains(r[i]));
        let m = choose|m: int| 0 <= m < s.len() && s[m] == r[i];
        assert(key(s[m]).is_number());
    }
    assert forall|i: int, j: int| 0 <= i < j < s.len() implies key(#[trigger] r[i]).at_least(
        key(#[trigger] r[j]),
    ) by {
        assert(!higher(key)(r[j], r[i]));
    }
}

/// The marks of the items, in their order.
pub open spec fn marks<T>(s: Seq<T>, mark: spec_fn(T) -> u32) -> Seq<u32> {
    Seq::new(s.len(), |i: int| mark(s[i]))
}

/// Ranking keeps the marks of the items, and keeps them apart.
pub proof fn lemma_ranked_marks<T>(
    s: Seq<T>,
    above: spec_fn(T, T) -> bool,
    mark: spec_fn(T) -> u32,
)
    requires
        marks(s, mark).no_duplicates(),
    ensures
        marks(ranked(s, above), mark).no_duplicates(),
        forall|m: u32|
            marks(ranked(s, above), mark).contains(m) <==> marks(s, mark).contains(m),
{
    broadcast use vstd::seq_lib::group_to_multiset_ensures;

    let r = ranked(s, above);
    law_ranked_keeps_items(s, above);
    assert forall|m: u32| marks(r, mark).contains(m) <==> marks(s, mark).contains(m) by {
        if marks(r, mark).contains(m) {
            let i = choose|i: int| 0 <= i < r.len() && marks(r, mark)[i] == m;
            assert(r.contains(r[i]));
            assert(s.contains(r[i]));
            let j = choose|j: int| 0 <= j < s.len() && s[j] == r[i];
            assert(marks(s, mark)[j] == m);
        }
        if marks(s, mark).contains(m) {
            let i = choose|i: int| 0 <= i < s.len() && marks(s, mark)[i] == m;
            assert(s.contains(s[i]));
            assert(r.contains(s[i]));
            let j = choose|j: int| 0 <= j < r.len() && r[j] == s[i];
            assert(marks(r, mark)[j] == m);
        }
    }
    assert(s.no_duplicates()) by {
        assert forall|i: int, j: int| 0 <= i < j < s.len() implies s[i] != s[j] by {
            assert(marks(s, mark)[i] != marks(s, mark)[j]);
        }
    }
    s.lemma_multiset_has_no_duplicates();
    r.lemma_multiset_has_no_duplicates_conv();
    assert forall|i: int, j: int| 0 <= i < j < r.len() implies marks(r, mark)[i] != marks(
        r,
        mark,
    )[j] by {
        assert(r.contains(r[i]) && r.contains(r[j]));
        assert(s.contains(r[i]) && s.contains(r[j]));
        let m = choose|m: int| 0 <= m < s.len() && s[m] == r[i];
        let n = choose|n: int| 0 <= n < s.len() && s[n] == r[j];
        assert(r[i] != r[j]);
        assert(marks(s, mark)[m] != marks(s, mark)[n]);
    }
}

/// Ranking keeps items distinct.
pub proof fn lemma_ranked_distinct<T>(s: Seq<T>, above: spec_fn(T, T) -> bool)
    requires
        s.no_duplicates(),
    ensures
        ranked(s, above).no_duplicates(),
    decreases s.len(),
{
    if s.len() > 0 {
        let t = s.drop_last();
        let x = s.last();
        let r = ranked(t, above);
        assert forall|i: int, j: int| 0 <= i < t.len() && 0 <= j < t.len() && i != j implies t[i]
            != t[j] by {
            assert(s[i] != s[j]);
        }
        lemma_ranked_distinct(t, above);
        law_ranked_keeps_items(t, above);
        lemma_place(r, x, above, 0);
        let p = place(r, x, above, 0);
        assert(!r.contains(x)) by {
            if r.contains(x) {
                assert(t.contains(x));
                let k = choose|k: int| 0 <= k < t.len() && t[k] == x;
                assert(s[k] != s[s.len() - 1]);
            }
        }
        let q = r.insert(p, x);
        assert forall|i: int, j: int| 0 <= i < q.len() && 0 <= j < q.len() && i != j implies q[i]
            != q[j] by {
            let a = if i < p {
                i
            } else {
                i - 1
            };
            let b = if j < p {
                j
            } else {
                j - 1
            };
            if i == p {
                assert(q[j] == r[b]);
                assert(r.contains(r[b]));
            } else if j == p {
                assert(q[i] == r[a]);
                assert(r.contains(r[a]));
            } else {
                assert(q[i] == r[a] && q[j] == r[b]);
            }
        }
    }
}

/// Ranking by what a view shows is ranking the views.
pub proof fn lemma_ranked_view<T, V>(
    s: Seq<T>,
    view: spec_fn(T) -> V,
    above: spec_fn(V, V) -> bool,
)
    ensures
        ranked(s.map_values(view), above) == ranked(
            s,
            |a: T, b: T| above(view(a), view(b)),
        ).map_values(view),
    decreases s.len(),
{
    let g = |a: T, b: T| above(view(a), view(b));
    let t = s.map_values(view);
    if s.len() == 0 {
        assert(ranked(t, above) =~= ranked(s, g).map_values(view));
    } else {
        lemma_ranked_view(s.drop_last(), view, above);
        assert(t.drop_last() =~= s.drop_last().map_values(view));
        let r = ranked(s.drop_last(), g);
        let q = ranked(t.drop_last(), above);
        assert(q == r.map_values(view));
        lemma_place_view(r, s.last(), view, above, 0);
        lemma_place(r, s.last(), g, 0);
        let p = place(r, s.last(), g, 0);
        assert(r.insert(p, s.last()).map_values(view) =~= q.insert(p, view(s.last())));
    }
}

/// The place by what a view shows is the place among the views.
proof fn lemma_place_view<T, V>(
    s: Seq<T>,
    x: T,
    view: spec_fn(T) -> V,
    above: spec_fn(V, V) -> bool,
    i: int,
)
    requires
        0 <= i <= s.len(),
    ensures
        place(s.map_values(view), view(x), above, i) == place(
            s,
            x,
            |a: T, b: T| above(view(a), view(b)),
            i,
        ),
    decreases s.len() - i,
{
    if i < s.len() && !above(view(x), view(s[i])) {
        lemma_place_view(s, x, view, above, i + 1);
    }
}

/// One more item goes in front of the first item that it stands above, behind
/// all others where it stands above none; the others keep their order.
pub proof fn law_one_more_item_is_put_in_its_place<T>(
    s: Seq<T>,
    x: T,
    above: spec_fn(T, T) -> bool,
    k: int,
)
    requires
        0 <= k <= s.len(),
        forall|j: int| 0 <= j < k ==> !above(x, #[trigger] ranked(s, above)[j]),
        k < s.len() ==> above(x, ranked(s, above)[k]),
    ensures
        ranked(s.push(x), above) == ranked(s, above).take(k) + seq![x] + ranked(s, above).skip(k),
        ranked(Seq::<T>::empty(), above).len() == 0,
{
    let r = ranked(s, above);
    law_ranked_keeps_items(s, above);
    assert(s.push(x).drop_last() =~= s);
    lemma_place(r, x, above, 0);
    let p = place(r, x, above, 0);
    if p < k {
        assert(above(x, r[p]));
    }
    if k < p {
        assert(!above(x, r[k]));
    }
    assert(r.insert(k, x) =~= r.take(k) + seq![x] + r.skip(k));
}

/// One reading is higher than another where both are numbers and its value is
/// larger.
pub proof fn law_higher_goes_by_value<T>(key: spec_fn(T) -> Metric, a: T, b: T)
    ensures
        higher(key)(a, b) <==> key(a).is_number() && key(b).is_number() && key(a).value() > key(
            b,
        ).value(),
{
}

} // verus!
