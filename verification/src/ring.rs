//! The last readings of the battery draw, for the average against which the
//! present draw is held: a step after a change of code shows at once.
use crate::metric;
use crate::metric::Metric;
use vstd::prelude::*;

verus! {

/// How many readings the ring holds.
pub const RING: usize = 30;

/// The last readings of the battery draw.
#[derive(Debug)]
pub struct BatRing {
    samples: Vec<Metric>,
    i: usize,
}

/// The readings once one more has come: the oldest leaves where there are
/// already as many as the ring holds.
pub open spec fn pushed(recent: Seq<Metric>, w: Metric) -> Seq<Metric> {
    if recent.len() < RING {
        recent.push(w)
    } else {
        recent.skip(1).push(w)
    }
}

/// The readings once all of these have come, one after the other.
pub open spec fn pushed_all(recent: Seq<Metric>, readings: Seq<Metric>) -> Seq<Metric>
    decreases readings.len(),
{
    if readings.len() == 0 {
        recent
    } else {
        pushed(pushed_all(recent, readings.drop_last()), readings.last())
    }
}

/// The sum of the readings.
pub open spec fn sum(s: Seq<Metric>, plus: spec_fn(Metric, Metric) -> Metric) -> Metric
    decreases s.len(),
{
    if s.len() == 0 {
        Metric { bits: 0 }
    } else {
        plus(sum(s.drop_last(), plus), s.last())
    }
}

/// Whether `f` divides a sum by a number as the function `g` does.
pub open spec fn divides<F: Fn(Metric, usize) -> Metric>(
    f: F,
    g: spec_fn(Metric, usize) -> Metric,
) -> bool {
    forall|a: Metric, n: usize, r: Metric| #[trigger] call_ensures(f, (a, n), r) ==> r == g(a, n)
}

/// The average of the readings in these slots; `None` where there are none.
pub open spec fn average(
    slots: Seq<Metric>,
    plus: spec_fn(Metric, Metric) -> Metric,
    over: spec_fn(Metric, usize) -> Metric,
) -> Option<Metric> {
    if slots.len() == 0 {
        None
    } else {
        Some(over(sum(slots, plus), slots.len() as usize))
    }
}

impl View for BatRing {
    type V = Seq<Metric>;

    /// The readings, the oldest first.
    closed spec fn view(&self) -> Seq<Metric> {
        if self.samples@.len() < RING {
            self.samples@
        } else {
            self.samples@.skip(self.i as int) + self.samples@.take(self.i as int)
        }
    }
}

impl BatRing {
    /// The readings in the order of their slots.
    pub closed spec fn slots(self) -> Seq<Metric> {
        self.samples@
    }

    /// The slot into which the next reading goes.
    pub closed spec fn slot(self) -> int {
        self.i as int
    }

    /// Whether this is the ring `before` once the reading `w` has come.
    pub open spec fn follows(self, before: BatRing, w: Metric) -> bool {
        &&& self@ == pushed(before@, w)
        &&& self.slots() == (if before.slots().len() < RING {
            before.slots().push(w)
        } else {
            before.slots().update(before.slot(), w)
        })
        &&& self.slot() == (before.slot() + 1) % (RING as int)
    }

    #[verifier::type_invariant]
    spec fn well_formed(self) -> bool {
        &&& self.samples@.len() <= RING
        &&& self.i < RING
        &&& self.samples@.len() < RING ==> self.i == self.samples@.len()
    }

    /// A ring without readings.
    pub fn new() -> (r: Self)
        ensures
            r@ == Seq::<Metric>::empty(),
            r.slots() == Seq::<Metric>::empty(),
            r.slot() == 0,
    {
        BatRing { samples: Vec::new(), i: 0 }
    }

    /// How many readings there are. The slots hold the same ones that came.
    pub fn len(&self) -> (r: usize)
        ensures
            r == self@.len(),
            r == self.slots().len(),
            r <= RING,
            self.slots().to_multiset() == self@.to_multiset(),
    {
        proof {
            use_type_invariant(self);
            let s = self.samples@;
            let i = self.i as int;
            if s.len() == RING {
                vstd::seq_lib::lemma_multiset_commutative(s.skip(i), s.take(i));
                vstd::seq_lib::lemma_multiset_commutative(s.take(i), s.skip(i));
                assert(s.take(i) + s.skip(i) =~= s);
            }
        }
        self.samples.len()
    }

    /// Takes a reading in.
    pub fn push(&mut self, w: Metric)
        ensures
            final(self).follows(*old(self), w),
    {
        proof {
            use_type_invariant(&*self);
        }
        let mut old_ring = BatRing::new();
        std::mem::swap(&mut old_ring, self);
        let ghost before = old_ring;
        let i = old_ring.i;
        let mut samples = old_ring.samples;
        let ghost start = samples@;
        if samples.len() < RING {
            samples.push(w);
        } else {
            samples.set(i, w);
        }
        let next: usize = if i + 1 < RING {
            i + 1
        } else {
            0
        };
        *self = BatRing { samples, i: next };
        proof {
            if start.len() < RING {
                if start.len() + 1 == RING {
                    assert(self.samples@.skip(0) =~= start.push(w));
                    assert(self@ =~= start.push(w));
                }
            } else {
                let t = self.samples@;
                if next == 0 {
                    assert(t.skip(0) + t.take(0) =~= t);
                    assert(pushed(before@, w) =~= t);
                } else {
                    assert(self@ =~= pushed(before@, w));
                }
            }
        }
    }

    /// The average of the readings; `None` where there are none. `plus` adds
    /// and `over` divides.
    pub fn avg<P: Fn(Metric, Metric) -> Metric, O: Fn(Metric, usize) -> Metric>(
        &self,
        plus: &P,
        over: &O,
    ) -> (r: Option<Metric>)
        requires
            forall|a: Metric, b: Metric| call_requires(plus, (a, b)),
            forall|a: Metric, n: usize| call_requires(over, (a, n)),
        ensures
            r is None <==> self@.len() == 0,
            forall|p: spec_fn(Metric, Metric) -> Metric, o: spec_fn(Metric, usize) -> Metric|
                metric::combines(*plus, p) && divides(*over, o) ==> r == #[trigger] average(
                    self.slots(),
                    p,
                    o,
                ),
    {
        proof {
            use_type_invariant(self);
        }
        if self.samples.len() == 0 {
            return None;
        }
        let ghost all = self.samples@;
        let mut total = Metric::zero();
        let mut k: usize = 0;
        assert(all.take(0) =~= Seq::empty());
        while k < self.samples.len()
            invariant
                forall|a: Metric, b: Metric| call_requires(plus, (a, b)),
                k <= self.samples@.len(),
                all == self.samples@,
                forall|p: spec_fn(Metric, Metric) -> Metric|
                    metric::combines(*plus, p) ==> total == #[trigger] sum(all.take(k as int), p),
            decreases self.samples@.len() - k,
        {
            let ghost before = total;
            total = plus(total, self.samples[k]);
            k += 1;
            proof {
                assert(all.take(k as int).drop_last() =~= all.take(k - 1));
                assert forall|p: spec_fn(Metric, Metric) -> Metric|
                    metric::combines(*plus, p) implies total == #[trigger] sum(
                    all.take(k as int),
                    p,
                ) by {
                    assert(before == sum(all.take(k - 1), p));
                }
            }
        }
        assert(all.take(k as int) =~= all);
        let r = Some(over(total, self.samples.len()));
        proof {
            assert forall|
                p: spec_fn(Metric, Metric) -> Metric,
                o: spec_fn(Metric, usize) -> Metric,
            |
                metric::combines(*plus, p) && divides(*over, o) implies r == #[trigger] average(
                self.slots(),
                p,
                o,
            ) by {
                assert(total == sum(all.take(k as int), p));
            }
        }
        r
    }
}

/// The ring holds the last readings, as many as it can, in the order in which
/// they came.
pub proof fn law_ring_holds_the_last_readings(readings: Seq<Metric>)
    ensures
        pushed_all(Seq::empty(), readings) == (if readings.len() <= RING {
            readings
        } else {
            readings.skip(readings.len() - RING)
        }),
    decreases readings.len(),
{
    let n = readings.len() as int;
    let all = pushed_all(Seq::empty(), readings);
    if n > 0 {
        let t = readings.drop_last();
        law_ring_holds_the_last_readings(t);
        if n <= RING {
            assert(all =~= readings);
        } else {
            assert(all =~= readings.skip(n - RING));
        }
    } else {
        assert(all =~= readings);
    }
}

/// The sum takes every reading in, the last one last.
pub proof fn law_sum_takes_every_reading_in(
    s: Seq<Metric>,
    w: Metric,
    plus: spec_fn(Metric, Metric) -> Metric,
)
    ensures
        sum(Seq::empty(), plus) == (Metric { bits: 0 }),
        sum(s.push(w), plus) == plus(sum(s, plus), w),
{
    assert(s.push(w).drop_last() =~= s);
}

/// The average is that of all the readings that are held: their sum over their
/// number. Without a reading there is none; with one more reading the sum goes
/// up by it and the number by one.
pub proof fn law_average_is_over_all_readings(
    s: Seq<Metric>,
    w: Metric,
    plus: spec_fn(Metric, Metric) -> Metric,
    over: spec_fn(Metric, usize) -> Metric,
)
    ensures
        average(Seq::empty(), plus, over) is None,
        s.len() == 0 ==> average(s.push(w), plus, over) == Some(
            over(plus(Metric { bits: 0 }, w), 1),
        ),
        average(s.push(w), plus, over) == Some(over(plus(sum(s, plus), w), (s.len() + 1) as usize)),
{
    law_sum_takes_every_reading_in(s, w, plus);
    if s.len() == 0 {
        assert(s =~= Seq::empty());
    }
}

/// One more reading comes in at the end; the ring forgets the oldest, and only
/// that, and only where it held thirty.
pub proof fn law_one_reading_pushes_out_the_oldest(recent: Seq<Metric>, w: Metric)
    requires
        recent.len() <= 30,
    ensures
        pushed(recent, w).len() <= 30,
        pushed(recent, w).last() == w,
        recent.len() < 30 ==> pushed(recent, w).drop_last() == recent,
        recent.len() == 30 ==> seq![recent[0]] + pushed(recent, w).drop_last() == recent,
{
    assert(pushed(recent, w).last() == w);
    if recent.len() < 30 {
        assert(pushed(recent, w).drop_last() =~= recent);
    } else {
        assert(seq![recent[0]] + pushed(recent, w).drop_last() =~= recent);
    }
}

/// A reading goes into the next slot, behind the others until there are thirty
/// and then in place of the oldest; the slots come round.
pub proof fn law_slots_come_round(after: BatRing, before: BatRing, w: Metric)
    requires
        after.follows(before, w),
    ensures
        before.slots().len() < 30 ==> after.slots() == before.slots().push(w),
        before.slots().len() >= 30 ==> after.slots() == before.slots().update(before.slot(), w),
        0 <= before.slot() < 29 ==> after.slot() == before.slot() + 1,
        before.slot() == 29 ==> after.slot() == 0,
        before@.len() < 30 ==> after@ == before@.push(w),
        before@.len() >= 30 ==> after@ == before@.skip(1).push(w),
{
}

} // verus!
