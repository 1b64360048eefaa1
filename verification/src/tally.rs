//! The battery tally: the watt-hours that are drawn while nobody watches.
//!
//! The tally follows the battery's own counters, as the power daemon reports
//! them or, where there is no daemon, as the kernel does. A fall while the
//! battery discharges is drain. It is added up and goes to the ledger in a few
//! lines an hour; an expensive moment is worth one sample of the processes.
//!
//! The caller reads the feeds, files and clocks. This module decides what they
//! mean: what is drain, when a line is due, and when a sample is.
use crate::layout;
use crate::ledger;
use crate::metric;
use crate::metric::Metric;
use crate::order;
use crate::sample;
use crate::sample::Delta;
use crate::text;
use crate::text::Class;
use vstd::prelude::*;
use vstd::slice::slice_subrange;

verus! {

/// A line is due once this many watt-hours have been drawn: 0.25, by its bits.
/// At most as much is lost if the machine dies.
pub const FLUSH_WH: u64 = 0x3FD0_0000_0000_0000;

/// The draw in watts above which a sample is worth it, unless the user gives
/// another.
pub const PEAK_W: u8 = 6;

/// The seconds between one sample and the next, at least.
pub const PEAK_GAP_S: u64 = 300;

/// How many commands a sample names at most.
pub const PEAK_NAMES: usize = 5;

// ---------------------------------------------------------------------------
// Files
// ---------------------------------------------------------------------------

/// Whether a file says this, blanks around it left off.
pub open spec fn says(content: Option<Seq<char>>, word: Seq<char>) -> bool {
    content matches Some(c) && text::trim(c) == word
}

/// Whether a file says this.
fn file_says(content: &Option<String>, word: &str) -> (r: bool)
    ensures
        r == says(text::maybe(*content), word@),
{
    match content {
        Some(c) => {
            let chars = text::chars_of(c.as_str());
            text::is_text(text::trim_blank(chars.as_slice()), word)
        },
        None => false,
    }
}

/// The first supply from `i` on whose type is a battery.
pub open spec fn first_battery(types: Seq<Option<String>>, i: int) -> Option<int>
    decreases types.len() - i,
{
    if i >= types.len() {
        None
    } else if says(text::maybe(types[i]), "Battery"@) {
        Some(i)
    } else {
        first_battery(types, i + 1)
    }
}

/// The place of the battery among the supplies, by the contents of their
/// `type` files.
pub fn bat_dir(types: &Vec<Option<String>>) -> (r: Option<usize>)
    ensures
        match r {
            Some(i) => first_battery(types@, 0) == Some(i as int) && i < types@.len(),
            None => first_battery(types@, 0) is None,
        },
{
    let mut i: usize = 0;
    while i < types.len()
        invariant
            i <= types@.len(),
            first_battery(types@, i as int) == first_battery(types@, 0),
        decreases types@.len() - i,
    {
        if file_says(&types[i], "Battery") {
            return Some(i);
        }
        i += 1;
    }
    None
}

/// Whether the battery discharges, by the contents of its `status` file.
pub fn discharging(status: &Option<String>) -> (r: bool)
    ensures
        r == says(text::maybe(*status), "Discharging"@),
{
    file_says(status, "Discharging")
}

/// The number in a file.
pub open spec fn number_in(
    content: Option<Seq<char>>,
    num: spec_fn(Seq<char>) -> Option<Metric>,
) -> Option<Metric> {
    match content {
        Some(c) => num(text::trim(c)),
        None => None,
    }
}

/// The number in a file. `num` reads it.
pub fn read_num<F: Fn(&str) -> Option<Metric>>(content: &Option<String>, num: &F) -> (r: Option<
    Metric,
>)
    requires
        forall|t: &str| call_requires(num, (t,)),
    ensures
        content is None ==> r is None,
        forall|g: spec_fn(Seq<char>) -> Option<Metric>|
            metric::reads(*num, g) ==> r == #[trigger] number_in(text::maybe(*content), g),
{
    match content {
        Some(c) => {
            let chars = text::chars_of(c.as_str());
            let t = text::string_of(text::trim_blank(chars.as_slice()));
            num(t.as_str())
        },
        None => None,
    }
}

/// What a battery holds, in the terms in which it reports it.
#[derive(Clone, Copy, PartialEq, Eq, Structural, Debug)]
pub enum Store {
    /// Energy in microwatt-hours.
    Energy { uwh: Metric },
    /// Charge in microampere-hours and voltage in microvolts.
    Charge { uah: Metric, uv: Metric },
}

/// What a battery holds, by the contents of its files: energy where it reports
/// that, else charge and voltage.
pub open spec fn store_of(
    energy_now: Option<Seq<char>>,
    charge_now: Option<Seq<char>>,
    voltage_now: Option<Seq<char>>,
    num: spec_fn(Seq<char>) -> Option<Metric>,
) -> Option<Store> {
    match number_in(energy_now, num) {
        Some(uwh) => Some(Store::Energy { uwh }),
        None => match (number_in(charge_now, num), number_in(voltage_now, num)) {
            (Some(uah), Some(uv)) => Some(Store::Charge { uah, uv }),
            _ => None,
        },
    }
}

/// What a battery holds, by the contents of its files. `num` reads a number.
pub fn energy_wh<F: Fn(&str) -> Option<Metric>>(
    energy_now: &Option<String>,
    charge_now: &Option<String>,
    voltage_now: &Option<String>,
    num: F,
) -> (r: Option<Store>)
    requires
        forall|t: &str| call_requires(num, (t,)),
    ensures
        energy_now is None && (charge_now is None || voltage_now is None) ==> r is None,
        forall|g: spec_fn(Seq<char>) -> Option<Metric>|
            metric::reads(num, g) ==> r == #[trigger] store_of(
                text::maybe(*energy_now),
                text::maybe(*charge_now),
                text::maybe(*voltage_now),
                g,
            ),
{
    let energy = read_num(energy_now, &num);
    if let Some(uwh) = energy {
        let r = Some(Store::Energy { uwh });
        assert forall|g: spec_fn(Seq<char>) -> Option<Metric>| metric::reads(num, g) implies r
            == #[trigger] store_of(
            text::maybe(*energy_now),
            text::maybe(*charge_now),
            text::maybe(*voltage_now),
            g,
        ) by {
            assert(energy == number_in(text::maybe(*energy_now), g));
        }
        return r;
    }
    let charge = read_num(charge_now, &num);
    let volts = read_num(voltage_now, &num);
    let r = match (charge, volts) {
        (Some(uah), Some(uv)) => Some(Store::Charge { uah, uv }),
        _ => None,
    };
    assert forall|g: spec_fn(Seq<char>) -> Option<Metric>| metric::reads(num, g) implies r
        == #[trigger] store_of(
        text::maybe(*energy_now),
        text::maybe(*charge_now),
        text::maybe(*voltage_now),
        g,
    ) by {
        assert(energy == number_in(text::maybe(*energy_now), g));
        assert(charge == number_in(text::maybe(*charge_now), g));
        assert(volts == number_in(text::maybe(*voltage_now), g));
    }
    r
}

/// The date, by what the clock's command printed; empty where it failed.
pub fn today(printed: &Option<String>) -> (r: String)
    ensures
        r@ == (match text::maybe(*printed) {
            Some(c) => text::trim(c),
            None => Seq::empty(),
        }),
{
    match printed {
        Some(c) => {
            let chars = text::chars_of(c.as_str());
            text::string_of(text::trim_blank(chars.as_slice()))
        },
        None => String::new(),
    }
}

/// The draw above which a sample is worth it, by what the user asked for.
pub fn peak_threshold<F: Fn(&str) -> Option<Metric>>(asked: &Option<String>, num: F) -> (r: Metric)
    requires
        forall|t: &str| call_requires(num, (t,)),
    ensures
        asked is None ==> r.is_number() && r.value() == PEAK_W * metric::one(),
        forall|g: spec_fn(Seq<char>) -> Option<Metric>|
            asked is Some && metric::reads(num, g) ==> match #[trigger] g(asked->0@) {
                Some(m) => r == m,
                None => r.is_number() && r.value() == PEAK_W * metric::one(),
            },
{
    if let Some(t) = asked {
        if let Some(m) = num(t.as_str()) {
            return m;
        }
    }
    Metric::whole(PEAK_W)
}

/// Whether a message of the kernel is about a power supply.
pub fn is_power_event(message: &str) -> (r: bool)
    ensures
        r == text::has_text(message@, "power_supply"@),
{
    let chars = text::chars_of(message);
    text::contains_text(chars.as_slice(), "power_supply")
}

// ---------------------------------------------------------------------------
// The line of the daemon
// ---------------------------------------------------------------------------

/// What stands between the first `key` of a line and the next, or the end of
/// the line; `None` where the line has no `key`. An empty key stands around
/// every character, so the first character follows it.
pub open spec fn after_key(line: Seq<char>, key: Seq<char>) -> Option<Seq<char>> {
    if key.len() == 0 {
        Some(if line.len() > 0 {
            line.take(1)
        } else {
            line
        })
    } else {
        match text::first_at(line, key, 0) {
            None => None,
            Some(i) => {
                let from = i + key.len();
                let to = match text::first_at(line, key, from) {
                    Some(j) => j,
                    None => line.len() as int,
                };
                Some(line.subrange(from, to))
            },
        }
    }
}

/// What stands behind the first `key` of a line, up to the next `key` and to
/// the next `>`, blanks around it left off; `None` where the line has no `key`.
pub open spec fn behind(line: Seq<char>, key: Seq<char>) -> Option<Seq<char>> {
    match after_key(line, key) {
        None => None,
        Some(rest) => Some(
            text::trim(rest.take(text::scan_in(rest, 0, Class::Only('>')))),
        ),
    }
}

/// The number behind `key` in a line.
pub open spec fn field_of(
    line: Seq<char>,
    key: Seq<char>,
    num: spec_fn(Seq<char>) -> Option<Metric>,
) -> Option<Metric> {
    match behind(line, key) {
        Some(t) => num(t),
        None => None,
    }
}

/// The number behind `key` in a line, as in `'Energy': <15.97>`. `num` reads
/// it.
pub fn field<F: Fn(&str) -> Option<Metric>>(line: &str, key: &str, num: &F) -> (r: Option<Metric>)
    requires
        forall|t: &str| call_requires(num, (t,)),
    ensures
        behind(line@, key@) is None ==> r is None,
        forall|g: spec_fn(Seq<char>) -> Option<Metric>|
            metric::reads(*num, g) ==> r == #[trigger] field_of(line@, key@, g),
{
    let chars = text::chars_of(line);
    let s = chars.as_slice();
    let k = text::chars_of(key);
    let n = s.len();
    let (from, to): (usize, usize) = if k.len() == 0 {
        (0, if n > 0 {
            1
        } else {
            0
        })
    } else {
        let i = match text::find_text(s, k.as_slice(), 0) {
            Some(i) => i,
            None => {
                return None;
            },
        };
        assert(i + k@.len() <= n);
        let from = i + k.len();
        let to = match text::find_text(s, k.as_slice(), from) {
            Some(j) => j,
            None => n,
        };
        proof {
            text::lemma_first_at(s@, k@, from as int);
        }
        (from, to)
    };
    let rest = slice_subrange(s, from, to);
    assert(after_key(line@, key@) == Some(rest@)) by {
        if k@.len() == 0 {
            assert(rest@ =~= if line@.len() > 0 {
                line@.take(1)
            } else {
                line@
            });
        }
    }
    let end = text::find_in(rest, 0, Class::Only('>'));
    assert(rest@.take(end as int) =~= rest@.subrange(0, end as int));
    let shown = text::string_of(text::trim_blank(slice_subrange(rest, 0, end)));
    assert(behind(line@, key@) == Some(shown@));
    num(shown.as_str())
}

/// What a line of the daemon says of the battery: the energy in watt-hours,
/// and the draw where the line gives it. Other devices repeat the numbers, so
/// only a line of the battery counts.
pub open spec fn reading_of(
    line: Seq<char>,
    num: spec_fn(Seq<char>) -> Option<Metric>,
) -> Option<(Metric, Option<Metric>)> {
    if text::has_text(line, "battery_"@) && text::has_text(line, "'Energy':"@) {
        match field_of(line, "'Energy': <"@, num) {
            Some(energy) => Some((energy, field_of(line, "'EnergyRate': <"@, num))),
            None => None,
        }
    } else {
        None
    }
}

/// What a line of the daemon says of the battery. `num` reads a number.
pub fn reading<F: Fn(&str) -> Option<Metric>>(line: &str, num: &F) -> (r: Option<
    (Metric, Option<Metric>),
>)
    requires
        forall|t: &str| call_requires(num, (t,)),
    ensures
        forall|g: spec_fn(Seq<char>) -> Option<Metric>|
            metric::reads(*num, g) ==> r == #[trigger] reading_of(line@, g),
{
    let chars = text::chars_of(line);
    if !text::contains_text(chars.as_slice(), "battery_") || !text::contains_text(
        chars.as_slice(),
        "'Energy':",
    ) {
        return None;
    }
    let energy = field(line, "'Energy': <", num);
    let rate = field(line, "'EnergyRate': <", num);
    let r = match energy {
        Some(e) => Some((e, rate)),
        None => None,
    };
    assert forall|g: spec_fn(Seq<char>) -> Option<Metric>| metric::reads(*num, g) implies r
        == #[trigger] reading_of(line@, g) by {
        assert(energy == field_of(line@, "'Energy': <"@, g));
        assert(rate == field_of(line@, "'EnergyRate': <"@, g));
    }
    r
}

// ---------------------------------------------------------------------------
// The meter
// ---------------------------------------------------------------------------

/// What is drawn, and not yet in the ledger.
#[derive(Debug)]
pub struct Meter {
    /// The energy at the last event, in watt-hours.
    pub last: Option<Metric>,
    /// The day to which the drain belongs.
    pub date: String,
    /// The watt-hours that are not yet in the ledger.
    pub pending: Metric,
}

/// The contents of a meter.
#[verifier::ext_equal]
pub struct MeterView {
    pub last: Option<Metric>,
    pub date: Seq<char>,
    pub pending: Metric,
}

impl View for Meter {
    type V = MeterView;

    open spec fn view(&self) -> MeterView {
        MeterView { last: self.last, date: self.date@, pending: self.pending }
    }
}

/// The line of the ledger for these watt-hours; `None` where there are none.
pub open spec fn row_of(
    date: Seq<char>,
    wh: Metric,
    show: spec_fn(Metric) -> Seq<char>,
) -> Option<Seq<char>> {
    if wh.is_number() && wh.value() <= 0 {
        None
    } else {
        Some(ledger::wh_line(date, wh, show))
    }
}

/// The line of the ledger for these watt-hours; `None` where there are none.
/// `show` writes them.
pub fn append<F: Fn(Metric) -> String>(date: &str, wh: Metric, show: &F) -> (r: Option<String>)
    requires
        forall|m: Metric| call_requires(show, (m,)),
    ensures
        r is None <==> wh.is_number() && wh.value() <= 0,
        forall|s: spec_fn(Metric) -> Seq<char>|
            metric::shows(*show, s) ==> text::maybe(r) == #[trigger] row_of(date@, wh, s),
{
    if wh.number() && !Metric::zero().less(wh) {
        return None;
    }
    let shown = show(wh);
    let mut line = date.to_owned();
    line.append("\t__wh__\t");
    line.append(shown.as_str());
    line.append("\n");
    Some(line)
}

/// The watt-hours that are pending once the battery is at `now`. Only a fall
/// while it discharges is drain: a rise is charging, and a fall while it is
/// plugged in is the pack settling. `accrue` adds a fall to what is pending.
pub open spec fn accrued(
    m: MeterView,
    now: Metric,
    discharging: bool,
    accrue: spec_fn(Metric, Metric, Metric) -> Metric,
) -> Metric {
    match m.last {
        Some(before) => if discharging && now.below(before) {
            accrue(m.pending, before, now)
        } else {
            m.pending
        },
        None => m.pending,
    }
}

/// Whether what is pending goes to the ledger: with the day, and once it is
/// enough.
pub open spec fn is_due(date: Seq<char>, today: Seq<char>, pending: Metric) -> bool {
    today != date || pending.at_least(Metric { bits: FLUSH_WH })
}

/// The meter once the battery is at `now`.
pub open spec fn settled(
    m: MeterView,
    now: Metric,
    discharging: bool,
    today: Seq<char>,
    accrue: spec_fn(Metric, Metric, Metric) -> Metric,
) -> MeterView {
    let pending = accrued(m, now, discharging, accrue);
    MeterView {
        last: Some(now),
        date: today,
        pending: if is_due(m.date, today, pending) {
            Metric { bits: 0 }
        } else {
            pending
        },
    }
}

/// The line that goes to the ledger when the battery is at `now`.
pub open spec fn settled_row(
    m: MeterView,
    now: Metric,
    discharging: bool,
    today: Seq<char>,
    accrue: spec_fn(Metric, Metric, Metric) -> Metric,
    show: spec_fn(Metric) -> Seq<char>,
) -> Option<Seq<char>> {
    let pending = accrued(m, now, discharging, accrue);
    if is_due(m.date, today, pending) {
        row_of(m.date, pending, show)
    } else {
        None
    }
}

impl Meter {
    /// A meter on which nothing is pending.
    pub fn new(last: Option<Metric>, date: String) -> (r: Meter)
        ensures
            r@ == (MeterView { last, date: date@, pending: Metric { bits: 0 } }),
    {
        Meter { last, date, pending: Metric::zero() }
    }

    /// Takes in that the battery is at `now`. The result is the line that goes
    /// to the ledger. `accrue` adds a fall to what is pending, and `show`
    /// writes watt-hours.
    pub fn settle<A: Fn(Metric, Metric, Metric) -> Metric, S: Fn(Metric) -> String>(
        &mut self,
        now: Metric,
        discharging: bool,
        today: String,
        accrue: A,
        show: S,
    ) -> (r: Option<String>)
        requires
            forall|a: Metric, b: Metric, c: Metric| call_requires(accrue, (a, b, c)),
            forall|m: Metric| call_requires(show, (m,)),
        ensures
            final(self).last == Some(now),
            final(self).date@ == today@,
            forall|a: spec_fn(Metric, Metric, Metric) -> Metric|
                metric::combines_three(accrue, a) ==> final(self)@ == #[trigger] settled(
                    old(self)@,
                    now,
                    discharging,
                    today@,
                    a,
                ),
            forall|
                a: spec_fn(Metric, Metric, Metric) -> Metric,
                s: spec_fn(Metric) -> Seq<char>,
            |
                metric::combines_three(accrue, a) && metric::shows(show, s) ==> text::maybe(r)
                    == #[trigger] settled_row(old(self)@, now, discharging, today@, a, s),
    {
        let ghost start = self@;
        if let Some(before) = self.last {
            if discharging && now.less(before) {
                self.pending = accrue(self.pending, before, now);
            }
        }
        let ghost pending = self.pending;
        self.last = Some(now);
        let new_day = !text::same_str(today.as_str(), self.date.as_str());
        let due = new_day || self.pending.reaches(Metric { bits: FLUSH_WH });
        let row = if due {
            let row = append(self.date.as_str(), self.pending, &show);
            self.pending = Metric::zero();
            row
        } else {
            None
        };
        self.date = today;
        proof {
            assert forall|
                a: spec_fn(Metric, Metric, Metric) -> Metric,
                s: spec_fn(Metric) -> Seq<char>,
            |
                metric::combines_three(accrue, a) && metric::shows(show, s) implies text::maybe(row)
                == #[trigger] settled_row(start, now, discharging, today@, a, s) by {
                assert(pending == accrued(start, now, discharging, a));
                if due {
                    assert(text::maybe(row) == row_of(start.date, pending, s));
                }
            }
        }
        row
    }

    /// Takes in an event of the kernel: the battery is at `now`, where that
    /// could be read. Nothing is due while one of two readings is missing.
    pub fn settle_event<A: Fn(Metric, Metric, Metric) -> Metric, S: Fn(Metric) -> String>(
        &mut self,
        now: Option<Metric>,
        discharging: bool,
        today: String,
        accrue: A,
        show: S,
    ) -> (r: Option<String>)
        requires
            forall|a: Metric, b: Metric, c: Metric| call_requires(accrue, (a, b, c)),
            forall|m: Metric| call_requires(show, (m,)),
        ensures
            final(self).last == now,
            old(self).last is None || now is None ==> {
                &&& final(self)@ == (MeterView { last: now, ..old(self)@ })
                &&& r is None
            },
            forall|a: spec_fn(Metric, Metric, Metric) -> Metric|
                old(self).last is Some && now is Some && metric::combines_three(accrue, a)
                    ==> final(self)@ == #[trigger] settled(
                    old(self)@,
                    now->0,
                    discharging,
                    today@,
                    a,
                ),
            forall|
                a: spec_fn(Metric, Metric, Metric) -> Metric,
                s: spec_fn(Metric) -> Seq<char>,
            |
                old(self).last is Some && now is Some && metric::combines_three(accrue, a)
                    && metric::shows(show, s) ==> text::maybe(r) == #[trigger] settled_row(
                    old(self)@,
                    now->0,
                    discharging,
                    today@,
                    a,
                    s,
                ),
    {
        match (self.last, now) {
            (Some(_), Some(b)) => self.settle(b, discharging, today, accrue, show),
            _ => {
                self.last = now;
                None
            },
        }
    }

    /// The line that goes to the ledger at the end.
    pub fn finish<S: Fn(Metric) -> String>(&self, show: S) -> (r: Option<String>)
        requires
            forall|m: Metric| call_requires(show, (m,)),
        ensures
            r is None <==> self.pending.is_number() && self.pending.value() <= 0,
            forall|s: spec_fn(Metric) -> Seq<char>|
                metric::shows(show, s) ==> text::maybe(r) == #[trigger] row_of(
                    self.date@,
                    self.pending,
                    s,
                ),
    {
        append(self.date.as_str(), self.pending, &show)
    }
}

/// What is pending after an event is less than what makes a line due, so at
/// most as much is lost if the machine dies.
pub proof fn law_pending_stays_below_the_mark(
    m: MeterView,
    now: Metric,
    discharging: bool,
    today: Seq<char>,
    accrue: spec_fn(Metric, Metric, Metric) -> Metric,
)
    ensures
        !settled(m, now, discharging, today, accrue).pending.at_least(Metric { bits: FLUSH_WH }),
{
    (Metric { bits: 0 }).law_key_orders(Metric { bits: FLUSH_WH });
}

/// Nothing is counted while the battery does not discharge, nor when it does
/// not fall.
pub proof fn law_only_a_fall_on_battery_is_drain(
    m: MeterView,
    now: Metric,
    discharging: bool,
    today: Seq<char>,
    accrue: spec_fn(Metric, Metric, Metric) -> Metric,
)
    requires
        !discharging || !(m.last matches Some(before) && now.below(before)),
    ensures
        settled(m, now, discharging, today, accrue).pending == m.pending || settled(
            m,
            now,
            discharging,
            today,
            accrue,
        ).pending == (Metric { bits: 0 }),
        settled(m, now, discharging, today, accrue) == settled(
            m,
            now,
            false,
            today,
            |a: Metric, b: Metric, c: Metric| a,
        ),
{
}

/// By how much the battery has fallen while it discharged, counted as values
/// of readings are.
pub open spec fn fall(m: MeterView, now: Metric, discharging: bool) -> int {
    match m.last {
        Some(before) => if discharging && now.below(before) {
            before.value() - now.value()
        } else {
            0
        },
        None => 0,
    }
}

/// Whether `accrue` adds this fall, if there is one, to what is pending
/// without rounding.
pub open spec fn adds_exactly(
    m: MeterView,
    now: Metric,
    discharging: bool,
    accrue: spec_fn(Metric, Metric, Metric) -> Metric,
) -> bool {
    match m.last {
        Some(before) => if discharging && now.below(before) {
            let p = accrue(m.pending, before, now);
            p.is_number() && p.value() == m.pending.value() + fall(m, now, discharging)
        } else {
            true
        },
        None => true,
    }
}

/// The watt-hours on the line of the ledger for this amount: none where there
/// is no line.
pub open spec fn carried_by(wh: Metric) -> int {
    if wh.is_number() && wh.value() <= 0 {
        0
    } else {
        wh.value()
    }
}

/// The watt-hours on the line that goes to the ledger when the battery is at
/// `now`: none where no line does.
pub open spec fn carried(
    m: MeterView,
    now: Metric,
    discharging: bool,
    today: Seq<char>,
    accrue: spec_fn(Metric, Metric, Metric) -> Metric,
) -> int {
    let pending = accrued(m, now, discharging, accrue);
    if is_due(m.date, today, pending) {
        carried_by(pending)
    } else {
        0
    }
}

/// A line goes to the ledger exactly where it carries something, and it shows
/// what is carried.
pub proof fn law_lines_carry_what_is_due(
    m: MeterView,
    now: Metric,
    discharging: bool,
    today: Seq<char>,
    accrue: spec_fn(Metric, Metric, Metric) -> Metric,
    show: spec_fn(Metric) -> Seq<char>,
)
    requires
        accrued(m, now, discharging, accrue).is_number(),
    ensures
        match settled_row(m, now, discharging, today, accrue, show) {
            Some(line) => {
                let wh = accrued(m, now, discharging, accrue);
                &&& line == ledger::wh_line(m.date, wh, show)
                &&& carried(m, now, discharging, today, accrue) == wh.value()
            },
            None => carried(m, now, discharging, today, accrue) == 0,
        },
{
}

/// One event loses nothing: the line carries, and the meter keeps, what was
/// pending and the fall.
proof fn lemma_settle_balances(
    m: MeterView,
    now: Metric,
    discharging: bool,
    today: Seq<char>,
    accrue: spec_fn(Metric, Metric, Metric) -> Metric,
)
    requires
        m.pending.is_number(),
        m.pending.value() >= 0,
        adds_exactly(m, now, discharging, accrue),
    ensures
        settled(m, now, discharging, today, accrue).pending.is_number(),
        settled(m, now, discharging, today, accrue).pending.value() >= 0,
        carried(m, now, discharging, today, accrue) + settled(
            m,
            now,
            discharging,
            today,
            accrue,
        ).pending.value() == m.pending.value() + fall(m, now, discharging),
{
    metric::lemma_zero_value();
}

/// An event of the feed: the energy, whether the battery discharges, and the
/// day.
pub type Event = (Option<Metric>, bool, Seq<char>);

/// Which feed the events come from.
#[derive(Clone, Copy, PartialEq, Eq, Structural, Debug)]
pub enum Source {
    /// The daemon: an event without an energy is not one.
    Daemon,
    /// The kernel: an energy that could not be read is missing.
    Kernel,
}

/// Whether an event is settled, and not only remembered.
pub open spec fn settles(source: Source, m: MeterView, e: Event) -> bool {
    e.0 is Some && (source == Source::Daemon || m.last is Some)
}

/// The meter after an event.
pub open spec fn after_event(
    source: Source,
    m: MeterView,
    e: Event,
    accrue: spec_fn(Metric, Metric, Metric) -> Metric,
) -> MeterView {
    if settles(source, m, e) {
        settled(m, e.0->0, e.1, e.2, accrue)
    } else if source == Source::Kernel {
        MeterView { last: e.0, ..m }
    } else {
        m
    }
}

/// The meter after all events.
pub open spec fn after_events(
    source: Source,
    m: MeterView,
    events: Seq<Event>,
    accrue: spec_fn(Metric, Metric, Metric) -> Metric,
) -> MeterView
    decreases events.len(),
{
    if events.len() == 0 {
        m
    } else {
        after_event(
            source,
            after_events(source, m, events.drop_last(), accrue),
            events.last(),
            accrue,
        )
    }
}

/// The watt-hours on all lines that the events send to the ledger.
pub open spec fn all_carried(
    source: Source,
    m: MeterView,
    events: Seq<Event>,
    accrue: spec_fn(Metric, Metric, Metric) -> Metric,
) -> int
    decreases events.len(),
{
    if events.len() == 0 {
        0
    } else {
        let before = after_events(source, m, events.drop_last(), accrue);
        let e = events.last();
        all_carried(source, m, events.drop_last(), accrue) + if settles(source, before, e) {
            carried(before, e.0->0, e.1, e.2, accrue)
        } else {
            0
        }
    }
}

/// All falls while the battery discharged, each once.
pub open spec fn all_falls(
    source: Source,
    m: MeterView,
    events: Seq<Event>,
    accrue: spec_fn(Metric, Metric, Metric) -> Metric,
) -> int
    decreases events.len(),
{
    if events.len() == 0 {
        0
    } else {
        let before = after_events(source, m, events.drop_last(), accrue);
        let e = events.last();
        all_falls(source, m, events.drop_last(), accrue) + if settles(source, before, e) {
            fall(before, e.0->0, e.1)
        } else {
            0
        }
    }
}

/// Whether `accrue` adds every fall of the events without rounding.
pub open spec fn adds_all_exactly(
    source: Source,
    m: MeterView,
    events: Seq<Event>,
    accrue: spec_fn(Metric, Metric, Metric) -> Metric,
) -> bool
    decreases events.len(),
{
    if events.len() == 0 {
        true
    } else {
        let before = after_events(source, m, events.drop_last(), accrue);
        let e = events.last();
        &&& adds_all_exactly(source, m, events.drop_last(), accrue)
        &&& settles(source, before, e) ==> adds_exactly(before, e.0->0, e.1, accrue)
    }
}

/// A run loses nothing and counts nothing twice: what its lines carry and what
/// is still pending are what was pending at the start and the falls while the
/// battery discharged, where no sum is rounded.
pub proof fn law_run_accounts_for_every_fall(
    source: Source,
    m: MeterView,
    events: Seq<Event>,
    accrue: spec_fn(Metric, Metric, Metric) -> Metric,
)
    requires
        m.pending.is_number(),
        m.pending.value() >= 0,
        adds_all_exactly(source, m, events, accrue),
    ensures
        all_carried(source, m, events, accrue) + after_events(
            source,
            m,
            events,
            accrue,
        ).pending.value() == m.pending.value() + all_falls(source, m, events, accrue),
        after_events(source, m, events, accrue).pending.is_number(),
        after_events(source, m, events, accrue).pending.value() >= 0,
        all_carried(source, m, events, accrue) + carried_by(
            after_events(source, m, events, accrue).pending,
        ) == m.pending.value() + all_falls(source, m, events, accrue),
    decreases events.len(),
{
    if events.len() > 0 {
        let t = events.drop_last();
        let before = after_events(source, m, t, accrue);
        let e = events.last();
        law_run_accounts_for_every_fall(source, m, t, accrue);
        if settles(source, before, e) {
            lemma_settle_balances(before, e.0->0, e.1, e.2, accrue);
        }
    }
}

// ---------------------------------------------------------------------------
// The watch
// ---------------------------------------------------------------------------

/// What the daemon's feed has said so far.
#[derive(Clone, Copy, PartialEq, Eq, Structural, Debug)]
pub struct Watch {
    /// Whether it has said anything of the battery.
    pub seen: bool,
    /// The draw in watts that it gave last: a steady draw is not repeated.
    pub rate: Metric,
    /// When the last sample was taken, in seconds.
    pub last_peak: u64,
    /// The draw above which a sample is worth it.
    pub peak_w: Metric,
}

/// The draw, by what a line gives and what the lines before it gave.
pub open spec fn rate_after(w: Watch, rate: Option<Metric>) -> Metric {
    match rate {
        Some(r) => r,
        None => w.rate,
    }
}

/// Whether a sample is worth it at this draw: it is high, the battery
/// discharges, and the last sample is long enough ago.
pub open spec fn is_peak(w: Watch, rate: Metric, now_s: u64, discharging: bool) -> bool {
    rate.at_least(w.peak_w) && discharging && (if now_s >= w.last_peak {
        now_s - w.last_peak
    } else {
        0
    }) >= PEAK_GAP_S
}

/// The watch once a line has given this draw.
pub open spec fn watched(
    w: Watch,
    rate: Option<Metric>,
    now_s: u64,
    discharging: bool,
) -> Watch {
    Watch {
        seen: true,
        rate: rate_after(w, rate),
        last_peak: if is_peak(w, rate_after(w, rate), now_s, discharging) {
            now_s
        } else {
            w.last_peak
        },
        peak_w: w.peak_w,
    }
}

impl Watch {
    /// A watch to which nothing has been said.
    pub fn new(peak_w: Metric) -> (r: Watch)
        ensures
            r == (Watch { seen: false, rate: Metric { bits: 0 }, last_peak: 0, peak_w }),
    {
        Watch { seen: false, rate: Metric::zero(), last_peak: 0, peak_w }
    }

    /// Takes in the draw that a line of the battery gives, at `now_s` seconds.
    /// The result is the draw, where it is worth a sample.
    pub fn observe(&mut self, rate: Option<Metric>, now_s: u64, discharging: bool) -> (r: Option<
        Metric,
    >)
        ensures
            *final(self) == watched(*old(self), rate, now_s, discharging),
            r == (if is_peak(*old(self), rate_after(*old(self), rate), now_s, discharging) {
                Some(rate_after(*old(self), rate))
            } else {
                None
            }),
    {
        self.seen = true;
        if let Some(w) = rate {
            self.rate = w;
        }
        if self.rate.reaches(self.peak_w) && discharging && now_s.saturating_sub(self.last_peak)
            >= PEAK_GAP_S {
            self.last_peak = now_s;
            return Some(self.rate);
        }
        None
    }
}

/// The watch once the lines have given these draws, each with the time and
/// whether the battery discharged.
pub open spec fn watched_all(w: Watch, lines: Seq<(Option<Metric>, u64, bool)>) -> Watch
    decreases lines.len(),
{
    if lines.len() == 0 {
        w
    } else {
        let (rate, now_s, discharging) = lines.last();
        watched(watched_all(w, lines.drop_last()), rate, now_s, discharging)
    }
}

/// Whether line `i` is worth a sample.
pub open spec fn peak_at(w: Watch, lines: Seq<(Option<Metric>, u64, bool)>, i: int) -> bool {
    let before = watched_all(w, lines.take(i));
    let (rate, now_s, discharging) = lines[i];
    is_peak(before, rate_after(before, rate), now_s, discharging)
}

/// After a sample the watch remembers a time no earlier than the sample's.
proof fn lemma_last_peak(w: Watch, lines: Seq<(Option<Metric>, u64, bool)>, i: int, j: int)
    requires
        0 <= i < j <= lines.len(),
        peak_at(w, lines, i),
    ensures
        watched_all(w, lines.take(j)).last_peak >= lines[i].1,
    decreases j,
{
    assert(lines.take(j).drop_last() =~= lines.take(j - 1));
    assert(lines.take(j).last() == lines[j - 1]);
    if j > i + 1 {
        lemma_last_peak(w, lines, i, j - 1);
    }
}

/// No two samples are closer than the gap, however often the daemon reports
/// and whatever its clock does.
pub proof fn law_samples_are_apart(
    w: Watch,
    lines: Seq<(Option<Metric>, u64, bool)>,
    i: int,
    j: int,
)
    requires
        0 <= i < j < lines.len(),
        peak_at(w, lines, i),
        peak_at(w, lines, j),
    ensures
        lines[j].1 - lines[i].1 >= PEAK_GAP_S,
{
    lemma_last_peak(w, lines, i, j);
}

// ---------------------------------------------------------------------------
// The feed
// ---------------------------------------------------------------------------

/// What follows from a line of the daemon's feed.
#[derive(Clone, Copy, PartialEq, Eq, Structural, Debug)]
pub enum Heard {
    /// The line is not about the battery.
    Nothing,
    /// The battery has been read.
    Reading,
    /// The battery has been read, and this draw is worth a sample.
    Peak(Metric),
}

/// The tally by the daemon's feed: a line is heard, a sample taken where it is
/// worth one, and then the reading is accounted for.
#[derive(Debug)]
pub struct Upower {
    pub watch: Watch,
    pub meter: Meter,
    /// The energy in the last line, until it has been accounted for.
    pub reading: Option<Metric>,
}

/// What follows from a line, where the battery is read as `reading`.
pub open spec fn heard(
    w: Watch,
    reading: Option<(Metric, Option<Metric>)>,
    now_s: u64,
    discharging: bool,
) -> Heard {
    match reading {
        None => Heard::Nothing,
        Some((_, rate)) => if is_peak(w, rate_after(w, rate), now_s, discharging) {
            Heard::Peak(rate_after(w, rate))
        } else {
            Heard::Reading
        },
    }
}

impl Upower {
    /// A tally that starts on this day.
    pub fn new(peak_w: Metric, date: String) -> (r: Upower)
        ensures
            r.watch == (Watch { seen: false, rate: Metric { bits: 0 }, last_peak: 0, peak_w }),
            r.meter@ == (MeterView { last: None, date: date@, pending: Metric { bits: 0 } }),
            r.reading is None,
    {
        Upower { watch: Watch::new(peak_w), meter: Meter::new(None, date), reading: None }
    }

    /// Takes in a line of the feed, at `now_s` seconds. `num` reads a number.
    pub fn hear<F: Fn(&str) -> Option<Metric>>(
        &mut self,
        line: &str,
        now_s: u64,
        discharging: bool,
        num: F,
    ) -> (r: Heard)
        requires
            forall|t: &str| call_requires(num, (t,)),
        ensures
            final(self).meter == old(self).meter,
            r == Heard::Nothing <==> final(self).reading is None,
            r == Heard::Nothing ==> final(self).watch == old(self).watch,
            forall|g: spec_fn(Seq<char>) -> Option<Metric>|
                metric::reads(num, g) ==> r == heard(
                    old(self).watch,
                    #[trigger] reading_of(line@, g),
                    now_s,
                    discharging,
                ) && match reading_of(line@, g) {
                    None => true,
                    Some((energy, rate)) => {
                        &&& final(self).reading == Some(energy)
                        &&& final(self).watch == watched(old(self).watch, rate, now_s, discharging)
                    },
                },
    {
        match reading(line, &num) {
            None => {
                self.reading = None;
                Heard::Nothing
            },
            Some((energy, rate)) => {
                self.reading = Some(energy);
                match self.watch.observe(rate, now_s, discharging) {
                    Some(w) => Heard::Peak(w),
                    None => Heard::Reading,
                }
            },
        }
    }

    /// Accounts for the reading of the last line. The result is the line that
    /// goes to the ledger. `accrue` adds a fall to what is pending, and `show`
    /// writes watt-hours.
    pub fn account<A: Fn(Metric, Metric, Metric) -> Metric, S: Fn(Metric) -> String>(
        &mut self,
        discharging: bool,
        today: String,
        accrue: A,
        show: S,
    ) -> (r: Option<String>)
        requires
            forall|a: Metric, b: Metric, c: Metric| call_requires(accrue, (a, b, c)),
            forall|m: Metric| call_requires(show, (m,)),
        ensures
            final(self).watch == old(self).watch,
            final(self).reading is None,
            old(self).reading is None ==> final(self).meter == old(self).meter && r is None,
            forall|a: spec_fn(Metric, Metric, Metric) -> Metric|
                old(self).reading is Some && metric::combines_three(accrue, a)
                    ==> final(self).meter@ == #[trigger] settled(
                    old(self).meter@,
                    old(self).reading->0,
                    discharging,
                    today@,
                    a,
                ),
            forall|
                a: spec_fn(Metric, Metric, Metric) -> Metric,
                s: spec_fn(Metric) -> Seq<char>,
            |
                old(self).reading is Some && metric::combines_three(accrue, a) && metric::shows(
                    show,
                    s,
                ) ==> text::maybe(r) == #[trigger] settled_row(
                    old(self).meter@,
                    old(self).reading->0,
                    discharging,
                    today@,
                    a,
                    s,
                ),
    {
        match self.reading {
            None => None,
            Some(energy) => {
                self.reading = None;
                self.meter.settle(energy, discharging, today, accrue, show)
            },
        }
    }
}

// ---------------------------------------------------------------------------
// A peak
// ---------------------------------------------------------------------------

/// What is written of a peak.
#[derive(Debug)]
pub struct Peak {
    /// Lines for the ledger: the seconds of CPU of each command.
    pub rows: String,
    /// A line for the record of peaks: when, how many watts, and who was busy.
    pub line: String,
}

/// The first `n` of the lines that take a tenth of a percent of CPU or more.
pub open spec fn busy(lines: Seq<Delta>, n: int) -> Seq<Delta>
    decreases lines.len(),
{
    if lines.len() == 0 {
        Seq::empty()
    } else {
        let before = busy(lines.drop_last(), n);
        if before.len() < n && lines.last().cpu_pct.at_least(Metric { bits: metric::TENTH }) {
            before.push(lines.last())
        } else {
            before
        }
    }
}

/// The processes that a peak names, the most CPU first.
pub open spec fn busiest(lines: Seq<Delta>) -> Seq<Delta> {
    busy(order::ranked(lines, order::higher(sample::cpu_of())), PEAK_NAMES as int)
}

proof fn lemma_busy(lines: Seq<Delta>, n: int)
    requires
        0 <= n,
    ensures
        busy(lines, n).len() <= n,
        forall|i: int|
            0 <= i < busy(lines, n).len() ==> lines.contains(#[trigger] busy(lines, n)[i]) && busy(
                lines,
                n,
            )[i].cpu_pct.at_least(Metric { bits: metric::TENTH }),
        busy(lines, n).len() < n ==> forall|d: Delta| #[trigger]
            lines.contains(d) && d.cpu_pct.at_least(Metric { bits: metric::TENTH }) ==> busy(
                lines,
                n,
            ).contains(d),
    decreases lines.len(),
{
    if lines.len() > 0 {
        let t = lines.drop_last();
        let before = busy(t, n);
        let after = busy(lines, n);
        let last = lines.last();
        lemma_busy(t, n);
        assert forall|i: int| 0 <= i < after.len() implies lines.contains(#[trigger] after[i])
            && after[i].cpu_pct.at_least(Metric { bits: metric::TENTH }) by {
            if i < before.len() {
                assert(before[i] == after[i]);
                assert(t.contains(before[i]));
                let k = choose|k: int| 0 <= k < t.len() && t[k] == before[i];
                assert(lines[k] == after[i]);
            } else {
                assert(lines[lines.len() - 1] == after[i]);
            }
        }
        if after.len() < n {
            assert forall|d: Delta| #[trigger] lines.contains(d) && d.cpu_pct.at_least(
                Metric { bits: metric::TENTH },
            ) implies after.contains(d) by {
                let k = choose|k: int| 0 <= k < lines.len() && lines[k] == d;
                if k < t.len() {
                    assert(t[k] == d);
                    assert(t.contains(d));
                    assert(before.contains(d));
                    let m = choose|m: int| 0 <= m < before.len() && before[m] == d;
                    assert(after[m] == d);
                } else {
                    assert(after[after.len() - 1] == d);
                }
            }
        }
    }
}

/// A peak names at most five processes, all of them busy; where it names
/// fewer, it names every process that was.
pub proof fn law_peak_names_the_busy(lines: Seq<Delta>)
    ensures
        busiest(lines).len() <= PEAK_NAMES,
        forall|i: int|
            0 <= i < busiest(lines).len() ==> lines.contains(#[trigger] busiest(lines)[i])
                && busiest(lines)[i].cpu_pct.at_least(Metric { bits: metric::TENTH }),
        busiest(lines).len() < PEAK_NAMES ==> forall|d: Delta| #[trigger]
            lines.contains(d) && d.cpu_pct.at_least(Metric { bits: metric::TENTH }) ==> busiest(
                lines,
            ).contains(d),
{
    let high = order::higher(sample::cpu_of());
    let r = order::ranked(lines, high);
    order::law_ranked_keeps_items(lines, high);
    lemma_busy(r, PEAK_NAMES as int);
    assert forall|i: int| 0 <= i < busiest(lines).len() implies lines.contains(
        #[trigger] busiest(lines)[i],
    ) by {
        assert(r.contains(busiest(lines)[i]));
    }
    assert forall|d: Delta| #[trigger] lines.contains(d) implies r.contains(d) by {}
}

/// The lines for the ledger. `show` writes a share of CPU as the seconds of
/// CPU that it makes in a second.
pub open spec fn peak_rows(
    date: Seq<char>,
    top: Seq<Delta>,
    show: spec_fn(Metric) -> Seq<char>,
) -> Seq<char>
    decreases top.len(),
{
    if top.len() == 0 {
        Seq::empty()
    } else {
        peak_rows(date, top.drop_last(), show) + ledger::cpu_line(
            date,
            (top.last().comm@, top.last().cpu_pct),
            show,
        )
    }
}

/// A command and its share of CPU.
pub open spec fn busy_name(d: Delta, show: spec_fn(Metric) -> Seq<char>) -> Seq<char> {
    d.comm@ + ":"@ + show(d.cpu_pct) + "%"@
}

/// The line for the record of peaks.
pub open spec fn peak_line(
    clock: Seq<char>,
    watts: Metric,
    top: Seq<Delta>,
    show_watts: spec_fn(Metric) -> Seq<char>,
    show_pct: spec_fn(Metric) -> Seq<char>,
) -> Seq<char> {
    clock + "\t"@ + show_watts(watts) + "\t"@ + layout::joined(
        top.map_values(|d: Delta| busy_name(d, show_pct)),
        " "@,
    ) + "\n"@
}

/// The processes that a peak names.
fn find_busiest(mut deltas: Vec<Delta>) -> (r: Vec<Delta>)
    ensures
        r@ == busiest(deltas@),
{
    let ghost start = deltas@;
    let above = |x: &Delta, y: &Delta| -> (r: bool)
        ensures
            r == y.cpu_pct.below(x.cpu_pct),
    {
        y.cpu_pct.less(x.cpu_pct)
    };
    order::rank(&mut deltas, above);
    let ghost all = order::ranked(start, order::higher(sample::cpu_of()));
    assert(deltas@ == all);
    let tenth = Metric { bits: metric::TENTH };
    let n = deltas.len();
    let mut i: usize = 0;
    let mut out: Vec<Delta> = Vec::new();
    assert(all.take(0) =~= Seq::empty());
    while deltas.len() > 0
        invariant
            i + deltas@.len() == all.len(),
            all.len() == n,
            deltas@ == all.skip(i as int),
            tenth == (Metric { bits: metric::TENTH }),
            out@ == busy(all.take(i as int), PEAK_NAMES as int),
        decreases deltas@.len(),
    {
        let d = deltas.remove(0);
        i += 1;
        proof {
            assert(all.take(i as int).drop_last() =~= all.take(i - 1));
            assert(d == all[i - 1]);
            assert(deltas@ =~= all.skip(i as int));
        }
        if out.len() < PEAK_NAMES && d.cpu_pct.reaches(tenth) {
            out.push(d);
        }
    }
    assert(all.take(i as int) =~= all);
    out
}

/// What is written of an expensive moment in which the processes did this;
/// `None` where none of them was busy. `show_seconds` writes a share of CPU as
/// the seconds of CPU that it makes in a second, `show_watts` the draw, and
/// `show_pct` a share.
pub fn record_peak<
    C: Fn(Metric) -> String,
    W: Fn(Metric) -> String,
    P: Fn(Metric) -> String,
>(
    date: &str,
    clock: &str,
    watts: Metric,
    deltas: Vec<Delta>,
    show_seconds: C,
    show_watts: W,
    show_pct: P,
) -> (r: Option<Peak>)
    requires
        forall|m: Metric| call_requires(show_seconds, (m,)),
        forall|m: Metric| call_requires(show_watts, (m,)),
        forall|m: Metric| call_requires(show_pct, (m,)),
    ensures
        r is None <==> busiest(deltas@).len() == 0,
        forall|c: spec_fn(Metric) -> Seq<char>|
            r is Some && metric::shows(show_seconds, c) ==> r->0.rows@ == #[trigger] peak_rows(
                date@,
                busiest(deltas@),
                c,
            ),
        forall|w: spec_fn(Metric) -> Seq<char>, p: spec_fn(Metric) -> Seq<char>|
            r is Some && metric::shows(show_watts, w) && metric::shows(show_pct, p)
                ==> r->0.line@ == #[trigger] peak_line(clock@, watts, busiest(deltas@), w, p),
{
    let top = find_busiest(deltas);
    if top.len() == 0 {
        return None;
    }
    let mut rows = String::new();
    let mut names: Vec<String> = Vec::new();
    let mut i: usize = 0;
    assert(top@.take(0) =~= Seq::empty());
    while i < top.len()
        invariant
            forall|m: Metric| call_requires(show_seconds, (m,)),
            forall|m: Metric| call_requires(show_pct, (m,)),
            i <= top@.len(),
            names@.len() == i,
            forall|c: spec_fn(Metric) -> Seq<char>|
                metric::shows(show_seconds, c) ==> rows@ == #[trigger] peak_rows(
                    date@,
                    top@.take(i as int),
                    c,
                ),
            forall|p: spec_fn(Metric) -> Seq<char>, j: int|
                metric::shows(show_pct, p) && 0 <= j < i ==> names@[j]@ == #[trigger] busy_name(
                    top@[j],
                    p,
                ),
        decreases top@.len() - i,
    {
        let ghost before = rows@;
        let d = &top[i];
        let secs = show_seconds(d.cpu_pct);
        let mut line = date.to_owned();
        line.append("\t");
        line.append(d.comm.as_str());
        line.append("\t");
        line.append(secs.as_str());
        line.append("\n");
        rows.append(line.as_str());
        let pct = show_pct(d.cpu_pct);
        let name = d.comm.as_str().to_owned().concat(":").concat(pct.as_str()).concat("%");
        names.push(name);
        i += 1;
        proof {
            assert(top@.take(i as int).drop_last() =~= top@.take(i - 1));
            assert forall|c: spec_fn(Metric) -> Seq<char>|
                metric::shows(show_seconds, c) implies rows@ == #[trigger] peak_rows(
                date@,
                top@.take(i as int),
                c,
            ) by {
                assert(before == peak_rows(date@, top@.take(i - 1), c));
            }
        }
    }
    assert(top@.take(i as int) =~= top@);
    let shown = show_watts(watts);
    let joined = layout::join(&names, " ");
    let mut line = clock.to_owned();
    line.append("\t");
    line.append(shown.as_str());
    line.append("\t");
    line.append(joined.as_str());
    line.append("\n");
    proof {
        assert forall|w: spec_fn(Metric) -> Seq<char>, p: spec_fn(Metric) -> Seq<char>|
            metric::shows(show_watts, w) && metric::shows(show_pct, p) implies line@
            == #[trigger] peak_line(clock@, watts, top@, w, p) by {
            let want = top@.map_values(|d: Delta| busy_name(d, p));
            assert forall|j: int| 0 <= j < want.len() implies #[trigger] layout::texts(names@)[j]
                == want[j] by {
                assert(names@[j]@ == busy_name(top@[j], p));
            }
            assert(layout::texts(names@) =~= want);
        }
    }
    Some(Peak { rows, line })
}

/// The entries that a peak adds to the ledger.
pub open spec fn peak_entries(
    date: Seq<char>,
    top: Seq<Delta>,
    show: spec_fn(Metric) -> Seq<char>,
    num: spec_fn(Seq<char>) -> Option<Metric>,
) -> Seq<ledger::EntryView> {
    top.map_values(
        |d: Delta|
            ledger::EntryView {
                date,
                comm: d.comm@,
                value: ledger::value_of(show(d.cpu_pct), num),
            },
    )
}

/// The lines that a peak adds to the ledger give the report something to hand
/// the day's watt-hours out by: they are read back as one entry for each
/// command, where the date and the commands hold no tab and no line feed.
pub proof fn law_peak_rows_read_back(
    date: Seq<char>,
    top: Seq<Delta>,
    show: spec_fn(Metric) -> Seq<char>,
    keep: Seq<Seq<char>>,
    num: spec_fn(Seq<char>) -> Option<Metric>,
)
    requires
        ledger::fits(date),
        keep.contains(date),
        forall|i: int|
            0 <= i < top.len() ==> ledger::fits((#[trigger] top[i]).comm@) && ledger::fits_last(
                show(top[i].cpu_pct),
            ),
    ensures
        ledger::entries(text::lines(peak_rows(date, top, show)), keep, num) == peak_entries(
            date,
            top,
            show,
            num,
        ),
        top.len() > 0 ==> peak_rows(date, top, show).len() > 0 && peak_rows(date, top, show).last()
            == '\n',
    decreases top.len(),
{
    if top.len() == 0 {
        assert(text::lines(peak_rows(date, top, show)) =~= Seq::empty());
        assert(peak_entries(date, top, show, num) =~= Seq::empty());
    } else {
        let t = top.drop_last();
        let d = top.last();
        assert(d == top[top.len() - 1]);
        assert forall|i: int| 0 <= i < t.len() implies ledger::fits((#[trigger] t[i]).comm@)
            && ledger::fits_last(show(t[i].cpu_pct)) by {
            assert(t[i] == top[i]);
        }
        law_peak_rows_read_back(date, t, show, keep, num);
        let before = peak_rows(date, t, show);
        let line = ledger::cpu_line(date, (d.comm@, d.cpu_pct), show);
        ledger::law_command_line_reads_back(date, (d.comm@, d.cpu_pct), show, keep, num);
        ledger::law_appended_lines_add_their_entries(before, line, keep, num);
        assert((before + line).last() == line.last());
        assert(peak_entries(date, top, show, num) =~= peak_entries(date, t, show, num).push(
            ledger::EntryView {
                date,
                comm: d.comm@,
                value: ledger::value_of(show(d.cpu_pct), num),
            },
        ));
        assert(ledger::entries(text::lines(before + line), keep, num) =~= peak_entries(
            date,
            top,
            show,
            num,
        ));
    }
}

// ---------------------------------------------------------------------------
// What the files and the feed say
// ---------------------------------------------------------------------------

/// A file says a word where it holds that word and no more than blanks about
/// it. A file that could not be read says nothing.
pub proof fn law_file_says_one_word(a: Seq<char>, said: Seq<char>, b: Seq<char>, word: Seq<char>)
    requires
        forall|i: int| 0 <= i < a.len() ==> text::is_blank(#[trigger] a[i]),
        forall|i: int| 0 <= i < b.len() ==> text::is_blank(#[trigger] b[i]),
        said.len() > 0 ==> !text::is_blank(said[0]) && !text::is_blank(said.last()),
    ensures
        says(Some(a + said + b), word) <==> said == word,
        !says(None, word),
{
    text::law_trim_leaves_what_stands_between(a, said, b);
}

/// The battery is the first supply whose type file says so; without such a file
/// there is none.
pub proof fn law_first_battery_is_found(types: Seq<Option<String>>, from: int, i: int)
    requires
        0 <= from <= i <= types.len(),
        forall|j: int| from <= j < i ==> !says(text::maybe(#[trigger] types[j]), "Battery"@),
        i < types.len() ==> says(text::maybe(types[i]), "Battery"@),
    ensures
        i < types.len() ==> first_battery(types, from) == Some(i),
        i == types.len() ==> first_battery(types, from) is None,
    decreases i - from,
{
    if from < i {
        assert(!says(text::maybe(types[from]), "Battery"@));
        law_first_battery_is_found(types, from + 1, i);
    }
}

/// A battery that reports its energy is read by it, whatever else it reports;
/// one that does not is read by charge and voltage, and only with both.
pub proof fn law_energy_goes_before_charge(
    energy: Option<Seq<char>>,
    charge: Option<Seq<char>>,
    voltage: Option<Seq<char>>,
    num: spec_fn(Seq<char>) -> Option<Metric>,
)
    ensures
        number_in(energy, num) matches Some(e) ==> store_of(energy, charge, voltage, num) == Some(
            Store::Energy { uwh: e },
        ),
        number_in(energy, num) is None ==> (store_of(energy, charge, voltage, num) is Some
            <==> number_in(charge, num) is Some && number_in(voltage, num) is Some),
        number_in(energy, num) is None ==> (store_of(energy, charge, voltage, num) matches Some(s)
            ==> s == (Store::Charge {
            uah: number_in(charge, num)->0,
            uv: number_in(voltage, num)->0,
        })),
{
}

/// A number is read from a file without the blanks about it.
pub proof fn law_number_is_read_without_blanks(
    a: Seq<char>,
    shown: Seq<char>,
    b: Seq<char>,
    num: spec_fn(Seq<char>) -> Option<Metric>,
)
    requires
        forall|i: int| 0 <= i < a.len() ==> text::is_blank(#[trigger] a[i]),
        forall|i: int| 0 <= i < b.len() ==> text::is_blank(#[trigger] b[i]),
        shown.len() > 0 ==> !text::is_blank(shown[0]) && !text::is_blank(shown.last()),
    ensures
        number_in(Some(a + shown + b), num) == num(shown),
        number_in(None, num) is None,
{
    text::law_trim_leaves_what_stands_between(a, shown, b);
}

/// A field of a line is what stands behind its key, up to the next `>`: the key
/// where it stands first, and nothing of it again before that. A line without
/// the key has no such field.
pub proof fn law_field_stands_behind_its_key(
    a: Seq<char>,
    key: Seq<char>,
    shown: Seq<char>,
    b: Seq<char>,
    num: spec_fn(Seq<char>) -> Option<Metric>,
)
    requires
        key.len() > 0,
        forall|i: int| 0 <= i < shown.len() ==> #[trigger] shown[i] != '>',
        forall|m: int|
            0 <= m < a.len() ==> !#[trigger] text::occurs_at(
                a + key + shown + seq!['>'] + b,
                key,
                m,
            ),
        forall|m: int|
            a.len() + key.len() <= m < a.len() + key.len() + shown.len()
                ==> !#[trigger] text::occurs_at(a + key + shown + seq!['>'] + b, key, m),
    ensures
        field_of(a + key + shown + seq!['>'] + b, key, num) == num(text::trim(shown)),
        forall|line: Seq<char>| !#[trigger] text::has_text(line, key) ==> field_of(line, key, num) is None,
{
    let line = a + key + shown + seq!['>'] + b;
    let i = a.len() as int;
    let from = i + key.len();
    let end = from + shown.len();
    assert(line.subrange(i, from) =~= key);
    assert(text::occurs_at(line, key, i));
    text::lemma_first_at(line, key, 0);
    assert(text::first_at(line, key, 0) == Some(i));
    text::lemma_first_at(line, key, from);
    let to = match text::first_at(line, key, from) {
        Some(j) => j,
        None => line.len() as int,
    };
    assert(end <= to <= line.len());
    let rest = line.subrange(from, to);
    assert forall|k: int| 0 <= k < shown.len() implies !Class::Only('>').has(#[trigger] rest[k]) by {
        assert(rest[k] == shown[k]);
    }
    if to > end {
        assert(rest[shown.len() as int] == '>');
    }
    text::lemma_scan_in_is(rest, 0, Class::Only('>'), shown.len() as int);
    assert(rest.take(shown.len() as int) =~= shown);
    assert forall|other: Seq<char>| !#[trigger] text::has_text(other, key) implies field_of(
        other,
        key,
        num,
    ) is None by {
        text::lemma_first_at(other, key, 0);
    }
}

/// A field that no `>` closes ends where its key stands again, or with the line.
/// An empty key stands in front of every character, so the first one follows it.
pub proof fn law_field_ends_at_the_key_or_the_end(
    a: Seq<char>,
    key: Seq<char>,
    shown: Seq<char>,
    b: Seq<char>,
    num: spec_fn(Seq<char>) -> Option<Metric>,
)
    requires
        key.len() > 0,
        forall|i: int| 0 <= i < shown.len() ==> #[trigger] shown[i] != '>',
        b.len() == 0 || b.take(key.len() as int) == key,
        b.len() == 0 || key.len() <= b.len(),
        forall|m: int|
            0 <= m < a.len() ==> !#[trigger] text::occurs_at(a + key + shown + b, key, m),
        forall|m: int|
            a.len() + key.len() <= m < a.len() + key.len() + shown.len()
                ==> !#[trigger] text::occurs_at(a + key + shown + b, key, m),
    ensures
        field_of(a + key + shown + b, key, num) == num(text::trim(shown)),
        shown.len() > 0 ==> field_of(shown, Seq::empty(), num) == num(text::trim(shown.take(1))),
{
    let line = a + key + shown + b;
    let i = a.len() as int;
    let from = i + key.len();
    let end = from + shown.len();
    assert(line.subrange(i, from) =~= key);
    assert(text::occurs_at(line, key, i));
    text::lemma_first_at(line, key, 0);
    assert(text::first_at(line, key, 0) == Some(i));
    text::lemma_first_at(line, key, from);
    if b.len() > 0 {
        assert(line.subrange(end, end + key.len()) =~= b.take(key.len() as int));
        assert(text::occurs_at(line, key, end));
        assert(text::first_at(line, key, from) == Some(end));
    } else {
        assert(text::first_at(line, key, from) is None || text::first_at(line, key, from) == Some(
            end,
        ));
    }
    let rest = line.subrange(from, end);
    assert(rest =~= shown);
    assert forall|k: int| 0 <= k < shown.len() implies !Class::Only('>').has(
        #[trigger] shown[k],
    ) by {}
    text::lemma_scan_in_is(shown, 0, Class::Only('>'), shown.len() as int);
    assert(shown.take(shown.len() as int) =~= shown);
    if shown.len() > 0 {
        let one = shown.take(1);
        assert(one[0] == shown[0]);
        text::lemma_scan_in_is(one, 0, Class::Only('>'), 1);
        assert(one.take(1) =~= one);
    }
}

/// A line of the feed is a reading of the battery where it speaks of one and
/// gives its energy as a number. The draw comes with it where the line gives
/// that too.
pub proof fn law_only_battery_lines_are_readings(
    line: Seq<char>,
    num: spec_fn(Seq<char>) -> Option<Metric>,
)
    ensures
        reading_of(line, num) is Some <==> text::has_text(line, "battery_"@) && text::has_text(
            line,
            "'Energy':"@,
        ) && field_of(line, "'Energy': <"@, num) is Some,
        reading_of(line, num) matches Some((energy, rate)) ==> field_of(line, "'Energy': <"@, num)
            == Some(energy) && rate == field_of(line, "'EnergyRate': <"@, num),
{
}

// ---------------------------------------------------------------------------
// What is drawn
// ---------------------------------------------------------------------------

/// The mark at which a line is due is a quarter of a watt-hour.
pub proof fn law_mark_is_a_quarter()
    ensures
        (Metric { bits: FLUSH_WH }).is_number(),
        4 * (Metric { bits: FLUSH_WH }).value() == metric::one(),
{
    reveal(metric::units);
    let h = metric::EXPONENT_ONE as int;
    let m = FLUSH_WH as int;
    assert(m / h == 1021);
    assert(m % h == 0);
    let p = vstd::arithmetic::power2::pow2(1020) as int;
    assert(metric::units(m) == (h + 0) * p);
    vstd::arithmetic::power2::lemma2_to64();
    vstd::arithmetic::power2::lemma2_to64_rest();
    vstd::arithmetic::power2::lemma_pow2_adds(52, 1020);
    vstd::arithmetic::power2::lemma_pow2_adds(2, 1072);
    assert(vstd::arithmetic::power2::pow2(52) == h);
    assert(metric::units(m) == vstd::arithmetic::power2::pow2(1072));
}

/// While the battery discharges, a fall goes on the meter on the same day: it
/// is pending until the mark of a quarter watt-hour is reached, and then all of
/// it goes to the ledger, under that day.
pub proof fn law_falls_collect_until_the_mark(
    m: MeterView,
    before: Metric,
    now: Metric,
    accrue: spec_fn(Metric, Metric, Metric) -> Metric,
    show: spec_fn(Metric) -> Seq<char>,
)
    requires
        m.last == Some(before),
        before.is_number(),
        now.is_number(),
        now.value() < before.value(),
    ensures
        ({
            let wh = accrue(m.pending, before, now);
            let after = settled(m, now, true, m.date, accrue);
            let line = settled_row(m, now, true, m.date, accrue, show);
            &&& after.last == Some(now)
            &&& after.date == m.date
            &&& !wh.is_number() || 4 * wh.value() < metric::one() ==> after.pending == wh && line
                is None
            &&& wh.is_number() && 4 * wh.value() >= metric::one() ==> after.pending == (Metric { bits: 0 }) && line
                == Some(m.date + "\t__wh__\t"@ + show(wh) + "\n"@)
        }),
{
    law_mark_is_a_quarter();
    vstd::arithmetic::power2::lemma_pow2_pos(1074);
}

/// With a new day all that is pending goes to the ledger, the fall to this day
/// with it, under the day to which it belongs; nothing is left pending, and no
/// line is written where there was nothing.
pub proof fn law_new_day_closes_the_old(
    m: MeterView,
    before: Metric,
    now: Metric,
    today: Seq<char>,
    accrue: spec_fn(Metric, Metric, Metric) -> Metric,
    show: spec_fn(Metric) -> Seq<char>,
)
    requires
        m.last == Some(before),
        before.is_number(),
        now.is_number(),
        today != m.date,
    ensures
        ({
            let wh = if now.value() < before.value() {
                accrue(m.pending, before, now)
            } else {
                m.pending
            };
            let after = settled(m, now, true, today, accrue);
            let line = settled_row(m, now, true, today, accrue, show);
            &&& after == (MeterView { last: Some(now), date: today, pending: Metric { bits: 0 } })
            &&& !wh.is_number() || wh.value() > 0 ==> line == Some(
                m.date + "\t__wh__\t"@ + show(wh) + "\n"@,
            )
            &&& wh.is_number() && wh.value() <= 0 ==> line is None
        }),
        ({
            let after = settled(m, now, false, today, accrue);
            let line = settled_row(m, now, false, today, accrue, show);
            &&& after == (MeterView { last: Some(now), date: today, pending: Metric { bits: 0 } })
            &&& !m.pending.is_number() || m.pending.value() > 0 ==> line == Some(
                m.date + "\t__wh__\t"@ + show(m.pending) + "\n"@,
            )
            &&& m.pending.is_number() && m.pending.value() <= 0 ==> line is None
        }),
{
}

/// On the same day a rise, a standstill, or anything at all on the mains leaves
/// what is pending as it is, and so does the first reading.
pub proof fn law_nothing_else_is_drain(
    m: MeterView,
    now: Metric,
    discharging: bool,
    accrue: spec_fn(Metric, Metric, Metric) -> Metric,
    show: spec_fn(Metric) -> Seq<char>,
)
    requires
        m.last matches Some(before) ==> !discharging || !before.is_number() || !now.is_number()
            || now.value() >= before.value(),
        !m.pending.is_number() || 4 * m.pending.value() < metric::one(),
    ensures
        settled(m, now, discharging, m.date, accrue) == (MeterView { last: Some(now), ..m }),
        settled_row(m, now, discharging, m.date, accrue, show) is None,
{
    law_mark_is_a_quarter();
}

// ---------------------------------------------------------------------------
// What is worth a sample
// ---------------------------------------------------------------------------

/// A sample is worth it where the draw is as high as was asked for, the battery
/// discharges, and five minutes have gone since the last. The draw is the one
/// that the line gives, or the last that a line gave.
pub proof fn law_high_draw_is_a_peak(
    w: Watch,
    rate: Option<Metric>,
    energy: Metric,
    now_s: u64,
    discharging: bool,
)
    ensures
        ({
            let draw = if rate is Some {
                rate->0
            } else {
                w.rate
            };
            let worth = draw.is_number() && w.peak_w.is_number() && draw.value()
                >= w.peak_w.value() && discharging && now_s >= w.last_peak + 300;
            let after = watched(w, rate, now_s, discharging);
            &&& worth ==> heard(w, Some((energy, rate)), now_s, discharging) == Heard::Peak(draw)
            &&& !worth ==> heard(w, Some((energy, rate)), now_s, discharging) == Heard::Reading
            &&& heard(w, None, now_s, discharging) == Heard::Nothing
            &&& worth ==> after.last_peak == now_s
            &&& !worth ==> after.last_peak == w.last_peak
            &&& after.seen
            &&& after.rate == draw
            &&& after.peak_w == w.peak_w
            &&& is_peak(w, rate_after(w, rate), now_s, discharging) <==> worth
            &&& rate_after(w, rate) == draw
        }),
{
}

/// Of lines that go down by their share of CPU, the busy ones are the first.
proof fn lemma_busy_prefix(lines: Seq<Delta>, n: int)
    requires
        0 <= n,
        forall|i: int| 0 <= i < lines.len() ==> (#[trigger] lines[i]).cpu_pct.is_number(),
        forall|i: int, j: int|
            0 <= i < j < lines.len() ==> (#[trigger] lines[i]).cpu_pct.value() >= (
            #[trigger] lines[j]).cpu_pct.value(),
    ensures
        busy(lines, n).len() <= n,
        busy(lines, n).len() <= lines.len(),
        busy(lines, n) == lines.take(busy(lines, n).len() as int),
        lines.len() > 0 && lines.last().cpu_pct.value() >= (Metric { bits: metric::TENTH }).value()
            ==> busy(lines, n).len() == (if n < lines.len() {
            n
        } else {
            lines.len() as int
        }),
        busy(lines, n).len() < n && busy(lines, n).len() < lines.len() ==> lines[busy(
            lines,
            n,
        ).len() as int].cpu_pct.value() < (Metric { bits: metric::TENTH }).value(),
    decreases lines.len(),
{
    if lines.len() > 0 {
        let t = lines.drop_last();
        assert forall|i: int| 0 <= i < t.len() implies #[trigger] t[i] == lines[i] by {}
        lemma_busy_prefix(t, n);
        let before = busy(t, n);
        let last = lines.last();
        assert(last == lines[lines.len() - 1]);
        assert((Metric { bits: metric::TENTH }).is_number());
        if last.cpu_pct.value() >= (Metric { bits: metric::TENTH }).value() {
            if t.len() > 0 {
                assert(lines[t.len() - 1].cpu_pct.value() >= lines[t.len() as int].cpu_pct.value());
                assert(t.last() == lines[t.len() - 1]);
            }
            if before.len() < n {
                assert(before =~= t);
                assert(busy(lines, n) =~= lines);
                assert(lines.take(lines.len() as int) =~= lines);
            } else {
                assert(busy(lines, n) =~= lines.take(n));
            }
        } else {
            assert(busy(lines, n) =~= lines.take(before.len() as int));
        }
    } else {
        assert(busy(lines, n) =~= lines.take(0));
    }
}

/// A peak names the most CPU first. It names five processes or fewer, none
/// below a tenth of a percent, and one that it does not name either has no more
/// CPU than any that it names, or is not busy.
pub proof fn law_peak_names_the_busiest(lines: Seq<Delta>, d: Delta, i: int, j: int)
    requires
        forall|k: int| 0 <= k < lines.len() ==> (#[trigger] lines[k]).cpu_pct.is_number(),
    ensures
        busiest(lines).len() <= 5,
        0 <= i < j < busiest(lines).len() ==> busiest(lines)[i].cpu_pct.value() >= busiest(
            lines,
        )[j].cpu_pct.value(),
        0 <= i < busiest(lines).len() ==> busiest(lines)[i].cpu_pct.value() >= (Metric {
            bits: 0x3FB9_9999_9999_999A,
        }).value(),
        lines.contains(d) && !busiest(lines).contains(d) && d.cpu_pct.value() >= (Metric {
            bits: 0x3FB9_9999_9999_999A,
        }).value() ==> busiest(lines).len() == 5 && (0 <= i < busiest(lines).len() ==> busiest(
            lines,
        )[i].cpu_pct.value() >= d.cpu_pct.value()),
{
    let high = order::higher(sample::cpu_of());
    let r = order::ranked(lines, high);
    let named = busiest(lines);
    order::law_ranked_keeps_items(lines, high);
    assert forall|k: int| 0 <= k < lines.len() implies sample::cpu_of()(
        #[trigger] lines[k],
    ).is_number() by {}
    order::law_higher_goes_down(lines, sample::cpu_of());
    assert forall|k: int| 0 <= k < r.len() implies (#[trigger] r[k]).cpu_pct.is_number() by {
        assert(r.contains(r[k]));
        assert(lines.contains(r[k]));
        let m = choose|m: int| 0 <= m < lines.len() && lines[m] == r[k];
        assert(lines[m].cpu_pct.is_number());
    }
    assert forall|a: int, b: int| 0 <= a < b < r.len() implies (#[trigger] r[a]).cpu_pct.value() >= (
    #[trigger] r[b]).cpu_pct.value() by {
        assert(sample::cpu_of()(r[a]).at_least(sample::cpu_of()(r[b])));
    }
    lemma_busy_prefix(r, 5);
    law_peak_names_the_busy(lines);
    let n = named.len() as int;
    assert(named == r.take(n));
    if 0 <= i < n {
        assert(named[i] == r[i]);
    }
    if 0 <= j < n {
        assert(named[j] == r[j]);
    }
    if lines.contains(d) && !named.contains(d) {
        assert(r.contains(d));
        let k = choose|k: int| 0 <= k < r.len() && r[k] == d;
        if k < n {
            assert(named[k] == d);
        }
        if n < 5 {
            assert(r[n].cpu_pct.value() < (Metric { bits: metric::TENTH }).value());
            if k > n {
                assert(r[n].cpu_pct.value() >= r[k].cpu_pct.value());
            }
        }
    }
}

/// Every process that a peak names has its own line for the ledger: the date,
/// the command, and what its share of CPU comes to.
pub proof fn law_each_busy_process_has_a_line(
    date: Seq<char>,
    top: Seq<Delta>,
    d: Delta,
    show: spec_fn(Metric) -> Seq<char>,
)
    ensures
        peak_rows(date, Seq::empty(), show).len() == 0,
        peak_rows(date, top.push(d), show) == peak_rows(date, top, show) + (date + "\t"@ + d.comm@
            + "\t"@ + show(d.cpu_pct) + "\n"@),
{
    assert(top.push(d).drop_last() =~= top);
}

/// The record of a peak names when it was, how many watts, and then every busy
/// process with its share of CPU, with blanks between.
pub proof fn law_record_names_every_busy_process(
    clock: Seq<char>,
    watts: Metric,
    top: Seq<Delta>,
    d: Delta,
    show_watts: spec_fn(Metric) -> Seq<char>,
    show_pct: spec_fn(Metric) -> Seq<char>,
)
    ensures
        peak_line(clock, watts, Seq::empty(), show_watts, show_pct) == clock + "\t"@ + show_watts(
            watts,
        ) + "\t"@ + "\n"@,
        ({
            let name = d.comm@ + ":"@ + show_pct(d.cpu_pct) + "%"@;
            let line = peak_line(clock, watts, top, show_watts, show_pct);
            let more = peak_line(clock, watts, top.push(d), show_watts, show_pct);
            &&& top.len() == 0 ==> more == clock + "\t"@ + show_watts(watts) + "\t"@ + name
                + "\n"@
            &&& top.len() > 0 ==> more == line.drop_last() + " "@ + name + "\n"@
        }),
{
    reveal_strlit("\n");
    let f = |d: Delta| busy_name(d, show_pct);
    let parts = top.map_values(f);
    let more = top.push(d).map_values(f);
    let name = busy_name(d, show_pct);
    let head = clock + "\t"@ + show_watts(watts) + "\t"@;
    assert(more.drop_last() =~= parts);
    assert(more.last() == name);
    assert(layout::joined(Seq::<Delta>::empty().map_values(f), " "@) =~= Seq::empty());
    assert(head + Seq::<char>::empty() =~= head);
    if top.len() == 0 {
        assert(more.len() == 1 && more[0] == name);
        assert(layout::joined(more, " "@) == name);
    } else {
        let names = layout::joined(parts, " "@);
        assert(layout::joined(more, " "@) == names + " "@ + name);
        let line = peak_line(clock, watts, top, show_watts, show_pct);
        assert(line.drop_last() =~= head + names);
        assert(head + (names + " "@ + name) + "\n"@ =~= line.drop_last() + " "@ + name + "\n"@);
    }
}

/// A meter shows what its fields hold.
pub proof fn law_meter_shows_its_fields(m: Meter)
    ensures
        m@.last == m.last,
        m@.date == m.date@,
        m@.pending == m.pending,
{
}

} // verus!
