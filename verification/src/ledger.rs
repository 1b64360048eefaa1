//! The battery ledger: watt-hours and seconds of CPU for each command and day.
//!
//! While the tool runs, each process is charged its share of the interval, and
//! the battery draw adds up to watt-hours. A session ends as lines behind
//! those that the ledger holds already:
//!
//! ```text
//! <date>\t<command>\t<seconds of CPU>
//! <date>\t__wh__\t<watt-hours>
//! ```
//!
//! The report takes the last days together and hands the watt-hours of each
//! day to the commands by their share of that day's CPU: an estimate.
use crate::layout;
use crate::metric;
use crate::metric::Metric;
use crate::order;
use crate::table;
use crate::table::Table;
use crate::text;
use vstd::prelude::*;

verus! {

/// How many commands a session writes at most.
pub const KEPT: usize = 40;

/// What a session has accounted for.
#[derive(Debug)]
pub struct Ledger {
    /// Seconds of CPU by command.
    pub cpu: Table,
    /// The watt-hours that were drawn.
    pub wh: Metric,
    /// The date of the session.
    pub date: String,
}

/// The contents of a ledger.
#[verifier::ext_equal]
pub struct Account {
    pub cpu: table::Rows,
    pub wh: Metric,
    pub date: Seq<char>,
}

impl View for Ledger {
    type V = Account;

    open spec fn view(&self) -> Account {
        Account { cpu: self.cpu@, wh: self.wh, date: self.date@ }
    }
}

/// The reading of a name, zero where it has none.
pub open spec fn so_far(rows: table::Rows, name: Seq<char>) -> Metric {
    match table::get(rows, name) {
        Some(m) => m,
        None => Metric { bits: 0 },
    }
}

/// The seconds of CPU once the processes have been charged for `dt` seconds.
/// One at a tenth of a percent or less is not charged. `charge` adds to the
/// seconds so far what a share of CPU makes in that time.
pub open spec fn charged(
    rows: table::Rows,
    procs: Seq<(String, Metric)>,
    dt: Metric,
    charge: spec_fn(Metric, Metric, Metric) -> Metric,
) -> table::Rows
    decreases procs.len(),
{
    if procs.len() == 0 {
        rows
    } else {
        let before = charged(rows, procs.drop_last(), dt, charge);
        let (comm, pct) = procs.last();
        if (Metric { bits: metric::TENTH }).below(pct) {
            table::put(before, comm@, charge(so_far(before, comm@), pct, dt))
        } else {
            before
        }
    }
}

/// The account once `dt` seconds at this draw have passed. `energy` adds to
/// the watt-hours so far what a draw makes in that time.
pub open spec fn ticked(
    l: Account,
    dt: Metric,
    watts: Option<Metric>,
    procs: Seq<(String, Metric)>,
    energy: spec_fn(Metric, Metric, Metric) -> Metric,
    charge: spec_fn(Metric, Metric, Metric) -> Metric,
) -> Account {
    Account {
        cpu: charged(l.cpu, procs, dt, charge),
        wh: match watts {
            Some(w) => energy(l.wh, w, dt),
            None => l.wh,
        },
        date: l.date,
    }
}

/// The reading in a row.
pub open spec fn row_value() -> spec_fn((Seq<char>, Metric)) -> Metric {
    |r: (Seq<char>, Metric)| r.1
}

/// The rows with the highest readings, the highest first.
pub open spec fn top(rows: table::Rows, n: int) -> table::Rows {
    let all = order::ranked(rows, order::higher(row_value()));
    if n < all.len() {
        all.take(n)
    } else {
        all
    }
}

/// The line of a command.
pub open spec fn cpu_line(
    date: Seq<char>,
    row: (Seq<char>, Metric),
    show: spec_fn(Metric) -> Seq<char>,
) -> Seq<char> {
    date + "\t"@ + row.0 + "\t"@ + show(row.1) + "\n"@
}

/// The line of the watt-hours.
pub open spec fn wh_line(
    date: Seq<char>,
    wh: Metric,
    show: spec_fn(Metric) -> Seq<char>,
) -> Seq<char> {
    date + "\t__wh__\t"@ + show(wh) + "\n"@
}

/// The lines of the commands with a second of CPU or more.
pub open spec fn cpu_lines(
    date: Seq<char>,
    rows: table::Rows,
    show: spec_fn(Metric) -> Seq<char>,
) -> Seq<char>
    decreases rows.len(),
{
    if rows.len() == 0 {
        Seq::empty()
    } else {
        cpu_lines(date, rows.drop_last(), show) + if rows.last().1.at_least_whole(1) {
            cpu_line(date, rows.last(), show)
        } else {
            Seq::empty()
        }
    }
}

/// The lines that a session adds to the ledger; `None` where there is nothing
/// to add.
pub open spec fn saved(
    l: Account,
    show_seconds: spec_fn(Metric) -> Seq<char>,
    show_wh: spec_fn(Metric) -> Seq<char>,
) -> Option<Seq<char>> {
    if l.cpu.len() == 0 && l.wh.is_zero() {
        None
    } else {
        Some(
            cpu_lines(l.date, top(l.cpu, KEPT as int), show_seconds) + if (Metric {
                bits: 0,
            }).below(l.wh) {
                wh_line(l.date, l.wh, show_wh)
            } else {
                Seq::empty()
            },
        )
    }
}

/// The rows as pairs.
pub open spec fn pairs(v: Seq<(String, Metric)>) -> table::Rows {
    v.map_values(|r: (String, Metric)| (r.0@, r.1))
}

/// The rows of a table, the highest reading first.
fn rank_rows(t: &Table) -> (r: Vec<(String, Metric)>)
    ensures
        pairs(r@) == order::ranked(t@, order::higher(row_value())),
{
    let mut out: Vec<(String, Metric)> = Vec::new();
    let mut i: usize = 0;
    assert(pairs(out@) =~= t@.take(0));
    while i < t.len()
        invariant
            i <= t@.len(),
            pairs(out@) == t@.take(i as int),
        decreases t@.len() - i,
    {
        let ghost before = out@;
        out.push((t.name(i).to_owned(), t.value(i)));
        i += 1;
        assert(pairs(out@) =~= pairs(before).push(t@[i - 1]));
        assert(pairs(out@) =~= t@.take(i as int));
    }
    assert(t@.take(i as int) =~= t@);
    let ghost found = out@;
    let above = |x: &(String, Metric), y: &(String, Metric)| -> (r: bool)
        ensures
            r == y.1.below(x.1),
    {
        y.1.less(x.1)
    };
    order::rank(&mut out, above);
    proof {
        let view = |r: (String, Metric)| (r.0@, r.1);
        let high = order::higher(row_value());
        let g = |a: (String, Metric), b: (String, Metric)| high(view(a), view(b));
        assert(out@ == order::ranked(found, g));
        order::lemma_ranked_view(found, view, high);
    }
    out
}

impl Ledger {
    /// A session of this date that has accounted for nothing yet.
    pub fn new(date: String) -> (r: Ledger)
        ensures
            r@ == (Account { cpu: table::Rows::empty(), wh: Metric { bits: 0 }, date: date@ }),
    {
        Ledger { cpu: Table::new(), wh: Metric::zero(), date }
    }

    /// Accounts for `dt` seconds at a draw of `watts`, in which the processes
    /// had these shares of CPU. `energy` and `charge` do the sums.
    pub fn tick<
        E: Fn(Metric, Metric, Metric) -> Metric,
        C: Fn(Metric, Metric, Metric) -> Metric,
    >(
        &mut self,
        dt: Metric,
        watts: Option<Metric>,
        procs: &Vec<(String, Metric)>,
        energy: E,
        charge: C,
    )
        requires
            forall|a: Metric, b: Metric, c: Metric| call_requires(energy, (a, b, c)),
            forall|a: Metric, b: Metric, c: Metric| call_requires(charge, (a, b, c)),
        ensures
            forall|
                e: spec_fn(Metric, Metric, Metric) -> Metric,
                c: spec_fn(Metric, Metric, Metric) -> Metric,
            |
                metric::combines_three(energy, e) && metric::combines_three(charge, c)
                    ==> final(self)@ == #[trigger] ticked(old(self)@, dt, watts, procs@, e, c),
    {
        let ghost start = self@;
        if let Some(w) = watts {
            self.wh = energy(self.wh, w, dt);
        }
        let ghost wh = self.wh;
        let tenth = Metric { bits: metric::TENTH };
        let mut i: usize = 0;
        assert(procs@.take(0) =~= Seq::empty());
        while i < procs.len()
            invariant
                forall|a: Metric, b: Metric, c: Metric| call_requires(charge, (a, b, c)),
                i <= procs@.len(),
                tenth == (Metric { bits: metric::TENTH }),
                self.wh == wh,
                self.date@ == start.date,
                forall|c: spec_fn(Metric, Metric, Metric) -> Metric|
                    metric::combines_three(charge, c) ==> self.cpu@ == #[trigger] charged(
                        start.cpu,
                        procs@.take(i as int),
                        dt,
                        c,
                    ),
            decreases procs@.len() - i,
        {
            let ghost before = self.cpu@;
            let comm = procs[i].0.as_str();
            let pct = procs[i].1;
            if tenth.less(pct) {
                let secs = match self.cpu.get(comm) {
                    Some(m) => m,
                    None => Metric::zero(),
                };
                self.cpu.put(comm, charge(secs, pct, dt));
            }
            i += 1;
            proof {
                assert(procs@.take(i as int).drop_last() =~= procs@.take(i - 1));
                assert forall|c: spec_fn(Metric, Metric, Metric) -> Metric|
                    metric::combines_three(charge, c) implies self.cpu@ == #[trigger] charged(
                    start.cpu,
                    procs@.take(i as int),
                    dt,
                    c,
                ) by {
                    assert(before == charged(start.cpu, procs@.take(i - 1), dt, c));
                }
            }
        }
        proof {
            assert(procs@.take(i as int) =~= procs@);
            assert forall|
                e: spec_fn(Metric, Metric, Metric) -> Metric,
                c: spec_fn(Metric, Metric, Metric) -> Metric,
            |
                metric::combines_three(energy, e) && metric::combines_three(charge, c) implies self@
                == #[trigger] ticked(start, dt, watts, procs@, e, c) by {
                assert(self.cpu@ == charged(start.cpu, procs@.take(i as int), dt, c));
            }
        }
    }

    /// The lines that the session adds to the ledger; `None` where there is
    /// nothing to add. Commands with less than a second of CPU are left out,
    /// and so are those behind the first forty.
    pub fn save<S: Fn(Metric) -> String, W: Fn(Metric) -> String>(
        &self,
        show_seconds: S,
        show_wh: W,
    ) -> (r: Option<String>)
        requires
            forall|m: Metric| call_requires(show_seconds, (m,)),
            forall|m: Metric| call_requires(show_wh, (m,)),
        ensures
            r is None <==> self@.cpu.len() == 0 && self@.wh.is_zero(),
            forall|s: spec_fn(Metric) -> Seq<char>, w: spec_fn(Metric) -> Seq<char>|
                metric::shows(show_seconds, s) && metric::shows(show_wh, w) ==> text::maybe(r)
                    == #[trigger] saved(self@, s, w),
    {
        if self.cpu.len() == 0 && self.wh.zeroed() {
            return None;
        }
        let rows = rank_rows(&self.cpu);
        let ghost all = pairs(rows@);
        let n: usize = if rows.len() > KEPT {
            KEPT
        } else {
            rows.len()
        };
        let mut out = String::new();
        let mut i: usize = 0;
        assert(all.take(0) =~= table::Rows::empty());
        while i < n
            invariant
                forall|m: Metric| call_requires(show_seconds, (m,)),
                i <= n <= rows@.len(),
                all == pairs(rows@),
                forall|s: spec_fn(Metric) -> Seq<char>|
                    metric::shows(show_seconds, s) ==> out@ == #[trigger] cpu_lines(
                        self@.date,
                        all.take(i as int),
                        s,
                    ),
            decreases n - i,
        {
            let ghost before = out@;
            let secs = rows[i].1;
            if secs.reaches_whole(1) {
                let shown = show_seconds(secs);
                let mut line = self.date.as_str().to_owned();
                line.append("\t");
                line.append(rows[i].0.as_str());
                line.append("\t");
                line.append(shown.as_str());
                line.append("\n");
                out.append(line.as_str());
            }
            i += 1;
            proof {
                assert(all.take(i as int).drop_last() =~= all.take(i - 1));
                assert(all[i - 1] == (rows@[i - 1].0@, rows@[i - 1].1));
                assert forall|s: spec_fn(Metric) -> Seq<char>|
                    metric::shows(show_seconds, s) implies out@ == #[trigger] cpu_lines(
                    self@.date,
                    all.take(i as int),
                    s,
                ) by {
                    assert(before == cpu_lines(self@.date, all.take(i - 1), s));
                    assert(out@ =~= cpu_lines(self@.date, all.take(i as int), s));
                }
            }
        }
        let ghost lines = out@;
        assert(all.take(i as int) =~= top(self@.cpu, KEPT as int));
        if Metric::zero().less(self.wh) {
            let shown = show_wh(self.wh);
            let mut line = self.date.as_str().to_owned();
            line.append("\t__wh__\t");
            line.append(shown.as_str());
            line.append("\n");
            out.append(line.as_str());
        }
        let r = Some(out);
        proof {
            assert forall|s: spec_fn(Metric) -> Seq<char>, w: spec_fn(Metric) -> Seq<char>|
                metric::shows(show_seconds, s) && metric::shows(show_wh, w) implies text::maybe(r)
                == #[trigger] saved(self@, s, w) by {
                assert(lines == cpu_lines(self@.date, all.take(i as int), s));
                assert(text::maybe(r)->0 =~= saved(self@, s, w)->0);
            }
        }
        r
    }
}

// ---------------------------------------------------------------------------
// Peaks
// ---------------------------------------------------------------------------

/// The last `n` lines, the last first, with two blanks in place of each tab.
pub open spec fn last_lines(lines: Seq<Seq<char>>, n: int) -> Seq<Seq<char>> {
    Seq::new(
        if n < lines.len() {
            n as nat
        } else {
            lines.len()
        },
        |i: int| layout::replaced(lines[lines.len() - 1 - i], '\t', "  "@),
    )
}

/// The expensive stretches that the tally recorded: when, how many watts, and
/// who was busy. The newest first.
pub fn peaks(content: &str, n: usize) -> (r: Vec<String>)
    ensures
        layout::texts(r@) == last_lines(text::lines(content@), n as int),
{
    let chars = text::chars_of(content);
    let lines = text::split_lines(chars.as_slice());
    let ghost all = text::views(lines@);
    let mut out: Vec<String> = Vec::new();
    while out.len() < n && out.len() < lines.len()
        invariant
            all == text::views(lines@),
            out@.len() <= n,
            out@.len() <= lines@.len(),
            forall|i: int|
                0 <= i < out@.len() ==> #[trigger] out@[i]@ == layout::replaced(
                    all[all.len() - 1 - i],
                    '\t',
                    "  "@,
                ),
        decreases lines@.len() - out@.len(),
    {
        let line = lines[lines.len() - 1 - out.len()];
        assert(line@ == all[all.len() - 1 - out@.len()]);
        out.push(layout::replace(line, '\t', "  "));
    }
    assert(layout::texts(out@) =~= last_lines(all, n as int));
    out
}

// ---------------------------------------------------------------------------
// Report
// ---------------------------------------------------------------------------

/// A line of the ledger: what was accounted for whom, and when.
pub struct EntryView {
    pub date: Seq<char>,
    pub comm: Seq<char>,
    pub value: Metric,
}

/// The number that a text gives, zero where it gives none.
pub open spec fn value_of(s: Seq<char>, num: spec_fn(Seq<char>) -> Option<Metric>) -> Metric {
    match num(s) {
        Some(m) => m,
        None => Metric { bits: 0 },
    }
}

/// What a line accounts for; `None` for one with fewer than three fields. A
/// value that is no number counts as zero.
pub open spec fn entry(
    line: Seq<char>,
    num: spec_fn(Seq<char>) -> Option<Metric>,
) -> Option<EntryView> {
    let f = text::fields(line, '\t');
    if f.len() >= 3 {
        Some(
            EntryView {
                date: f[0],
                comm: f[1],
                value: value_of(f[2], num),
            },
        )
    } else {
        None
    }
}

/// The dates in the lines, each where it first stands.
pub open spec fn dates(lines: Seq<Seq<char>>) -> Seq<Seq<char>>
    decreases lines.len(),
{
    if lines.len() == 0 {
        Seq::empty()
    } else {
        let before = dates(lines.drop_last());
        let d = text::fields(lines.last(), '\t')[0];
        if before.contains(d) {
            before
        } else {
            before.push(d)
        }
    }
}

/// The relation that puts the later date above.
pub open spec fn later() -> spec_fn(Seq<char>, Seq<char>) -> bool {
    |a: Seq<char>, b: Seq<char>| text::before(b, a)
}

/// The last days in the lines, the last first.
pub open spec fn last_days(lines: Seq<Seq<char>>, days: int) -> Seq<Seq<char>> {
    let all = order::ranked(dates(lines), later());
    if days < all.len() {
        all.take(days)
    } else {
        all
    }
}

/// What the lines of these days account for, in their order.
pub open spec fn entries(
    lines: Seq<Seq<char>>,
    keep: Seq<Seq<char>>,
    num: spec_fn(Seq<char>) -> Option<Metric>,
) -> Seq<EntryView>
    decreases lines.len(),
{
    if lines.len() == 0 {
        Seq::empty()
    } else {
        let before = entries(lines.drop_last(), keep, num);
        match entry(lines.last(), num) {
            Some(e) => if keep.contains(e.date) {
                before.push(e)
            } else {
                before
            },
            None => before,
        }
    }
}

/// Which entries a sum is over.
pub enum Pick {
    /// The watt-hours.
    Energy,
    /// The seconds of CPU of every command.
    Everyone,
    /// The seconds of CPU of this command.
    One(Seq<char>),
}

/// Whether a sum, of one day or of all, is over this entry.
pub open spec fn picks(e: EntryView, day: Option<Seq<char>>, who: Pick) -> bool {
    &&& day matches Some(d) ==> e.date == d
    &&& match who {
        Pick::Energy => e.comm == "__wh__"@,
        Pick::Everyone => e.comm != "__wh__"@,
        Pick::One(c) => e.comm == c,
    }
}

/// A sum over entries, in their order.
pub open spec fn sum(
    es: Seq<EntryView>,
    day: Option<Seq<char>>,
    who: Pick,
    plus: spec_fn(Metric, Metric) -> Metric,
) -> Metric
    decreases es.len(),
{
    if es.len() == 0 {
        Metric { bits: 0 }
    } else {
        let before = sum(es.drop_last(), day, who, plus);
        if picks(es.last(), day, who) {
            plus(before, es.last().value)
        } else {
            before
        }
    }
}

/// The seconds of CPU by command.
pub open spec fn cpu_rows(
    es: Seq<EntryView>,
    plus: spec_fn(Metric, Metric) -> Metric,
) -> table::Rows
    decreases es.len(),
{
    if es.len() == 0 {
        table::Rows::empty()
    } else {
        let before = cpu_rows(es.drop_last(), plus);
        let e = es.last();
        if e.comm == "__wh__"@ {
            before
        } else {
            table::put(before, e.comm, plus(so_far(before, e.comm), e.value))
        }
    }
}

/// What a command is estimated to have drawn on a day: its share of the day's
/// watt-hours, as its seconds of CPU are to those of all. `share` multiplies
/// and divides.
pub open spec fn estimate_of_day(
    es: Seq<EntryView>,
    day: Seq<char>,
    comm: Seq<char>,
    plus: spec_fn(Metric, Metric) -> Metric,
    share: spec_fn(Metric, Metric, Metric) -> Metric,
) -> Metric {
    let total = sum(es, Some(day), Pick::Everyone, plus);
    if (Metric { bits: 0 }).below(total) {
        share(
            sum(es, Some(day), Pick::Energy, plus),
            sum(es, Some(day), Pick::One(comm), plus),
            total,
        )
    } else {
        Metric { bits: 0 }
    }
}

/// What a command is estimated to have drawn over the days.
pub open spec fn estimate(
    es: Seq<EntryView>,
    days: Seq<Seq<char>>,
    comm: Seq<char>,
    plus: spec_fn(Metric, Metric) -> Metric,
    share: spec_fn(Metric, Metric, Metric) -> Metric,
) -> Metric
    decreases days.len(),
{
    if days.len() == 0 {
        Metric { bits: 0 }
    } else {
        plus(
            estimate(es, days.drop_last(), comm, plus, share),
            estimate_of_day(es, days.last(), comm, plus, share),
        )
    }
}

/// A line of the report: a command, its seconds of CPU, and the watt-hours
/// that it is estimated to have drawn.
pub type Line = (Seq<char>, Metric, Metric);

/// The lines of the report, in the order of the commands.
pub open spec fn estimated(
    rows: table::Rows,
    es: Seq<EntryView>,
    days: Seq<Seq<char>>,
    plus: spec_fn(Metric, Metric) -> Metric,
    share: spec_fn(Metric, Metric, Metric) -> Metric,
) -> Seq<Line> {
    Seq::new(
        rows.len(),
        |i: int| (rows[i].0, rows[i].1, estimate(es, days, rows[i].0, plus, share)),
    )
}

/// The seconds of CPU in a line.
pub open spec fn line_cpu() -> spec_fn(Line) -> Metric {
    |l: Line| l.1
}

/// What a report says.
#[verifier::ext_equal]
pub struct ReportView {
    pub days: int,
    pub total_wh: Metric,
    pub rows: Seq<Line>,
}

/// The report on the last days of a ledger.
pub open spec fn reported(
    content: Seq<char>,
    days: int,
    num: spec_fn(Seq<char>) -> Option<Metric>,
    plus: spec_fn(Metric, Metric) -> Metric,
    share: spec_fn(Metric, Metric, Metric) -> Metric,
) -> ReportView {
    let lines = text::lines(content);
    let keep = last_days(lines, days);
    let es = entries(lines, keep, num);
    ReportView {
        days: keep.len() as int,
        total_wh: sum(es, None, Pick::Energy, plus),
        rows: order::ranked(
            estimated(cpu_rows(es, plus), es, keep, plus, share),
            order::higher(line_cpu()),
        ),
    }
}

/// The report on the last days of a ledger.
#[derive(Debug)]
pub struct Report {
    /// How many days it covers.
    pub days: usize,
    /// The watt-hours that were drawn.
    pub total_wh: Metric,
    /// Commands, their seconds of CPU and what they are estimated to have
    /// drawn, the most CPU first.
    pub rows: Vec<(String, Metric, Metric)>,
}

/// The contents of the lines.
pub open spec fn line_views(v: Seq<(String, Metric, Metric)>) -> Seq<Line> {
    v.map_values(|r: (String, Metric, Metric)| (r.0@, r.1, r.2))
}

impl View for Report {
    type V = ReportView;

    open spec fn view(&self) -> ReportView {
        ReportView {
            days: self.days as int,
            total_wh: self.total_wh,
            rows: line_views(self.rows@),
        }
    }
}

/// A line of the ledger.
struct Entry<'a> {
    date: &'a [char],
    comm: &'a [char],
    value: Metric,
}

impl<'a> Entry<'a> {
    spec fn view(self) -> EntryView {
        EntryView { date: self.date@, comm: self.comm@, value: self.value }
    }
}

spec fn entry_views(v: Seq<Entry>) -> Seq<EntryView> {
    Seq::new(v.len(), |i: int| v[i].view())
}

/// Whether the list holds the text.
fn lists(list: &Vec<&[char]>, s: &[char]) -> (r: bool)
    ensures
        r == text::views(list@).contains(s@),
{
    let ghost all = text::views(list@);
    let mut i: usize = 0;
    while i < list.len()
        invariant
            i <= list@.len(),
            all == text::views(list@),
            forall|j: int| 0 <= j < i ==> #[trigger] all[j] != s@,
        decreases list@.len() - i,
    {
        assert(all[i as int] == list@[i as int]@);
        if text::same(list[i], s) {
            assert(all.contains(all[i as int]));
            return true;
        }
        i += 1;
    }
    false
}

/// The last days in the lines, the last first.
fn find_days<'a>(lines: &Vec<&'a [char]>, days: usize) -> (r: Vec<&'a [char]>)
    ensures
        text::views(r@) == last_days(text::views(lines@), days as int),
{
    let ghost all = text::views(lines@);
    let mut out: Vec<&'a [char]> = Vec::new();
    let mut i: usize = 0;
    assert(all.take(0) =~= Seq::empty());
    assert(text::views(out@) =~= Seq::empty());
    while i < lines.len()
        invariant
            all == text::views(lines@),
            i <= lines@.len(),
            text::views(out@) == dates(all.take(i as int)),
        decreases lines@.len() - i,
    {
        let ghost before = text::views(out@);
        let fields = text::split_fields(lines[i], '\t');
        proof {
            assert(text::views(fields@)[0] == fields@[0]@);
            assert(all.take(i + 1).drop_last() =~= all.take(i as int));
            assert(all.take(i + 1).last() == lines@[i as int]@);
        }
        let d = fields[0];
        if !lists(&out, d) {
            out.push(d);
            assert(text::views(out@) =~= before.push(d@));
        }
        i += 1;
    }
    assert(all.take(i as int) =~= all);
    let ghost found = out@;
    let above = |x: &&[char], y: &&[char]| -> (r: bool)
        ensures
            r == text::before(y@, x@),
    {
        text::comes_before(y, x)
    };
    order::rank(&mut out, above);
    proof {
        let view = |s: &[char]| s@;
        let g = |a: &[char], b: &[char]| later()(view(a), view(b));
        assert(out@ == order::ranked(found, g));
        order::lemma_ranked_view(found, view, later());
        assert(found.map_values(view) =~= text::views(found));
        assert(out@.map_values(view) =~= text::views(out@));
    }
    let ghost ranked = text::views(out@);
    if days < out.len() {
        out.truncate(days);
        assert(text::views(out@) =~= ranked.take(days as int));
    }
    out
}

/// What the lines of these days account for.
fn find_entries<'a, N: Fn(&str) -> Option<Metric>>(
    lines: &Vec<&'a [char]>,
    keep: &Vec<&'a [char]>,
    num: &N,
) -> (r: Vec<Entry<'a>>)
    requires
        forall|t: &str| call_requires(num, (t,)),
    ensures
        forall|n: spec_fn(Seq<char>) -> Option<Metric>|
            metric::reads(*num, n) ==> entry_views(r@) == #[trigger] entries(
                text::views(lines@),
                text::views(keep@),
                n,
            ),
{
    let ghost all = text::views(lines@);
    let ghost days = text::views(keep@);
    let mut out: Vec<Entry<'a>> = Vec::new();
    let mut i: usize = 0;
    assert(all.take(0) =~= Seq::empty());
    assert(entry_views(out@) =~= Seq::empty());
    while i < lines.len()
        invariant
            forall|t: &str| call_requires(num, (t,)),
            all == text::views(lines@),
            days == text::views(keep@),
            i <= lines@.len(),
            forall|n: spec_fn(Seq<char>) -> Option<Metric>|
                metric::reads(*num, n) ==> entry_views(out@) == #[trigger] entries(
                    all.take(i as int),
                    days,
                    n,
                ),
        decreases lines@.len() - i,
    {
        let ghost before = entry_views(out@);
        let fields = text::split_fields(lines[i], '\t');
        let ghost views = text::views(fields@);
        proof {
            assert(all.take(i + 1).drop_last() =~= all.take(i as int));
            assert(all.take(i + 1).last() == lines@[i as int]@);
        }
        if fields.len() >= 3 {
            assert(views[0] == fields@[0]@ && views[1] == fields@[1]@ && views[2] == fields@[2]@);
            if lists(keep, fields[0]) {
                let shown = text::string_of(fields[2]);
                let value = match num(shown.as_str()) {
                    Some(m) => m,
                    None => Metric::zero(),
                };
                out.push(Entry { date: fields[0], comm: fields[1], value });
                assert(entry_views(out@) =~= before.push(
                    EntryView { date: views[0], comm: views[1], value },
                ));
            }
        }
        i += 1;
        proof {
            assert forall|n: spec_fn(Seq<char>) -> Option<Metric>|
                metric::reads(*num, n) implies entry_views(out@) == #[trigger] entries(
                all.take(i as int),
                days,
                n,
            ) by {
                assert(before == entries(all.take(i - 1), days, n));
            }
        }
    }
    assert(all.take(i as int) =~= all);
    out
}

/// Which entries a sum is over.
enum Whose<'a> {
    Energy,
    Everyone,
    One(&'a [char]),
}

impl<'a> Whose<'a> {
    spec fn view(self) -> Pick {
        match self {
            Whose::Energy => Pick::Energy,
            Whose::Everyone => Pick::Everyone,
            Whose::One(c) => Pick::One(c@),
        }
    }
}

spec fn day_view(day: Option<&[char]>) -> Option<Seq<char>> {
    match day {
        Some(d) => Some(d@),
        None => None,
    }
}

/// A sum over entries.
fn find_sum<P: Fn(Metric, Metric) -> Metric>(
    es: &Vec<Entry>,
    day: Option<&[char]>,
    who: &Whose,
    plus: &P,
) -> (r: Metric)
    requires
        forall|a: Metric, b: Metric| call_requires(plus, (a, b)),
    ensures
        forall|p: spec_fn(Metric, Metric) -> Metric|
            metric::combines(*plus, p) ==> r == #[trigger] sum(
                entry_views(es@),
                day_view(day),
                who.view(),
                p,
            ),
{
    let ghost all = entry_views(es@);
    let mut total = Metric::zero();
    let mut i: usize = 0;
    assert(all.take(0) =~= Seq::empty());
    while i < es.len()
        invariant
            forall|a: Metric, b: Metric| call_requires(plus, (a, b)),
            all == entry_views(es@),
            i <= es@.len(),
            forall|p: spec_fn(Metric, Metric) -> Metric|
                metric::combines(*plus, p) ==> total == #[trigger] sum(
                    all.take(i as int),
                    day_view(day),
                    who.view(),
                    p,
                ),
        decreases es@.len() - i,
    {
        let ghost before = total;
        let e = &es[i];
        let on_day = match day {
            Some(d) => text::same(e.date, d),
            None => true,
        };
        let by_whom = match who {
            Whose::Energy => text::is_text(e.comm, "__wh__"),
            Whose::Everyone => !text::is_text(e.comm, "__wh__"),
            Whose::One(c) => text::same(e.comm, c),
        };
        assert(all[i as int] == e.view());
        let picked = on_day && by_whom;
        assert(picked == picks(e.view(), day_view(day), who.view()));
        if picked {
            total = plus(total, e.value);
        }
        i += 1;
        proof {
            assert(all.take(i as int).drop_last() =~= all.take(i - 1));
            assert forall|p: spec_fn(Metric, Metric) -> Metric|
                metric::combines(*plus, p) implies total == #[trigger] sum(
                all.take(i as int),
                day_view(day),
                who.view(),
                p,
            ) by {
                assert(before == sum(all.take(i - 1), day_view(day), who.view(), p));
            }
        }
    }
    assert(all.take(i as int) =~= all);
    total
}

/// The seconds of CPU by command.
fn find_cpu<P: Fn(Metric, Metric) -> Metric>(es: &Vec<Entry>, plus: &P) -> (r: Table)
    requires
        forall|a: Metric, b: Metric| call_requires(plus, (a, b)),
    ensures
        forall|p: spec_fn(Metric, Metric) -> Metric|
            metric::combines(*plus, p) ==> r@ == #[trigger] cpu_rows(entry_views(es@), p),
{
    let ghost all = entry_views(es@);
    let mut rows = Table::new();
    let mut i: usize = 0;
    assert(all.take(0) =~= Seq::empty());
    while i < es.len()
        invariant
            forall|a: Metric, b: Metric| call_requires(plus, (a, b)),
            all == entry_views(es@),
            i <= es@.len(),
            forall|p: spec_fn(Metric, Metric) -> Metric|
                metric::combines(*plus, p) ==> rows@ == #[trigger] cpu_rows(all.take(i as int), p),
        decreases es@.len() - i,
    {
        let ghost before = rows@;
        let e = &es[i];
        assert(all[i as int] == e.view());
        if !text::is_text(e.comm, "__wh__") {
            let comm = text::string_of(e.comm);
            let secs = match rows.get(comm.as_str()) {
                Some(m) => m,
                None => Metric::zero(),
            };
            rows.put(comm.as_str(), plus(secs, e.value));
        }
        i += 1;
        proof {
            assert(all.take(i as int).drop_last() =~= all.take(i - 1));
            assert forall|p: spec_fn(Metric, Metric) -> Metric|
                metric::combines(*plus, p) implies rows@ == #[trigger] cpu_rows(
                all.take(i as int),
                p,
            ) by {
                assert(before == cpu_rows(all.take(i - 1), p));
            }
        }
    }
    assert(all.take(i as int) =~= all);
    rows
}

/// What a command is estimated to have drawn over the days.
fn find_estimate<P: Fn(Metric, Metric) -> Metric, S: Fn(Metric, Metric, Metric) -> Metric>(
    es: &Vec<Entry>,
    days: &Vec<&[char]>,
    comm: &[char],
    plus: &P,
    share: &S,
) -> (r: Metric)
    requires
        forall|a: Metric, b: Metric| call_requires(plus, (a, b)),
        forall|a: Metric, b: Metric, c: Metric| call_requires(share, (a, b, c)),
    ensures
        forall|
            p: spec_fn(Metric, Metric) -> Metric,
            s: spec_fn(Metric, Metric, Metric) -> Metric,
        |
            metric::combines(*plus, p) && metric::combines_three(*share, s) ==> r
                == #[trigger] estimate(entry_views(es@), text::views(days@), comm@, p, s),
{
    let ghost all = text::views(days@);
    let ghost ev = entry_views(es@);
    let mut total = Metric::zero();
    let mut i: usize = 0;
    assert(all.take(0) =~= Seq::empty());
    while i < days.len()
        invariant
            forall|a: Metric, b: Metric| call_requires(plus, (a, b)),
            forall|a: Metric, b: Metric, c: Metric| call_requires(share, (a, b, c)),
            all == text::views(days@),
            ev == entry_views(es@),
            i <= days@.len(),
            forall|
                p: spec_fn(Metric, Metric) -> Metric,
                s: spec_fn(Metric, Metric, Metric) -> Metric,
            |
                metric::combines(*plus, p) && metric::combines_three(*share, s) ==> total
                    == #[trigger] estimate(ev, all.take(i as int), comm@, p, s),
        decreases days@.len() - i,
    {
        let ghost before = total;
        let day = days[i];
        assert(all[i as int] == day@);
        let everyone = find_sum(es, Some(day), &Whose::Everyone, plus);
        let energy = find_sum(es, Some(day), &Whose::Energy, plus);
        let own = find_sum(es, Some(day), &Whose::One(comm), plus);
        let part = if Metric::zero().less(everyone) {
            share(energy, own, everyone)
        } else {
            Metric::zero()
        };
        total = plus(total, part);
        i += 1;
        proof {
            assert(all.take(i as int).drop_last() =~= all.take(i - 1));
            assert forall|
                p: spec_fn(Metric, Metric) -> Metric,
                s: spec_fn(Metric, Metric, Metric) -> Metric,
            |
                metric::combines(*plus, p) && metric::combines_three(*share, s) implies total
                == #[trigger] estimate(ev, all.take(i as int), comm@, p, s) by {
                assert(before == estimate(ev, all.take(i - 1), comm@, p, s));
                assert(everyone == sum(ev, Some(day@), Pick::Everyone, p));
                assert(energy == sum(ev, Some(day@), Pick::Energy, p));
                assert(own == sum(ev, Some(day@), Pick::One(comm@), p));
                assert(part == estimate_of_day(ev, day@, comm@, p, s));
            }
        }
    }
    assert(all.take(i as int) =~= all);
    total
}

/// The report on the last `days` days of a ledger. `num` reads a number, and
/// `plus` and `share` do the sums.
pub fn report<
    N: Fn(&str) -> Option<Metric>,
    P: Fn(Metric, Metric) -> Metric,
    S: Fn(Metric, Metric, Metric) -> Metric,
>(content: &str, days: usize, num: N, plus: P, share: S) -> (r: Report)
    requires
        forall|t: &str| call_requires(num, (t,)),
        forall|a: Metric, b: Metric| call_requires(plus, (a, b)),
        forall|a: Metric, b: Metric, c: Metric| call_requires(share, (a, b, c)),
    ensures
        r.days == last_days(text::lines(content@), days as int).len(),
        forall|
            n: spec_fn(Seq<char>) -> Option<Metric>,
            p: spec_fn(Metric, Metric) -> Metric,
            s: spec_fn(Metric, Metric, Metric) -> Metric,
        |
            metric::reads(num, n) && metric::combines(plus, p) && metric::combines_three(share, s)
                ==> r@ == #[trigger] reported(content@, days as int, n, p, s),
{
    let chars = text::chars_of(content);
    let lines = text::split_lines(chars.as_slice());
    let keep = find_days(&lines, days);
    let es = find_entries(&lines, &keep, &num);
    let ghost ev = entry_views(es@);
    let ghost kept = text::views(keep@);
    let total_wh = find_sum(&es, None, &Whose::Energy, &plus);
    let cpu = find_cpu(&es, &plus);
    let ghost cv = cpu@;
    let mut rows: Vec<(String, Metric, Metric)> = Vec::new();
    let mut i: usize = 0;
    while i < cpu.len()
        invariant
            forall|a: Metric, b: Metric| call_requires(plus, (a, b)),
            forall|a: Metric, b: Metric, c: Metric| call_requires(share, (a, b, c)),
            i <= cpu@.len(),
            cv == cpu@,
            ev == entry_views(es@),
            kept == text::views(keep@),
            rows@.len() == i,
            forall|j: int|
                0 <= j < i ==> (#[trigger] rows@[j]).0@ == cv[j].0 && rows@[j].1 == cv[j].1,
            forall|
                p: spec_fn(Metric, Metric) -> Metric,
                s: spec_fn(Metric, Metric, Metric) -> Metric,
                j: int,
            |
                metric::combines(plus, p) && metric::combines_three(share, s) && 0 <= j < i
                    ==> rows@[j].2 == #[trigger] estimate(ev, kept, cv[j].0, p, s),
        decreases cpu@.len() - i,
    {
        let comm = text::chars_of(cpu.name(i));
        let est = find_estimate(&es, &keep, comm.as_slice(), &plus, &share);
        rows.push((text::string_of(comm.as_slice()), cpu.value(i), est));
        i += 1;
    }
    let ghost found = rows@;
    let above = |x: &(String, Metric, Metric), y: &(String, Metric, Metric)| -> (r: bool)
        ensures
            r == y.1.below(x.1),
    {
        y.1.less(x.1)
    };
    order::rank(&mut rows, above);
    let r = Report { days: keep.len(), total_wh, rows };
    proof {
        let view = |r: (String, Metric, Metric)| (r.0@, r.1, r.2);
        let high = order::higher(line_cpu());
        let g = |a: (String, Metric, Metric), b: (String, Metric, Metric)| high(view(a), view(b));
        assert(r.rows@ == order::ranked(found, g));
        order::lemma_ranked_view(found, view, high);
        assert forall|
            n: spec_fn(Seq<char>) -> Option<Metric>,
            p: spec_fn(Metric, Metric) -> Metric,
            s: spec_fn(Metric, Metric, Metric) -> Metric,
        |
            metric::reads(num, n) && metric::combines(plus, p) && metric::combines_three(
                share,
                s,
            ) implies r@ == #[trigger] reported(content@, days as int, n, p, s) by {
            assert(ev == entries(text::lines(content@), kept, n));
            assert(cv == cpu_rows(ev, p));
            assert(total_wh == sum(ev, None, Pick::Energy, p));
            let want = estimated(cv, ev, kept, p, s);
            assert forall|j: int| 0 <= j < want.len() implies #[trigger] line_views(found)[j]
                == want[j] by {
                assert(found[j].2 == estimate(ev, kept, cv[j].0, p, s));
                assert(found[j].0@ == cv[j].0);
            }
            assert(line_views(found) =~= want);
        }
    }
    r
}

// ---------------------------------------------------------------------------
// Laws
// ---------------------------------------------------------------------------

/// The command with the most CPU stands first, where all are numbers.
pub proof fn law_report_goes_down(
    content: Seq<char>,
    days: int,
    num: spec_fn(Seq<char>) -> Option<Metric>,
    plus: spec_fn(Metric, Metric) -> Metric,
    share: spec_fn(Metric, Metric, Metric) -> Metric,
    i: int,
    j: int,
)
    requires
        forall|k: int|
            0 <= k < reported(content, days, num, plus, share).rows.len() ==> (#[trigger] reported(
                content,
                days,
                num,
                plus,
                share,
            ).rows[k]).1.is_number(),
        0 <= i < j < reported(content, days, num, plus, share).rows.len(),
    ensures
        reported(content, days, num, plus, share).rows[i].1.at_least(
            reported(content, days, num, plus, share).rows[j].1,
        ),
{
    let lines = text::lines(content);
    let keep = last_days(lines, days);
    let es = entries(lines, keep, num);
    let found = estimated(cpu_rows(es, plus), es, keep, plus, share);
    let r = reported(content, days, num, plus, share).rows;
    let high = order::higher(line_cpu());
    order::law_ranked_keeps_items(found, high);
    assert forall|k: int| 0 <= k < found.len() implies line_cpu()(
        #[trigger] found[k],
    ).is_number() by {
        assert(found.contains(found[k]));
        assert(r.contains(found[k]));
    }
    order::law_higher_goes_down(found, line_cpu());
    assert(line_cpu()(r[i]).at_least(line_cpu()(r[j])));
}

/// What a session writes are the commands with the most CPU: one that is left
/// out has no more than any that is written, where all are numbers.
pub proof fn law_session_keeps_the_most(rows: table::Rows, n: int, row: (Seq<char>, Metric), i: int)
    requires
        0 <= n,
        forall|k: int| 0 <= k < rows.len() ==> (#[trigger] rows[k]).1.is_number(),
        rows.contains(row),
        !top(rows, n).contains(row),
        0 <= i < top(rows, n).len(),
    ensures
        top(rows, n).len() == n,
        top(rows, n)[i].1.at_least(row.1),
{
    let high = order::higher(row_value());
    let all = order::ranked(rows, high);
    order::law_ranked_keeps_items(rows, high);
    assert(all.contains(row));
    let j = choose|j: int| 0 <= j < all.len() && all[j] == row;
    if n >= all.len() {
        assert(top(rows, n) == all);
    } else {
        if j < n {
            assert(top(rows, n)[j] == row);
        }
        assert forall|k: int| 0 <= k < rows.len() implies row_value()(
            #[trigger] rows[k],
        ).is_number() by {}
        order::law_higher_goes_down(rows, row_value());
        assert(row_value()(all[i]).at_least(row_value()(all[j])));
    }
}

proof fn lemma_cpu_rows_names(es: Seq<EntryView>, plus: spec_fn(Metric, Metric) -> Metric, i: int)
    requires
        0 <= i < cpu_rows(es, plus).len(),
    ensures
        cpu_rows(es, plus)[i].0 != "__wh__"@,
    decreases es.len(),
{
    if es.len() > 0 {
        let before = cpu_rows(es.drop_last(), plus);
        table::lemma_place(before, es.last().comm, 0);
        if i < before.len() {
            lemma_cpu_rows_names(es.drop_last(), plus, i);
        }
    }
}

/// The watt-hours are no command of the report.
pub proof fn law_energy_is_no_command(
    content: Seq<char>,
    days: int,
    num: spec_fn(Seq<char>) -> Option<Metric>,
    plus: spec_fn(Metric, Metric) -> Metric,
    share: spec_fn(Metric, Metric, Metric) -> Metric,
    i: int,
)
    requires
        0 <= i < reported(content, days, num, plus, share).rows.len(),
    ensures
        reported(content, days, num, plus, share).rows[i].0 != "__wh__"@,
{
    let lines = text::lines(content);
    let keep = last_days(lines, days);
    let es = entries(lines, keep, num);
    let found = estimated(cpu_rows(es, plus), es, keep, plus, share);
    let r = reported(content, days, num, plus, share).rows;
    order::law_ranked_keeps_items(found, order::higher(line_cpu()));
    assert(r.contains(r[i]));
    assert(found.contains(r[i]));
    let k = choose|k: int| 0 <= k < found.len() && found[k] == r[i];
    lemma_cpu_rows_names(es, plus, k);
}

proof fn lemma_dates_distinct(lines: Seq<Seq<char>>)
    ensures
        dates(lines).no_duplicates(),
    decreases lines.len(),
{
    if lines.len() > 0 {
        lemma_dates_distinct(lines.drop_last());
        let before = dates(lines.drop_last());
        let d = text::fields(lines.last(), '\t')[0];
        if !before.contains(d) {
            let after = dates(lines);
            assert forall|i: int, j: int| 0 <= i < after.len() && 0 <= j < after.len() && i
                != j implies after[i] != after[j] by {
                if i < before.len() && j < before.len() {
                    assert(before[i] != before[j]);
                } else if i < before.len() {
                    assert(before.contains(before[i]));
                } else {
                    assert(before.contains(before[j]));
                }
            }
        }
    }
}

proof fn lemma_later_orders(s: Seq<Seq<char>>)
    ensures
        order::orders(s, later()),
{
    assert forall|a: Seq<char>, b: Seq<char>| #[trigger] later()(a, b) implies !later()(b, a) by {
        text::lemma_before_is_total(a, b);
    }
    assert forall|a: Seq<char>, b: Seq<char>, c: Seq<char>|
        #![trigger later()(a, c), s.contains(b)]
        later()(a, c) && s.contains(a) && s.contains(b) && s.contains(c) implies later()(a, b)
        || later()(b, c) by {
        text::lemma_before_is_total(a, b);
        text::lemma_before_is_total(b, c);
        if !later()(a, b) && !later()(b, c) {
            if a != b && b != c {
                text::lemma_before_is_transitive(a, b, c);
                text::lemma_before_is_total(a, c);
            }
        }
    }
}

/// A report covers the last days that the ledger holds, as many as were asked
/// for where there are so many, and each of them once: a date that stands in
/// the ledger and is not covered comes before every date that is.
pub proof fn law_report_covers_the_last_days(lines: Seq<Seq<char>>, days: int)
    requires
        0 <= days,
    ensures
        last_days(lines, days).len() == (if days < dates(lines).len() {
            days
        } else {
            dates(lines).len() as int
        }),
        last_days(lines, days).no_duplicates(),
        forall|d: Seq<char>| #[trigger]
            last_days(lines, days).contains(d) ==> dates(lines).contains(d),
        forall|d: Seq<char>, k: Seq<char>|
            dates(lines).contains(d) && !last_days(lines, days).contains(d)
                && #[trigger] last_days(lines, days).contains(k) ==> #[trigger] text::before(d, k),
{
    let all = dates(lines);
    let r = order::ranked(all, later());
    let keep = last_days(lines, days);
    lemma_dates_distinct(lines);
    lemma_later_orders(all);
    order::law_ranked_keeps_items(all, later());
    order::law_ranked_is_sorted(all, later());
    order::lemma_ranked_distinct(all, later());
    assert forall|d: Seq<char>| #[trigger] keep.contains(d) implies all.contains(d) by {
        let i = choose|i: int| 0 <= i < keep.len() && keep[i] == d;
        assert(r[i] == d);
        assert(r.contains(d));
    }
    assert forall|i: int, j: int| 0 <= i < keep.len() && 0 <= j < keep.len() && i != j implies keep[i]
        != keep[j] by {
        assert(r[i] != r[j]);
    }
    assert forall|d: Seq<char>, k: Seq<char>|
        all.contains(d) && !keep.contains(d) && #[trigger] keep.contains(k) implies #[trigger] text::before(
        d,
        k,
    ) by {
        assert(r.contains(d));
        let j = choose|j: int| 0 <= j < r.len() && r[j] == d;
        let i = choose|i: int| 0 <= i < keep.len() && keep[i] == k;
        assert(r[i] == k);
        if j < keep.len() {
            assert(keep[j] == d);
            assert(keep.contains(d));
        }
        assert(i < j);
        assert(!later()(r[j], r[i]));
        text::lemma_before_is_total(d, k);
    }
}

/// The sum of the values that a sum is over, without rounding.
pub open spec fn total(es: Seq<EntryView>, day: Option<Seq<char>>, who: Pick) -> int
    decreases es.len(),
{
    if es.len() == 0 {
        0
    } else {
        total(es.drop_last(), day, who) + if picks(es.last(), day, who) {
            es.last().value.value()
        } else {
            0
        }
    }
}

/// Whether `plus` does this sum without rounding.
pub open spec fn sums_exactly(
    es: Seq<EntryView>,
    day: Option<Seq<char>>,
    who: Pick,
    plus: spec_fn(Metric, Metric) -> Metric,
) -> bool
    decreases es.len(),
{
    if es.len() == 0 {
        true
    } else {
        &&& sums_exactly(es.drop_last(), day, who, plus)
        &&& picks(es.last(), day, who) ==> sum(es, day, who, plus).value() == sum(
            es.drop_last(),
            day,
            who,
            plus,
        ).value() + es.last().value.value()
    }
}

proof fn lemma_sums_exactly(
    es: Seq<EntryView>,
    day: Option<Seq<char>>,
    who: Pick,
    plus: spec_fn(Metric, Metric) -> Metric,
)
    requires
        sums_exactly(es, day, who, plus),
    ensures
        sum(es, day, who, plus).value() == total(es, day, who),
    decreases es.len(),
{
    if es.len() > 0 {
        lemma_sums_exactly(es.drop_last(), day, who, plus);
    } else {
        metric::lemma_zero_value();
    }
}

/// The totals of the first `n` names of the rows on a day, taken together.
spec fn totals(es: Seq<EntryView>, day: Seq<char>, rows: table::Rows, n: int) -> int
    decreases n,
{
    if n <= 0 {
        0
    } else {
        totals(es, day, rows, n - 1) + total(es, Some(day), Pick::One(rows[n - 1].0))
    }
}

proof fn lemma_totals_step(es: Seq<EntryView>, day: Seq<char>, rows: table::Rows, n: int)
    requires
        es.len() > 0,
        0 <= n <= rows.len(),
        table::distinct(rows),
    ensures
        totals(es, day, rows, n) == totals(es.drop_last(), day, rows, n) + if es.last().date == day
            && (exists|i: int| 0 <= i < n && (#[trigger] rows[i]).0 == es.last().comm) {
            es.last().value.value()
        } else {
            0
        },
    decreases n,
{
    if n > 0 {
        lemma_totals_step(es, day, rows, n - 1);
        let e = es.last();
        if rows[n - 1].0 == e.comm {
            assert forall|i: int| 0 <= i < n - 1 implies (#[trigger] rows[i]).0 != e.comm by {
                assert(rows[i].0 != rows[n - 1].0);
            }
        } else if exists|i: int| 0 <= i < n && (#[trigger] rows[i]).0 == e.comm {
            let i = choose|i: int| 0 <= i < n && (#[trigger] rows[i]).0 == e.comm;
            assert(i < n - 1);
            assert(rows[i].0 == e.comm);
        }
    }
}

proof fn lemma_totals_add_up(es: Seq<EntryView>, day: Seq<char>, rows: table::Rows)
    requires
        table::distinct(rows),
        forall|i: int| 0 <= i < rows.len() ==> (#[trigger] rows[i]).0 != "__wh__"@,
        forall|k: int|
            0 <= k < es.len() && (#[trigger] es[k]).comm != "__wh__"@ ==> exists|i: int|
                0 <= i < rows.len() && (#[trigger] rows[i]).0 == es[k].comm,
    ensures
        totals(es, day, rows, rows.len() as int) == total(es, Some(day), Pick::Everyone),
    decreases es.len(),
{
    if es.len() == 0 {
        lemma_totals_of_nothing(es, day, rows, rows.len() as int);
    } else {
        let t = es.drop_last();
        let e = es.last();
        assert forall|k: int| 0 <= k < t.len() && (#[trigger] t[k]).comm != "__wh__"@ implies exists|
            i: int,
        |
            0 <= i < rows.len() && (#[trigger] rows[i]).0 == t[k].comm by {
            assert(t[k] == es[k]);
        }
        lemma_totals_add_up(t, day, rows);
        lemma_totals_step(es, day, rows, rows.len() as int);
        assert(e == es[es.len() - 1]);
    }
}

proof fn lemma_totals_of_nothing(es: Seq<EntryView>, day: Seq<char>, rows: table::Rows, n: int)
    requires
        es.len() == 0,
    ensures
        totals(es, day, rows, n) == 0,
    decreases n,
{
    if n > 0 {
        lemma_totals_of_nothing(es, day, rows, n - 1);
    }
}

proof fn lemma_cpu_rows(es: Seq<EntryView>, plus: spec_fn(Metric, Metric) -> Metric)
    ensures
        table::distinct(cpu_rows(es, plus)),
        forall|k: int|
            0 <= k < es.len() && (#[trigger] es[k]).comm != "__wh__"@ ==> exists|i: int|
                0 <= i < cpu_rows(es, plus).len() && (#[trigger] cpu_rows(es, plus)[i]).0
                    == es[k].comm,
    decreases es.len(),
{
    if es.len() > 0 {
        let t = es.drop_last();
        let e = es.last();
        let before = cpu_rows(t, plus);
        let after = cpu_rows(es, plus);
        lemma_cpu_rows(t, plus);
        table::lemma_place(before, e.comm, 0);
        if e.comm != "__wh__"@ {
            table::law_put_keeps_distinct(
                before,
                e.comm,
                plus(so_far(before, e.comm), e.value),
            );
        }
        assert forall|k: int| 0 <= k < es.len() && (#[trigger] es[k]).comm != "__wh__"@ implies exists|
            i: int,
        |
            0 <= i < after.len() && (#[trigger] after[i]).0 == es[k].comm by {
            if k < t.len() {
                assert(t[k] == es[k]);
                let i = choose|i: int| 0 <= i < before.len() && (#[trigger] before[i]).0 == t[k].comm;
                assert(after[i].0 == es[k].comm);
            } else {
                let p = table::place(before, e.comm, 0);
                assert(after[p].0 == e.comm);
            }
        }
    }
}

/// What the first `n` commands of the rows are estimated to have drawn on a
/// day, taken together without rounding.
pub open spec fn estimates_of_day(
    es: Seq<EntryView>,
    day: Seq<char>,
    rows: table::Rows,
    n: int,
    plus: spec_fn(Metric, Metric) -> Metric,
    share: spec_fn(Metric, Metric, Metric) -> Metric,
) -> int
    decreases n,
{
    if n <= 0 {
        0
    } else {
        estimates_of_day(es, day, rows, n - 1, plus, share) + estimate_of_day(
            es,
            day,
            rows[n - 1].0,
            plus,
            share,
        ).value()
    }
}

/// Whether `share` gives a command its part of the day's watt-hours without
/// rounding: as the part is to the whole, so are its seconds to those of all.
pub open spec fn shares_exactly(
    es: Seq<EntryView>,
    day: Seq<char>,
    comm: Seq<char>,
    plus: spec_fn(Metric, Metric) -> Metric,
    share: spec_fn(Metric, Metric, Metric) -> Metric,
) -> bool {
    let energy = sum(es, Some(day), Pick::Energy, plus);
    let own = sum(es, Some(day), Pick::One(comm), plus);
    let all = sum(es, Some(day), Pick::Everyone, plus);
    share(energy, own, all).value() * all.value() == energy.value() * own.value()
}

proof fn lemma_estimates(
    es: Seq<EntryView>,
    day: Seq<char>,
    rows: table::Rows,
    n: int,
    plus: spec_fn(Metric, Metric) -> Metric,
    share: spec_fn(Metric, Metric, Metric) -> Metric,
)
    requires
        0 <= n <= rows.len(),
        (Metric { bits: 0 }).below(sum(es, Some(day), Pick::Everyone, plus)),
        forall|i: int|
            0 <= i < rows.len() ==> sums_exactly(
                es,
                Some(day),
                Pick::One((#[trigger] rows[i]).0),
                plus,
            ) && shares_exactly(es, day, rows[i].0, plus, share),
    ensures
        estimates_of_day(es, day, rows, n, plus, share) * sum(
            es,
            Some(day),
            Pick::Everyone,
            plus,
        ).value() == sum(es, Some(day), Pick::Energy, plus).value() * totals(es, day, rows, n),
    decreases n,
{
    let all = sum(es, Some(day), Pick::Everyone, plus).value();
    let energy = sum(es, Some(day), Pick::Energy, plus).value();
    if n > 0 {
        lemma_estimates(es, day, rows, n - 1, plus, share);
        let name = rows[n - 1].0;
        assert(sums_exactly(es, Some(day), Pick::One(name), plus));
        assert(shares_exactly(es, day, name, plus, share));
        lemma_sums_exactly(es, Some(day), Pick::One(name), plus);
        let own = total(es, Some(day), Pick::One(name));
        let part = estimate_of_day(es, day, name, plus, share).value();
        let before = estimates_of_day(es, day, rows, n - 1, plus, share);
        let sofar = totals(es, day, rows, n - 1);
        assert((before + part) * all == energy * (sofar + own)) by (nonlinear_arith)
            requires
                before * all == energy * sofar,
                part * all == energy * own,
        ;
    } else {
        assert(0 * all == energy * 0) by (nonlinear_arith);
    }
}

/// What the commands of a report are estimated to have drawn on a day is what
/// was drawn on that day, all of it and no more, where some command had CPU and
/// no sum and no part is rounded.
pub proof fn law_estimates_add_up_to_the_day(
    es: Seq<EntryView>,
    day: Seq<char>,
    plus: spec_fn(Metric, Metric) -> Metric,
    share: spec_fn(Metric, Metric, Metric) -> Metric,
)
    requires
        (Metric { bits: 0 }).below(sum(es, Some(day), Pick::Everyone, plus)),
        sums_exactly(es, Some(day), Pick::Everyone, plus),
        forall|i: int|
            0 <= i < cpu_rows(es, plus).len() ==> sums_exactly(
                es,
                Some(day),
                Pick::One((#[trigger] cpu_rows(es, plus)[i]).0),
                plus,
            ) && shares_exactly(es, day, cpu_rows(es, plus)[i].0, plus, share),
    ensures
        estimates_of_day(
            es,
            day,
            cpu_rows(es, plus),
            cpu_rows(es, plus).len() as int,
            plus,
            share,
        ) == sum(es, Some(day), Pick::Energy, plus).value(),
{
    let rows = cpu_rows(es, plus);
    let n = rows.len() as int;
    lemma_cpu_rows(es, plus);
    assert forall|i: int| 0 <= i < rows.len() implies (#[trigger] rows[i]).0 != "__wh__"@ by {
        lemma_cpu_rows_names(es, plus, i);
    }
    lemma_totals_add_up(es, day, rows);
    lemma_sums_exactly(es, Some(day), Pick::Everyone, plus);
    lemma_estimates(es, day, rows, n, plus, share);
    metric::lemma_zero_value();
    let all = sum(es, Some(day), Pick::Everyone, plus).value();
    let energy = sum(es, Some(day), Pick::Energy, plus).value();
    let estimates = estimates_of_day(es, day, rows, n, plus, share);
    assert(estimates == energy) by (nonlinear_arith)
        requires
            estimates * all == energy * all,
            all > 0,
    ;
}

proof fn lemma_entries_add(
    a: Seq<Seq<char>>,
    b: Seq<Seq<char>>,
    keep: Seq<Seq<char>>,
    num: spec_fn(Seq<char>) -> Option<Metric>,
)
    ensures
        entries(a + b, keep, num) == entries(a, keep, num) + entries(b, keep, num),
    decreases b.len(),
{
    if b.len() == 0 {
        assert(a + b =~= a);
        assert(entries(a, keep, num) + entries(b, keep, num) =~= entries(a, keep, num));
    } else {
        lemma_entries_add(a, b.drop_last(), keep, num);
        assert((a + b).drop_last() =~= a + b.drop_last());
        assert((a + b).last() == b.last());
        assert(entries(a + b, keep, num) =~= entries(a, keep, num) + entries(b, keep, num));
    }
}

/// Lines that are put behind the complete lines of a ledger add their entries
/// to its own.
pub proof fn law_appended_lines_add_their_entries(
    ledger: Seq<char>,
    added: Seq<char>,
    keep: Seq<Seq<char>>,
    num: spec_fn(Seq<char>) -> Option<Metric>,
)
    requires
        ledger.len() == 0 || ledger.last() == '\n',
    ensures
        entries(text::lines(ledger + added), keep, num) == entries(text::lines(ledger), keep, num)
            + entries(text::lines(added), keep, num),
{
    text::law_lines_add_up(ledger, added);
    lemma_entries_add(text::lines(ledger), text::lines(added), keep, num);
}

/// Whether a text fits in a field: without a tab or a line feed.
pub open spec fn fits(s: Seq<char>) -> bool {
    forall|i: int| 0 <= i < s.len() ==> #[trigger] s[i] != '\t' && s[i] != '\n'
}

/// Whether a text fits in the last field of a line.
pub open spec fn fits_last(s: Seq<char>) -> bool {
    fits(s) && (s.len() > 0 ==> s.last() != '\r')
}

proof fn lemma_line_reads_back(
    date: Seq<char>,
    comm: Seq<char>,
    shown: Seq<char>,
    keep: Seq<Seq<char>>,
    num: spec_fn(Seq<char>) -> Option<Metric>,
)
    requires
        fits(date),
        fits(comm),
        fits_last(shown),
        keep.contains(date),
    ensures
        entries(
            text::lines(date + seq!['\t'] + comm + seq!['\t'] + shown + seq!['\n']),
            keep,
            num,
        ) == seq![EntryView { date, comm, value: value_of(shown, num) }],
{
    let rest = comm + seq!['\t'] + shown;
    let body = date + seq!['\t'] + rest;
    let line = date + seq!['\t'] + comm + seq!['\t'] + shown + seq!['\n'];
    assert(line =~= body + seq!['\n'] + Seq::<char>::empty());
    assert forall|i: int| 0 <= i < body.len() implies #[trigger] body[i] != '\n' by {
        let n = date.len() as int;
        let m = comm.len() as int;
        if i < n {
            assert(body[i] == date[i]);
        } else if i > n && i < n + 1 + m {
            assert(body[i] == comm[i - n - 1]);
        } else if i > n + 1 + m {
            assert(body[i] == shown[i - n - m - 2]);
        }
    }
    text::lemma_lines_first(body, Seq::empty());
    assert(body.last() != '\r') by {
        if shown.len() > 0 {
            assert(body.last() == shown.last());
        } else {
            assert(body.last() == '\t');
        }
    }
    assert(text::lines(Seq::<char>::empty()) =~= Seq::empty());
    let ls = text::lines(line);
    assert(ls =~= seq![body]);
    text::lemma_fields_first(date, rest, '\t');
    text::lemma_fields_first(comm, shown, '\t');
    text::lemma_fields_one(shown, '\t');
    assert(text::fields(body, '\t') =~= seq![date, comm, shown]);
    assert(ls.drop_last() =~= Seq::empty());
    assert(entries(ls.drop_last(), keep, num) =~= Seq::empty());
    assert(entries(ls, keep, num) =~= seq![EntryView { date, comm, value: value_of(shown, num) }]);
}

/// What the lines of the commands account for.
pub open spec fn cpu_entries(
    date: Seq<char>,
    rows: table::Rows,
    show: spec_fn(Metric) -> Seq<char>,
    num: spec_fn(Seq<char>) -> Option<Metric>,
) -> Seq<EntryView>
    decreases rows.len(),
{
    if rows.len() == 0 {
        Seq::empty()
    } else {
        let before = cpu_entries(date, rows.drop_last(), show, num);
        if rows.last().1.at_least_whole(1) {
            before.push(
                EntryView {
                    date,
                    comm: rows.last().0,
                    value: value_of(show(rows.last().1), num),
                },
            )
        } else {
            before
        }
    }
}

proof fn lemma_cpu_lines_read_back(
    date: Seq<char>,
    rows: table::Rows,
    show: spec_fn(Metric) -> Seq<char>,
    keep: Seq<Seq<char>>,
    num: spec_fn(Seq<char>) -> Option<Metric>,
)
    requires
        fits(date),
        keep.contains(date),
        forall|i: int|
            0 <= i < rows.len() ==> fits((#[trigger] rows[i]).0) && fits_last(show(rows[i].1)),
    ensures
        entries(text::lines(cpu_lines(date, rows, show)), keep, num) == cpu_entries(
            date,
            rows,
            show,
            num,
        ),
        cpu_lines(date, rows, show).len() > 0 ==> cpu_lines(date, rows, show).last() == '\n',
    decreases rows.len(),
{
    if rows.len() == 0 {
        assert(text::lines(cpu_lines(date, rows, show)) =~= Seq::empty());
        assert(entries(text::lines(cpu_lines(date, rows, show)), keep, num) =~= Seq::empty());
    } else {
        let t = rows.drop_last();
        let row = rows.last();
        assert forall|i: int| 0 <= i < t.len() implies fits((#[trigger] t[i]).0) && fits_last(
            show(t[i].1),
        ) by {
            assert(t[i] == rows[i]);
        }
        lemma_cpu_lines_read_back(date, t, show, keep, num);
        let before = cpu_lines(date, t, show);
        let all = cpu_lines(date, rows, show);
        if row.1.at_least_whole(1) {
            let line = cpu_line(date, row, show);
            assert(row == rows[rows.len() - 1]);
            law_command_line_reads_back(date, row, show, keep, num);
            law_appended_lines_add_their_entries(before, line, keep, num);
            assert(all == before + line);
            assert(all.last() == line.last());
            assert(entries(text::lines(all), keep, num) =~= cpu_entries(date, rows, show, num));
        } else {
            assert(all =~= before);
        }
    }
}

/// The line of the watt-hours is read back as it was written.
pub proof fn law_energy_line_reads_back(
    date: Seq<char>,
    wh: Metric,
    show: spec_fn(Metric) -> Seq<char>,
    keep: Seq<Seq<char>>,
    num: spec_fn(Seq<char>) -> Option<Metric>,
)
    requires
        fits(date),
        fits_last(show(wh)),
        keep.contains(date),
    ensures
        entries(text::lines(wh_line(date, wh, show)), keep, num) == seq![
            EntryView { date, comm: "__wh__"@, value: value_of(show(wh), num) },
        ],
{
    reveal_strlit("\t__wh__\t");
    reveal_strlit("__wh__");
    reveal_strlit("\n");
    assert("\t__wh__\t"@ =~= seq!['\t'] + "__wh__"@ + seq!['\t']);
    assert("\n"@ =~= seq!['\n']);
    assert(wh_line(date, wh, show) =~= date + seq!['\t'] + "__wh__"@ + seq!['\t'] + show(wh)
        + seq!['\n']);
    lemma_line_reads_back(date, "__wh__"@, show(wh), keep, num);
}

/// The line of a command is read back as it was written.
pub proof fn law_command_line_reads_back(
    date: Seq<char>,
    row: (Seq<char>, Metric),
    show: spec_fn(Metric) -> Seq<char>,
    keep: Seq<Seq<char>>,
    num: spec_fn(Seq<char>) -> Option<Metric>,
)
    requires
        fits(date),
        fits(row.0),
        fits_last(show(row.1)),
        keep.contains(date),
    ensures
        entries(text::lines(cpu_line(date, row, show)), keep, num) == seq![
            EntryView { date, comm: row.0, value: value_of(show(row.1), num) },
        ],
        cpu_line(date, row, show).last() == '\n',
{
    reveal_strlit("\t");
    reveal_strlit("\n");
    assert("\t"@ =~= seq!['\t']);
    assert("\n"@ =~= seq!['\n']);
    lemma_line_reads_back(date, row.0, show(row.1), keep, num);
}

/// The lines that a session adds are read back as what it accounted for, with
/// the numbers as they were written, where the date and the commands hold no
/// tab and no line feed.
pub proof fn law_saved_session_reads_back(
    l: Account,
    show_seconds: spec_fn(Metric) -> Seq<char>,
    show_wh: spec_fn(Metric) -> Seq<char>,
    keep: Seq<Seq<char>>,
    num: spec_fn(Seq<char>) -> Option<Metric>,
)
    requires
        saved(l, show_seconds, show_wh) is Some,
        keep.contains(l.date),
        fits(l.date),
        forall|i: int| 0 <= i < l.cpu.len() ==> fits((#[trigger] l.cpu[i]).0),
        forall|m: Metric| fits_last(#[trigger] show_seconds(m)),
        fits_last(show_wh(l.wh)),
    ensures
        entries(text::lines(saved(l, show_seconds, show_wh)->0), keep, num) == cpu_entries(
            l.date,
            top(l.cpu, KEPT as int),
            show_seconds,
            num,
        ) + (if (Metric { bits: 0 }).below(l.wh) {
            seq![
                EntryView {
                    date: l.date,
                    comm: "__wh__"@,
                    value: value_of(show_wh(l.wh), num),
                },
            ]
        } else {
            Seq::empty()
        }),
{
    let rows = top(l.cpu, KEPT as int);
    let all = order::ranked(l.cpu, order::higher(row_value()));
    order::law_ranked_keeps_items(l.cpu, order::higher(row_value()));
    assert forall|i: int| 0 <= i < rows.len() implies fits((#[trigger] rows[i]).0) && fits_last(
        show_seconds(rows[i].1),
    ) by {
        assert(rows[i] == all[i]);
        assert(all.contains(all[i]));
        assert(l.cpu.contains(all[i]));
        let k = choose|k: int| 0 <= k < l.cpu.len() && l.cpu[k] == all[i];
        assert(fits(l.cpu[k].0));
    }
    lemma_cpu_lines_read_back(l.date, rows, show_seconds, keep, num);
    let lines = cpu_lines(l.date, rows, show_seconds);
    if (Metric { bits: 0 }).below(l.wh) {
        let line = wh_line(l.date, l.wh, show_wh);
        law_appended_lines_add_their_entries(lines, line, keep, num);
        law_energy_line_reads_back(l.date, l.wh, show_wh, keep, num);
    } else {
        assert(lines + Seq::<char>::empty() =~= lines);
        let es = cpu_entries(l.date, rows, show_seconds, num);
        assert(es + Seq::<EntryView>::empty() =~= es);
    }
}

// ---------------------------------------------------------------------------
// What is accounted for whom
// ---------------------------------------------------------------------------

/// The processes of a tick are charged one after another. One with more than a
/// tenth of a percent adds its time to the seconds of its command, from zero
/// where the command has none; one with less adds nothing. No other command is
/// charged for it.
pub proof fn law_each_process_is_charged_to_its_command(
    l: Account,
    dt: Metric,
    watts: Option<Metric>,
    procs: Seq<(String, Metric)>,
    p: (String, Metric),
    energy: spec_fn(Metric, Metric, Metric) -> Metric,
    charge: spec_fn(Metric, Metric, Metric) -> Metric,
    other: Seq<char>,
)
    requires
        other != p.0@,
    ensures
        ticked(l, dt, watts, Seq::empty(), energy, charge).cpu == l.cpu,
        ({
            let before = ticked(l, dt, watts, procs, energy, charge);
            let after = ticked(l, dt, watts, procs.push(p), energy, charge);
            let counts = p.1.is_number() && p.1.value() > (Metric {
                bits: 0x3FB9_9999_9999_999A,
            }).value();
            &&& counts && table::get(before.cpu, p.0@) is Some ==> table::get(after.cpu, p.0@)
                == Some(charge(table::get(before.cpu, p.0@)->0, p.1, dt))
            &&& counts && table::get(before.cpu, p.0@) is None ==> table::get(after.cpu, p.0@)
                == Some(charge(Metric { bits: 0 }, p.1, dt))
            &&& !counts ==> after.cpu == before.cpu
            &&& table::get(after.cpu, other) == table::get(before.cpu, other)
        }),
{
    assert(procs.push(p).drop_last() =~= procs);
    let before = charged(l.cpu, procs, dt, charge);
    let now = charge(so_far(before, p.0@), p.1, dt);
    table::law_put_then_get(before, p.0@, now, p.0@);
    table::law_put_then_get(before, p.0@, now, other);
}

/// A tick adds to the watt-hours what its draw comes to; without a reading it
/// adds none. The date stays.
pub proof fn law_tick_adds_what_was_drawn(
    l: Account,
    dt: Metric,
    w: Metric,
    procs: Seq<(String, Metric)>,
    energy: spec_fn(Metric, Metric, Metric) -> Metric,
    charge: spec_fn(Metric, Metric, Metric) -> Metric,
)
    ensures
        ticked(l, dt, Some(w), procs, energy, charge).wh == energy(l.wh, w, dt),
        ticked(l, dt, None, procs, energy, charge).wh == l.wh,
        ticked(l, dt, Some(w), procs, energy, charge).date == l.date,
        ticked(l, dt, Some(w), procs, energy, charge).cpu == ticked(
            l,
            dt,
            None,
            procs,
            energy,
            charge,
        ).cpu,
{
}

/// The rows that a session writes are rows that it has, as many as were asked
/// for where it has so many, each once, and the highest reading first.
pub proof fn law_top_rows_go_down(rows: table::Rows, n: int, i: int, j: int)
    requires
        0 <= n,
        forall|k: int| 0 <= k < rows.len() ==> (#[trigger] rows[k]).1.is_number(),
        0 <= i < j < top(rows, n).len(),
    ensures
        top(rows, n).len() == (if n < rows.len() {
            n
        } else {
            rows.len() as int
        }),
        rows.contains(top(rows, n)[i]),
        top(rows, n)[i].1.value() >= top(rows, n)[j].1.value(),
        rows.no_duplicates() ==> top(rows, n)[i] != top(rows, n)[j],
{
    let high = order::higher(row_value());
    let all = order::ranked(rows, high);
    order::law_ranked_keeps_items(rows, high);
    assert forall|k: int| 0 <= k < rows.len() implies row_value()(
        #[trigger] rows[k],
    ).is_number() by {}
    order::law_higher_goes_down(rows, row_value());
    assert(row_value()(all[i]).at_least(row_value()(all[j])));
    assert(all.contains(all[i]));
    if rows.no_duplicates() {
        order::lemma_ranked_distinct(rows, high);
        assert(all[i] != all[j]);
    }
}

/// Where there are no more rows than are asked for, all of them are kept.
pub proof fn law_few_rows_are_all_kept(rows: table::Rows, n: int, row: (Seq<char>, Metric))
    requires
        rows.len() <= n,
    ensures
        top(rows, n).len() == rows.len(),
        rows.contains(row) <==> top(rows, n).contains(row),
{
    let high = order::higher(row_value());
    order::law_ranked_keeps_items(rows, high);
    assert(order::ranked(rows, high).contains(row) <==> rows.contains(row));
}

/// A command has a line where it has a second of CPU or more: the date, the
/// name and the seconds, with tabs between. The lines stand in the order of the
/// rows.
pub proof fn law_commands_with_a_second_have_a_line(
    date: Seq<char>,
    rows: table::Rows,
    row: (Seq<char>, Metric),
    show: spec_fn(Metric) -> Seq<char>,
)
    ensures
        cpu_lines(date, Seq::empty(), show) == Seq::<char>::empty(),
        row.1.is_number() && row.1.value() >= metric::one() ==> cpu_lines(
            date,
            rows.push(row),
            show,
        ) == cpu_lines(date, rows, show) + (date + seq!['\t'] + row.0 + seq!['\t'] + show(row.1)
            + seq!['\n']),
        !(row.1.is_number() && row.1.value() >= metric::one()) ==> cpu_lines(
            date,
            rows.push(row),
            show,
        ) == cpu_lines(date, rows, show),
{
    reveal_strlit("\t");
    reveal_strlit("\n");
    assert("\t"@ =~= seq!['\t']);
    assert("\n"@ =~= seq!['\n']);
    assert(rows.push(row).drop_last() =~= rows);
    let before = cpu_lines(date, rows, show);
    assert(before + Seq::<char>::empty() =~= before);
}

/// A session writes the forty commands with the most CPU, and behind them the
/// watt-hours where there are any. It writes nothing only where it has neither
/// a command nor watt-hours.
pub proof fn law_session_writes_commands_and_energy(
    l: Account,
    show_seconds: spec_fn(Metric) -> Seq<char>,
    show_wh: spec_fn(Metric) -> Seq<char>,
)
    ensures
        saved(l, show_seconds, show_wh) is None <==> l.cpu.len() == 0 && l.wh.is_number()
            && l.wh.value() == 0,
        saved(l, show_seconds, show_wh) matches Some(t) ==> (l.wh.is_number() && l.wh.value() > 0
            ==> t == cpu_lines(l.date, top(l.cpu, 40), show_seconds) + (l.date + "\t__wh__\t"@
            + show_wh(l.wh) + "\n"@)),
        saved(l, show_seconds, show_wh) matches Some(t) ==> (!(l.wh.is_number() && l.wh.value() > 0)
            ==> t == cpu_lines(l.date, top(l.cpu, 40), show_seconds)),
{
    metric::lemma_zero_value();
    let lines = cpu_lines(l.date, top(l.cpu, 40), show_seconds);
    assert(lines + Seq::<char>::empty() =~= lines);
}

/// The newest of the recorded stretches stands first: one more line comes in
/// front of those that were shown before it. No more are shown than were asked
/// for, and none is left out where there are not so many.
pub proof fn law_newest_stretch_stands_first(lines: Seq<Seq<char>>, line: Seq<char>, n: int)
    requires
        0 <= n,
    ensures
        last_lines(lines.push(line), n + 1) == seq![layout::replaced(line, '\t', seq![' ', ' '])]
            + last_lines(lines, n),
        last_lines(lines, 0).len() == 0,
        last_lines(Seq::empty(), n).len() == 0,
        last_lines(lines, n).len() == (if n < lines.len() {
            n
        } else {
            lines.len() as int
        }),
{
    reveal_strlit("  ");
    assert("  "@ =~= seq![' ', ' ']);
    let a = last_lines(lines.push(line), n + 1);
    let b = seq![layout::replaced(line, '\t', seq![' ', ' '])] + last_lines(lines, n);
    assert forall|i: int| 0 <= i < a.len() implies #[trigger] a[i] == b[i] by {
        if i > 0 {
            assert(lines.push(line)[lines.len() - i] == lines[lines.len() - i]);
            assert(b[i] == last_lines(lines, n)[i - 1]);
        }
    }
    assert(a =~= b);
}

/// A line accounts for its first three fields: date, command, and value, which
/// counts as zero where it is no number. What follows a further tab does not
/// matter. With fewer fields it accounts for nothing.
pub proof fn law_line_accounts_for_three_fields(
    date: Seq<char>,
    comm: Seq<char>,
    value: Seq<char>,
    rest: Seq<char>,
    num: spec_fn(Seq<char>) -> Option<Metric>,
)
    requires
        forall|i: int| 0 <= i < date.len() ==> #[trigger] date[i] != '\t',
        forall|i: int| 0 <= i < comm.len() ==> #[trigger] comm[i] != '\t',
        forall|i: int| 0 <= i < value.len() ==> #[trigger] value[i] != '\t',
    ensures
        entry(date, num) is None,
        entry(date + seq!['\t'] + comm, num) is None,
        ({
            let line = date + seq!['\t'] + comm + seq!['\t'] + value;
            let long = line + seq!['\t'] + rest;
            &&& entry(line, num) matches Some(e) && e.date == date && e.comm == comm && e.value == (
            match num(value) {
                Some(m) => m,
                None => Metric { bits: 0 },
            })
            &&& entry(long, num) == entry(line, num)
        }),
{
    let line = date + seq!['\t'] + comm + seq!['\t'] + value;
    let long = line + seq!['\t'] + rest;
    text::lemma_fields_one(date, '\t');
    text::lemma_fields_one(comm, '\t');
    text::lemma_fields_one(value, '\t');
    text::lemma_fields_first(date, comm, '\t');
    let two = comm + seq!['\t'] + value;
    text::lemma_fields_first(comm, value, '\t');
    text::lemma_fields_first(date, two, '\t');
    assert(line =~= date + seq!['\t'] + two);
    assert(text::fields(line, '\t') =~= seq![date, comm, value]);
    let three = value + seq!['\t'] + rest;
    text::lemma_fields_first(value, rest, '\t');
    text::lemma_fields_first(comm, three, '\t');
    let four = comm + seq!['\t'] + three;
    text::lemma_fields_first(date, four, '\t');
    assert(long =~= date + seq!['\t'] + four);
    let f = text::fields(long, '\t');
    assert(f =~= seq![date, comm, value] + text::fields(rest, '\t'));
    assert(f[0] == date && f[1] == comm && f[2] == value);
}

/// The dates of a ledger are what stands in front of the first tab of its
/// lines, each once.
pub proof fn law_dates_are_the_first_fields(lines: Seq<Seq<char>>, d: Seq<char>)
    ensures
        dates(lines).contains(d) <==> exists|i: int|
            0 <= i < lines.len() && text::fields(#[trigger] lines[i], '\t')[0] == d,
        dates(lines).no_duplicates(),
    decreases lines.len(),
{
    lemma_dates_distinct(lines);
    if lines.len() > 0 {
        let t = lines.drop_last();
        law_dates_are_the_first_fields(t, d);
        let before = dates(t);
        let last = text::fields(lines.last(), '\t')[0];
        assert(lines.last() == lines[lines.len() - 1]);
        assert(before.contains(d) ==> before.push(last).contains(d)) by {
            if before.contains(d) {
                let k = choose|k: int| 0 <= k < before.len() && before[k] == d;
                assert(before.push(last)[k] == d);
            }
        }
        assert(before.push(last)[before.len() as int] == last);
        if dates(lines).contains(d) {
            if before.contains(d) {
                let i = choose|i: int|
                    0 <= i < t.len() && text::fields(#[trigger] t[i], '\t')[0] == d;
                assert(t[i] == lines[i]);
            }
        }
        if exists|i: int|
            0 <= i < lines.len() && text::fields(#[trigger] lines[i], '\t')[0] == d {
            let i = choose|i: int|
                0 <= i < lines.len() && text::fields(#[trigger] lines[i], '\t')[0] == d;
            if i < t.len() {
                assert(t[i] == lines[i]);
            }
        }
    }
}

/// A report reads every line of its days, in their order, and no other line.
pub proof fn law_lines_of_the_days_are_read(
    lines: Seq<Seq<char>>,
    line: Seq<char>,
    keep: Seq<Seq<char>>,
    num: spec_fn(Seq<char>) -> Option<Metric>,
)
    ensures
        entries(Seq::empty(), keep, num).len() == 0,
        entry(line, num) matches Some(e) ==> (keep.contains(e.date) ==> entries(
            lines.push(line),
            keep,
            num,
        ) == entries(lines, keep, num).push(e)),
        entry(line, num) matches Some(e) ==> (!keep.contains(e.date) ==> entries(
            lines.push(line),
            keep,
            num,
        ) == entries(lines, keep, num)),
        entry(line, num) is None ==> entries(lines.push(line), keep, num) == entries(
            lines,
            keep,
            num,
        ),
{
    assert(lines.push(line).drop_last() =~= lines);
}

/// A sum takes in every entry that it is over, and no other: of its day, or of
/// every day; the watt-hours by their own name, a command by its name, and all
/// commands but not the watt-hours.
pub proof fn law_sums_take_in_what_they_are_over(
    es: Seq<EntryView>,
    e: EntryView,
    day: Seq<char>,
    comm: Seq<char>,
    plus: spec_fn(Metric, Metric) -> Metric,
)
    ensures
        sum(Seq::empty(), None, Pick::Energy, plus) == (Metric { bits: 0 }),
        sum(es.push(e), None, Pick::Energy, plus) == (if e.comm == "__wh__"@ {
            plus(sum(es, None, Pick::Energy, plus), e.value)
        } else {
            sum(es, None, Pick::Energy, plus)
        }),
        sum(es.push(e), Some(day), Pick::Energy, plus) == (if e.comm == "__wh__"@ && e.date == day {
            plus(sum(es, Some(day), Pick::Energy, plus), e.value)
        } else {
            sum(es, Some(day), Pick::Energy, plus)
        }),
        sum(es.push(e), Some(day), Pick::Everyone, plus) == (if e.comm != "__wh__"@ && e.date
            == day {
            plus(sum(es, Some(day), Pick::Everyone, plus), e.value)
        } else {
            sum(es, Some(day), Pick::Everyone, plus)
        }),
        sum(es.push(e), Some(day), Pick::One(comm), plus) == (if e.comm == comm && e.date == day {
            plus(sum(es, Some(day), Pick::One(comm), plus), e.value)
        } else {
            sum(es, Some(day), Pick::One(comm), plus)
        }),
        sum(es.push(e), None, Pick::One(comm), plus) == (if e.comm == comm {
            plus(sum(es, None, Pick::One(comm), plus), e.value)
        } else {
            sum(es, None, Pick::One(comm), plus)
        }),
{
    assert(es.push(e).drop_last() =~= es);
}

/// The seconds of a command in the report are the sum over all its entries. A
/// command without an entry is not there.
pub proof fn law_commands_have_the_sum_of_their_entries(
    es: Seq<EntryView>,
    comm: Seq<char>,
    plus: spec_fn(Metric, Metric) -> Metric,
)
    requires
        comm != "__wh__"@,
    ensures
        (exists|i: int| 0 <= i < es.len() && (#[trigger] es[i]).comm == comm) ==> table::get(
            cpu_rows(es, plus),
            comm,
        ) == Some(sum(es, None, Pick::One(comm), plus)),
        (forall|i: int| 0 <= i < es.len() ==> (#[trigger] es[i]).comm != comm) ==> table::get(
            cpu_rows(es, plus),
            comm,
        ) is None && sum(es, None, Pick::One(comm), plus) == (Metric { bits: 0 }),
    decreases es.len(),
{
    if es.len() > 0 {
        let t = es.drop_last();
        let e = es.last();
        law_commands_have_the_sum_of_their_entries(t, comm, plus);
        let before = cpu_rows(t, plus);
        table::law_put_then_get(before, e.comm, plus(so_far(before, e.comm), e.value), comm);
        assert forall|i: int| 0 <= i < t.len() implies #[trigger] t[i] == es[i] by {}
        assert(e == es[es.len() - 1]);
        if exists|i: int| 0 <= i < es.len() && (#[trigger] es[i]).comm == comm {
            let i = choose|i: int| 0 <= i < es.len() && (#[trigger] es[i]).comm == comm;
            if i < t.len() {
                assert(t[i].comm == comm);
            }
        }
    } else {
        assert(table::get(cpu_rows(es, plus), comm) is None);
    }
}

/// What a command is estimated to have drawn is its share of every day, added
/// up; a day on which no command had CPU adds nothing.
pub proof fn law_estimates_go_day_by_day(
    es: Seq<EntryView>,
    days: Seq<Seq<char>>,
    day: Seq<char>,
    comm: Seq<char>,
    plus: spec_fn(Metric, Metric) -> Metric,
    share: spec_fn(Metric, Metric, Metric) -> Metric,
)
    ensures
        estimate(es, Seq::empty(), comm, plus, share) == (Metric { bits: 0 }),
        ({
            let all = sum(es, Some(day), Pick::Everyone, plus);
            estimate(es, days.push(day), comm, plus, share) == plus(
                estimate(es, days, comm, plus, share),
                if all.is_number() && all.value() > 0 {
                    share(
                        sum(es, Some(day), Pick::Energy, plus),
                        sum(es, Some(day), Pick::One(comm), plus),
                        all,
                    )
                } else {
                    Metric { bits: 0 }
                },
            )
        }),
{
    metric::lemma_zero_value();
    assert(days.push(day).drop_last() =~= days);
}

/// A report lists every command that has an entry in its days, with the sum of
/// its seconds and its estimate, once; it lists nothing else. Its watt-hours are
/// the sum of all that was drawn in those days.
pub proof fn law_report_lists_every_command(
    content: Seq<char>,
    days: int,
    num: spec_fn(Seq<char>) -> Option<Metric>,
    plus: spec_fn(Metric, Metric) -> Metric,
    share: spec_fn(Metric, Metric, Metric) -> Metric,
    comm: Seq<char>,
)
    requires
        comm != "__wh__"@,
    ensures
        ({
            let lines = text::lines(content);
            let keep = last_days(lines, days);
            let es = entries(lines, keep, num);
            let r = reported(content, days, num, plus, share);
            &&& r.days == keep.len()
            &&& r.total_wh == sum(es, None, Pick::Energy, plus)
            &&& (exists|i: int| 0 <= i < es.len() && (#[trigger] es[i]).comm == comm)
                ==> r.rows.contains(
                (
                    comm,
                    sum(es, None, Pick::One(comm), plus),
                    estimate(es, keep, comm, plus, share),
                ),
            )
            &&& (forall|i: int| 0 <= i < es.len() ==> (#[trigger] es[i]).comm != comm)
                ==> forall|k: int| 0 <= k < r.rows.len() ==> (#[trigger] r.rows[k]).0 != comm
            &&& r.rows.len() == cpu_rows(es, plus).len()
            &&& r.rows.no_duplicates()
        }),
{
    let lines = text::lines(content);
    let keep = last_days(lines, days);
    let es = entries(lines, keep, num);
    let rows = cpu_rows(es, plus);
    let found = estimated(rows, es, keep, plus, share);
    let high = order::higher(line_cpu());
    let r = reported(content, days, num, plus, share).rows;
    order::law_ranked_keeps_items(found, high);
    law_commands_have_the_sum_of_their_entries(es, comm, plus);
    table::lemma_place(rows, comm, 0);
    if exists|i: int| 0 <= i < es.len() && (#[trigger] es[i]).comm == comm {
        let p = table::place(rows, comm, 0);
        assert(rows[p].0 == comm);
        assert(found[p] == (
            comm,
            sum(es, None, Pick::One(comm), plus),
            estimate(es, keep, comm, plus, share),
        ));
        assert(found.contains(found[p]));
    }
    if forall|i: int| 0 <= i < es.len() ==> (#[trigger] es[i]).comm != comm {
        assert forall|k: int| 0 <= k < r.len() implies (#[trigger] r[k]).0 != comm by {
            assert(r.contains(r[k]));
            assert(found.contains(r[k]));
            let m = choose|m: int| 0 <= m < found.len() && found[m] == r[k];
            assert(found[m].0 == rows[m].0);
        }
    }
    lemma_cpu_rows(es, plus);
    assert(found.no_duplicates()) by {
        assert forall|i: int, j: int|
            0 <= i < found.len() && 0 <= j < found.len() && i != j implies found[i] != found[j] by {
            assert(found[i].0 == rows[i].0);
            assert(found[j].0 == rows[j].0);
        }
    }
    order::lemma_ranked_distinct(found, high);
}

/// A report shows what its fields hold, line by line, and so does an account.
pub proof fn law_reports_show_their_fields(r: Report, i: int, l: Ledger)
    requires
        0 <= i < r.rows@.len(),
    ensures
        r@.days == r.days,
        r@.total_wh == r.total_wh,
        r@.rows.len() == r.rows@.len(),
        r@.rows[i].0 == r.rows@[i].0@,
        r@.rows[i].1 == r.rows@[i].1,
        r@.rows[i].2 == r.rows@[i].2,
        l@.cpu == l.cpu@,
        l@.wh == l.wh,
        l@.date == l.date@,
{
}

} // verus!
