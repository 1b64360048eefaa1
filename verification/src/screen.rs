//! The screen: what the keys do, when a sample is due, and the text of the
//! header, the table and the footer.
use crate::layout;
use crate::metric;
use crate::metric::Metric;
use crate::number;
use crate::order;
use crate::ring;
use crate::ring::BatRing;
use crate::sample;
use crate::sample::{Change, Delta, Rates, Snap};
use crate::text;
use std::collections::HashMap;
use vstd::prelude::*;

verus! {

broadcast use vstd::std_specs::hash::group_hash_axioms;

/// The version that the footer shows.
pub const VERSION: &'static str = "0.1.0";

/// The seconds between one sample and the next, at least: 0.9, by its bits.
pub const TICK_S: u64 = 0x3FEC_CCCC_CCCC_CCCD;

/// The score from which the first dot is full: 0.5, by its bits.
pub const HALF: u64 = 0x3FE0_0000_0000_0000;

/// The width of the column of commands.
pub const COMM_WIDTH: usize = 16;

// ---------------------------------------------------------------------------
// Sorting
// ---------------------------------------------------------------------------

/// What the table is sorted by.
#[derive(Clone, Copy, PartialEq, Eq, Structural, Debug)]
pub enum SortBy {
    Drain,
    Cpu,
    Wakes,
    Io,
}

/// The reading that a table is sorted by.
pub open spec fn sort_key(sort: SortBy) -> spec_fn(Delta) -> Metric {
    |d: Delta|
        match sort {
            SortBy::Drain => d.drain,
            SortBy::Cpu => d.cpu_pct,
            SortBy::Wakes => d.wakes_per_s,
            SortBy::Io => d.io_kbs,
        }
}

impl SortBy {
    /// The name of the order.
    pub open spec fn name(self) -> Seq<char> {
        match self {
            SortBy::Drain => "drain"@,
            SortBy::Cpu => "cpu"@,
            SortBy::Wakes => "wakes"@,
            SortBy::Io => "io"@,
        }
    }

    /// The order that comes after this one.
    pub open spec fn following(self) -> SortBy {
        match self {
            SortBy::Drain => SortBy::Cpu,
            SortBy::Cpu => SortBy::Wakes,
            SortBy::Wakes => SortBy::Io,
            SortBy::Io => SortBy::Drain,
        }
    }

    /// The name of the order.
    pub fn label(self) -> (r: &'static str)
        ensures
            r@ == self.name(),
    {
        match self {
            SortBy::Drain => "drain",
            SortBy::Cpu => "cpu",
            SortBy::Wakes => "wakes",
            SortBy::Io => "io",
        }
    }

    /// The order that comes after this one.
    pub fn next(self) -> (r: SortBy)
        ensures
            r == self.following(),
    {
        match self {
            SortBy::Drain => SortBy::Cpu,
            SortBy::Cpu => SortBy::Wakes,
            SortBy::Wakes => SortBy::Io,
            SortBy::Io => SortBy::Drain,
        }
    }

    /// The reading in a line that this order goes by.
    fn value(self, d: &Delta) -> (r: Metric)
        ensures
            r == sort_key(self)(*d),
    {
        match self {
            SortBy::Drain => d.drain,
            SortBy::Cpu => d.cpu_pct,
            SortBy::Wakes => d.wakes_per_s,
            SortBy::Io => d.io_kbs,
        }
    }
}

/// The orders come round: after four steps the first is back, and not before.
pub proof fn law_orders_come_round(s: SortBy)
    ensures
        s.following().following().following().following() == s,
        s.following() != s,
        s.following().following() != s,
        s.following().following().following() != s,
{
}

// ---------------------------------------------------------------------------
// State
// ---------------------------------------------------------------------------

/// What the tool knows and shows.
#[derive(Debug)]
pub struct App {
    /// The last sample.
    pub last_snap: HashMap<u32, Snap>,
    pub sort: SortBy,
    /// Whether sampling has been stopped.
    pub frozen: bool,
    /// The lines of the table.
    pub deltas: Vec<Delta>,
    /// Workspaces by process.
    pub wsmap: HashMap<u32, u32>,
    /// The last readings of the battery draw.
    pub bat_avg: BatRing,
    pub show_help: bool,
}

/// What a key does.
#[derive(Clone, Copy, PartialEq, Eq, Structural, Debug)]
pub enum Action {
    Quit,
    Sort,
    Freeze,
    Reset,
    Help,
    Resize,
    Nothing,
}

/// What a key does.
pub open spec fn action_of(key: Option<Seq<char>>) -> Action {
    match key {
        None => Action::Nothing,
        Some(k) => if k == "q"@ || k == "Q"@ {
            Action::Quit
        } else if k == "s"@ || k == "S"@ {
            Action::Sort
        } else if k == "f"@ || k == "F"@ {
            Action::Freeze
        } else if k == "r"@ || k == "R"@ {
            Action::Reset
        } else if k == "h"@ || k == "H"@ || k == "?"@ {
            Action::Help
        } else if k == "RESIZE"@ {
            Action::Resize
        } else {
            Action::Nothing
        },
    }
}

/// Whether `k` is the one or the other.
fn either(k: &str, a: &str, b: &str) -> (r: bool)
    ensures
        r == (k@ == a@ || k@ == b@),
{
    text::same_str(k, a) || text::same_str(k, b)
}

/// What a key does.
pub fn action(key: Option<&str>) -> (r: Action)
    ensures
        r == action_of(match key {
            Some(k) => Some(k@),
            None => None,
        }),
{
    let k = match key {
        Some(k) => k,
        None => {
            return Action::Nothing;
        },
    };
    if either(k, "q", "Q") {
        Action::Quit
    } else if either(k, "s", "S") {
        Action::Sort
    } else if either(k, "f", "F") {
        Action::Freeze
    } else if either(k, "r", "R") {
        Action::Reset
    } else if either(k, "h", "H") || text::same_str(k, "?") {
        Action::Help
    } else if text::same_str(k, "RESIZE") {
        Action::Resize
    } else {
        Action::Nothing
    }
}

/// Whether the lines are those of the processes that are in both samples,
/// sorted as asked where what they are sorted by is a number.
pub open spec fn are_lines<F: Fn(Change) -> Rates>(
    lines: Seq<Delta>,
    a: Map<u32, Snap>,
    b: Map<u32, Snap>,
    rate: F,
    sort: SortBy,
) -> bool {
    &&& sample::pids(lines).no_duplicates()
    &&& forall|pid: u32| #[trigger]
        sample::pids(lines).contains(pid) <==> a.contains_key(pid) && b.contains_key(pid)
    &&& forall|i: int|
        0 <= i < lines.len() ==> sample::is_line(#[trigger] lines[i], a, b, rate)
    &&& goes_down(lines, sort)
}

/// Whether no line stands below one that has less of what the lines are sorted
/// by, where all of it is numbers.
pub open spec fn goes_down(lines: Seq<Delta>, sort: SortBy) -> bool {
    (forall|i: int| 0 <= i < lines.len() ==> sort_key(sort)(#[trigger] lines[i]).is_number())
        ==> forall|i: int, j: int|
        0 <= i < j < lines.len() ==> sort_key(sort)(#[trigger] lines[i]).at_least(
            sort_key(sort)(#[trigger] lines[j]),
        )
}

/// A table that is ranked by a reading goes down by it.
pub proof fn law_sorted_table_goes_down(lines: Seq<Delta>, sort: SortBy)
    ensures
        goes_down(order::ranked(lines, order::higher(sort_key(sort))), sort),
{
    let key = sort_key(sort);
    let high = order::higher(key);
    let r = order::ranked(lines, high);
    order::law_ranked_keeps_items(lines, high);
    if forall|i: int| 0 <= i < r.len() ==> key(#[trigger] r[i]).is_number() {
        assert forall|i: int| 0 <= i < lines.len() implies key(
            #[trigger] lines[i],
        ).is_number() by {
            assert(lines.contains(lines[i]));
            assert(r.contains(lines[i]));
        }
        order::law_higher_goes_down(lines, key);
    }
}

/// A table in the order of the wakes goes down by the wakes of its lines, and
/// likewise by the score, the share of the processor, and the input and output,
/// each in the order that is named after it.
pub proof fn law_each_order_goes_down_by_its_reading(lines: Seq<Delta>, i: int, j: int)
    requires
        0 <= i < j < lines.len(),
    ensures
        goes_down(lines, SortBy::Drain) && (forall|n: int|
            0 <= n < lines.len() ==> (#[trigger] lines[n]).drain.is_number())
            ==> lines[i].drain.value() >= lines[j].drain.value(),
        goes_down(lines, SortBy::Cpu) && (forall|n: int|
            0 <= n < lines.len() ==> (#[trigger] lines[n]).cpu_pct.is_number())
            ==> lines[i].cpu_pct.value() >= lines[j].cpu_pct.value(),
        goes_down(lines, SortBy::Wakes) && (forall|n: int|
            0 <= n < lines.len() ==> (#[trigger] lines[n]).wakes_per_s.is_number())
            ==> lines[i].wakes_per_s.value() >= lines[j].wakes_per_s.value(),
        goes_down(lines, SortBy::Io) && (forall|n: int|
            0 <= n < lines.len() ==> (#[trigger] lines[n]).io_kbs.is_number())
            ==> lines[i].io_kbs.value() >= lines[j].io_kbs.value(),
{
    let d = lines[i];
    let e = lines[j];
    if goes_down(lines, SortBy::Drain) && (forall|n: int|
        0 <= n < lines.len() ==> (#[trigger] lines[n]).drain.is_number()) {
        assert forall|n: int| 0 <= n < lines.len() implies sort_key(SortBy::Drain)(
            #[trigger] lines[n],
        ).is_number() by {}
        assert(sort_key(SortBy::Drain)(d).at_least(sort_key(SortBy::Drain)(e)));
    }
    if goes_down(lines, SortBy::Cpu) && (forall|n: int|
        0 <= n < lines.len() ==> (#[trigger] lines[n]).cpu_pct.is_number()) {
        assert forall|n: int| 0 <= n < lines.len() implies sort_key(SortBy::Cpu)(
            #[trigger] lines[n],
        ).is_number() by {}
        assert(sort_key(SortBy::Cpu)(d).at_least(sort_key(SortBy::Cpu)(e)));
    }
    if goes_down(lines, SortBy::Wakes) && (forall|n: int|
        0 <= n < lines.len() ==> (#[trigger] lines[n]).wakes_per_s.is_number()) {
        assert forall|n: int| 0 <= n < lines.len() implies sort_key(SortBy::Wakes)(
            #[trigger] lines[n],
        ).is_number() by {}
        assert(sort_key(SortBy::Wakes)(d).at_least(sort_key(SortBy::Wakes)(e)));
    }
    if goes_down(lines, SortBy::Io) && (forall|n: int|
        0 <= n < lines.len() ==> (#[trigger] lines[n]).io_kbs.is_number()) {
        assert forall|n: int| 0 <= n < lines.len() implies sort_key(SortBy::Io)(
            #[trigger] lines[n],
        ).is_number() by {}
        assert(sort_key(SortBy::Io)(d).at_least(sort_key(SortBy::Io)(e)));
    }
}

/// Once a table has been sorted, no line stands below one that has less of what
/// was asked for: the score, the share of the processor, the wakes, or the input
/// and output.
pub proof fn law_sorting_puts_the_highest_reading_first(lines: Seq<Delta>, i: int, j: int)
    requires
        0 <= i < j < lines.len(),
        forall|n: int|
            0 <= n < lines.len() ==> (#[trigger] lines[n]).drain.is_number()
                && lines[n].cpu_pct.is_number() && lines[n].wakes_per_s.is_number()
                && lines[n].io_kbs.is_number(),
    ensures
        ({
            let r = order::ranked(lines, order::higher(sort_key(SortBy::Drain)));
            r.len() == lines.len() && r[i].drain.value() >= r[j].drain.value()
        }),
        ({
            let r = order::ranked(lines, order::higher(sort_key(SortBy::Cpu)));
            r.len() == lines.len() && r[i].cpu_pct.value() >= r[j].cpu_pct.value()
        }),
        ({
            let r = order::ranked(lines, order::higher(sort_key(SortBy::Wakes)));
            r.len() == lines.len() && r[i].wakes_per_s.value() >= r[j].wakes_per_s.value()
        }),
        ({
            let r = order::ranked(lines, order::higher(sort_key(SortBy::Io)));
            r.len() == lines.len() && r[i].io_kbs.value() >= r[j].io_kbs.value()
        }),
{
    lemma_sorted_numbers(lines, SortBy::Drain, i, j);
    lemma_sorted_numbers(lines, SortBy::Cpu, i, j);
    lemma_sorted_numbers(lines, SortBy::Wakes, i, j);
    lemma_sorted_numbers(lines, SortBy::Io, i, j);
}

/// A sorted table has the lines that it had, and goes down by its reading.
proof fn lemma_sorted_numbers(lines: Seq<Delta>, sort: SortBy, i: int, j: int)
    requires
        0 <= i < j < lines.len(),
        forall|n: int|
            0 <= n < lines.len() ==> (#[trigger] lines[n]).drain.is_number()
                && lines[n].cpu_pct.is_number() && lines[n].wakes_per_s.is_number()
                && lines[n].io_kbs.is_number(),
    ensures
        ({
            let r = order::ranked(lines, order::higher(sort_key(sort)));
            &&& r.len() == lines.len()
            &&& sort_key(sort)(r[i]).at_least(sort_key(sort)(r[j]))
        }),
{
    let key = sort_key(sort);
    assert forall|n: int| 0 <= n < lines.len() implies key(#[trigger] lines[n]).is_number() by {}
    order::law_ranked_keeps_items(lines, order::higher(key));
    order::law_higher_goes_down(lines, key);
}

impl App {
    /// The state at the start, with a first sample.
    pub fn new(first: HashMap<u32, Snap>) -> (r: App)
        ensures
            r.last_snap == first,
            r.sort == SortBy::Drain,
            !r.frozen,
            r.deltas@.len() == 0,
            r.wsmap@ == Map::<u32, u32>::empty(),
            r.bat_avg@.len() == 0,
            r.bat_avg.slots().len() == 0,
            r.bat_avg.slot() == 0,
            !r.show_help,
    {
        App {
            last_snap: first,
            sort: SortBy::Drain,
            frozen: false,
            deltas: Vec::new(),
            wsmap: HashMap::new(),
            bat_avg: BatRing::new(),
            show_help: false,
        }
    }

    /// Whether a sample is due, `elapsed` seconds after the last one: not while
    /// sampling has been stopped, and not too soon.
    pub fn due(&self, elapsed: Metric) -> (r: bool)
        ensures
            r == (!self.frozen && !elapsed.below(Metric { bits: TICK_S })),
    {
        !self.frozen && !elapsed.less(Metric { bits: TICK_S })
    }

    /// Sorts the table.
    pub fn sort_deltas(&mut self)
        ensures
            final(self).deltas@ == order::ranked(
                old(self).deltas@,
                order::higher(sort_key(old(self).sort)),
            ),
            goes_down(final(self).deltas@, final(self).sort),
            final(self).last_snap == old(self).last_snap,
            final(self).sort == old(self).sort,
            final(self).frozen == old(self).frozen,
            final(self).wsmap == old(self).wsmap,
            final(self).bat_avg == old(self).bat_avg,
            final(self).show_help == old(self).show_help,
    {
        let sort = self.sort;
        let above = |x: &Delta, y: &Delta| -> (r: bool)
            ensures
                r == sort_key(sort)(*y).below(sort_key(sort)(*x)),
        {
            sort.value(y).less(sort.value(x))
        };
        assert(order::decides(above, order::higher(sort_key(sort))));
        let ghost found = self.deltas@;
        order::rank(&mut self.deltas, above);
        proof {
            law_sorted_table_goes_down(found, sort);
        }
    }

    /// Takes a sample in: the table shows what the processes did since the last
    /// one. Nothing changes while sampling has been stopped. Workspaces and a battery draw come with it where they are known.
    /// `rate` turns a change into rates.
    pub fn tick<F: Fn(Change) -> Rates>(
        &mut self,
        now: HashMap<u32, Snap>,
        rate: F,
        wsmap: Option<HashMap<u32, u32>>,
        watts: Option<Metric>,
    )
        requires
            forall|c: Change| call_requires(rate, (c,)),
        ensures
            old(self).frozen ==> *final(self) == *old(self),
            !old(self).frozen ==> {
                &&& are_lines(
                    final(self).deltas@,
                    old(self).last_snap@,
                    now@,
                    rate,
                    old(self).sort,
                )
                &&& final(self).last_snap == now
                &&& final(self).wsmap == (match wsmap {
                    Some(m) => m,
                    None => old(self).wsmap,
                })
                &&& match watts {
                    Some(w) => final(self).bat_avg.follows(old(self).bat_avg, w),
                    None => final(self).bat_avg == old(self).bat_avg,
                }
            },
            final(self).sort == old(self).sort,
            final(self).frozen == old(self).frozen,
            final(self).show_help == old(self).show_help,
    {
        if self.frozen {
            return;
        }
        let ghost a = self.last_snap@;
        let ghost b = now@;
        self.deltas = sample::deltas(&self.last_snap, &now, rate);
        let ghost found = self.deltas@;
        let ghost sort = self.sort;
        self.sort_deltas();
        proof {
            let high = order::higher(sort_key(sort));
            let mark = |d: Delta| d.pid;
            let lines = self.deltas@;
            order::law_ranked_keeps_items(found, high);
            assert(order::marks(found, mark) =~= sample::pids(found));
            order::lemma_ranked_marks(found, high, mark);
            assert(order::marks(lines, mark) =~= sample::pids(lines));
            assert forall|pid: u32| #[trigger]
                sample::pids(lines).contains(pid) <==> a.contains_key(pid) && b.contains_key(
                    pid,
                ) by {
                assert(sample::pids(found).contains(pid) <==> order::marks(lines, mark).contains(
                    pid,
                ));
            }
            assert forall|i: int| 0 <= i < lines.len() implies sample::is_line(
                #[trigger] lines[i],
                a,
                b,
                rate,
            ) by {
                assert(lines.contains(lines[i]));
                assert(found.contains(lines[i]));
            }
        }
        self.last_snap = now;
        if let Some(m) = wsmap {
            self.wsmap = m;
        }
        if let Some(w) = watts {
            self.bat_avg.push(w);
        }
    }

    /// Does what a key asks for. The caller ends the tool or lays the panes out
    /// anew where the result says so. A table that was sorted stays sorted.
    pub fn press(&mut self, key: Option<&str>) -> (r: Action)
        ensures
            r == action_of(match key {
                Some(k) => Some(k@),
                None => None,
            }),
            final(self).sort == (if r == Action::Sort {
                old(self).sort.following()
            } else {
                old(self).sort
            }),
            final(self).deltas@ == (if r == Action::Sort {
                order::ranked(
                    old(self).deltas@,
                    order::higher(sort_key(old(self).sort.following())),
                )
            } else {
                old(self).deltas@
            }),
            goes_down(old(self).deltas@, old(self).sort) ==> goes_down(
                final(self).deltas@,
                final(self).sort,
            ),
            final(self).frozen == (old(self).frozen != (r == Action::Freeze)),
            if r == Action::Reset {
                &&& final(self).bat_avg@.len() == 0
                &&& final(self).bat_avg.slots().len() == 0
                &&& final(self).bat_avg.slot() == 0
            } else {
                final(self).bat_avg == old(self).bat_avg
            },
            final(self).show_help == (old(self).show_help != (r == Action::Help)),
            final(self).last_snap == old(self).last_snap,
            final(self).wsmap == old(self).wsmap,
    {
        let r = action(key);
        match r {
            Action::Sort => {
                self.sort = self.sort.next();
                self.sort_deltas();
            },
            Action::Freeze => {
                self.frozen = !self.frozen;
            },
            Action::Reset => {
                self.bat_avg = BatRing::new();
            },
            Action::Help => {
                self.show_help = !self.show_help;
            },
            _ => {},
        }
        r
    }
}

// ---------------------------------------------------------------------------
// Pieces
// ---------------------------------------------------------------------------

/// How many of the five dots are full.
pub open spec fn full_dots(score: Metric) -> int {
    if score.at_least_whole(20) {
        5
    } else if score.at_least_whole(8) {
        4
    } else if score.at_least_whole(5) {
        3
    } else if score.at_least_whole(3) {
        2
    } else if score.at_least(Metric { bits: HALF }) {
        1
    } else {
        0
    }
}

/// A score as five dots: one is full from about a percent of CPU on, all of
/// them well into a hot loop.
pub fn dots(score: Metric) -> (r: String)
    ensures
        r@ == layout::repeated('●', full_dots(score)) + layout::repeated('○', 5 - full_dots(score)),
{
    let n: usize = if score.reaches_whole(20) {
        5
    } else if score.reaches_whole(8) {
        4
    } else if score.reaches_whole(5) {
        3
    } else if score.reaches_whole(3) {
        2
    } else if score.reaches(Metric { bits: HALF }) {
        1
    } else {
        0
    };
    let mut s = String::new();
    layout::push_repeated(&mut s, '●', n);
    layout::push_repeated(&mut s, '○', 5 - n);
    assert(s@ =~= layout::repeated('●', n as int) + layout::repeated('○', 5 - n));
    s
}

/// The color of a score: red, orange, yellow, green, or grey.
pub open spec fn score_color(score: Metric) -> u16 {
    if score.at_least_whole(20) {
        196
    } else if score.at_least_whole(8) {
        208
    } else if score.at_least_whole(3) {
        226
    } else if score.at_least_whole(1) {
        46
    } else {
        244
    }
}

/// The color of a score.
pub fn drain_color(score: Metric) -> (r: u16)
    ensures
        r == score_color(score),
{
    if score.reaches_whole(20) {
        196
    } else if score.reaches_whole(8) {
        208
    } else if score.reaches_whole(3) {
        226
    } else if score.reaches_whole(1) {
        46
    } else {
        244
    }
}

/// The color of a battery draw: 4 watts are normal, 7 are suspicious, and more
/// than 10 are clearly bad.
pub open spec fn draw_color(watts: Metric) -> u16 {
    if watts.at_least_whole(10) {
        196
    } else if watts.at_least_whole(7) {
        208
    } else if watts.at_least_whole(5) {
        226
    } else {
        46
    }
}

/// The color of a battery draw.
pub fn bat_color(watts: Metric) -> (r: u16)
    ensures
        r == draw_color(watts),
{
    if watts.reaches_whole(10) {
        196
    } else if watts.reaches_whole(7) {
        208
    } else if watts.reaches_whole(5) {
        226
    } else {
        46
    }
}

/// A command in a column of `max` characters: padded, or cut with an ellipsis
/// at its end.
pub open spec fn shortened(comm: Seq<char>, max: int) -> Seq<char> {
    if comm.len() <= max {
        layout::left(comm, max)
    } else {
        comm.take(max - 1).push('…')
    }
}

/// A command in a column of `max` characters.
pub fn comm_short(comm: &str, max: usize) -> (r: String)
    requires
        max > 0 || comm@.len() == 0,
    ensures
        r@ == shortened(comm@, max as int),
{
    let chars = text::chars_of(comm);
    let mut s = String::new();
    if chars.len() <= max {
        layout::push_left(&mut s, chars.as_slice(), max);
        assert(s@ =~= layout::left(comm@, max as int));
    } else {
        text::push_chars(&mut s, vstd::slice::slice_subrange(chars.as_slice(), 0, max - 1));
        assert(s@ =~= comm@.take(max - 1));
        s.push('…');
    }
    s
}

/// A command fills its column, whatever its length.
pub proof fn law_commands_fill_their_column(comm: Seq<char>, max: int)
    requires
        max > 0,
    ensures
        shortened(comm, max).len() == max,
{
}

/// The place behind the `m` that ends an escape sequence, from `i` on.
pub open spec fn behind_escape(s: Seq<char>, i: int) -> int
    decreases s.len() - i,
{
    if i >= s.len() {
        s.len() as int
    } else if s[i] == 'm' {
        i + 1
    } else {
        behind_escape(s, i + 1)
    }
}

/// Whether an escape sequence starts at `i`.
pub open spec fn escape_at(s: Seq<char>, i: int) -> bool {
    i + 1 < s.len() && s[i] == '\u{1b}' && s[i + 1] == '['
}

/// Where the next visible character, or the end of the escape sequence, at `i` is.
pub open spec fn step(s: Seq<char>, i: int) -> int {
    if escape_at(s, i) {
        behind_escape(s, i + 2)
    } else {
        i + 1
    }
}

/// A step goes forward and stays in the text.
pub proof fn lemma_step(s: Seq<char>, i: int)
    requires
        0 <= i < s.len(),
    ensures
        i < step(s, i) <= s.len(),
{
    if escape_at(s, i) {
        lemma_behind_escape(s, i + 2);
    }
}

proof fn lemma_behind_escape(s: Seq<char>, i: int)
    requires
        0 <= i <= s.len(),
    ensures
        i <= behind_escape(s, i) <= s.len(),
    decreases s.len() - i,
{
    if i < s.len() && s[i] != 'm' {
        lemma_behind_escape(s, i + 1);
    }
}

/// The characters of a text from place `i` on that stand outside its escape
/// sequences.
pub open spec fn stripped(s: Seq<char>, i: int) -> Seq<char>
    decreases s.len() - i,
{
    if i < 0 || i >= s.len() {
        Seq::empty()
    } else {
        proof {
            lemma_step(s, i);
        }
        if escape_at(s, i) {
            stripped(s, step(s, i))
        } else {
            seq![s[i]] + stripped(s, step(s, i))
        }
    }
}

/// A text without its escape sequences: what is to be seen of it.
pub fn strip_ansi_for_width(s: &str) -> (r: String)
    ensures
        r@ == stripped(s@, 0),
{
    let chars = text::chars_of(s);
    let mut out = String::new();
    let mut i: usize = 0;
    assert(out@ + stripped(s@, 0) =~= stripped(s@, 0));
    while i < chars.len()
        invariant
            i <= chars@.len(),
            chars@ == s@,
            out@ + stripped(s@, i as int) == stripped(s@, 0),
        decreases chars@.len() - i,
    {
        proof {
            lemma_step(s@, i as int);
        }
        if chars.len() - i > 1 && chars[i] == '\u{1b}' && chars[i + 1] == '[' {
            let ghost from = i as int;
            i += 2;
            while i < chars.len() && chars[i] != 'm'
                invariant
                    i <= chars@.len(),
                    chars@ == s@,
                    behind_escape(s@, i as int) == behind_escape(s@, from + 2),
                decreases chars@.len() - i,
            {
                i += 1;
            }
            if i < chars.len() {
                i += 1;
            }
            assert(i == step(s@, from));
        } else {
            let ghost before = out@;
            out.push(chars[i]);
            i += 1;
            assert(out@ + stripped(s@, i as int) =~= before + stripped(s@, i - 1));
        }
    }
    assert(stripped(s@, i as int) =~= Seq::empty());
    assert(out@ + Seq::<char>::empty() =~= out@);
    out
}

/// The width of a text: how many characters of it are to be seen.
pub open spec fn width(s: Seq<char>) -> int {
    stripped(s, 0).len() as int
}

/// A text with blanks behind it up to a width of `cols`.
pub open spec fn padded(s: Seq<char>, cols: int) -> Seq<char> {
    s + layout::repeated(' ', cols - width(s))
}

/// Pads a text with blanks to a width of `cols`.
fn pad(line: &mut String, cols: usize)
    ensures
        final(line)@ == padded(old(line)@, cols as int),
{
    let visible = strip_ansi_for_width(line.as_str());
    let chars = text::chars_of(visible.as_str());
    let n: usize = cols.saturating_sub(chars.len());
    assert(layout::repeated(' ', n as int) =~= layout::repeated(' ', cols - width(line@)));
    layout::push_repeated(line, ' ', n);
}

/// Whether every escape sequence from place `i` on comes to its end.
pub open spec fn complete(s: Seq<char>, i: int) -> bool
    decreases s.len() - i,
{
    if i < 0 || i >= s.len() {
        true
    } else {
        proof {
            lemma_step(s, i);
        }
        (escape_at(s, i) ==> step(s, i) > i + 2 && s[step(s, i) - 1] == 'm')
            && complete(s, step(s, i))
    }
}

proof fn lemma_behind_escape_kept(a: Seq<char>, b: Seq<char>, i: int)
    requires
        0 <= i <= a.len(),
        behind_escape(a, i) > i,
        a[behind_escape(a, i) - 1] == 'm',
    ensures
        behind_escape(a + b, i) == behind_escape(a, i),
    decreases a.len() - i,
{
    if i < a.len() && a[i] != 'm' {
        lemma_behind_escape(a, i + 1);
        if behind_escape(a, i + 1) == i + 1 {
            // The end is at the next place only where nothing follows.
            assert(i + 1 >= a.len());
            assert(a[i] == 'm');
        }
        lemma_behind_escape_kept(a, b, i + 1);
    }
}

proof fn lemma_stripped_blanks(a: Seq<char>, n: int, i: int)
    requires
        0 <= i <= a.len(),
        0 <= n,
        complete(a, i),
    ensures
        stripped(a + layout::repeated(' ', n), i).len() == stripped(a, i).len() + n,
    decreases a.len() + n - i,
{
    let b = layout::repeated(' ', n);
    let s = a + b;
    if i < a.len() {
        lemma_step(a, i);
        assert(s[i] == a[i]);
        if escape_at(a, i) {
            assert(s[i + 1] == a[i + 1]);
            lemma_behind_escape_kept(a, b, i + 2);
        } else if i + 1 < a.len() {
            assert(s[i + 1] == a[i + 1]);
        } else if n > 0 {
            assert(s[i + 1] == ' ');
        }
        assert(escape_at(s, i) == escape_at(a, i));
        lemma_stripped_blanks(a, n, step(a, i));
    } else if n > 0 {
        assert(s[i] == ' ');
        let c = a.push(' ');
        assert(s =~= c + layout::repeated(' ', n - 1));
        assert(complete(c, i + 1));
        lemma_stripped_blanks(c, n - 1, i + 1);
        assert(stripped(c, i + 1) =~= Seq::empty());
        assert(stripped(a, i) =~= Seq::empty());
    } else {
        assert(s =~= a);
    }
}

/// A padded text is as wide as the screen, unless it was wider before, where
/// its escape sequences come to their end.
pub proof fn law_padding_fills_the_row(s: Seq<char>, cols: int)
    requires
        complete(s, 0),
    ensures
        width(padded(s, cols)) == (if width(s) < cols {
            cols
        } else {
            width(s)
        }),
{
    let n = if width(s) < cols {
        cols - width(s)
    } else {
        0
    };
    assert(layout::repeated(' ', cols - width(s)) =~= layout::repeated(' ', n));
    lemma_stripped_blanks(s, n, 0);
}

// ---------------------------------------------------------------------------
// Header
// ---------------------------------------------------------------------------

/// The battery, as the header shows it.
#[derive(Clone, Copy, Debug)]
pub struct Gauge {
    /// The draw in watts.
    pub watts: Metric,
    /// How long the charge lasts, where that is known.
    pub hours: Option<Metric>,
    /// The first letter of the status.
    pub status: char,
}

/// The arrow of a status.
pub open spec fn arrow(status: char) -> Seq<char> {
    if status == 'D' {
        "↓"@
    } else if status == 'C' {
        "↑"@
    } else if status == 'F' {
        "✓"@
    } else {
        "·"@
    }
}

/// How far the draw is from the average, with the number of readings that the
/// average is of.
pub open spec fn drift_text(
    slots: Seq<Metric>,
    watts: Metric,
    plus: spec_fn(Metric, Metric) -> Metric,
    over: spec_fn(Metric, usize) -> Metric,
    minus: spec_fn(Metric, Metric) -> Metric,
    show: spec_fn(Metric) -> Seq<char>,
) -> Seq<char> {
    match ring::average(slots, plus, over) {
        None => Seq::empty(),
        Some(avg) => {
            let delta = minus(watts, avg);
            "  (Δ "@ + (if delta.at_least(Metric { bits: 0 }) {
                "+"@
            } else {
                Seq::empty()
            }) + show(delta) + " W vs "@ + number::decimal(slots.len() as int) + "-sample avg)"@
        },
    }
}

/// How long the charge lasts, or that the battery charges.
pub open spec fn hours_text(g: Gauge, show: spec_fn(Metric) -> Seq<char>) -> Seq<char> {
    match g.hours {
        Some(h) => "   "@ + show(h) + "h left"@,
        None => if g.status == 'C' {
            "   charging"@
        } else {
            Seq::empty()
        },
    }
}

/// The battery in the header.
pub open spec fn gauge_text(
    bat: Option<Gauge>,
    slots: Seq<Metric>,
    plus: spec_fn(Metric, Metric) -> Metric,
    over: spec_fn(Metric, usize) -> Metric,
    minus: spec_fn(Metric, Metric) -> Metric,
    show_watts: spec_fn(Metric) -> Seq<char>,
    show_hours: spec_fn(Metric) -> Seq<char>,
) -> Seq<char> {
    match bat {
        Some(g) => "Bat \x1b[38;5;"@ + number::decimal(draw_color(g.watts) as int) + "m"@
            + show_watts(g.watts) + " W\x1b[0m "@ + arrow(g.status) + drift_text(
            slots,
            g.watts,
            plus,
            over,
            minus,
            show_watts,
        ) + hours_text(g, show_hours),
        None => "Bat n/a"@,
    }
}

/// The order of the table in the header, and whether sampling has been
/// stopped.
pub open spec fn sort_text(sort: SortBy, frozen: bool) -> Seq<char> {
    "   sort: "@ + sort.name() + (if frozen {
        "  [FROZEN]"@
    } else {
        Seq::empty()
    })
}

/// The header, before padding: the name, the battery, the order.
pub open spec fn header(gauge: Seq<char>, sort: SortBy, frozen: bool) -> Seq<char> {
    " \x1b[1mdrain\x1b[0m  "@ + gauge + sort_text(sort, frozen)
}

/// The arrow of a status.
fn arrow_of(status: char) -> (r: &'static str)
    ensures
        r@ == arrow(status),
{
    if status == 'D' {
        "↓"
    } else if status == 'C' {
        "↑"
    } else if status == 'F' {
        "✓"
    } else {
        "·"
    }
}

/// How far the draw is from the average.
fn format_drift<
    P: Fn(Metric, Metric) -> Metric,
    O: Fn(Metric, usize) -> Metric,
    M: Fn(Metric, Metric) -> Metric,
    W: Fn(Metric) -> String,
>(bat_avg: &BatRing, watts: Metric, plus: &P, over: &O, minus: &M, show: &W) -> (r: String)
    requires
        forall|a: Metric, b: Metric| call_requires(plus, (a, b)),
        forall|a: Metric, n: usize| call_requires(over, (a, n)),
        forall|a: Metric, b: Metric| call_requires(minus, (a, b)),
        forall|m: Metric| call_requires(show, (m,)),
    ensures
        forall|
            p: spec_fn(Metric, Metric) -> Metric,
            o: spec_fn(Metric, usize) -> Metric,
            m: spec_fn(Metric, Metric) -> Metric,
            w: spec_fn(Metric) -> Seq<char>,
        |
            metric::combines(*plus, p) && ring::divides(*over, o) && metric::combines(*minus, m)
                && metric::shows(*show, w) ==> r@ == #[trigger] drift_text(
                bat_avg.slots(),
                watts,
                p,
                o,
                m,
                w,
            ),
{
    let n = bat_avg.len();
    let avg = match bat_avg.avg(plus, over) {
        Some(a) => a,
        None => {
            return String::new();
        },
    };
    let delta = minus(watts, avg);
    let mut out = "  (Δ ".to_owned();
    let positive = delta.reaches(Metric::zero());
    let ghost before = out@;
    if positive {
        out.append("+");
    } else {
        assert(before + Seq::empty() =~= before);
    }
    let shown = show(delta);
    out.append(shown.as_str());
    out.append(" W vs ");
    number::push_decimal(&mut out, n as u64);
    out.append("-sample avg)");
    proof {
        assert forall|
            p: spec_fn(Metric, Metric) -> Metric,
            o: spec_fn(Metric, usize) -> Metric,
            m: spec_fn(Metric, Metric) -> Metric,
            w: spec_fn(Metric) -> Seq<char>,
        |
            metric::combines(*plus, p) && ring::divides(*over, o) && metric::combines(*minus, m)
                && metric::shows(*show, w) implies out@ == #[trigger] drift_text(
            bat_avg.slots(),
            watts,
            p,
            o,
            m,
            w,
        ) by {
            assert(ring::average(bat_avg.slots(), p, o) == Some(avg));
        }
    }
    out
}

/// How long the charge lasts, or that the battery charges.
fn format_hours<H: Fn(Metric) -> String>(g: &Gauge, show: &H) -> (r: String)
    requires
        forall|m: Metric| call_requires(show, (m,)),
    ensures
        forall|h: spec_fn(Metric) -> Seq<char>|
            metric::shows(*show, h) ==> r@ == #[trigger] hours_text(*g, h),
{
    match g.hours {
        Some(h) => {
            let shown = show(h);
            "   ".to_owned().concat(shown.as_str()).concat("h left")
        },
        None => {
            if g.status == 'C' {
                "   charging".to_owned()
            } else {
                String::new()
            }
        },
    }
}

impl App {
    /// The text of the header, padded to `cols`. `plus`, `over` and `minus` do the
    /// sums; `show_watts` and `show_hours` write the numbers.
    pub fn render_header<
        P: Fn(Metric, Metric) -> Metric,
        O: Fn(Metric, usize) -> Metric,
        M: Fn(Metric, Metric) -> Metric,
        W: Fn(Metric) -> String,
        H: Fn(Metric) -> String,
    >(
        &self,
        bat: Option<Gauge>,
        cols: usize,
        plus: P,
        over: O,
        minus: M,
        show_watts: W,
        show_hours: H,
    ) -> (r: String)
        requires
            forall|a: Metric, b: Metric| call_requires(plus, (a, b)),
            forall|a: Metric, n: usize| call_requires(over, (a, n)),
            forall|a: Metric, b: Metric| call_requires(minus, (a, b)),
            forall|m: Metric| call_requires(show_watts, (m,)),
            forall|m: Metric| call_requires(show_hours, (m,)),
        ensures
            bat is None ==> r@ == padded(header("Bat n/a"@, self.sort, self.frozen), cols as int),
            forall|
                p: spec_fn(Metric, Metric) -> Metric,
                o: spec_fn(Metric, usize) -> Metric,
                m: spec_fn(Metric, Metric) -> Metric,
                w: spec_fn(Metric) -> Seq<char>,
                h: spec_fn(Metric) -> Seq<char>,
            |
                metric::combines(plus, p) && ring::divides(over, o) && metric::combines(minus, m)
                    && metric::shows(show_watts, w) && metric::shows(show_hours, h) ==> r@
                    == padded(
                    header(
                        #[trigger] gauge_text(bat, self.bat_avg.slots(), p, o, m, w, h),
                        self.sort,
                        self.frozen,
                    ),
                    cols as int,
                ),
    {
        let gauge = match bat {
            Some(g) => {
                let mut out = "Bat \x1b[38;5;".to_owned();
                number::push_decimal(&mut out, bat_color(g.watts) as u64);
                out.append("m");
                let shown = show_watts(g.watts);
                out.append(shown.as_str());
                out.append(" W\x1b[0m ");
                out.append(arrow_of(g.status));
                let drift = format_drift(
                    &self.bat_avg,
                    g.watts,
                    &plus,
                    &over,
                    &minus,
                    &show_watts,
                );
                out.append(drift.as_str());
                let hours = format_hours(&g, &show_hours);
                out.append(hours.as_str());
                proof {
                    assert forall|
                        p: spec_fn(Metric, Metric) -> Metric,
                        o: spec_fn(Metric, usize) -> Metric,
                        m: spec_fn(Metric, Metric) -> Metric,
                        w: spec_fn(Metric) -> Seq<char>,
                        h: spec_fn(Metric) -> Seq<char>,
                    |
                        metric::combines(plus, p) && ring::divides(over, o) && metric::combines(
                            minus,
                            m,
                        ) && metric::shows(show_watts, w) && metric::shows(
                            show_hours,
                            h,
                        ) implies out@ == #[trigger] gauge_text(
                        bat,
                        self.bat_avg.slots(),
                        p,
                        o,
                        m,
                        w,
                        h,
                    ) by {
                        assert(drift@ == drift_text(self.bat_avg.slots(), g.watts, p, o, m, w));
                        assert(hours@ == hours_text(g, h));
                    }
                }
                out
            },
            None => "Bat n/a".to_owned(),
        };
        let mut sorted = "   sort: ".to_owned().concat(self.sort.label());
        let ghost before = sorted@;
        if self.frozen {
            sorted.append("  [FROZEN]");
        } else {
            assert(before + Seq::empty() =~= before);
        }
        let mut line = " \x1b[1mdrain\x1b[0m  ".to_owned().concat(gauge.as_str()).concat(
            sorted.as_str(),
        );
        pad(&mut line, cols);
        line
    }
}

// ---------------------------------------------------------------------------
// Table
// ---------------------------------------------------------------------------

/// The workspace of a process, counted from 1; a dot where it has none.
pub open spec fn workspace_text(wsmap: Map<u32, u32>, pid: u32) -> Seq<char> {
    if wsmap.contains_key(pid) {
        number::decimal(wsmap[pid] + 1)
    } else {
        "·"@
    }
}

/// A line of the table.
pub open spec fn row_text(
    d: Delta,
    wsmap: Map<u32, u32>,
    show: spec_fn(Metric) -> Seq<char>,
) -> Seq<char> {
    layout::right(number::decimal(d.pid as int), 6) + "  "@ + shortened(
        d.comm@,
        COMM_WIDTH as int,
    ) + " "@ + layout::right(workspace_text(wsmap, d.pid), 2) + " "@ + layout::right(
        show(d.cpu_pct),
        6,
    ) + "  "@ + layout::right(show(d.wakes_per_s), 7) + "  "@ + layout::right(
        show(d.nvol_per_s),
        7,
    ) + "  "@ + layout::right(show(d.io_kbs), 8) + "  \x1b[38;5;"@ + number::decimal(
        score_color(d.drain) as int,
    ) + "m"@ + (layout::repeated('●', full_dots(d.drain)) + layout::repeated(
        '○',
        5 - full_dots(d.drain),
    )) + "\x1b[0m"@
}

/// How many lines of the table fit: two rows are not for lines.
pub open spec fn shown_rows(rows: int, lines: int) -> int {
    if rows < 2 {
        0
    } else if rows - 2 < lines {
        rows - 2
    } else {
        lines
    }
}

/// The table: the titles of the columns, then the lines that fit.
pub open spec fn table_text(
    lines: Seq<Delta>,
    wsmap: Map<u32, u32>,
    rows: int,
    show: spec_fn(Metric) -> Seq<char>,
) -> Seq<char> {
    layout::joined(
        seq![
            "\x1b[1;38;5;250m   PID  PROC             WS   CPU%   WAKE/s   NVOL/s   IO kB/s  DRAIN\x1b[0m"@,
        ] + lines.take(shown_rows(rows, lines.len() as int)).map_values(
            |d: Delta| row_text(d, wsmap, show),
        ),
        "\n"@,
    )
}

/// Appends a text, padded on the left.
fn push_right_str(out: &mut String, s: &str, width: usize)
    ensures
        final(out)@ == old(out)@ + layout::right(s@, width as int),
{
    let chars = text::chars_of(s);
    layout::push_right(out, chars.as_slice(), width);
}

impl App {
    /// A line of the table.
    fn format_row<S: Fn(Metric) -> String>(&self, d: &Delta, show: &S) -> (r: String)
        requires
            forall|m: Metric| call_requires(show, (m,)),
            self.wsmap@.contains_key(d.pid) ==> self.wsmap@[d.pid] < u32::MAX,
        ensures
            forall|s: spec_fn(Metric) -> Seq<char>|
                metric::shows(*show, s) ==> r@ == #[trigger] row_text(*d, self.wsmap@, s),
    {
        let mut out = String::new();
        let pid = number::show_decimal(d.pid as u64);
        push_right_str(&mut out, pid.as_str(), 6);
        assert(out@ =~= layout::right(number::decimal(d.pid as int), 6));
        out.append("  ");
        let comm = comm_short(d.comm.as_str(), COMM_WIDTH);
        out.append(comm.as_str());
        out.append(" ");
        let ws = match self.wsmap.get(&d.pid) {
            Some(n) => number::show_decimal(*n as u64 + 1),
            None => "·".to_owned(),
        };
        push_right_str(&mut out, ws.as_str(), 2);
        out.append(" ");
        let cpu = show(d.cpu_pct);
        push_right_str(&mut out, cpu.as_str(), 6);
        out.append("  ");
        let wakes = show(d.wakes_per_s);
        push_right_str(&mut out, wakes.as_str(), 7);
        out.append("  ");
        let nvol = show(d.nvol_per_s);
        push_right_str(&mut out, nvol.as_str(), 7);
        out.append("  ");
        let io = show(d.io_kbs);
        push_right_str(&mut out, io.as_str(), 8);
        out.append("  \x1b[38;5;");
        number::push_decimal(&mut out, drain_color(d.drain) as u64);
        out.append("m");
        let five = dots(d.drain);
        out.append(five.as_str());
        out.append("\x1b[0m");
        out
    }

    /// The text of the table, for a pane of `rows` rows. `show` writes a rate.
    pub fn render_table<S: Fn(Metric) -> String>(&self, rows: usize, show: S) -> (r: String)
        requires
            forall|m: Metric| call_requires(show, (m,)),
            forall|i: int|
                0 <= i < shown_rows(rows as int, self.deltas@.len() as int)
                    && self.wsmap@.contains_key((#[trigger] self.deltas@[i]).pid)
                    ==> self.wsmap@[self.deltas@[i].pid] < u32::MAX,
        ensures
            forall|s: spec_fn(Metric) -> Seq<char>|
                metric::shows(show, s) ==> r@ == #[trigger] table_text(
                    self.deltas@,
                    self.wsmap@,
                    rows as int,
                    s,
                ),
    {
        let mut take: usize = rows.saturating_sub(2);
        if self.deltas.len() < take {
            take = self.deltas.len();
        }
        assert(take == shown_rows(rows as int, self.deltas@.len() as int));
        let mut parts: Vec<String> = Vec::new();
        parts.push(
            "\x1b[1;38;5;250m   PID  PROC             WS   CPU%   WAKE/s   NVOL/s   IO kB/s  DRAIN\x1b[0m".to_owned(),
        );
        let mut i: usize = 0;
        while i < take
            invariant
                forall|m: Metric| call_requires(show, (m,)),
                i <= take <= self.deltas@.len(),
                forall|k: int|
                    0 <= k < take && self.wsmap@.contains_key((#[trigger] self.deltas@[k]).pid)
                        ==> self.wsmap@[self.deltas@[k].pid] < u32::MAX,
                parts@.len() == i + 1,
                parts@[0]@
                    == "\x1b[1;38;5;250m   PID  PROC             WS   CPU%   WAKE/s   NVOL/s   IO kB/s  DRAIN\x1b[0m"@,
                forall|s: spec_fn(Metric) -> Seq<char>, k: int|
                    metric::shows(show, s) && 0 <= k < i ==> parts@[k + 1]@ == #[trigger] row_text(
                        self.deltas@[k],
                        self.wsmap@,
                        s,
                    ),
            decreases take - i,
        {
            let row = self.format_row(&self.deltas[i], &show);
            parts.push(row);
            i += 1;
        }
        let out = layout::join(&parts, "\n");
        proof {
            assert forall|s: spec_fn(Metric) -> Seq<char>| metric::shows(show, s) implies out@
                == #[trigger] table_text(self.deltas@, self.wsmap@, rows as int, s) by {
                let want = seq![
                    "\x1b[1;38;5;250m   PID  PROC             WS   CPU%   WAKE/s   NVOL/s   IO kB/s  DRAIN\x1b[0m"@,
                ] + self.deltas@.take(take as int).map_values(
                    |d: Delta| row_text(d, self.wsmap@, s),
                );
                assert forall|k: int| 0 <= k < want.len() implies #[trigger] layout::texts(
                    parts@,
                )[k] == want[k] by {
                    if k > 0 {
                        assert(parts@[(k - 1) + 1]@ == row_text(
                            self.deltas@[k - 1],
                            self.wsmap@,
                            s,
                        ));
                    }
                }
                assert(layout::texts(parts@) =~= want);
            }
        }
        out
    }
}

// ---------------------------------------------------------------------------
// Footer
// ---------------------------------------------------------------------------

/// The footer, before padding: the keys.
pub open spec fn footer(sort: SortBy, show_help: bool) -> Seq<char> {
    if show_help {
        " q quit · s sort ("@ + sort.name() + ") · f freeze · r reset baseline · h hide help"@
    } else {
        " q · s sort · f freeze · r reset · h help    drain v"@ + VERSION@
    }
}

impl App {
    /// The text of the footer, padded to `cols`.
    pub fn render_footer(&self, cols: usize) -> (r: String)
        ensures
            r@ == padded(footer(self.sort, self.show_help), cols as int),
    {
        let mut line = if self.show_help {
            " q quit · s sort (".to_owned().concat(self.sort.label()).concat(
                ") · f freeze · r reset baseline · h hide help",
            )
        } else {
            " q · s sort · f freeze · r reset · h help    drain v".to_owned().concat(VERSION)
        };
        pad(&mut line, cols);
        line
    }
}

// ---------------------------------------------------------------------------
// What is shown
// ---------------------------------------------------------------------------

/// Every key does one thing, as a small letter or a capital one; all other keys
/// do nothing.
pub proof fn law_keys_do_one_thing(k: Seq<char>)
    ensures
        action_of(Some(k)) == Action::Quit <==> k == seq!['q'] || k == seq!['Q'],
        action_of(Some(k)) == Action::Sort <==> k == seq!['s'] || k == seq!['S'],
        action_of(Some(k)) == Action::Freeze <==> k == seq!['f'] || k == seq!['F'],
        action_of(Some(k)) == Action::Reset <==> k == seq!['r'] || k == seq!['R'],
        action_of(Some(k)) == Action::Help <==> k == seq!['h'] || k == seq!['H'] || k == seq!['?'],
        action_of(Some(k)) == Action::Resize <==> k == "RESIZE"@,
        action_of(None) == Action::Nothing,
{
    reveal_strlit("q");
    reveal_strlit("Q");
    reveal_strlit("s");
    reveal_strlit("S");
    reveal_strlit("f");
    reveal_strlit("F");
    reveal_strlit("r");
    reveal_strlit("R");
    reveal_strlit("h");
    reveal_strlit("H");
    reveal_strlit("?");
    reveal_strlit("RESIZE");
    assert("q"@ =~= seq!['q'] && "Q"@ =~= seq!['Q']);
    assert("s"@ =~= seq!['s'] && "S"@ =~= seq!['S']);
    assert("f"@ =~= seq!['f'] && "F"@ =~= seq!['F']);
    assert("r"@ =~= seq!['r'] && "R"@ =~= seq!['R']);
    assert("h"@ =~= seq!['h'] && "H"@ =~= seq!['H'] && "?"@ =~= seq!['?']);
    assert("RESIZE"@.len() == 6);
    if k.len() == 1 {
        let c = k[0];
        assert(k =~= seq![c]);
        assert(seq!['q'][0] == 'q' && seq!['Q'][0] == 'Q');
        assert(seq!['s'][0] == 's' && seq!['S'][0] == 'S');
        assert(seq!['f'][0] == 'f' && seq!['F'][0] == 'F');
        assert(seq!['r'][0] == 'r' && seq!['R'][0] == 'R');
        assert(seq!['h'][0] == 'h' && seq!['H'][0] == 'H' && seq!['?'][0] == '?');
    }
}

/// The orders follow one another: score, processor, wakes, input and output. A
/// sample is due nine tenths of a second after the last, to the nearest double.
pub proof fn law_orders_follow_and_samples_are_due()
    ensures
        SortBy::Drain.following() == SortBy::Cpu,
        SortBy::Cpu.following() == SortBy::Wakes,
        SortBy::Wakes.following() == SortBy::Io,
        SortBy::Io.following() == SortBy::Drain,
        TICK_S == 0x3FEC_CCCC_CCCC_CCCD,
{
}

/// The table has one line for each process that is in both samples and no
/// other; a line shows the name, state and parent of the later sample.
pub proof fn law_table_has_a_line_for_each_process<F: Fn(Change) -> Rates>(
    lines: Seq<Delta>,
    a: Map<u32, Snap>,
    b: Map<u32, Snap>,
    rate: F,
    sort: SortBy,
    pid: u32,
)
    requires
        are_lines(lines, a, b, rate, sort),
    ensures
        a.contains_key(pid) && b.contains_key(pid) ==> exists|i: int|
            0 <= i < lines.len() && (#[trigger] lines[i]).pid == pid && lines[i].comm@
                == b[pid].comm@ && lines[i].state == b[pid].state && lines[i].ppid == b[pid].ppid,
        !a.contains_key(pid) || !b.contains_key(pid) ==> forall|i: int|
            0 <= i < lines.len() ==> (#[trigger] lines[i]).pid != pid,
        forall|i: int, j: int|
            0 <= i < j < lines.len() ==> (#[trigger] lines[i]).pid != (#[trigger] lines[j]).pid,
        forall|i: int| 0 <= i < lines.len() ==> sample::is_line(#[trigger] lines[i], a, b, rate),
        goes_down(lines, sort),
{
    let p = sample::pids(lines);
    assert(p.contains(pid) <==> a.contains_key(pid) && b.contains_key(pid));
    if p.contains(pid) {
        let i = choose|i: int| 0 <= i < p.len() && p[i] == pid;
        assert(lines[i].pid == pid);
        assert(sample::is_line(lines[i], a, b, rate));
    } else {
        assert forall|i: int| 0 <= i < lines.len() implies (#[trigger] lines[i]).pid != pid by {
            assert(p[i] == lines[i].pid);
        }
    }
    assert forall|i: int, j: int| 0 <= i < j < lines.len() implies (#[trigger] lines[i]).pid != (
    #[trigger] lines[j]).pid by {
        assert(p[i] == lines[i].pid && p[j] == lines[j].pid);
    }
}

/// The dots of a score fill up as the score rises, from a half over 3, 5 and 8
/// to 20.
pub proof fn law_dots_fill_up_with_the_score(score: Metric, higher: Metric)
    requires
        score.is_number(),
        higher.is_number(),
        score.value() <= higher.value(),
    ensures
        0 <= full_dots(score) <= full_dots(higher) <= 5,
        full_dots(score) >= 5 <==> score.value() >= 20 * metric::one(),
        full_dots(score) >= 4 <==> score.value() >= 8 * metric::one(),
        full_dots(score) >= 3 <==> score.value() >= 5 * metric::one(),
        full_dots(score) >= 2 <==> score.value() >= 3 * metric::one(),
        full_dots(score) >= 1 <==> 2 * score.value() >= metric::one(),
        forall|m: Metric| !#[trigger] m.is_number() ==> full_dots(m) == 0,
{
    law_half_is_half();
    vstd::arithmetic::power2::lemma_pow2_pos(1074);
}

/// The score from which the first dot is full is one half.
pub proof fn law_half_is_half()
    ensures
        (Metric { bits: HALF }).is_number(),
        2 * (Metric { bits: HALF }).value() == metric::one(),
{
    reveal(metric::units);
    let h = metric::EXPONENT_ONE as int;
    let m = HALF as int;
    assert(m / h == 1022);
    assert(m % h == 0);
    let p = vstd::arithmetic::power2::pow2(1021) as int;
    assert(metric::units(m) == (h + 0) * p);
    vstd::arithmetic::power2::lemma2_to64();
    vstd::arithmetic::power2::lemma2_to64_rest();
    vstd::arithmetic::power2::lemma_pow2_adds(52, 1021);
    vstd::arithmetic::power2::lemma_pow2_adds(1, 1073);
    assert(vstd::arithmetic::power2::pow2(52) == h);
    assert(metric::units(m) == vstd::arithmetic::power2::pow2(1073));
}

/// The color of a score is red from 20, orange from 8, yellow from 3, green
/// from 1 and gray below; that of a draw is red from 10 watts, orange from 7,
/// yellow from 5 and green below.
pub proof fn law_colors_warn_by_the_reading(m: Metric, nothing: Metric)
    requires
        m.is_number(),
        !nothing.is_number(),
    ensures
        score_color(nothing) == 244,
        draw_color(nothing) == 46,
        m.value() >= 20 * metric::one() ==> score_color(m) == 196,
        8 * metric::one() <= m.value() < 20 * metric::one() ==> score_color(m) == 208,
        3 * metric::one() <= m.value() < 8 * metric::one() ==> score_color(m) == 226,
        metric::one() <= m.value() < 3 * metric::one() ==> score_color(m) == 46,
        m.value() < metric::one() ==> score_color(m) == 244,
        m.value() >= 10 * metric::one() ==> draw_color(m) == 196,
        7 * metric::one() <= m.value() < 10 * metric::one() ==> draw_color(m) == 208,
        5 * metric::one() <= m.value() < 7 * metric::one() ==> draw_color(m) == 226,
        m.value() < 5 * metric::one() ==> draw_color(m) == 46,
{
    vstd::arithmetic::power2::lemma_pow2_pos(1074);
}

/// A command that fits stands in its column with blanks behind it; a longer one
/// is cut, and an ellipsis stands for what was cut off.
pub proof fn law_long_commands_are_cut(comm: Seq<char>, max: int)
    requires
        max > 0,
    ensures
        comm.len() <= max ==> shortened(comm, max).take(comm.len() as int) == comm && forall|i: int|
            comm.len() <= i < max ==> #[trigger] shortened(comm, max)[i] == ' ',
        comm.len() > max ==> shortened(comm, max).drop_last() == comm.take(max - 1) && shortened(
            comm,
            max,
        ).last() == '…',
{
    if comm.len() <= max {
        assert(shortened(comm, max).take(comm.len() as int) =~= comm);
    } else {
        assert(shortened(comm, max).drop_last() =~= comm.take(max - 1));
    }
}

/// What is visible from a place on goes by what follows alone.
proof fn lemma_stripped_behind(a: Seq<char>, b: Seq<char>, i: int)
    requires
        0 <= i <= b.len(),
    ensures
        stripped(a + b, a.len() + i) == stripped(b, i),
    decreases b.len() - i,
{
    let s = a + b;
    let n = a.len() as int;
    if i < b.len() {
        assert(s[n + i] == b[i]);
        if i + 1 < b.len() {
            assert(s[n + i + 1] == b[i + 1]);
        }
        assert(escape_at(s, n + i) == escape_at(b, i));
        if escape_at(b, i) {
            lemma_behind_escape_behind(a, b, i + 2);
        }
        lemma_step(b, i);
        lemma_step(s, n + i);
        assert(step(s, n + i) == n + step(b, i));
        lemma_stripped_behind(a, b, step(b, i));
    }
}

proof fn lemma_behind_escape_behind(a: Seq<char>, b: Seq<char>, i: int)
    requires
        0 <= i <= b.len(),
    ensures
        behind_escape(a + b, a.len() + i) == a.len() + behind_escape(b, i),
    decreases b.len() - i,
{
    if i < b.len() {
        assert((a + b)[a.len() + i] == b[i]);
        lemma_behind_escape_behind(a, b, i + 1);
    }
}

proof fn lemma_behind_escape_is(s: Seq<char>, i: int, e: int)
    requires
        0 <= i <= e < s.len(),
        s[e] == 'm',
        forall|j: int| i <= j < e ==> #[trigger] s[j] != 'm',
    ensures
        behind_escape(s, i) == e + 1,
    decreases e - i,
{
    if i < e {
        assert(s[i] != 'm');
        lemma_behind_escape_is(s, i + 1, e);
    }
}

/// An escape sequence, up to the `m` that ends it, is not seen; any other
/// character is.
pub proof fn law_escape_sequences_are_not_seen(c: char, p: Seq<char>, b: Seq<char>)
    requires
        forall|i: int| 0 <= i < p.len() ==> #[trigger] p[i] != 'm',
    ensures
        stripped(Seq::empty(), 0).len() == 0,
        stripped(seq!['\u{1b}', '['] + p + seq!['m'] + b, 0) == stripped(b, 0),
        c != '\u{1b}' || b.len() == 0 || b[0] != '[' ==> stripped(seq![c] + b, 0) == seq![c]
            + stripped(b, 0),
{
    let a = seq!['\u{1b}', '['] + p + seq!['m'];
    let s = a + b;
    let n = a.len() as int;
    assert(s =~= seq!['\u{1b}', '['] + p + seq!['m'] + b);
    assert(s[0] == '\u{1b}' && s[1] == '[');
    assert(s[n - 1] == 'm');
    assert forall|j: int| 2 <= j < n - 1 implies #[trigger] s[j] != 'm' by {
        assert(s[j] == p[j - 2]);
    }
    lemma_behind_escape_is(s, 2, n - 1);
    lemma_stripped_behind(a, b, 0);
    assert(step(s, 0) == n);
    if c != '\u{1b}' || b.len() == 0 || b[0] != '[' {
        let t = seq![c] + b;
        assert(t[0] == c);
        if b.len() > 0 {
            assert(t[1] == b[0]);
        }
        assert(!escape_at(t, 0));
        lemma_stripped_behind(seq![c], b, 0);
    }
}

/// Padding leaves a text as it is and puts blanks behind it.
pub proof fn law_padding_puts_blanks_behind(s: Seq<char>, cols: int)
    ensures
        padded(s, cols).len() == s.len() + (if stripped(s, 0).len() < cols {
            cols - stripped(s, 0).len()
        } else {
            0
        }),
        padded(s, cols).take(s.len() as int) == s,
        forall|i: int| s.len() <= i < padded(s, cols).len() ==> #[trigger] padded(s, cols)[i] == ' ',
{
    assert(padded(s, cols).take(s.len() as int) =~= s);
}

/// The arrow points down while the battery discharges and up while it charges,
/// and a full battery has a mark of its own.
pub proof fn law_arrow_shows_the_status(status: char)
    ensures
        status == 'D' ==> arrow(status) == "↓"@,
        status == 'C' ==> arrow(status) == "↑"@,
        status == 'F' ==> arrow(status) == "✓"@,
        status != 'D' && status != 'C' && status != 'F' ==> arrow(status) == "·"@,
{
}

/// The header tells how far the draw is from the average of the readings, with
/// a plus sign where it is not below it, and of how many readings that is; it
/// tells nothing before the first reading.
pub proof fn law_drift_is_from_the_average(
    slots: Seq<Metric>,
    watts: Metric,
    plus: spec_fn(Metric, Metric) -> Metric,
    over: spec_fn(Metric, usize) -> Metric,
    minus: spec_fn(Metric, Metric) -> Metric,
    show: spec_fn(Metric) -> Seq<char>,
)
    ensures
        drift_text(Seq::empty(), watts, plus, over, minus, show).len() == 0,
        slots.len() > 0 ==> {
            let d = minus(watts, over(ring::sum(slots, plus), slots.len() as usize));
            let n = number::decimal(slots.len() as int);
            &&& d.is_number() && d.value() >= 0 ==> drift_text(
                slots,
                watts,
                plus,
                over,
                minus,
                show,
            ) == "  (Δ "@ + "+"@ + show(d) + " W vs "@ + n + "-sample avg)"@
            &&& d.is_number() && d.value() < 0 ==> drift_text(
                slots,
                watts,
                plus,
                over,
                minus,
                show,
            ) == "  (Δ "@ + show(d) + " W vs "@ + n + "-sample avg)"@
        },
{
    metric::lemma_zero_value();
    let e = Seq::<char>::empty();
    assert("  (Δ "@ + e =~= "  (Δ "@);
}

/// The header tells how long the charge lasts where that is known, and that the
/// battery charges only where it is not.
pub proof fn law_hours_or_charging(g: Gauge, show: spec_fn(Metric) -> Seq<char>)
    ensures
        g.hours matches Some(h) ==> hours_text(g, show) == "   "@ + show(h) + "h left"@,
        g.hours is None && g.status == 'C' ==> hours_text(g, show) == "   charging"@,
        g.hours is None && g.status != 'C' ==> hours_text(g, show).len() == 0,
{
}

/// The header shows the draw in its color, with the arrow of the status behind
/// it, then the drift, then the hours; without a battery it says so.
pub proof fn law_gauge_shows_draw_status_drift_and_hours(
    g: Gauge,
    slots: Seq<Metric>,
    plus: spec_fn(Metric, Metric) -> Metric,
    over: spec_fn(Metric, usize) -> Metric,
    minus: spec_fn(Metric, Metric) -> Metric,
    watts: spec_fn(Metric) -> Seq<char>,
    hours: spec_fn(Metric) -> Seq<char>,
)
    ensures
        gauge_text(None, slots, plus, over, minus, watts, hours) == "Bat n/a"@,
        ({
            let text = gauge_text(Some(g), slots, plus, over, minus, watts, hours);
            let first = gauge_text(
                Some(Gauge { hours: None, status: 'D', ..g }),
                Seq::empty(),
                plus,
                over,
                minus,
                watts,
                hours,
            );
            &&& first == "Bat \x1b[38;5;"@ + number::decimal(draw_color(g.watts) as int) + "m"@
                + watts(g.watts) + " W\x1b[0m "@ + "↓"@
            &&& text == first.drop_last() + arrow(g.status) + drift_text(
                slots,
                g.watts,
                plus,
                over,
                minus,
                watts,
            ) + hours_text(g, hours)
        }),
{
    reveal_strlit("↓");
    let a = "Bat \x1b[38;5;"@ + number::decimal(draw_color(g.watts) as int) + "m"@ + watts(g.watts)
        + " W\x1b[0m "@;
    let e = Seq::<char>::empty();
    assert((a + "↓"@).drop_last() =~= a);
    assert(a + "↓"@ + e + e =~= a + "↓"@);
    assert(drift_text(Seq::empty(), g.watts, plus, over, minus, watts) =~= e);
}

/// The header names the order of the table, and that sampling has been stopped
/// exactly where it has.
pub proof fn law_header_tells_order_and_freeze(gauge: Seq<char>, sort: SortBy)
    ensures
        header(gauge, sort, false) == " \x1b[1mdrain\x1b[0m  "@ + gauge + ("   sort: "@
            + sort.name()),
        header(gauge, sort, true) == header(gauge, sort, false) + "  [FROZEN]"@,
        SortBy::Drain.name() == "drain"@,
        SortBy::Cpu.name() == "cpu"@,
        SortBy::Wakes.name() == "wakes"@,
        SortBy::Io.name() == "io"@,
{
    let a = "   sort: "@ + sort.name();
    assert(a + Seq::<char>::empty() =~= a);
    assert(" \x1b[1mdrain\x1b[0m  "@ + gauge + (a + "  [FROZEN]"@) =~= " \x1b[1mdrain\x1b[0m  "@
        + gauge + a + "  [FROZEN]"@);
}

/// Workspaces are counted from 1; a process without one has a dot.
pub proof fn law_workspaces_count_from_one(wsmap: Map<u32, u32>, pid: u32)
    ensures
        wsmap.contains_key(pid) ==> number::unsigned(
            workspace_text(wsmap, pid),
            u32::MAX as int + 1,
        ) == Some(wsmap[pid] + 1),
        !wsmap.contains_key(pid) ==> workspace_text(wsmap, pid) == "·"@,
{
    if wsmap.contains_key(pid) {
        number::law_decimal_reads_back(wsmap[pid] + 1, u32::MAX as int + 1);
    }
}

/// The table shows its title and as many lines as fit below it, from the top:
/// one more line is shown where there is room for it, and changes nothing where
/// there is none.
pub proof fn law_table_shows_the_lines_that_fit(
    lines: Seq<Delta>,
    d: Delta,
    wsmap: Map<u32, u32>,
    rows: int,
    show: spec_fn(Metric) -> Seq<char>,
)
    requires
        rows >= 0,
    ensures
        lines.len() + 2 < rows ==> table_text(lines.push(d), wsmap, rows, show) == table_text(
            lines,
            wsmap,
            rows,
            show,
        ) + "\n"@ + row_text(d, wsmap, show),
        lines.len() + 2 >= rows ==> table_text(lines.push(d), wsmap, rows, show) == table_text(
            lines,
            wsmap,
            rows,
            show,
        ),
        table_text(Seq::empty(), wsmap, rows, show)
            == "\x1b[1;38;5;250m   PID  PROC             WS   CPU%   WAKE/s   NVOL/s   IO kB/s  DRAIN\x1b[0m"@,
{
    let title = "\x1b[1;38;5;250m   PID  PROC             WS   CPU%   WAKE/s   NVOL/s   IO kB/s  DRAIN\x1b[0m"@;
    let f = |d: Delta| row_text(d, wsmap, show);
    let n = shown_rows(rows, lines.len() as int);
    let m = shown_rows(rows, lines.len() as int + 1);
    let parts = seq![title] + lines.take(n).map_values(f);
    let more = seq![title] + lines.push(d).take(m).map_values(f);
    if lines.len() + 2 < rows {
        assert(more.drop_last() =~= parts);
        assert(more.last() == row_text(d, wsmap, show));
    } else {
        assert(more =~= parts);
    }
    let none = seq![title] + Seq::<Delta>::empty().take(
        shown_rows(rows, 0),
    ).map_values(f);
    assert(none =~= seq![title]);
    assert(layout::joined(none, "\n"@) == title);
}

/// Where the readings fit their columns, each stands in its own: the process,
/// the command, the workspace, the share of CPU, the wakes, the involuntary
/// switches, and the input and output.
pub proof fn law_readings_stand_in_their_columns(
    d: Delta,
    wsmap: Map<u32, u32>,
    show: spec_fn(Metric) -> Seq<char>,
)
    requires
        number::decimal(d.pid as int).len() <= 6,
        workspace_text(wsmap, d.pid).len() <= 2,
        show(d.cpu_pct).len() <= 6,
        show(d.wakes_per_s).len() <= 7,
        show(d.nvol_per_s).len() <= 7,
        show(d.io_kbs).len() <= 8,
    ensures
        row_text(d, wsmap, show).subrange(0, 6) == layout::right(number::decimal(d.pid as int), 6),
        row_text(d, wsmap, show).subrange(8, 24) == shortened(d.comm@, 16),
        row_text(d, wsmap, show).subrange(25, 27) == layout::right(
            workspace_text(wsmap, d.pid),
            2,
        ),
        row_text(d, wsmap, show).subrange(28, 34) == layout::right(show(d.cpu_pct), 6),
        row_text(d, wsmap, show).subrange(36, 43) == layout::right(show(d.wakes_per_s), 7),
        row_text(d, wsmap, show).subrange(45, 52) == layout::right(show(d.nvol_per_s), 7),
        row_text(d, wsmap, show).subrange(54, 62) == layout::right(show(d.io_kbs), 8),
        row_text(d, wsmap, show).skip(62) == "  \x1b[38;5;"@ + number::decimal(
            score_color(d.drain) as int,
        ) + "m"@ + (layout::repeated('●', full_dots(d.drain)) + layout::repeated(
            '○',
            5 - full_dots(d.drain),
        )) + "\x1b[0m"@,
{
    reveal_strlit("  ");
    reveal_strlit(" ");
    law_commands_fill_their_column(d.comm@, 16);
    let pid = layout::right(number::decimal(d.pid as int), 6);
    let comm = shortened(d.comm@, 16);
    let ws = layout::right(workspace_text(wsmap, d.pid), 2);
    let cpu = layout::right(show(d.cpu_pct), 6);
    let wakes = layout::right(show(d.wakes_per_s), 7);
    let nvol = layout::right(show(d.nvol_per_s), 7);
    let io = layout::right(show(d.io_kbs), 8);
    let a1 = pid + "  "@;
    let a2 = a1 + comm + " "@;
    let a3 = a2 + ws + " "@;
    let a4 = a3 + cpu + "  "@;
    let a5 = a4 + wakes + "  "@;
    let a6 = a5 + nvol + "  "@;
    let a7 = a6 + io;
    let c = "  \x1b[38;5;"@;
    let n = number::decimal(score_color(d.drain) as int);
    let dots = layout::repeated('●', full_dots(d.drain)) + layout::repeated(
        '○',
        5 - full_dots(d.drain),
    );
    let tail = c + n + "m"@ + dots + "\x1b[0m"@;
    let s = row_text(d, wsmap, show);
    assert(s == a7 + c + n + "m"@ + dots + "\x1b[0m"@);
    assert(s =~= a7 + tail);
    assert(a7.len() == 62);
    lemma_cell(a6, io, tail);
    lemma_cell(a5, nvol, "  "@ + io + tail);
    lemma_cell(a4, wakes, "  "@ + nvol + "  "@ + io + tail);
    lemma_cell(a3, cpu, "  "@ + wakes + "  "@ + nvol + "  "@ + io + tail);
    lemma_cell(a2, ws, " "@ + cpu + "  "@ + wakes + "  "@ + nvol + "  "@ + io + tail);
    lemma_cell(a1, comm, " "@ + ws + " "@ + cpu + "  "@ + wakes + "  "@ + nvol + "  "@ + io + tail);
    assert(s =~= a5 + nvol + ("  "@ + io + tail));
    assert(s =~= a4 + wakes + ("  "@ + nvol + "  "@ + io + tail));
    assert(s =~= a3 + cpu + ("  "@ + wakes + "  "@ + nvol + "  "@ + io + tail));
    assert(s =~= a2 + ws + (" "@ + cpu + "  "@ + wakes + "  "@ + nvol + "  "@ + io + tail));
    assert(s =~= a1 + comm + (" "@ + ws + " "@ + cpu + "  "@ + wakes + "  "@ + nvol + "  "@ + io
        + tail));
    assert(s.subrange(0, 6) =~= pid);
    assert(s.skip(62) =~= tail);
}

/// A cell stands where its row puts it.
proof fn lemma_cell(a: Seq<char>, cell: Seq<char>, b: Seq<char>)
    ensures
        (a + cell + b).subrange(a.len() as int, (a.len() + cell.len()) as int) == cell,
{
    assert((a + cell + b).subrange(a.len() as int, (a.len() + cell.len()) as int) =~= cell);
}

/// The footer names the keys; with help it names the order too.
pub proof fn law_footer_names_the_keys(sort: SortBy)
    ensures
        footer(sort, true) == " q quit · s sort ("@ + sort.name()
            + ") · f freeze · r reset baseline · h hide help"@,
        footer(sort, false) == " q · s sort · f freeze · r reset · h help    drain v"@ + "0.1.0"@,
{
}

} // verus!
