//! The tools of the suite at a glance: how often each wakes and how much CPU
//! it takes, over all its instances, in one line above the table.
use crate::layout;
use crate::metric;
use crate::metric::Metric;
use crate::number;
use crate::order;
use crate::sample;
use crate::sample::Delta;
use crate::text;
use vstd::prelude::*;

verus! {

/// A tool of the suite that is running.
#[derive(Clone, Debug)]
pub struct SuiteRow {
    pub name: &'static str,
    pub instances: u32,
    pub cpu_pct: Metric,
    pub wakes_per_s: Metric,
}

/// The contents of a row.
pub struct RowView {
    pub name: Seq<char>,
    pub instances: int,
    pub cpu_pct: Metric,
    pub wakes_per_s: Metric,
}

impl View for SuiteRow {
    type V = RowView;

    open spec fn view(&self) -> RowView {
        RowView {
            name: self.name@,
            instances: self.instances as int,
            cpu_pct: self.cpu_pct,
            wakes_per_s: self.wakes_per_s,
        }
    }
}

/// The contents of the rows.
pub open spec fn row_views(rows: Seq<SuiteRow>) -> Seq<RowView> {
    rows.map_values(|r: SuiteRow| r@)
}

/// The commands that belong to the suite.
pub open spec fn tracked_names() -> Seq<Seq<char>> {
    seq![
        "glass"@,
        "tile"@,
        "strip"@,
        "bare"@,
        "drain"@,
        "battery"@,
        "brightness"@,
        "clock"@,
        "cpu"@,
        "date"@,
        "disk"@,
        "ip"@,
        "mailbox"@,
        "mailbox-multi"@,
        "mailfetch"@,
        "mem"@,
        "moonphase"@,
        "ping"@,
        "pingok"@,
        "sep"@,
        "uptime"@,
        "wintitle"@,
    ]
}

/// The commands that belong to the suite.
fn names() -> (r: Vec<&'static str>)
    ensures
        r@.map_values(|s: &str| s@) == tracked_names(),
{
    let r: Vec<&'static str> = vec![
        "glass",
        "tile",
        "strip",
        "bare",
        "drain",
        "battery",
        "brightness",
        "clock",
        "cpu",
        "date",
        "disk",
        "ip",
        "mailbox",
        "mailbox-multi",
        "mailfetch",
        "mem",
        "moonphase",
        "ping",
        "pingok",
        "sep",
        "uptime",
        "wintitle",
    ];
    assert(r@.map_values(|s: &str| s@) =~= tracked_names());
    r
}

/// How many of the lines are of this command.
pub open spec fn count(name: Seq<char>, lines: Seq<Delta>) -> int
    decreases lines.len(),
{
    if lines.len() == 0 {
        0
    } else {
        count(name, lines.drop_last()) + if lines.last().comm@ == name {
            1int
        } else {
            0
        }
    }
}

/// The sum of a reading over the lines of this command, in their order.
pub open spec fn sum(
    name: Seq<char>,
    lines: Seq<Delta>,
    value: spec_fn(Delta) -> Metric,
    plus: spec_fn(Metric, Metric) -> Metric,
) -> Metric
    decreases lines.len(),
{
    if lines.len() == 0 {
        Metric { bits: 0 }
    } else {
        let before = sum(name, lines.drop_last(), value, plus);
        if lines.last().comm@ == name {
            plus(before, value(lines.last()))
        } else {
            before
        }
    }
}

/// The row of a command.
pub open spec fn row_of(
    name: Seq<char>,
    lines: Seq<Delta>,
    plus: spec_fn(Metric, Metric) -> Metric,
) -> RowView {
    RowView {
        name,
        instances: count(name, lines),
        cpu_pct: sum(name, lines, sample::cpu_of(), plus),
        wakes_per_s: sum(name, lines, sample::wakes_of(), plus),
    }
}

/// The rows of those of the commands that are running, in the order of the
/// commands.
pub open spec fn running(
    names: Seq<Seq<char>>,
    lines: Seq<Delta>,
    plus: spec_fn(Metric, Metric) -> Metric,
) -> Seq<RowView>
    decreases names.len(),
{
    if names.len() == 0 {
        Seq::empty()
    } else {
        let before = running(names.drop_last(), lines, plus);
        if count(names.last(), lines) > 0 {
            before.push(row_of(names.last(), lines, plus))
        } else {
            before
        }
    }
}

/// Wakes per second in a row.
pub open spec fn row_wakes() -> spec_fn(RowView) -> Metric {
    |r: RowView| r.wakes_per_s
}

/// The rows of the tools that are running, the one that wakes most often
/// first.
pub open spec fn summary(
    lines: Seq<Delta>,
    plus: spec_fn(Metric, Metric) -> Metric,
) -> Seq<RowView> {
    order::ranked(running(tracked_names(), lines, plus), order::higher(row_wakes()))
}

proof fn lemma_count_grows(name: Seq<char>, lines: Seq<Delta>, n: int)
    requires
        0 <= n <= lines.len(),
    ensures
        0 <= count(name, lines.take(n)) <= count(name, lines),
    decreases lines.len(),
{
    if n == lines.len() {
        assert(lines.take(n) =~= lines);
        if n > 0 {
            lemma_count_grows(name, lines.drop_last(), n - 1);
            assert(lines.drop_last().take(n - 1) =~= lines.drop_last());
        }
    } else {
        lemma_count_grows(name, lines.drop_last(), n);
        assert(lines.drop_last().take(n) =~= lines.take(n));
    }
}

/// The row of a command. `plus` adds.
fn tally<F: Fn(Metric, Metric) -> Metric>(name: &'static str, deltas: &Vec<Delta>, plus: &F) -> (r:
    SuiteRow)
    requires
        count(name@, deltas@) <= u32::MAX,
        forall|a: Metric, b: Metric| call_requires(plus, (a, b)),
    ensures
        forall|g: spec_fn(Metric, Metric) -> Metric|
            metric::combines(*plus, g) ==> r@ == #[trigger] row_of(name@, deltas@, g),
        r.instances == count(name@, deltas@),
{
    let mut instances: u32 = 0;
    let mut cpu_pct = Metric::zero();
    let mut wakes_per_s = Metric::zero();
    let mut i: usize = 0;
    assert(deltas@.take(0) =~= Seq::empty());
    while i < deltas.len()
        invariant
            count(name@, deltas@) <= u32::MAX,
            forall|a: Metric, b: Metric| call_requires(plus, (a, b)),
            i <= deltas@.len(),
            instances == count(name@, deltas@.take(i as int)),
            forall|g: spec_fn(Metric, Metric) -> Metric|
                metric::combines(*plus, g) ==> cpu_pct == #[trigger] sum(
                    name@,
                    deltas@.take(i as int),
                    sample::cpu_of(),
                    g,
                ),
            forall|g: spec_fn(Metric, Metric) -> Metric|
                metric::combines(*plus, g) ==> wakes_per_s == #[trigger] sum(
                    name@,
                    deltas@.take(i as int),
                    sample::wakes_of(),
                    g,
                ),
        decreases deltas@.len() - i,
    {
        let d = &deltas[i];
        let ghost cpu_before = cpu_pct;
        let ghost wakes_before = wakes_per_s;
        proof {
            assert(deltas@.take(i + 1).drop_last() =~= deltas@.take(i as int));
            assert(deltas@.take(i + 1).last() == d);
            lemma_count_grows(name@, deltas@, i + 1);
        }
        if text::same_str(d.comm.as_str(), name) {
            instances += 1;
            cpu_pct = plus(cpu_pct, d.cpu_pct);
            wakes_per_s = plus(wakes_per_s, d.wakes_per_s);
        }
        i += 1;
        proof {
            assert forall|g: spec_fn(Metric, Metric) -> Metric|
                metric::combines(*plus, g) implies cpu_pct == #[trigger] sum(
                name@,
                deltas@.take(i as int),
                sample::cpu_of(),
                g,
            ) by {
                assert(cpu_before == sum(name@, deltas@.take(i - 1), sample::cpu_of(), g));
            }
            assert forall|g: spec_fn(Metric, Metric) -> Metric|
                metric::combines(*plus, g) implies wakes_per_s == #[trigger] sum(
                name@,
                deltas@.take(i as int),
                sample::wakes_of(),
                g,
            ) by {
                assert(wakes_before == sum(name@, deltas@.take(i - 1), sample::wakes_of(), g));
            }
        }
    }
    assert(deltas@.take(i as int) =~= deltas@);
    SuiteRow { name, instances, cpu_pct, wakes_per_s }
}

/// The tools of the suite that are running, the one that wakes most often
/// first. `plus` adds.
pub fn summarize<F: Fn(Metric, Metric) -> Metric>(deltas: &Vec<Delta>, plus: F) -> (r: Vec<
    SuiteRow,
>)
    requires
        forall|name: Seq<char>| #[trigger]
            tracked_names().contains(name) ==> count(name, deltas@) <= u32::MAX,
        forall|a: Metric, b: Metric| call_requires(plus, (a, b)),
    ensures
        forall|g: spec_fn(Metric, Metric) -> Metric|
            metric::combines(plus, g) ==> row_views(r@) == #[trigger] summary(deltas@, g),
{
    let names = names();
    let ghost all = tracked_names();
    let mut rows: Vec<SuiteRow> = Vec::new();
    let mut i: usize = 0;
    assert(all.take(0) =~= Seq::empty());
    assert(row_views(rows@) =~= Seq::empty());
    while i < names.len()
        invariant
            all == tracked_names(),
            names@.map_values(|s: &str| s@) == all,
            forall|name: Seq<char>| #[trigger]
                tracked_names().contains(name) ==> count(name, deltas@) <= u32::MAX,
            forall|a: Metric, b: Metric| call_requires(plus, (a, b)),
            i <= names@.len(),
            forall|g: spec_fn(Metric, Metric) -> Metric|
                metric::combines(plus, g) ==> row_views(rows@) == #[trigger] running(
                    all.take(i as int),
                    deltas@,
                    g,
                ),
        decreases names@.len() - i,
    {
        let ghost before = row_views(rows@);
        proof {
            assert(names@.map_values(|s: &str| s@)[i as int] == all[i as int]);
            assert(all.contains(all[i as int]));
            assert(all.take(i + 1).drop_last() =~= all.take(i as int));
            assert(all.take(i + 1).last() == names@[i as int]@);
        }
        let row = tally(names[i], deltas, &plus);
        let ghost view = row@;
        if row.instances > 0 {
            rows.push(row);
            assert(row_views(rows@) =~= before.push(view));
        }
        i += 1;
        proof {
            assert forall|g: spec_fn(Metric, Metric) -> Metric|
                metric::combines(plus, g) implies row_views(rows@) == #[trigger] running(
                all.take(i as int),
                deltas@,
                g,
            ) by {
                assert(before == running(all.take(i - 1), deltas@, g));
                assert(view == row_of(all[i - 1], deltas@, g));
            }
        }
    }
    assert(all.take(i as int) =~= all);
    let ghost found = rows@;
    let above = |x: &SuiteRow, y: &SuiteRow| -> (r: bool)
        ensures
            r == y.wakes_per_s.below(x.wakes_per_s),
    {
        y.wakes_per_s.less(x.wakes_per_s)
    };
    order::rank(&mut rows, above);
    proof {
        let view = |r: SuiteRow| r@;
        let high = order::higher(row_wakes());
        let g = |a: SuiteRow, b: SuiteRow| high(view(a), view(b));
        assert(rows@ == order::ranked(found, g));
        order::lemma_ranked_view(found, view, high);
        assert forall|g: spec_fn(Metric, Metric) -> Metric|
            metric::combines(plus, g) implies row_views(rows@) == #[trigger] summary(
            deltas@,
            g,
        ) by {
            assert(row_views(found) == running(all.take(i as int), deltas@, g));
        }
    }
    rows
}

// ---------------------------------------------------------------------------
// The line
// ---------------------------------------------------------------------------

/// The color of a row, by how often its tool wakes.
pub open spec fn color(wakes: Metric) -> int {
    if wakes.at_least_whole(50) {
        196
    } else if wakes.at_least_whole(20) {
        208
    } else if wakes.at_least_whole(10) {
        226
    } else if wakes.at_least_whole(1) {
        46
    } else {
        244
    }
}

/// A row in the line.
pub open spec fn part(r: RowView, show: spec_fn(Metric) -> Seq<char>) -> Seq<char> {
    "\x1b[38;5;"@ + number::decimal(color(r.wakes_per_s)) + "m"@ + r.name + (if r.instances > 1 {
        "×"@ + number::decimal(r.instances)
    } else {
        Seq::empty()
    }) + " "@ + show(r.wakes_per_s) + "w/s\x1b[0m"@
}

/// The line: its title, then the rows.
pub open spec fn line(rows: Seq<RowView>, show: spec_fn(Metric) -> Seq<char>) -> Seq<char> {
    if rows.len() == 0 {
        "  CHasm suite: (no tracked tools running)"@
    } else {
        "  "@ + layout::joined(
            seq!["\x1b[38;5;250msuite:\x1b[0m"@] + rows.map_values(|r: RowView| part(r, show)),
            "  "@,
        )
    }
}

/// A row in the line.
fn format_part<F: Fn(Metric) -> String>(row: &SuiteRow, show: &F) -> (r: String)
    requires
        forall|m: Metric| call_requires(show, (m,)),
    ensures
        forall|g: spec_fn(Metric) -> Seq<char>|
            metric::shows(*show, g) ==> r@ == #[trigger] part(row@, g),
{
    let w = row.wakes_per_s;
    let col: u64 = if w.reaches_whole(50) {
        196
    } else if w.reaches_whole(20) {
        208
    } else if w.reaches_whole(10) {
        226
    } else if w.reaches_whole(1) {
        46
    } else {
        244
    };
    let mut out = "\x1b[38;5;".to_owned();
    number::push_decimal(&mut out, col);
    out.append("m");
    out.append(row.name);
    let ghost before = out@;
    if row.instances > 1 {
        out.append("×");
        number::push_decimal(&mut out, row.instances as u64);
        assert(out@ =~= before + ("×"@ + number::decimal(row.instances as int)));
    } else {
        assert(out@ =~= before + Seq::empty());
    }
    out.append(" ");
    let shown = show(w);
    out.append(shown.as_str());
    out.append("w/s\x1b[0m");
    out
}

/// The rows as the line above the table. `show` writes a rate.
pub fn format_line<F: Fn(Metric) -> String>(rows: &Vec<SuiteRow>, show: F) -> (r: String)
    requires
        forall|m: Metric| call_requires(show, (m,)),
    ensures
        forall|g: spec_fn(Metric) -> Seq<char>|
            metric::shows(show, g) ==> r@ == #[trigger] line(row_views(rows@), g),
{
    if rows.len() == 0 {
        return "  CHasm suite: (no tracked tools running)".to_owned();
    }
    let mut parts: Vec<String> = Vec::new();
    parts.push("\x1b[38;5;250msuite:\x1b[0m".to_owned());
    let mut i: usize = 0;
    while i < rows.len()
        invariant
            forall|m: Metric| call_requires(show, (m,)),
            i <= rows@.len(),
            parts@.len() == i + 1,
            parts@[0]@ == "\x1b[38;5;250msuite:\x1b[0m"@,
            forall|g: spec_fn(Metric) -> Seq<char>, j: int|
                metric::shows(show, g) && 0 <= j < i ==> parts@[j + 1]@ == #[trigger] part(
                    rows@[j]@,
                    g,
                ),
        decreases rows@.len() - i,
    {
        let p = format_part(&rows[i], &show);
        parts.push(p);
        i += 1;
    }
    let joined = layout::join(&parts, "  ");
    proof {
        assert forall|g: spec_fn(Metric) -> Seq<char>| metric::shows(show, g) implies "  "@
            + joined@ == #[trigger] line(row_views(rows@), g) by {
            let views = row_views(rows@);
            let want = seq!["\x1b[38;5;250msuite:\x1b[0m"@] + views.map_values(
                |r: RowView| part(r, g),
            );
            assert forall|k: int| 0 <= k < want.len() implies #[trigger] layout::texts(parts@)[k]
                == want[k] by {
                if k > 0 {
                    assert(views[k - 1] == rows@[k - 1]@);
                    assert(parts@[(k - 1) + 1]@ == part(rows@[k - 1]@, g));
                }
            }
            assert(layout::texts(parts@) =~= want);
        }
    }
    "  ".to_owned().concat(joined.as_str())
}

// ---------------------------------------------------------------------------
// Laws
// ---------------------------------------------------------------------------

/// The tool that wakes most often stands first, where all rates are numbers.
pub proof fn law_summary_goes_down(
    lines: Seq<Delta>,
    plus: spec_fn(Metric, Metric) -> Metric,
    i: int,
    j: int,
)
    requires
        forall|k: int|
            0 <= k < summary(lines, plus).len() ==> (#[trigger] summary(
                lines,
                plus,
            )[k]).wakes_per_s.is_number(),
        0 <= i < j < summary(lines, plus).len(),
    ensures
        summary(lines, plus)[i].wakes_per_s.at_least(summary(lines, plus)[j].wakes_per_s),
{
    let found = running(tracked_names(), lines, plus);
    let r = summary(lines, plus);
    let high = order::higher(row_wakes());
    order::law_ranked_keeps_items(found, high);
    assert forall|k: int| 0 <= k < found.len() implies row_wakes()(
        #[trigger] found[k],
    ).is_number() by {
        assert(found.contains(found[k]));
        assert(r.contains(found[k]));
    }
    order::law_higher_goes_down(found, row_wakes());
    assert(row_wakes()(r[i]).at_least(row_wakes()(r[j])));
}

proof fn lemma_running(
    names: Seq<Seq<char>>,
    lines: Seq<Delta>,
    plus: spec_fn(Metric, Metric) -> Metric,
    row: RowView,
)
    ensures
        running(names, lines, plus).contains(row) <==> names.contains(row.name) && count(
            row.name,
            lines,
        ) > 0 && row == row_of(row.name, lines, plus),
    decreases names.len(),
{
    let all = running(names, lines, plus);
    if names.len() > 0 {
        let t = names.drop_last();
        let before = running(t, lines, plus);
        let last = names.last();
        lemma_running(t, lines, plus, row);
        assert(names =~= t.push(last));
        assert(names.contains(row.name) <==> t.contains(row.name) || row.name == last) by {
            if t.contains(row.name) {
                let k = choose|k: int| 0 <= k < t.len() && t[k] == row.name;
                assert(names[k] == row.name);
            }
            assert(names[names.len() - 1] == last);
        }
        if count(last, lines) > 0 {
            let x = row_of(last, lines, plus);
            assert(all == before.push(x));
            assert(all.contains(row) <==> before.contains(row) || row == x) by {
                if before.contains(row) {
                    let k = choose|k: int| 0 <= k < before.len() && before[k] == row;
                    assert(all[k] == row);
                }
                assert(all[all.len() - 1] == x);
            }
        }
    }
}

/// The summary holds a tool of the suite exactly if it is running, with its
/// number of instances and its sums.
pub proof fn law_summary_lists_what_runs(
    lines: Seq<Delta>,
    plus: spec_fn(Metric, Metric) -> Metric,
    row: RowView,
)
    ensures
        summary(lines, plus).contains(row) <==> tracked_names().contains(row.name) && count(
            row.name,
            lines,
        ) > 0 && row == row_of(row.name, lines, plus),
{
    let found = running(tracked_names(), lines, plus);
    order::law_ranked_keeps_items(found, order::higher(row_wakes()));
    lemma_running(tracked_names(), lines, plus, row);
    assert(found.contains(row) <==> summary(lines, plus).contains(row));
}

/// Every instance of a tool counts once in its row, with its own share of the
/// processor and its own wakes; a line of another command changes nothing.
pub proof fn law_rows_take_every_instance_in(
    name: Seq<char>,
    lines: Seq<Delta>,
    d: Delta,
    plus: spec_fn(Metric, Metric) -> Metric,
)
    ensures
        row_of(name, Seq::empty(), plus) == (RowView {
            name,
            instances: 0,
            cpu_pct: Metric { bits: 0 },
            wakes_per_s: Metric { bits: 0 },
        }),
        d.comm@ == name ==> row_of(name, lines.push(d), plus) == (RowView {
            name,
            instances: row_of(name, lines, plus).instances + 1,
            cpu_pct: plus(row_of(name, lines, plus).cpu_pct, d.cpu_pct),
            wakes_per_s: plus(row_of(name, lines, plus).wakes_per_s, d.wakes_per_s),
        }),
        d.comm@ != name ==> row_of(name, lines.push(d), plus) == row_of(name, lines, plus),
{
    assert(lines.push(d).drop_last() =~= lines);
}

/// The instances in a row are the lines of its command.
pub proof fn law_instances_are_the_lines_of_the_command(
    name: Seq<char>,
    lines: Seq<Delta>,
    plus: spec_fn(Metric, Metric) -> Metric,
)
    ensures
        row_of(name, lines, plus).instances == lines.filter(|d: Delta| d.comm@ == name).len(),
    decreases lines.len(),
{
    reveal(Seq::filter);
    if lines.len() > 0 {
        law_instances_are_the_lines_of_the_command(name, lines.drop_last(), plus);
    }
}

/// The rows of what runs: one for each of the names that has a line.
proof fn lemma_running_len(
    names: Seq<Seq<char>>,
    lines: Seq<Delta>,
    plus: spec_fn(Metric, Metric) -> Metric,
)
    ensures
        running(names, lines, plus).len() == names.filter(
            |n: Seq<char>| exists|i: int| 0 <= i < lines.len() && (#[trigger] lines[i]).comm@ == n,
        ).len(),
    decreases names.len(),
{
    reveal(Seq::filter);
    if names.len() > 0 {
        lemma_running_len(names.drop_last(), lines, plus);
        lemma_count_is_positive(names.last(), lines);
    }
}

proof fn lemma_count_is_positive(name: Seq<char>, lines: Seq<Delta>)
    ensures
        count(name, lines) > 0 <==> exists|i: int|
            0 <= i < lines.len() && (#[trigger] lines[i]).comm@ == name,
        count(name, lines) >= 0,
    decreases lines.len(),
{
    if lines.len() > 0 {
        let t = lines.drop_last();
        lemma_count_is_positive(name, t);
        assert forall|i: int| 0 <= i < t.len() implies #[trigger] t[i] == lines[i] by {}
        assert(lines.last() == lines[lines.len() - 1]);
        if count(name, lines) > 0 {
            if lines.last().comm@ != name {
                let i = choose|i: int| 0 <= i < t.len() && (#[trigger] t[i]).comm@ == name;
                assert(lines[i].comm@ == name);
            }
        }
        if exists|i: int| 0 <= i < lines.len() && (#[trigger] lines[i]).comm@ == name {
            let i = choose|i: int| 0 <= i < lines.len() && (#[trigger] lines[i]).comm@ == name;
            if i < t.len() {
                assert(t[i].comm@ == name);
            }
        }
    }
}

/// The summary has one row for each tool of the suite that runs, and no other.
pub proof fn law_summary_has_one_row_for_each_tool(
    lines: Seq<Delta>,
    plus: spec_fn(Metric, Metric) -> Metric,
)
    ensures
        summary(lines, plus).len() == tracked_names().filter(
            |n: Seq<char>| exists|i: int| 0 <= i < lines.len() && (#[trigger] lines[i]).comm@ == n,
        ).len(),
{
    lemma_running_len(tracked_names(), lines, plus);
    order::law_ranked_keeps_items(
        running(tracked_names(), lines, plus),
        order::higher(row_wakes()),
    );
}

/// A row of the summary belongs to a tool of the suite that has a line, and
/// stands above every row that wakes less often.
pub proof fn law_most_wakes_stand_first(
    lines: Seq<Delta>,
    plus: spec_fn(Metric, Metric) -> Metric,
    i: int,
    j: int,
)
    requires
        forall|k: int|
            0 <= k < summary(lines, plus).len() ==> (#[trigger] summary(
                lines,
                plus,
            )[k]).wakes_per_s.is_number(),
        0 <= i < j < summary(lines, plus).len(),
    ensures
        summary(lines, plus)[i].wakes_per_s.value() >= summary(lines, plus)[j].wakes_per_s.value(),
{
    law_summary_goes_down(lines, plus, i, j);
}

/// The color of a row: red from fifty wakes a second, orange from twenty, yellow
/// from ten, green from one, and gray below.
pub proof fn law_colors_warn_by_wakes(w: Metric, nothing: Metric)
    requires
        w.is_number(),
        !nothing.is_number(),
    ensures
        color(nothing) == 244,
        w.value() >= 50 * metric::one() ==> color(w) == 196,
        20 * metric::one() <= w.value() < 50 * metric::one() ==> color(w) == 208,
        10 * metric::one() <= w.value() < 20 * metric::one() ==> color(w) == 226,
        metric::one() <= w.value() < 10 * metric::one() ==> color(w) == 46,
        w.value() < metric::one() ==> color(w) == 244,
{
    vstd::arithmetic::power2::lemma_pow2_pos(1074);
}

/// A tool reads as its name in its color, then its wakes. Several instances are
/// numbered behind the name, and change nothing else.
pub proof fn law_several_instances_are_numbered(
    r: RowView,
    n: int,
    show: spec_fn(Metric) -> Seq<char>,
)
    requires
        r.instances <= 1,
        n > 1,
    ensures
        ({
            let a = "\x1b[38;5;"@ + number::decimal(color(r.wakes_per_s)) + "m"@ + r.name;
            let b = " "@ + show(r.wakes_per_s) + "w/s\x1b[0m"@;
            &&& part(r, show) == a + b
            &&& part(RowView { instances: n, ..r }, show) == a + ("×"@ + number::decimal(n)) + b
        }),
{
    let a = "\x1b[38;5;"@ + number::decimal(color(r.wakes_per_s)) + "m"@ + r.name;
    let b = " "@ + show(r.wakes_per_s) + "w/s\x1b[0m"@;
    let m = "×"@ + number::decimal(n);
    assert(part(r, show) =~= a + b);
    assert(part(RowView { instances: n, ..r }, show) =~= a + m + b);
}

/// The line names every row, in the order of the rows, with two blanks between:
/// one more row is put behind the others.
pub proof fn law_line_names_every_row(
    rows: Seq<RowView>,
    r: RowView,
    show: spec_fn(Metric) -> Seq<char>,
)
    ensures
        rows.len() == 0 ==> line(rows.push(r), show) == "  "@ + "\x1b[38;5;250msuite:\x1b[0m"@ + (
        "  "@ + part(r, show)),
        rows.len() > 0 ==> line(rows.push(r), show) == line(rows, show) + ("  "@ + part(r, show)),
{
    let title = "\x1b[38;5;250msuite:\x1b[0m"@;
    let f = |r: RowView| part(r, show);
    let parts = seq![title] + rows.map_values(f);
    let more = seq![title] + rows.push(r).map_values(f);
    assert(more.drop_last() =~= parts);
    assert(more.last() == part(r, show));
    assert(layout::joined(more, "  "@) == layout::joined(parts, "  "@) + "  "@ + part(r, show));
    if rows.len() == 0 {
        assert(parts =~= seq![title]);
        assert(layout::joined(parts, "  "@) == title);
        assert(line(rows.push(r), show) =~= "  "@ + title + ("  "@ + part(r, show)));
    } else {
        assert(line(rows.push(r), show) =~= line(rows, show) + ("  "@ + part(r, show)));
    }
}

/// A row shows what its fields hold.
pub proof fn law_rows_show_their_fields(rows: Seq<SuiteRow>, i: int)
    requires
        0 <= i < rows.len(),
    ensures
        row_views(rows).len() == rows.len(),
        row_views(rows)[i].name == rows[i].name@,
        row_views(rows)[i].instances == rows[i].instances,
        row_views(rows)[i].cpu_pct == rows[i].cpu_pct,
        row_views(rows)[i].wakes_per_s == rows[i].wakes_per_s,
{
}

} // verus!
