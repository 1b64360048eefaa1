//! What is normal: a battery average and, for each command, how often it
//! wakes and how much CPU it takes. The snapshot is saved as text and read
//! back; a process that wakes far more often than its command used to stands
//! out against it.
use crate::metric;
use crate::metric::Metric;
use crate::number;
use crate::sample;
use crate::sample::Delta;
use crate::table;
use crate::table::Table;
use crate::text;
use crate::text::Class;
use vstd::prelude::*;
use vstd::slice::slice_subrange;

verus! {

/// The largest whole number up to which a double holds every one: 2 to the
/// power of 53.
pub const EXACT: u64 = 0x20_0000_0000_0000;

/// What is normal.
#[derive(Clone, Debug)]
pub struct BaselineSnapshot {
    /// The battery draw, in watts.
    pub bat_w_avg: Metric,
    /// Wakes per second by command, which outlives a process number.
    pub wakes_median: Table,
    /// CPU share by command, in percent.
    pub cpu_median: Table,
    /// How many samples went in.
    pub samples_taken: u64,
}

/// The contents of a snapshot.
#[verifier::ext_equal]
pub struct Baseline {
    pub bat_w_avg: Metric,
    pub wakes_median: table::Rows,
    pub cpu_median: table::Rows,
    pub samples_taken: u64,
}

impl View for BaselineSnapshot {
    type V = Baseline;

    open spec fn view(&self) -> Baseline {
        Baseline {
            bat_w_avg: self.bat_w_avg,
            wakes_median: self.wakes_median@,
            cpu_median: self.cpu_median@,
            samples_taken: self.samples_taken,
        }
    }
}

/// The contents of a snapshot into which nothing went.
pub open spec fn fresh() -> Baseline {
    Baseline {
        bat_w_avg: Metric { bits: 0 },
        wakes_median: table::Rows::empty(),
        cpu_median: table::Rows::empty(),
        samples_taken: 0,
    }
}

impl Default for BaselineSnapshot {
    fn default() -> (r: Self)
        ensures
            r@ == fresh(),
    {
        BaselineSnapshot {
            bat_w_avg: Metric::zero(),
            wakes_median: Table::new(),
            cpu_median: Table::new(),
            samples_taken: 0,
        }
    }
}

/// The average once one more value has gone in. `blend` weighs the average so
/// far against the value; the value alone stands where there is no average yet.
pub open spec fn blended(
    before: Option<Metric>,
    now: Metric,
    blend: spec_fn(Metric, Metric) -> Metric,
) -> Metric {
    blend(
        match before {
            Some(m) => m,
            None => now,
        },
        now,
    )
}

/// The averages by command once the lines have gone in.
pub open spec fn learned(
    rows: table::Rows,
    lines: Seq<Delta>,
    value: spec_fn(Delta) -> Metric,
    blend: spec_fn(Metric, Metric) -> Metric,
) -> table::Rows
    decreases lines.len(),
{
    if lines.len() == 0 {
        rows
    } else {
        let before = learned(rows, lines.drop_last(), value, blend);
        let d = lines.last();
        table::put(before, d.comm@, blended(table::get(before, d.comm@), value(d), blend))
    }
}

/// The contents once a sample has gone in.
pub open spec fn updated(
    b: Baseline,
    lines: Seq<Delta>,
    bat_w: Option<Metric>,
    blend: spec_fn(Metric, Metric) -> Metric,
) -> Baseline {
    Baseline {
        bat_w_avg: match bat_w {
            Some(w) => if b.samples_taken == 0 {
                w
            } else {
                blend(b.bat_w_avg, w)
            },
            None => b.bat_w_avg,
        },
        wakes_median: learned(b.wakes_median, lines, sample::wakes_of(), blend),
        cpu_median: learned(b.cpu_median, lines, sample::cpu_of(), blend),
        samples_taken: if b.samples_taken < u64::MAX {
            (b.samples_taken + 1) as u64
        } else {
            u64::MAX
        },
    }
}

/// How many times its normal rate a command wakes at, where `ratio` divides:
/// against one wake per second where the normal rate is below that; `None`
/// where nothing is known of the command.
pub open spec fn anomaly(
    b: Baseline,
    comm: Seq<char>,
    current: Metric,
    ratio: spec_fn(Metric, Metric) -> Metric,
) -> Option<Metric> {
    match table::get(b.wakes_median, comm) {
        None => None,
        Some(base) => if base.is_number() && !base.at_least_whole(1) {
            Some(current)
        } else {
            Some(ratio(current, base))
        },
    }
}

impl BaselineSnapshot {
    /// Takes a sample in. `blend` weighs an average against a new value.
    pub fn update<F: Fn(Metric, Metric) -> Metric>(
        &mut self,
        deltas: &Vec<Delta>,
        bat_w: Option<Metric>,
        blend: F,
    )
        requires
            forall|a: Metric, b: Metric| call_requires(blend, (a, b)),
        ensures
            forall|g: spec_fn(Metric, Metric) -> Metric|
                metric::combines(blend, g) ==> final(self)@ == #[trigger] updated(
                    old(self)@,
                    deltas@,
                    bat_w,
                    g,
                ),
    {
        let ghost start = self@;
        if let Some(w) = bat_w {
            if self.samples_taken == 0 {
                self.bat_w_avg = w;
            } else {
                self.bat_w_avg = blend(self.bat_w_avg, w);
            }
        }
        let ghost avg = self.bat_w_avg;
        let mut i: usize = 0;
        assert(deltas@.take(0) =~= Seq::empty());
        while i < deltas.len()
            invariant
                forall|a: Metric, b: Metric| call_requires(blend, (a, b)),
                i <= deltas@.len(),
                self.bat_w_avg == avg,
                self.samples_taken == start.samples_taken,
                forall|g: spec_fn(Metric, Metric) -> Metric|
                    metric::combines(blend, g) ==> self.wakes_median@ == #[trigger] learned(
                        start.wakes_median,
                        deltas@.take(i as int),
                        sample::wakes_of(),
                        g,
                    ),
                forall|g: spec_fn(Metric, Metric) -> Metric|
                    metric::combines(blend, g) ==> self.cpu_median@ == #[trigger] learned(
                        start.cpu_median,
                        deltas@.take(i as int),
                        sample::cpu_of(),
                        g,
                    ),
            decreases deltas@.len() - i,
        {
            let ghost wakes_before = self.wakes_median@;
            let ghost cpu_before = self.cpu_median@;
            let d = &deltas[i];
            let prev_w = match self.wakes_median.get(d.comm.as_str()) {
                Some(m) => m,
                None => d.wakes_per_s,
            };
            let prev_c = match self.cpu_median.get(d.comm.as_str()) {
                Some(m) => m,
                None => d.cpu_pct,
            };
            self.wakes_median.put(d.comm.as_str(), blend(prev_w, d.wakes_per_s));
            self.cpu_median.put(d.comm.as_str(), blend(prev_c, d.cpu_pct));
            i += 1;
            proof {
                assert(deltas@.take(i as int).drop_last() =~= deltas@.take(i - 1));
                assert(deltas@.take(i as int).last() == d);
                assert forall|g: spec_fn(Metric, Metric) -> Metric|
                    metric::combines(blend, g) implies self.wakes_median@ == #[trigger] learned(
                    start.wakes_median,
                    deltas@.take(i as int),
                    sample::wakes_of(),
                    g,
                ) by {
                    assert(wakes_before == learned(
                        start.wakes_median,
                        deltas@.take(i - 1),
                        sample::wakes_of(),
                        g,
                    ));
                }
                assert forall|g: spec_fn(Metric, Metric) -> Metric|
                    metric::combines(blend, g) implies self.cpu_median@ == #[trigger] learned(
                    start.cpu_median,
                    deltas@.take(i as int),
                    sample::cpu_of(),
                    g,
                ) by {
                    assert(cpu_before == learned(
                        start.cpu_median,
                        deltas@.take(i - 1),
                        sample::cpu_of(),
                        g,
                    ));
                }
            }
        }
        self.samples_taken = self.samples_taken.saturating_add(1);
        proof {
            assert(deltas@.take(deltas@.len() as int) =~= deltas@);
            assert forall|g: spec_fn(Metric, Metric) -> Metric|
                metric::combines(blend, g) implies self@ == #[trigger] updated(
                start,
                deltas@,
                bat_w,
                g,
            ) by {
                assert(self.wakes_median@ == learned(
                    start.wakes_median,
                    deltas@.take(i as int),
                    sample::wakes_of(),
                    g,
                ));
                assert(self.cpu_median@ == learned(
                    start.cpu_median,
                    deltas@.take(i as int),
                    sample::cpu_of(),
                    g,
                ));
            }
        }
    }

    /// How many times its normal rate a command wakes at: 1 where it is as
    /// before, `None` where nothing is known of it. `ratio` divides.
    pub fn wakes_anomaly<F: Fn(Metric, Metric) -> Metric>(
        &self,
        comm: &str,
        current: Metric,
        ratio: F,
    ) -> (r: Option<Metric>)
        requires
            forall|a: Metric, b: Metric| call_requires(ratio, (a, b)),
        ensures
            r is None <==> table::get(self@.wakes_median, comm@) is None,
            forall|g: spec_fn(Metric, Metric) -> Metric|
                metric::combines(ratio, g) ==> r == #[trigger] anomaly(self@, comm@, current, g),
    {
        match self.wakes_median.get(comm) {
            None => None,
            Some(base) => {
                if base.number() && !base.reaches_whole(1) {
                    // From nothing to fifty wakes is fifty times as many as one.
                    return Some(current);
                }
                Some(ratio(current, base))
            },
        }
    }
}

proof fn lemma_learned(
    rows: table::Rows,
    lines: Seq<Delta>,
    value: spec_fn(Delta) -> Metric,
    blend: spec_fn(Metric, Metric) -> Metric,
    comm: Seq<char>,
)
    ensures
        (exists|i: int| 0 <= i < lines.len() && (#[trigger] lines[i]).comm@ == comm) ==> table::get(
            learned(rows, lines, value, blend),
            comm,
        ) is Some,
        (forall|i: int| 0 <= i < lines.len() ==> (#[trigger] lines[i]).comm@ != comm) ==> table::get(
            learned(rows, lines, value, blend),
            comm,
        ) == table::get(rows, comm),
        table::distinct(rows) ==> table::distinct(learned(rows, lines, value, blend)),
    decreases lines.len(),
{
    if lines.len() > 0 {
        let t = lines.drop_last();
        let before = learned(rows, t, value, blend);
        let d = lines.last();
        let m = blended(table::get(before, d.comm@), value(d), blend);
        lemma_learned(rows, t, value, blend, comm);
        table::law_put_then_get(before, d.comm@, m, comm);
        if table::distinct(rows) {
            table::law_put_keeps_distinct(before, d.comm@, m);
        }
        assert(d == lines[lines.len() - 1]);
        assert forall|i: int| 0 <= i < lines.len() && (#[trigger] lines[i]).comm@ == comm implies
            d.comm@ == comm || (exists|j: int| 0 <= j < t.len() && (#[trigger] t[j]).comm@ == comm) by {
            if i < t.len() {
                assert(t[i] == lines[i]);
            }
        }
        assert forall|j: int| 0 <= j < t.len() implies #[trigger] t[j] == lines[j] by {}
    }
}

/// After a sample something is known of every command in it, and every other
/// command is known as before.
pub proof fn law_update_learns_the_lines(
    b: Baseline,
    lines: Seq<Delta>,
    bat_w: Option<Metric>,
    blend: spec_fn(Metric, Metric) -> Metric,
    comm: Seq<char>,
)
    ensures
        (exists|i: int| 0 <= i < lines.len() && (#[trigger] lines[i]).comm@ == comm) ==> {
            &&& table::get(updated(b, lines, bat_w, blend).wakes_median, comm) is Some
            &&& table::get(updated(b, lines, bat_w, blend).cpu_median, comm) is Some
        },
        (forall|i: int| 0 <= i < lines.len() ==> (#[trigger] lines[i]).comm@ != comm) ==> {
            &&& table::get(updated(b, lines, bat_w, blend).wakes_median, comm) == table::get(
                b.wakes_median,
                comm,
            )
            &&& table::get(updated(b, lines, bat_w, blend).cpu_median, comm) == table::get(
                b.cpu_median,
                comm,
            )
        },
{
    lemma_learned(b.wakes_median, lines, sample::wakes_of(), blend, comm);
    lemma_learned(b.cpu_median, lines, sample::cpu_of(), blend, comm);
}

/// The averages of one command where the lines hold it once, at `i`.
proof fn lemma_learned_once(
    rows: table::Rows,
    lines: Seq<Delta>,
    value: spec_fn(Delta) -> Metric,
    blend: spec_fn(Metric, Metric) -> Metric,
    i: int,
)
    requires
        0 <= i < lines.len(),
        forall|j: int|
            0 <= j < lines.len() && j != i ==> (#[trigger] lines[j]).comm@ != lines[i].comm@,
    ensures
        table::get(learned(rows, lines, value, blend), lines[i].comm@) == Some(
            match table::get(rows, lines[i].comm@) {
                Some(m) => blend(m, value(lines[i])),
                None => blend(value(lines[i]), value(lines[i])),
            },
        ),
    decreases lines.len(),
{
    let t = lines.drop_last();
    let before = learned(rows, t, value, blend);
    let d = lines.last();
    let comm = lines[i].comm@;
    assert forall|j: int| 0 <= j < t.len() implies #[trigger] t[j] == lines[j] by {}
    table::law_put_then_get(
        before,
        d.comm@,
        blended(table::get(before, d.comm@), value(d), blend),
        comm,
    );
    if i == lines.len() - 1 {
        lemma_learned(rows, t, value, blend, comm);
    } else {
        assert(t[i] == lines[i]);
        assert(d == lines[lines.len() - 1]);
        assert(d.comm@ != comm);
        lemma_learned_once(rows, t, value, blend, i);
    }
}

/// A command that has one line in a sample is known afterwards by its average
/// so far blended with the reading of that line, however the two compare: its
/// wakes with the wakes, its share of the processor with the share. Where it was
/// not known, the reading stands for the average so far.
pub proof fn law_update_blends_in_the_reading(
    b: Baseline,
    lines: Seq<Delta>,
    bat_w: Option<Metric>,
    blend: spec_fn(Metric, Metric) -> Metric,
    i: int,
)
    requires
        0 <= i < lines.len(),
        forall|j: int|
            0 <= j < lines.len() && j != i ==> (#[trigger] lines[j]).comm@ != lines[i].comm@,
    ensures
        table::get(b.wakes_median, lines[i].comm@) matches Some(m) ==> table::get(
            updated(b, lines, bat_w, blend).wakes_median,
            lines[i].comm@,
        ) == Some(blend(m, lines[i].wakes_per_s)),
        table::get(b.wakes_median, lines[i].comm@) is None ==> table::get(
            updated(b, lines, bat_w, blend).wakes_median,
            lines[i].comm@,
        ) == Some(blend(lines[i].wakes_per_s, lines[i].wakes_per_s)),
        table::get(b.cpu_median, lines[i].comm@) matches Some(m) ==> table::get(
            updated(b, lines, bat_w, blend).cpu_median,
            lines[i].comm@,
        ) == Some(blend(m, lines[i].cpu_pct)),
        table::get(b.cpu_median, lines[i].comm@) is None ==> table::get(
            updated(b, lines, bat_w, blend).cpu_median,
            lines[i].comm@,
        ) == Some(blend(lines[i].cpu_pct, lines[i].cpu_pct)),
{
    lemma_learned_once(b.wakes_median, lines, sample::wakes_of(), blend, i);
    lemma_learned_once(b.cpu_median, lines, sample::cpu_of(), blend, i);
}

/// The lines of a sample go in one after another: one more line at the end
/// blends its readings into what the lines before it made known of its command,
/// and leaves all else as it is.
pub proof fn law_lines_go_in_one_by_one(
    b: Baseline,
    lines: Seq<Delta>,
    d: Delta,
    bat_w: Option<Metric>,
    blend: spec_fn(Metric, Metric) -> Metric,
    other: Seq<char>,
)
    requires
        other != d.comm@,
    ensures
        updated(b, Seq::empty(), bat_w, blend).wakes_median == b.wakes_median,
        updated(b, Seq::empty(), bat_w, blend).cpu_median == b.cpu_median,
        ({
            let before = updated(b, lines, bat_w, blend);
            let after = updated(b, lines.push(d), bat_w, blend);
            &&& table::get(before.wakes_median, d.comm@) matches Some(m) ==> table::get(
                after.wakes_median,
                d.comm@,
            ) == Some(blend(m, d.wakes_per_s))
            &&& table::get(before.wakes_median, d.comm@) is None ==> table::get(
                after.wakes_median,
                d.comm@,
            ) == Some(blend(d.wakes_per_s, d.wakes_per_s))
            &&& table::get(before.cpu_median, d.comm@) matches Some(m) ==> table::get(
                after.cpu_median,
                d.comm@,
            ) == Some(blend(m, d.cpu_pct))
            &&& table::get(before.cpu_median, d.comm@) is None ==> table::get(
                after.cpu_median,
                d.comm@,
            ) == Some(blend(d.cpu_pct, d.cpu_pct))
            &&& table::get(after.wakes_median, other) == table::get(before.wakes_median, other)
            &&& table::get(after.cpu_median, other) == table::get(before.cpu_median, other)
            &&& after.bat_w_avg == before.bat_w_avg
            &&& after.samples_taken == before.samples_taken
        }),
{
    assert(lines.push(d).drop_last() =~= lines);
    let w = learned(b.wakes_median, lines, sample::wakes_of(), blend);
    let c = learned(b.cpu_median, lines, sample::cpu_of(), blend);
    let wm = blended(table::get(w, d.comm@), d.wakes_per_s, blend);
    let cm = blended(table::get(c, d.comm@), d.cpu_pct, blend);
    table::law_put_then_get(w, d.comm@, wm, d.comm@);
    table::law_put_then_get(w, d.comm@, wm, other);
    table::law_put_then_get(c, d.comm@, cm, d.comm@);
    table::law_put_then_get(c, d.comm@, cm, other);
}

/// The draw of the battery: the first sample sets it, a later one blends its
/// reading in, and one without a reading leaves it. Every sample counts.
pub proof fn law_update_blends_in_the_draw(
    b: Baseline,
    lines: Seq<Delta>,
    w: Metric,
    blend: spec_fn(Metric, Metric) -> Metric,
)
    ensures
        b.samples_taken == 0 ==> updated(b, lines, Some(w), blend).bat_w_avg == w,
        b.samples_taken > 0 ==> updated(b, lines, Some(w), blend).bat_w_avg == blend(
            b.bat_w_avg,
            w,
        ),
        updated(b, lines, None, blend).bat_w_avg == b.bat_w_avg,
        b.samples_taken < u64::MAX ==> updated(b, lines, Some(w), blend).samples_taken
            == b.samples_taken + 1 && updated(b, lines, None, blend).samples_taken
            == b.samples_taken + 1,
        b.samples_taken == u64::MAX ==> updated(b, lines, Some(w), blend).samples_taken == u64::MAX
            && updated(b, lines, None, blend).samples_taken == u64::MAX,
{
}

/// A command is held against its own wakes: by the ratio where it normally
/// wakes once a second or more, against one wake a second where it wakes less
/// often, and not at all where it is not known. One blended in by a sample is
/// held against what that sample left.
pub proof fn law_commands_are_held_against_their_wakes(
    b: Baseline,
    comm: Seq<char>,
    current: Metric,
    ratio: spec_fn(Metric, Metric) -> Metric,
)
    ensures
        table::get(b.wakes_median, comm) is None <==> anomaly(b, comm, current, ratio) is None,
        table::get(b.wakes_median, comm) matches Some(m) ==> (m.is_number() && m.value()
            >= metric::one() ==> anomaly(b, comm, current, ratio) == Some(ratio(current, m))),
        table::get(b.wakes_median, comm) matches Some(m) ==> (m.is_number() && m.value()
            < metric::one() ==> anomaly(b, comm, current, ratio) == Some(current)),
        table::get(b.wakes_median, comm) matches Some(m) ==> (!m.is_number() ==> anomaly(
            b,
            comm,
            current,
            ratio,
        ) == Some(ratio(current, m))),
{
}

// ---------------------------------------------------------------------------
// Writing
// ---------------------------------------------------------------------------

/// A digit of a hexadecimal number.
pub open spec fn hex(n: int) -> char {
    if n < 10 {
        ('0' as int + n) as char
    } else {
        ('a' as int + (n - 10)) as char
    }
}

/// How a character stands inside quotes.
pub open spec fn escape(c: char) -> Seq<char> {
    if c == '"' {
        seq!['\\', '"']
    } else if c == '\\' {
        seq!['\\', '\\']
    } else if c == '\n' {
        seq!['\\', 'n']
    } else if c == '\t' {
        seq!['\\', 't']
    } else if ' ' > c {
        seq!['\\', 'u', '0', '0', hex(c as int / 16), hex(c as int % 16)]
    } else {
        seq![c]
    }
}

/// The text with every character as it stands inside quotes.
pub open spec fn escaped(s: Seq<char>) -> Seq<char>
    decreases s.len(),
{
    if s.len() == 0 {
        Seq::empty()
    } else {
        escaped(s.drop_last()) + escape(s.last())
    }
}

/// The text in quotes.
pub open spec fn quoted(s: Seq<char>) -> Seq<char> {
    seq!['"'] + escaped(s) + seq!['"']
}

/// The rows of a table, one on a line of its own.
pub open spec fn rows_text(rows: table::Rows, show: spec_fn(Metric) -> Seq<char>) -> Seq<char>
    decreases rows.len(),
{
    if rows.len() == 0 {
        Seq::empty()
    } else {
        rows_text(rows.drop_last(), show) + (if rows.len() > 1 {
            ","@
        } else {
            Seq::empty()
        }) + "\n    "@ + quoted(rows.last().0) + ": "@ + show(rows.last().1)
    }
}

/// The contents as text.
pub open spec fn json(b: Baseline, show: spec_fn(Metric) -> Seq<char>) -> Seq<char> {
    "{\n"@ + "  \"bat_w_avg\": "@ + show(b.bat_w_avg) + ",\n"@ + "  \"samples_taken\": "@
        + number::decimal(b.samples_taken as int) + ",\n"@ + "  \"wakes_median\": {"@ + rows_text(
        b.wakes_median,
        show,
    ) + "\n  },\n"@ + "  \"cpu_median\": {"@ + rows_text(b.cpu_median, show) + "\n  }\n}\n"@
}

/// A digit of a hexadecimal number.
fn hex_digit(n: u8) -> (r: char)
    requires
        n < 16,
    ensures
        r == hex(n as int),
{
    if n < 10 {
        (48 + n) as char
    } else {
        (97 + (n - 10)) as char
    }
}

/// Writes a character as it stands inside quotes.
fn push_escape(out: &mut String, c: char)
    ensures
        final(out)@ == old(out)@ + escape(c),
{
    let ghost start = out@;
    if c == '"' {
        out.push('\\');
        out.push('"');
    } else if c == '\\' {
        out.push('\\');
        out.push('\\');
    } else if c == '\n' {
        out.push('\\');
        out.push('n');
    } else if c == '\t' {
        out.push('\\');
        out.push('t');
    } else if ' ' > c {
        let n: u32 = c as u32;
        assert(n < 32);
        out.push('\\');
        out.push('u');
        out.push('0');
        out.push('0');
        out.push(hex_digit((n / 16) as u8));
        out.push(hex_digit((n % 16) as u8));
    } else {
        out.push(c);
    }
    assert(out@ =~= start + escape(c));
}

/// The text in quotes.
pub fn quote(s: &str) -> (r: String)
    ensures
        r@ == quoted(s@),
{
    let chars = text::chars_of(s);
    let mut out = String::new();
    out.push('"');
    let mut i: usize = 0;
    assert(chars@.take(0) =~= Seq::empty());
    assert(out@ =~= seq!['"'] + escaped(chars@.take(0)));
    while i < chars.len()
        invariant
            i <= chars@.len(),
            out@ == seq!['"'] + escaped(chars@.take(i as int)),
        decreases chars@.len() - i,
    {
        push_escape(&mut out, chars[i]);
        i += 1;
        assert(chars@.take(i as int).drop_last() =~= chars@.take(i - 1));
        assert(out@ =~= seq!['"'] + escaped(chars@.take(i as int)));
    }
    assert(chars@.take(i as int) =~= chars@);
    out.push('"');
    assert(out@ =~= quoted(s@));
    out
}

/// Writes the rows of a table.
fn push_rows<F: Fn(Metric) -> String>(out: &mut String, rows: &Table, show: &F)
    requires
        forall|m: Metric| call_requires(show, (m,)),
    ensures
        forall|g: spec_fn(Metric) -> Seq<char>|
            metric::shows(*show, g) ==> final(out)@ == old(out)@ + #[trigger] rows_text(rows@, g),
{
    let ghost start = out@;
    let mut i: usize = 0;
    assert(rows@.take(0) =~= table::Rows::empty());
    assert(start + Seq::<char>::empty() =~= start);
    while i < rows.len()
        invariant
            forall|m: Metric| call_requires(show, (m,)),
            i <= rows@.len(),
            forall|g: spec_fn(Metric) -> Seq<char>|
                metric::shows(*show, g) ==> out@ == start + #[trigger] rows_text(
                    rows@.take(i as int),
                    g,
                ),
        decreases rows@.len() - i,
    {
        let ghost before = out@;
        if i > 0 {
            out.append(",");
        }
        out.append("\n    ");
        let name = quote(rows.name(i));
        out.append(name.as_str());
        out.append(": ");
        let shown = show(rows.value(i));
        out.append(shown.as_str());
        i += 1;
        proof {
            assert(rows@.take(i as int).drop_last() =~= rows@.take(i - 1));
            assert forall|g: spec_fn(Metric) -> Seq<char>| metric::shows(*show, g) implies out@
                == start + #[trigger] rows_text(rows@.take(i as int), g) by {
                assert(before == start + rows_text(rows@.take(i - 1), g));
                assert(out@ =~= start + rows_text(rows@.take(i as int), g));
            }
        }
    }
    assert(rows@.take(i as int) =~= rows@);
}

/// The snapshot as text. `show` writes a reading.
pub fn format_json<F: Fn(Metric) -> String>(s: &BaselineSnapshot, show: F) -> (r: String)
    requires
        forall|m: Metric| call_requires(show, (m,)),
    ensures
        forall|g: spec_fn(Metric) -> Seq<char>|
            metric::shows(show, g) ==> r@ == #[trigger] json(s@, g),
{
    let mut out = "{\n".to_owned();
    out.append("  \"bat_w_avg\": ");
    let shown = show(s.bat_w_avg);
    out.append(shown.as_str());
    out.append(",\n");
    out.append("  \"samples_taken\": ");
    number::push_decimal(&mut out, s.samples_taken);
    out.append(",\n");
    out.append("  \"wakes_median\": {");
    let ghost before = out@;
    push_rows(&mut out, &s.wakes_median, &show);
    let ghost wakes = out@;
    out.append("\n  },\n");
    out.append("  \"cpu_median\": {");
    let ghost cpu = out@;
    push_rows(&mut out, &s.cpu_median, &show);
    out.append("\n  }\n}\n");
    proof {
        assert forall|g: spec_fn(Metric) -> Seq<char>| metric::shows(show, g) implies out@
            == #[trigger] json(s@, g) by {
            assert(wakes == before + rows_text(s@.wakes_median, g));
            assert(out@ == cpu + rows_text(s@.cpu_median, g) + "\n  }\n}\n"@);
        }
    }
    out
}

// ---------------------------------------------------------------------------
// Reading
// ---------------------------------------------------------------------------

/// What is left of a text behind the characters of `k` at its start.
pub open spec fn past(s: Seq<char>, k: Class) -> Seq<char> {
    s.skip(text::scan_out(s, 0, k))
}

/// The number at the start of a text, and what is left behind it.
pub open spec fn number_at(
    s: Seq<char>,
    num: spec_fn(Seq<char>) -> Option<Metric>,
) -> Option<(Metric, Seq<char>)> {
    let n = text::scan_out(s, 0, Class::Numeral);
    match num(s.take(n)) {
        Some(m) => Some((m, s.skip(n))),
        None => None,
    }
}

/// The place of the quote that ends a name, from `i` on: the first that no
/// backslash goes before. The end of the text, or a place behind it, where
/// there is none.
pub open spec fn name_end(s: Seq<char>, i: int) -> int
    decreases s.len() - i + 1,
{
    if i < 0 || i >= s.len() || s[i] == '"' {
        i
    } else if s[i] == '\\' {
        name_end(s, i + 2)
    } else {
        name_end(s, i + 1)
    }
}

/// The number that a hexadecimal digit stands for, as it is written.
pub open spec fn hex_value(c: char) -> Option<int> {
    if '0' <= c <= '9' {
        Some(c as int - '0' as int)
    } else if 'a' <= c <= 'f' {
        Some(c as int - 'a' as int + 10)
    } else {
        None
    }
}

/// The character that the escape at the start of a text stands for, and the
/// length of that escape; `None` where no escape that is written stands there.
pub open spec fn escape_at(s: Seq<char>) -> Option<(char, int)> {
    if s.len() < 2 || s[0] != '\\' {
        None
    } else if s[1] == '"' {
        Some(('"', 2))
    } else if s[1] == '\\' {
        Some(('\\', 2))
    } else if s[1] == 'n' {
        Some(('\n', 2))
    } else if s[1] == 't' {
        Some(('\t', 2))
    } else if s[1] == 'u' && s.len() >= 6 && s[2] == '0' && s[3] == '0' {
        match (hex_value(s[4]), hex_value(s[5])) {
            (Some(high), Some(low)) => {
                let c = (high * 16 + low) as char;
                if ' ' > c && c != '\n' && c != '\t' {
                    Some((c, 6))
                } else {
                    None
                }
            },
            _ => None,
        }
    } else {
        None
    }
}

/// What is taken for an escape is what is written of the character that it
/// stands for, and nothing else.
pub proof fn law_only_written_escapes_are_undone(s: Seq<char>)
    ensures
        escape_at(s) matches Some((c, n)) ==> n <= s.len() && s.take(n) == escape(c),
{
    if let Some((c, n)) = escape_at(s) {
        if n == 6 {
            assert(hex_value(s[4]) is Some && hex_value(s[5]) is Some);
            let high = hex_value(s[4])->0;
            let low = hex_value(s[5])->0;
            assert(0 <= high < 16 && 0 <= low < 16);
            assert(c as int == high * 16 + low);
            assert(c as int / 16 == high && c as int % 16 == low);
            assert(hex(high) == s[4] && hex(low) == s[5]);
        }
        assert(s.take(n) =~= escape(c));
    }
}

/// The text that stands for itself inside quotes: with its escapes undone. A
/// backslash that starts none of them stays.
pub open spec fn unescaped(s: Seq<char>) -> Seq<char>
    decreases s.len(),
{
    if s.len() == 0 {
        Seq::empty()
    } else {
        match escape_at(s) {
            Some((c, n)) => seq![c] + unescaped(s.skip(n)),
            None => seq![s[0]] + unescaped(s.skip(1)),
        }
    }
}

/// The name up to the quote that ends it, with its escapes undone, and what is
/// left behind the quote, the colon and the blanks that follow it.
pub open spec fn name_at(s: Seq<char>) -> Option<(Seq<char>, Seq<char>)> {
    let n = name_end(s, 0);
    if n < s.len() {
        Some((unescaped(s.take(n)), past(s.skip(n + 1), Class::AsciiBlankOr(':'))))
    } else {
        None
    }
}

proof fn lemma_name_end(s: Seq<char>, i: int)
    requires
        0 <= i,
    ensures
        i <= name_end(s, i),
    decreases s.len() - i + 1,
{
    if i < s.len() && s[i] != '"' {
        if s[i] == '\\' {
            lemma_name_end(s, i + 2);
        } else {
            lemma_name_end(s, i + 1);
        }
    }
}

/// The end of a name goes by what follows alone.
proof fn lemma_name_end_skip(s: Seq<char>, i: int, j: int)
    requires
        0 <= i <= s.len(),
        0 <= j,
    ensures
        name_end(s.skip(i), j) + i == name_end(s, i + j),
    decreases s.len() - i - j + 1,
{
    if i + j < s.len() && s[i + j] != '"' {
        if s[i + j] == '\\' {
            lemma_name_end_skip(s, i, j + 2);
        } else {
            lemma_name_end_skip(s, i, j + 1);
        }
    }
}

/// What is left is no longer than the text.
pub proof fn lemma_past(s: Seq<char>, k: Class)
    ensures
        past(s, k).len() <= s.len(),
{
    text::lemma_scan_out(s, 0, k);
}

/// What is left behind a number is no longer than the text.
pub proof fn lemma_number_at(s: Seq<char>, num: spec_fn(Seq<char>) -> Option<Metric>)
    ensures
        number_at(s, num) matches Some(r) ==> r.1.len() <= s.len(),
{
    text::lemma_scan_out(s, 0, Class::Numeral);
}

/// What is left behind a name is shorter than the text.
pub proof fn lemma_name_at(s: Seq<char>)
    ensures
        name_at(s) matches Some(r) ==> r.1.len() < s.len(),
{
    let n = name_end(s, 0);
    lemma_name_end(s, 0);
    if n < s.len() {
        lemma_past(s.skip(n + 1), Class::AsciiBlankOr(':'));
    }
}

/// The rows of a table whose opening brace has been read, put behind `rows`,
/// and what is left. They end with the closing brace, with the text, or where
/// something other than a name stands. `None` where a name has no end or a
/// number cannot be read.
pub open spec fn rows_at(
    s: Seq<char>,
    rows: table::Rows,
    num: spec_fn(Seq<char>) -> Option<Metric>,
) -> Option<(table::Rows, Seq<char>)>
    decreases s.len(),
{
    let t = past(s, Class::AsciiBlankOr(','));
    proof {
        lemma_past(s, Class::AsciiBlankOr(','));
        lemma_name_at(t.skip(1));
        if let Some((_, u)) = name_at(t.skip(1)) {
            lemma_number_at(u, num);
        }
    }
    if t.len() == 0 {
        Some((rows, t))
    } else if t[0] == '}' {
        Some((rows, t.skip(1)))
    } else if t[0] != '"' {
        Some((rows, t))
    } else {
        match name_at(t.skip(1)) {
            None => None,
            Some((name, u)) => match number_at(u, num) {
                None => None,
                Some((m, v)) => rows_at(v, table::put(rows, name, m), num),
            },
        }
    }
}

/// The table that follows, and what is left behind it.
pub open spec fn table_at(
    s: Seq<char>,
    num: spec_fn(Seq<char>) -> Option<Metric>,
) -> Option<(table::Rows, Seq<char>)> {
    let n = text::scan_in(s, 0, Class::Only('{'));
    rows_at(
        if n < s.len() {
            s.skip(n + 1)
        } else {
            Seq::empty()
        },
        table::Rows::empty(),
        num,
    )
}

proof fn lemma_rows_at(
    s: Seq<char>,
    rows: table::Rows,
    num: spec_fn(Seq<char>) -> Option<Metric>,
)
    ensures
        rows_at(s, rows, num) matches Some(r) ==> r.1.len() <= s.len(),
    decreases s.len(),
{
    let t = past(s, Class::AsciiBlankOr(','));
    lemma_past(s, Class::AsciiBlankOr(','));
    if t.len() > 0 && t[0] == '"' {
        lemma_name_at(t.skip(1));
        if let Some((name, u)) = name_at(t.skip(1)) {
            lemma_number_at(u, num);
            if let Some((m, v)) = number_at(u, num) {
                lemma_rows_at(v, table::put(rows, name, m), num);
            }
        }
    }
}

/// What is left behind a table is no longer than the text.
pub proof fn lemma_table_at(s: Seq<char>, num: spec_fn(Seq<char>) -> Option<Metric>)
    ensures
        table_at(s, num) matches Some(r) ==> r.1.len() <= s.len(),
{
    let n = text::scan_in(s, 0, Class::Only('{'));
    text::lemma_scan_in(s, 0, Class::Only('{'));
    lemma_rows_at(
        if n < s.len() {
            s.skip(n + 1)
        } else {
            Seq::empty()
        },
        table::Rows::empty(),
        num,
    );
}

/// The contents that the member whose name starts here gives, on top of `b`,
/// and what is left behind it. A name that is not known is passed over, with
/// the character that follows. `None` where a name has no end or a number
/// cannot be read.
pub open spec fn member_at(
    s: Seq<char>,
    b: Baseline,
    num: spec_fn(Seq<char>) -> Option<Metric>,
) -> Option<(Baseline, Seq<char>)> {
    match name_at(s) {
        None => None,
        Some((name, u)) => if name == "bat_w_avg"@ {
            match number_at(u, num) {
                None => None,
                Some((m, v)) => Some((Baseline { bat_w_avg: m, ..b }, v)),
            }
        } else if name == "samples_taken"@ {
            match number_at(u, num) {
                None => None,
                Some((m, v)) => Some((Baseline { samples_taken: m.truncated() as u64, ..b }, v)),
            }
        } else if name == "wakes_median"@ {
            match table_at(u, num) {
                None => None,
                Some((t, v)) => Some((Baseline { wakes_median: t, ..b }, v)),
            }
        } else if name == "cpu_median"@ {
            match table_at(u, num) {
                None => None,
                Some((t, v)) => Some((Baseline { cpu_median: t, ..b }, v)),
            }
        } else {
            Some((b, if u.len() > 0 {
                u.skip(1)
            } else {
                u
            }))
        },
    }
}

/// What is left behind a member is shorter than the text.
pub proof fn lemma_member_at(
    s: Seq<char>,
    b: Baseline,
    num: spec_fn(Seq<char>) -> Option<Metric>,
)
    ensures
        member_at(s, b, num) matches Some(r) ==> r.1.len() < s.len(),
{
    lemma_name_at(s);
    if let Some((name, u)) = name_at(s) {
        lemma_number_at(u, num);
        lemma_table_at(u, num);
    }
}

/// The contents that a text gives, on top of `b`. Whatever is not in quotes is
/// passed over. `None` where a name has no end or a number cannot be read.
pub open spec fn members(
    s: Seq<char>,
    b: Baseline,
    num: spec_fn(Seq<char>) -> Option<Metric>,
) -> Option<Baseline>
    decreases s.len(),
{
    if s.len() == 0 {
        Some(b)
    } else if s[0] != '"' {
        members(s.skip(1), b, num)
    } else {
        proof {
            lemma_member_at(s.skip(1), b, num);
        }
        match member_at(s.skip(1), b, num) {
            None => None,
            Some((c, v)) => members(v, c, num),
        }
    }
}

/// Passes over the characters of `k` at `i`.
fn pass(s: &[char], i: usize, k: Class) -> (r: usize)
    requires
        i <= s@.len(),
    ensures
        i <= r <= s@.len(),
        s@.skip(r as int) == past(s@.skip(i as int), k),
{
    proof {
        text::lemma_scan_out_skip(s@, i as int, 0, k);
    }
    let r = text::find_out(s, i, k);
    assert(s@.skip(r as int) =~= past(s@.skip(i as int), k));
    r
}

/// Reads the number at `start`. The result holds the place behind it.
pub fn parse_number<F: Fn(&str) -> Option<Metric>>(s: &[char], start: usize, num: &F) -> (r: Option<
    (Metric, usize),
>)
    requires
        start <= s@.len(),
        forall|t: &str| call_requires(num, (t,)),
    ensures
        r matches Some((_, end)) ==> start <= end <= s@.len(),
        forall|g: spec_fn(Seq<char>) -> Option<Metric>|
            metric::reads(*num, g) ==> #[trigger] number_at(s@.skip(start as int), g) == (match r {
                Some((m, end)) => Some((m, s@.skip(end as int))),
                None => None,
            }),
{
    let end = text::find_out(s, start, Class::Numeral);
    proof {
        text::lemma_scan_out_skip(s@, start as int, 0, Class::Numeral);
        assert(s@.skip(start as int).take(end - start) =~= s@.subrange(start as int, end as int));
        assert(s@.skip(start as int).skip(end - start) =~= s@.skip(end as int));
    }
    let digits = text::string_of(slice_subrange(s, start, end));
    match num(digits.as_str()) {
        Some(m) => Some((m, end)),
        None => None,
    }
}

/// The quote that ends the name at `start`; `None` where there is none.
fn find_name_end(s: &[char], start: usize) -> (r: Option<usize>)
    requires
        start <= s@.len(),
    ensures
        match r {
            Some(i) => name_end(s@, start as int) == i && start <= i < s@.len(),
            None => name_end(s@, start as int) >= s@.len(),
        },
{
    let n = s.len();
    let mut i: usize = start;
    while i < n && s[i] != '"'
        invariant
            start <= i <= n,
            n == s@.len(),
            name_end(s@, start as int) == name_end(s@, i as int),
        decreases n - i,
    {
        if s[i] == '\\' {
            if n - i < 2 {
                assert(name_end(s@, i + 2) == i + 2);
                return None;
            }
            i += 2;
        } else {
            i += 1;
        }
    }
    if i < n {
        Some(i)
    } else {
        None
    }
}

/// The number that a hexadecimal digit stands for, as it is written.
fn read_hex(c: char) -> (r: Option<u8>)
    ensures
        match r {
            Some(n) => hex_value(c) == Some(n as int) && n < 16,
            None => hex_value(c) is None,
        },
{
    let n: u32 = c as u32;
    if '0' <= c && c <= '9' {
        Some((n - 48) as u8)
    } else if 'a' <= c && c <= 'f' {
        Some((n - 97) as u8 + 10)
    } else {
        None
    }
}

/// The escape at `i`: what it stands for, and its length.
fn read_escape(s: &[char], i: usize) -> (r: Option<(char, usize)>)
    requires
        i <= s@.len(),
    ensures
        match r {
            Some((c, n)) => {
                &&& escape_at(s@.skip(i as int)) == Some((c, n as int))
                &&& 0 < n <= s@.len() - i
            },
            None => escape_at(s@.skip(i as int)) is None,
        },
{
    let n = s.len() - i;
    let ghost t = s@.skip(i as int);
    if n < 2 || s[i] != '\\' {
        return None;
    }
    let c = s[i + 1];
    if c == '"' {
        Some(('"', 2))
    } else if c == '\\' {
        Some(('\\', 2))
    } else if c == 'n' {
        Some(('\n', 2))
    } else if c == 't' {
        Some(('\t', 2))
    } else if c == 'u' && n >= 6 && s[i + 2] == '0' && s[i + 3] == '0' {
        assert(t[4] == s@[i + 4] && t[5] == s@[i + 5]);
        match (read_hex(s[i + 4]), read_hex(s[i + 5])) {
            (Some(high), Some(low)) => {
                let c = (high * 16 + low) as char;
                if ' ' > c && c != '\n' && c != '\t' {
                    Some((c, 6))
                } else {
                    None
                }
            },
            _ => None,
        }
    } else {
        None
    }
}

/// The text that stands for itself inside quotes, with its escapes undone.
pub fn unquote(s: &[char]) -> (r: String)
    ensures
        r@ == unescaped(s@),
{
    let mut out = String::new();
    let mut i: usize = 0;
    assert(s@.skip(0) =~= s@);
    assert(out@ + unescaped(s@) =~= unescaped(s@));
    while i < s.len()
        invariant
            i <= s@.len(),
            out@ + unescaped(s@.skip(i as int)) == unescaped(s@),
        decreases s@.len() - i,
    {
        let ghost before = out@;
        let ghost t = s@.skip(i as int);
        match read_escape(s, i) {
            Some((c, n)) => {
                out.push(c);
                assert(t.skip(n as int) =~= s@.skip(i + n));
                i += n;
            },
            None => {
                out.push(s[i]);
                assert(t.skip(1) =~= s@.skip(i + 1));
                i += 1;
            },
        }
        assert(out@ + unescaped(s@.skip(i as int)) =~= before + unescaped(t));
    }
    assert(out@ + unescaped(s@.skip(i as int)) =~= out@);
    out
}

/// Reads the name whose first character is at `start`, and passes over the
/// colon and the blanks behind it.
fn parse_name(s: &[char], start: usize) -> (r: Option<(String, usize)>)
    requires
        start <= s@.len(),
    ensures
        match r {
            Some((name, end)) => {
                &&& start < end <= s@.len()
                &&& name_at(s@.skip(start as int)) == Some((name@, s@.skip(end as int)))
            },
            None => name_at(s@.skip(start as int)) is None,
        },
{
    let n = s.len();
    proof {
        lemma_name_end_skip(s@, start as int, 0);
    }
    let close = match find_name_end(s, start) {
        Some(i) => i,
        None => {
            return None;
        },
    };
    proof {
        assert(s@.skip(start as int).take(close - start) =~= s@.subrange(
            start as int,
            close as int,
        ));
        assert(s@.skip(start as int).skip(close - start + 1) =~= s@.skip(close + 1));
    }
    assert(close < n);
    let name = unquote(slice_subrange(s, start, close));
    let end = pass(s, close + 1, Class::AsciiBlankOr(':'));
    Some((name, end))
}

/// Reads the table that starts with the next brace from `start` on. The result
/// holds the place behind it.
pub fn parse_string_f64_map<F: Fn(&str) -> Option<Metric>>(
    s: &[char],
    start: usize,
    num: &F,
) -> (r: Option<(Table, usize)>)
    requires
        start <= s@.len(),
        forall|t: &str| call_requires(num, (t,)),
    ensures
        r matches Some((_, end)) ==> start <= end <= s@.len(),
        forall|g: spec_fn(Seq<char>) -> Option<Metric>|
            metric::reads(*num, g) ==> #[trigger] table_at(s@.skip(start as int), g) == (match r {
                Some((t, end)) => Some((t@, s@.skip(end as int))),
                None => None,
            }),
{
    let mut out = Table::new();
    let mut i: usize = text::find_in(s, start, Class::Only('{'));
    let ghost all = s@.skip(start as int);
    proof {
        text::lemma_scan_in_skip(s@, start as int, 0, Class::Only('{'));
        if i < s@.len() {
            assert(all.skip(i - start + 1) =~= s@.skip(i + 1));
        } else {
            assert(s@.skip(i as int) =~= Seq::empty());
        }
    }
    if i < s.len() {
        i += 1;
    }
    loop
        invariant
            forall|t: &str| call_requires(num, (t,)),
            start <= i <= s@.len(),
            forall|g: spec_fn(Seq<char>) -> Option<Metric>|
                metric::reads(*num, g) ==> #[trigger] table_at(all, g) == rows_at(
                    s@.skip(i as int),
                    out@,
                    g,
                ),
            all == s@.skip(start as int),
        decreases s@.len() - i,
    {
        let ghost at = s@.skip(i as int);
        i = pass(s, i, Class::AsciiBlankOr(','));
        let ghost t = s@.skip(i as int);
        if i >= s.len() {
            return Some((out, i));
        }
        if s[i] == '}' {
            assert(t.skip(1) =~= s@.skip(i + 1));
            return Some((out, i + 1));
        }
        if s[i] != '"' {
            return Some((out, i));
        }
        assert(t.skip(1) =~= s@.skip(i + 1));
        let (name, behind) = match parse_name(s, i + 1) {
            Some(n) => n,
            None => {
                return None;
            },
        };
        let ghost u = s@.skip(behind as int);
        let ghost before = out@;
        let (m, end) = match parse_number(s, behind, num) {
            Some(n) => n,
            None => {
                assert forall|g: spec_fn(Seq<char>) -> Option<Metric>|
                    metric::reads(*num, g) implies #[trigger] table_at(all, g) is None by {
                    assert(table_at(all, g) == rows_at(at, before, g));
                    assert(number_at(u, g) is None);
                }
                return None;
            },
        };
        out.put(name.as_str(), m);
        i = end;
        proof {
            assert forall|g: spec_fn(Seq<char>) -> Option<Metric>| metric::reads(*num, g) implies
                #[trigger] table_at(all, g) == rows_at(s@.skip(i as int), out@, g) by {
                assert(table_at(all, g) == rows_at(at, before, g));
                assert(number_at(u, g) == Some((m, s@.skip(i as int))));
            }
        }
    }
}

/// Reads the member whose name starts at `start` into the snapshot. The result
/// is the place behind it.
fn parse_member<F: Fn(&str) -> Option<Metric>>(
    s: &[char],
    start: usize,
    snap: &mut BaselineSnapshot,
    num: &F,
) -> (r: Option<usize>)
    requires
        start <= s@.len(),
        forall|t: &str| call_requires(num, (t,)),
    ensures
        r matches Some(end) ==> start < end <= s@.len(),
        forall|g: spec_fn(Seq<char>) -> Option<Metric>|
            metric::reads(*num, g) ==> #[trigger] member_at(
                s@.skip(start as int),
                old(snap)@,
                g,
            ) == (match r {
                Some(end) => Some((final(snap)@, s@.skip(end as int))),
                None => None,
            }),
{
    let (name, behind) = match parse_name(s, start) {
        Some(n) => n,
        None => {
            return None;
        },
    };
    let ghost u = s@.skip(behind as int);
    let ghost before = snap@;
    let r = if text::same_str(name.as_str(), "bat_w_avg") {
        match parse_number(s, behind, num) {
            Some((m, end)) => {
                snap.bat_w_avg = m;
                Some(end)
            },
            None => None,
        }
    } else if text::same_str(name.as_str(), "samples_taken") {
        match parse_number(s, behind, num) {
            Some((m, end)) => {
                snap.samples_taken = m.count();
                Some(end)
            },
            None => None,
        }
    } else if text::same_str(name.as_str(), "wakes_median") {
        match parse_string_f64_map(s, behind, num) {
            Some((t, end)) => {
                snap.wakes_median = t;
                Some(end)
            },
            None => None,
        }
    } else if text::same_str(name.as_str(), "cpu_median") {
        match parse_string_f64_map(s, behind, num) {
            Some((t, end)) => {
                snap.cpu_median = t;
                Some(end)
            },
            None => None,
        }
    } else if behind < s.len() {
        assert(u.skip(1) =~= s@.skip(behind + 1));
        Some(behind + 1)
    } else {
        Some(behind)
    };
    proof {
        assert forall|g: spec_fn(Seq<char>) -> Option<Metric>|
            metric::reads(*num, g) implies #[trigger] member_at(
            s@.skip(start as int),
            before,
            g,
        ) == (match r {
            Some(end) => Some((snap@, s@.skip(end as int))),
            None => None,
        }) by {
            let n = number_at(u, g);
            let t = table_at(u, g);
        }
    }
    r
}

/// Reads a snapshot back from its text. `num` reads a number.
pub fn parse_json<F: Fn(&str) -> Option<Metric>>(s: &str, num: F) -> (r: Option<BaselineSnapshot>)
    requires
        forall|t: &str| call_requires(num, (t,)),
    ensures
        forall|g: spec_fn(Seq<char>) -> Option<Metric>|
            metric::reads(num, g) ==> #[trigger] members(s@, fresh(), g) == (match r {
                Some(b) => Some(b@),
                None => None,
            }),
{
    let chars = text::chars_of(s);
    let text = chars.as_slice();
    let mut snap = BaselineSnapshot::default();
    let mut i: usize = 0;
    assert(text@.skip(0) =~= s@);
    while i < text.len()
        invariant
            forall|t: &str| call_requires(num, (t,)),
            i <= text@.len(),
            forall|g: spec_fn(Seq<char>) -> Option<Metric>|
                metric::reads(num, g) ==> #[trigger] members(s@, fresh(), g) == members(
                    text@.skip(i as int),
                    snap@,
                    g,
                ),
        decreases text@.len() - i,
    {
        let ghost at = text@.skip(i as int);
        let ghost before = snap@;
        assert(at.skip(1) =~= text@.skip(i + 1));
        let next = if text[i] == '"' {
            parse_member(text, i + 1, &mut snap, &num)
        } else {
            Some(i + 1)
        };
        proof {
            assert forall|g: spec_fn(Seq<char>) -> Option<Metric>|
                metric::reads(num, g) implies #[trigger] members(s@, fresh(), g) == (match next {
                Some(end) => members(text@.skip(end as int), snap@, g),
                None => None,
            }) by {
                assert(members(s@, fresh(), g) == members(at, before, g));
                assert(at[0] == '"' ==> member_at(at.skip(1), before, g) == (match next {
                    Some(end) => Some((snap@, text@.skip(end as int))),
                    None => None,
                }));
            }
        }
        i = match next {
            Some(end) => end,
            None => {
                return None;
            },
        };
    }
    Some(snap)
}

/// The snapshot that a saved text holds; a fresh one where there is no text or
/// it cannot be read.
pub fn load<F: Fn(&str) -> Option<Metric>>(content: Option<&str>, num: F) -> (r: BaselineSnapshot)
    requires
        forall|t: &str| call_requires(num, (t,)),
    ensures
        content is None ==> r@ == fresh(),
        forall|g: spec_fn(Seq<char>) -> Option<Metric>|
            content is Some && metric::reads(num, g) ==> r@ == (match #[trigger] members(
                content->0@,
                fresh(),
                g,
            ) {
                Some(b) => b,
                None => fresh(),
            }),
{
    let text = match content {
        Some(t) => t,
        None => {
            return BaselineSnapshot::default();
        },
    };
    match parse_json(text, num) {
        Some(b) => b,
        None => BaselineSnapshot::default(),
    }
}

// ---------------------------------------------------------------------------
// What is written is read back
// ---------------------------------------------------------------------------

/// Whether `num` reads a reading back from what `show` writes, and the writing
/// is a numeral.
pub open spec fn survives(
    m: Metric,
    show: spec_fn(Metric) -> Seq<char>,
    num: spec_fn(Seq<char>) -> Option<Metric>,
) -> bool {
    &&& show(m).len() > 0
    &&& forall|i: int| 0 <= i < show(m).len() ==> Class::Numeral.has(#[trigger] show(m)[i])
    &&& num(show(m)) == Some(m)
}

/// Whether every reading of the rows survives.
pub open spec fn rows_survive(
    rows: table::Rows,
    show: spec_fn(Metric) -> Seq<char>,
    num: spec_fn(Seq<char>) -> Option<Metric>,
) -> bool {
    forall|i: int|
        0 <= i < rows.len() ==> survives((#[trigger] rows[i]).1, show, num)
}

proof fn lemma_past_is(a: Seq<char>, r: Seq<char>, k: Class)
    requires
        forall|j: int| 0 <= j < a.len() ==> k.has(#[trigger] a[j]),
        r.len() > 0 ==> !k.has(r[0]),
    ensures
        past(a + r, k) == r,
{
    assert forall|j: int| 0 <= j < a.len() implies k.has(#[trigger] (a + r)[j]) by {
        assert((a + r)[j] == a[j]);
    }
    text::lemma_scan_out_is(a + r, 0, k, a.len() as int);
    assert((a + r).skip(a.len() as int) =~= r);
}

proof fn lemma_number_is(a: Seq<char>, r: Seq<char>, num: spec_fn(Seq<char>) -> Option<Metric>)
    requires
        forall|j: int| 0 <= j < a.len() ==> Class::Numeral.has(#[trigger] a[j]),
        r.len() > 0 ==> !Class::Numeral.has(r[0]),
        num(a) is Some,
    ensures
        number_at(a + r, num) == Some((num(a)->0, r)),
{
    assert forall|j: int| 0 <= j < a.len() implies Class::Numeral.has(#[trigger] (a + r)[j]) by {
        assert((a + r)[j] == a[j]);
    }
    text::lemma_scan_out_is(a + r, 0, Class::Numeral, a.len() as int);
    assert((a + r).take(a.len() as int) =~= a);
    assert((a + r).skip(a.len() as int) =~= r);
}

/// What is written of the first character, and then of the rest.
proof fn lemma_escaped_first(s: Seq<char>)
    requires
        s.len() > 0,
    ensures
        escaped(s) == escape(s[0]) + escaped(s.skip(1)),
    decreases s.len(),
{
    let t = s.drop_last();
    if s.len() == 1 {
        assert(t =~= Seq::empty());
        assert(s.skip(1) =~= Seq::empty());
        assert(escaped(t) =~= Seq::empty());
        assert(escaped(s) =~= escape(s[0]) + escaped(s.skip(1)));
    } else {
        lemma_escaped_first(t);
        assert(t.skip(1) =~= s.skip(1).drop_last());
        assert(escaped(s) =~= escape(s[0]) + escaped(s.skip(1)));
    }
}

proof fn lemma_hex(n: int)
    requires
        0 <= n < 16,
    ensures
        hex_value(hex(n)) == Some(n),
        hex(n) != '"',
        hex(n) != '\\',
{
}

proof fn lemma_control(c: char)
    requires
        escape(c).len() == 6,
    ensures
        hex_value(escape(c)[4]) == Some(c as int / 16),
        hex_value(escape(c)[5]) == Some(c as int % 16),
        escape(c)[4] != '"' && escape(c)[4] != '\\',
        escape(c)[5] != '"' && escape(c)[5] != '\\',
{
    lemma_hex(c as int / 16);
    lemma_hex(c as int % 16);
}

/// What is written of a character is read back as that character.
proof fn lemma_escape_back(c: char, t: Seq<char>)
    ensures
        unescaped(escape(c) + t) == seq![c] + unescaped(t),
{
    let e = escape(c);
    let s = e + t;
    let n = e.len() as int;
    assert(s.skip(n) =~= t);
    assert(s[0] == e[0]);
    if n > 1 {
        assert(s[1] == e[1]);
    }
    if n == 6 {
        lemma_control(c);
        assert(s[2] == '0' && s[3] == '0');
        assert(s[4] == e[4] && s[5] == e[5]);
    }
}

/// Escapes are undone, whatever the text.
pub proof fn law_escapes_are_undone(s: Seq<char>)
    ensures
        unescaped(escaped(s)) == s,
    decreases s.len(),
{
    if s.len() > 0 {
        lemma_escaped_first(s);
        lemma_escape_back(s[0], escaped(s.skip(1)));
        law_escapes_are_undone(s.skip(1));
        assert(seq![s[0]] + s.skip(1) =~= s);
    } else {
        assert(unescaped(escaped(s)) =~= s);
    }
}

/// A name that is written behind `p` ends at its closing quote.
proof fn lemma_name_end_is(p: Seq<char>, name: Seq<char>, r: Seq<char>)
    ensures
        name_end(p + escaped(name) + seq!['"'] + r, p.len() as int) == p.len() + escaped(
            name,
        ).len(),
    decreases name.len(),
{
    let s = p + escaped(name) + seq!['"'] + r;
    let i = p.len() as int;
    if name.len() == 0 {
        assert(s[i] == '"');
    } else {
        lemma_escaped_first(name);
        let e = escape(name[0]);
        let rest = name.skip(1);
        let n = e.len() as int;
        lemma_name_end_is(p + e, rest, r);
        assert(s =~= (p + e) + escaped(rest) + seq!['"'] + r);
        assert forall|j: int| 0 <= j < n implies #[trigger] s[i + j] == e[j] by {}
        assert(s[i + 0] == e[0]);
        if n == 6 {
            lemma_control(name[0]);
            assert(s[i + 2] == e[2] && s[i + 3] == e[3] && s[i + 4] == e[4] && s[i + 5] == e[5]);
            assert(name_end(s, i + 5) == name_end(s, i + 6));
            assert(name_end(s, i + 4) == name_end(s, i + 5));
            assert(name_end(s, i + 3) == name_end(s, i + 4));
            assert(name_end(s, i + 2) == name_end(s, i + 3));
        }
        assert(name_end(s, i) == name_end(s, i + n));
    }
}

/// A name is read back from what is written of it, whatever it holds.
pub proof fn law_names_read_back(name: Seq<char>, r: Seq<char>)
    requires
        r.len() > 0 ==> !text::is_ascii_blank(r[0]) && r[0] != ':',
    ensures
        name_at(escaped(name) + "\": "@ + r) == Some((name, r)),
{
    reveal_strlit("\": ");
    let e = escaped(name);
    let s = e + "\": "@ + r;
    let n = e.len() as int;
    let blanks = seq![':', ' '];
    assert(s =~= Seq::<char>::empty() + e + seq!['"'] + (blanks + r));
    lemma_name_end_is(Seq::empty(), name, blanks + r);
    assert(s.take(n) =~= e);
    law_escapes_are_undone(name);
    assert(s.skip(n + 1) =~= blanks + r);
    lemma_past_is(blanks, r, Class::AsciiBlankOr(':'));
}

/// A text that holds nothing to escape is written as it is.
proof fn lemma_plain(s: Seq<char>)
    requires
        forall|i: int| 0 <= i < s.len() ==> escape(#[trigger] s[i]) == seq![s[i]],
    ensures
        escaped(s) == s,
    decreases s.len(),
{
    if s.len() > 0 {
        let t = s.drop_last();
        assert forall|i: int| 0 <= i < t.len() implies escape(#[trigger] t[i]) == seq![t[i]] by {
            assert(t[i] == s[i]);
        }
        lemma_plain(t);
        assert(escape(s[s.len() - 1]) == seq![s.last()]);
        assert(t + seq![s.last()] =~= s);
    } else {
        assert(escaped(s) =~= s);
    }
}

/// The row at `i` as it is written.
spec fn row_text(rows: table::Rows, i: int, show: spec_fn(Metric) -> Seq<char>) -> Seq<char> {
    (if i > 0 {
        ","@
    } else {
        Seq::empty()
    }) + "\n    "@ + quoted(rows[i].0) + ": "@ + show(rows[i].1)
}

/// The rows from `i` on as they are written.
spec fn rows_from(rows: table::Rows, i: int, show: spec_fn(Metric) -> Seq<char>) -> Seq<char>
    decreases rows.len() - i,
{
    if 0 <= i < rows.len() {
        row_text(rows, i, show) + rows_from(rows, i + 1, show)
    } else {
        Seq::empty()
    }
}

proof fn lemma_rows_from_last(rows: table::Rows, i: int, show: spec_fn(Metric) -> Seq<char>)
    requires
        0 <= i < rows.len(),
    ensures
        rows_from(rows, i, show) == rows_from(rows.drop_last(), i, show) + row_text(
            rows,
            rows.len() - 1,
            show,
        ),
    decreases rows.len() - i,
{
    if i + 1 < rows.len() {
        lemma_rows_from_last(rows, i + 1, show);
        assert(rows.drop_last()[i] == rows[i]);
        assert(rows_from(rows, i, show) =~= rows_from(rows.drop_last(), i, show) + row_text(
            rows,
            rows.len() - 1,
            show,
        ));
    } else {
        assert(rows_from(rows, i + 1, show) =~= Seq::empty());
        assert(rows_from(rows.drop_last(), i, show) =~= Seq::empty());
        assert(rows_from(rows, i, show) =~= row_text(rows, i, show));
    }
}

proof fn lemma_rows_from(rows: table::Rows, show: spec_fn(Metric) -> Seq<char>)
    ensures
        rows_from(rows, 0, show) == rows_text(rows, show),
    decreases rows.len(),
{
    if rows.len() > 0 {
        lemma_rows_from(rows.drop_last(), show);
        lemma_rows_from_last(rows, 0, show);
        assert(rows_text(rows, show) =~= rows_text(rows.drop_last(), show) + row_text(
            rows,
            rows.len() - 1,
            show,
        ));
    }
}

proof fn lemma_rows_back(
    rows: table::Rows,
    i: int,
    rest: Seq<char>,
    show: spec_fn(Metric) -> Seq<char>,
    num: spec_fn(Seq<char>) -> Option<Metric>,
)
    requires
        0 <= i <= rows.len(),
        table::distinct(rows),
        rows_survive(rows, show, num),
    ensures
        rows_at(rows_from(rows, i, show) + "\n  }"@ + rest, rows.take(i), num) == Some(
            (rows, rest),
        ),
    decreases rows.len() - i,
{
    reveal_strlit("\n  }");
    let s = rows_from(rows, i, show) + "\n  }"@ + rest;
    if i == rows.len() {
        let blanks = seq!['\n', ' ', ' '];
        let t = seq!['}'] + rest;
        assert(s =~= blanks + t);
        lemma_past_is(blanks, t, Class::AsciiBlankOr(','));
        assert(t.skip(1) =~= rest);
        assert(rows.take(i) =~= rows);
    } else {
        reveal_strlit(",");
        reveal_strlit("\n    ");
        reveal_strlit(": ");
        reveal_strlit("\": ");
        let name = rows[i].0;
        let m = rows[i].1;
        let r = rows_from(rows, i + 1, show) + "\n  }"@ + rest;
        let e = escaped(name);
        assert(survives(m, show, num));
        let blanks = (if i > 0 {
            ","@
        } else {
            Seq::empty()
        }) + "\n    "@;
        let u = show(m) + r;
        let t = seq!['"'] + (e + "\": "@ + u);
        assert("\": "@ =~= seq!['"'] + ": "@);
        assert(s =~= blanks + t);
        lemma_past_is(blanks, t, Class::AsciiBlankOr(','));
        assert(t.skip(1) =~= e + "\": "@ + u);
        assert(Class::Numeral.has(show(m)[0]));
        assert(u[0] == show(m)[0]);
        law_names_read_back(name, u);
        assert(!Class::Numeral.has(r[0])) by {
            if i + 1 < rows.len() {
                assert(r[0] == ',');
            } else {
                assert(r[0] == '\n');
            }
        }
        lemma_number_is(show(m), r, num);
        let before = rows.take(i);
        assert forall|j: int| 0 <= j < before.len() implies (#[trigger] before[j]).0 != name by {
            assert(rows[j].0 != rows[i].0);
        }
        table::lemma_put_new(before, name, m);
        assert(before.push((name, m)) =~= rows.take(i + 1));
        lemma_rows_back(rows, i + 1, rest, show, num);
    }
}

proof fn lemma_members_pass(
    a: Seq<char>,
    r: Seq<char>,
    b: Baseline,
    num: spec_fn(Seq<char>) -> Option<Metric>,
)
    requires
        forall|j: int| 0 <= j < a.len() ==> #[trigger] a[j] != '"',
    ensures
        members(a + r, b, num) == members(r, b, num),
    decreases a.len(),
{
    if a.len() > 0 {
        assert((a + r)[0] == a[0]);
        assert((a + r).skip(1) =~= a.skip(1) + r);
        assert forall|j: int| 0 <= j < a.skip(1).len() implies #[trigger] a.skip(1)[j] != '"' by {
            assert(a.skip(1)[j] == a[j + 1]);
        }
        lemma_members_pass(a.skip(1), r, b, num);
    } else {
        assert(a + r =~= r);
    }
}

/// A member as it is written, with what follows it.
spec fn member(name: Seq<char>, r: Seq<char>) -> Seq<char> {
    seq!['"'] + (name + "\": "@ + r)
}

proof fn lemma_member(
    lead: Seq<char>,
    name: Seq<char>,
    r: Seq<char>,
    b: Baseline,
    num: spec_fn(Seq<char>) -> Option<Metric>,
)
    requires
        forall|j: int| 0 <= j < lead.len() ==> #[trigger] lead[j] != '"',
        escaped(name) == name,
        r.len() > 0 ==> !text::is_ascii_blank(r[0]) && r[0] != ':',
    ensures
        members(lead + member(name, r), b, num) == members(member(name, r), b, num),
        member(name, r).len() > 0,
        member(name, r)[0] == '"',
        name_at(member(name, r).skip(1)) == Some((name, r)),
{
    lemma_members_pass(lead, member(name, r), b, num);
    law_names_read_back(name, r);
    assert(member(name, r).skip(1) =~= name + "\": "@ + r);
}

proof fn lemma_member_names()
    ensures
        "samples_taken"@ != "bat_w_avg"@,
        "wakes_median"@ != "bat_w_avg"@,
        "wakes_median"@ != "samples_taken"@,
        "cpu_median"@ != "bat_w_avg"@,
        "cpu_median"@ != "samples_taken"@,
        "cpu_median"@ != "wakes_median"@,
        escaped("bat_w_avg"@) == "bat_w_avg"@,
        escaped("samples_taken"@) == "samples_taken"@,
        escaped("wakes_median"@) == "wakes_median"@,
        escaped("cpu_median"@) == "cpu_median"@,
{
    reveal_strlit("bat_w_avg");
    reveal_strlit("samples_taken");
    reveal_strlit("wakes_median");
    reveal_strlit("cpu_median");
    assert("bat_w_avg"@.len() == 9);
    assert("samples_taken"@.len() == 13);
    assert("wakes_median"@.len() == 12);
    assert("cpu_median"@.len() == 10);
    lemma_plain("bat_w_avg"@);
    lemma_plain("samples_taken"@);
    lemma_plain("wakes_median"@);
    lemma_plain("cpu_median"@);
}

/// What stands before a member that is not the first.
spec fn between() -> Seq<char> {
    seq![',', '\n', ' ', ' ']
}

proof fn lemma_average_back(
    lead: Seq<char>,
    m: Metric,
    r: Seq<char>,
    b: Baseline,
    show: spec_fn(Metric) -> Seq<char>,
    num: spec_fn(Seq<char>) -> Option<Metric>,
)
    requires
        forall|j: int| 0 <= j < lead.len() ==> #[trigger] lead[j] != '"',
        survives(m, show, num),
        r.len() > 0 ==> !Class::Numeral.has(r[0]),
    ensures
        members(lead + member("bat_w_avg"@, show(m) + r), b, num) == members(
            r,
            Baseline { bat_w_avg: m, ..b },
            num,
        ),
{
    lemma_member_names();
    assert(Class::Numeral.has(show(m)[0]));
    assert((show(m) + r)[0] == show(m)[0]);
    lemma_member(lead, "bat_w_avg"@, show(m) + r, b, num);
    lemma_number_is(show(m), r, num);
}

proof fn lemma_samples_back(
    lead: Seq<char>,
    n: u64,
    r: Seq<char>,
    b: Baseline,
    num: spec_fn(Seq<char>) -> Option<Metric>,
)
    requires
        forall|j: int| 0 <= j < lead.len() ==> #[trigger] lead[j] != '"',
        num(number::decimal(n as int)) matches Some(m) && m.truncated() == n,
        r.len() > 0 ==> !Class::Numeral.has(r[0]),
    ensures
        members(lead + member("samples_taken"@, number::decimal(n as int) + r), b, num) == members(
            r,
            Baseline { samples_taken: n, ..b },
            num,
        ),
{
    let d = number::decimal(n as int);
    lemma_member_names();
    number::lemma_decimal(n as int);
    assert(text::is_digit(d[0]));
    assert((d + r)[0] == d[0]);
    lemma_member(lead, "samples_taken"@, d + r, b, num);
    assert forall|j: int| 0 <= j < d.len() implies Class::Numeral.has(#[trigger] d[j]) by {
        assert(text::is_digit(d[j]));
    }
    lemma_number_is(d, r, num);
}

proof fn lemma_table_back(
    rows: table::Rows,
    rest: Seq<char>,
    show: spec_fn(Metric) -> Seq<char>,
    num: spec_fn(Seq<char>) -> Option<Metric>,
)
    requires
        table::distinct(rows),
        rows_survive(rows, show, num),
    ensures
        table_at(seq!['{'] + (rows_text(rows, show) + "\n  }"@ + rest), num) == Some((rows, rest)),
{
    let t = rows_text(rows, show) + "\n  }"@ + rest;
    let s = seq!['{'] + t;
    assert(s[0] == '{');
    assert(s.skip(1) =~= t);
    lemma_rows_from(rows, show);
    lemma_rows_back(rows, 0, rest, show, num);
    assert(rows.take(0) =~= table::Rows::empty());
}

/// A table as it is written, with what follows it.
spec fn table_text(
    rows: table::Rows,
    rest: Seq<char>,
    show: spec_fn(Metric) -> Seq<char>,
) -> Seq<char> {
    seq!['{'] + (rows_text(rows, show) + "\n  }"@ + rest)
}

proof fn lemma_wakes_back(
    lead: Seq<char>,
    rows: table::Rows,
    r: Seq<char>,
    b: Baseline,
    show: spec_fn(Metric) -> Seq<char>,
    num: spec_fn(Seq<char>) -> Option<Metric>,
)
    requires
        forall|j: int| 0 <= j < lead.len() ==> #[trigger] lead[j] != '"',
        table::distinct(rows),
        rows_survive(rows, show, num),
    ensures
        members(lead + member("wakes_median"@, table_text(rows, r, show)), b, num) == members(
            r,
            Baseline { wakes_median: rows, ..b },
            num,
        ),
{
    lemma_member_names();
    assert(table_text(rows, r, show)[0] == '{');
    lemma_member(lead, "wakes_median"@, table_text(rows, r, show), b, num);
    lemma_table_back(rows, r, show, num);
}

proof fn lemma_cpu_back(
    lead: Seq<char>,
    rows: table::Rows,
    r: Seq<char>,
    b: Baseline,
    show: spec_fn(Metric) -> Seq<char>,
    num: spec_fn(Seq<char>) -> Option<Metric>,
)
    requires
        forall|j: int| 0 <= j < lead.len() ==> #[trigger] lead[j] != '"',
        table::distinct(rows),
        rows_survive(rows, show, num),
    ensures
        members(lead + member("cpu_median"@, table_text(rows, r, show)), b, num) == members(
            r,
            Baseline { cpu_median: rows, ..b },
            num,
        ),
{
    lemma_member_names();
    assert(table_text(rows, r, show)[0] == '{');
    lemma_member(lead, "cpu_median"@, table_text(rows, r, show), b, num);
    lemma_table_back(rows, r, show, num);
}

/// The text from the table of CPU shares on.
spec fn from_cpu(b: Baseline, show: spec_fn(Metric) -> Seq<char>) -> Seq<char> {
    between() + member("cpu_median"@, table_text(b.cpu_median, seq!['\n', '}', '\n'], show))
}

/// The text from the table of wakes on.
spec fn from_wakes(b: Baseline, show: spec_fn(Metric) -> Seq<char>) -> Seq<char> {
    between() + member("wakes_median"@, table_text(b.wakes_median, from_cpu(b, show), show))
}

/// The text from the number of samples on.
spec fn from_samples(b: Baseline, show: spec_fn(Metric) -> Seq<char>) -> Seq<char> {
    between() + member(
        "samples_taken"@,
        number::decimal(b.samples_taken as int) + from_wakes(b, show),
    )
}

proof fn lemma_json_from_wakes(b: Baseline, show: spec_fn(Metric) -> Seq<char>)
    ensures
        from_wakes(b, show) == ",\n"@ + "  \"wakes_median\": {"@ + rows_text(b.wakes_median, show)
            + "\n  },\n"@ + "  \"cpu_median\": {"@ + rows_text(b.cpu_median, show)
            + "\n  }\n}\n"@,
{
    reveal_strlit(",\n");
    reveal_strlit("  \"wakes_median\": {");
    reveal_strlit("\n  },\n");
    reveal_strlit("  \"cpu_median\": {");
    reveal_strlit("\n  }\n}\n");
    reveal_strlit("\n  }");
    reveal_strlit("\": ");
    reveal_strlit("wakes_median");
    reveal_strlit("cpu_median");
    let wakes = rows_text(b.wakes_median, show);
    let cpu = rows_text(b.cpu_median, show);
    let end = seq!['\n', '}', '\n'];
    assert(",\n"@ + "  \"wakes_median\": {"@ =~= between() + seq!['"'] + "wakes_median"@ + "\": "@
        + seq!['{']);
    assert("\n  },\n"@ + "  \"cpu_median\": {"@ =~= "\n  }"@ + between() + seq!['"']
        + "cpu_median"@ + "\": "@ + seq!['{']);
    assert("\n  }\n}\n"@ =~= "\n  }"@ + end);
    let head = ",\n"@ + "  \"wakes_median\": {"@;
    let mid = "\n  },\n"@ + "  \"cpu_median\": {"@;
    assert(from_cpu(b, show) =~= between() + seq!['"'] + "cpu_median"@ + "\": "@ + seq!['{'] + cpu
        + ("\n  }"@ + end));
    assert("\n  }"@ + from_cpu(b, show) =~= mid + cpu + "\n  }\n}\n"@);
    assert(from_wakes(b, show) =~= head + wakes + ("\n  }"@ + from_cpu(b, show)));
    assert(from_wakes(b, show) =~= head + wakes + "\n  },\n"@ + "  \"cpu_median\": {"@ + cpu
        + "\n  }\n}\n"@);
}

proof fn lemma_associative(a: Seq<char>, b: Seq<char>, c: Seq<char>)
    ensures
        a + (b + c) == a + b + c,
{
    assert(a + (b + c) =~= a + b + c);
}

proof fn lemma_json_from_samples(b: Baseline, show: spec_fn(Metric) -> Seq<char>)
    ensures
        from_samples(b, show) == ",\n"@ + "  \"samples_taken\": "@ + number::decimal(
            b.samples_taken as int,
        ) + from_wakes(b, show),
{
    reveal_strlit(",\n");
    reveal_strlit("  \"samples_taken\": ");
    reveal_strlit("\": ");
    reveal_strlit("samples_taken");
    let samples = number::decimal(b.samples_taken as int);
    let tail = from_wakes(b, show);
    assert(",\n"@ + "  \"samples_taken\": "@ =~= between() + seq!['"'] + "samples_taken"@
        + "\": "@);
    assert(from_samples(b, show) =~= between() + seq!['"'] + "samples_taken"@ + "\": "@ + samples
        + tail);
}

proof fn lemma_json_from_average(avg: Seq<char>, tail: Seq<char>)
    ensures
        "{\n"@ + "  \"bat_w_avg\": "@ + avg + tail == seq!['{', '\n', ' ', ' '] + member(
            "bat_w_avg"@,
            avg + tail,
        ),
{
    reveal_strlit("{\n");
    reveal_strlit("  \"bat_w_avg\": ");
    reveal_strlit("\": ");
    reveal_strlit("bat_w_avg");
    let lead = seq!['{', '\n', ' ', ' '];
    assert("{\n"@ + "  \"bat_w_avg\": "@ =~= lead + seq!['"'] + "bat_w_avg"@ + "\": "@);
    assert(lead + member("bat_w_avg"@, avg + tail) =~= lead + seq!['"'] + "bat_w_avg"@ + "\": "@
        + avg + tail);
}

proof fn lemma_json_shape(b: Baseline, show: spec_fn(Metric) -> Seq<char>)
    ensures
        json(b, show) == seq!['{', '\n', ' ', ' '] + member(
            "bat_w_avg"@,
            show(b.bat_w_avg) + from_samples(b, show),
        ),
{
    let avg = show(b.bat_w_avg);
    let samples = number::decimal(b.samples_taken as int);
    let wakes = rows_text(b.wakes_median, show);
    let cpu = rows_text(b.cpu_median, show);
    let x = "{\n"@ + "  \"bat_w_avg\": "@ + avg;
    let y = x + ",\n"@ + "  \"samples_taken\": "@ + samples;
    let t1 = ",\n"@ + "  \"wakes_median\": {"@;
    let t2 = t1 + wakes;
    let t3 = t2 + "\n  },\n"@;
    let t4 = t3 + "  \"cpu_median\": {"@;
    let t5 = t4 + cpu;
    lemma_json_from_wakes(b, show);
    lemma_associative(y, t5, "\n  }\n}\n"@);
    lemma_associative(y, t4, cpu);
    lemma_associative(y, t3, "  \"cpu_median\": {"@);
    lemma_associative(y, t2, "\n  },\n"@);
    lemma_associative(y, t1, wakes);
    lemma_associative(y, ",\n"@, "  \"wakes_median\": {"@);
    assert(json(b, show) == y + from_wakes(b, show));
    lemma_json_from_samples(b, show);
    let u1 = ",\n"@ + "  \"samples_taken\": "@;
    lemma_associative(x, u1 + samples, from_wakes(b, show));
    lemma_associative(x, u1, samples);
    lemma_associative(x, ",\n"@, "  \"samples_taken\": "@);
    assert(json(b, show) == x + from_samples(b, show));
    lemma_json_from_average(avg, from_samples(b, show));
}

/// A snapshot that was saved as text is read back as it was, whatever its
/// commands hold, where the numbers read back from what was written of them.
pub proof fn law_saved_snapshot_reads_back(
    b: Baseline,
    show: spec_fn(Metric) -> Seq<char>,
    num: spec_fn(Seq<char>) -> Option<Metric>,
)
    requires
        table::distinct(b.wakes_median),
        table::distinct(b.cpu_median),
        rows_survive(b.wakes_median, show, num),
        rows_survive(b.cpu_median, show, num),
        survives(b.bat_w_avg, show, num),
        num(number::decimal(b.samples_taken as int)) matches Some(m) && m.truncated()
            == b.samples_taken,
    ensures
        members(json(b, show), fresh(), num) == Some(b),
{
    let b1 = Baseline { bat_w_avg: b.bat_w_avg, ..fresh() };
    let b2 = Baseline { samples_taken: b.samples_taken, ..b1 };
    let b3 = Baseline { wakes_median: b.wakes_median, ..b2 };
    let end = seq!['\n', '}', '\n'];
    lemma_json_shape(b, show);
    lemma_average_back(
        seq!['{', '\n', ' ', ' '],
        b.bat_w_avg,
        from_samples(b, show),
        fresh(),
        show,
        num,
    );
    lemma_samples_back(between(), b.samples_taken, from_wakes(b, show), b1, num);
    lemma_wakes_back(between(), b.wakes_median, from_cpu(b, show), b2, show, num);
    lemma_cpu_back(between(), b.cpu_median, end, b3, show, num);
    assert(Baseline { cpu_median: b.cpu_median, ..b3 } == b);
    lemma_members_pass(end, Seq::empty(), b, num);
    assert(end + Seq::<char>::empty() =~= end);
}

/// Whether a writer and a reader of numbers agree: what is written of a finite
/// number is a numeral and is read back as that number, and whole numbers that
/// a double holds exactly are read as they are.
pub open spec fn agree(
    show: spec_fn(Metric) -> Seq<char>,
    num: spec_fn(Seq<char>) -> Option<Metric>,
) -> bool {
    &&& forall|m: Metric| #![trigger show(m)] m.is_finite() ==> survives(m, show, num)
    &&& forall|n: int|
        0 <= n <= EXACT ==> (#[trigger] num(number::decimal(n)) matches Some(m) && m.truncated()
            == n)
}

/// Whether every reading of the rows is finite.
pub open spec fn rows_finite(rows: table::Rows) -> bool {
    forall|i: int| 0 <= i < rows.len() ==> (#[trigger] rows[i]).1.is_finite()
}

/// Every snapshot of finite readings reads back, whatever its commands hold,
/// under a writer and a reader of numbers that agree.
pub proof fn law_finite_snapshots_read_back(
    b: Baseline,
    show: spec_fn(Metric) -> Seq<char>,
    num: spec_fn(Seq<char>) -> Option<Metric>,
)
    requires
        agree(show, num),
        b.bat_w_avg.is_finite(),
        b.samples_taken <= EXACT,
        table::distinct(b.wakes_median),
        table::distinct(b.cpu_median),
        rows_finite(b.wakes_median),
        rows_finite(b.cpu_median),
    ensures
        members(json(b, show), fresh(), num) == Some(b),
{
    let n = num(number::decimal(b.samples_taken as int));
    let s = show(b.bat_w_avg);
    assert forall|i: int| 0 <= i < b.wakes_median.len() implies survives(
        (#[trigger] b.wakes_median[i]).1,
        show,
        num,
    ) by {
        let t = show(b.wakes_median[i].1);
    }
    assert forall|i: int| 0 <= i < b.cpu_median.len() implies survives(
        (#[trigger] b.cpu_median[i]).1,
        show,
        num,
    ) by {
        let t = show(b.cpu_median[i].1);
    }
    law_saved_snapshot_reads_back(b, show, num);
}

// ---------------------------------------------------------------------------
// What a file says
// ---------------------------------------------------------------------------

/// Inside quotes a quote and a backslash have a backslash in front, a line feed
/// and a tab go by their letters, and any other control character by its number
/// in four hexadecimal digits. All other characters stand for themselves. A text
/// goes character by character.
pub proof fn law_characters_stand_inside_quotes(c: char, a: Seq<char>, b: Seq<char>)
    ensures
        escape('"') == seq!['\\', '"'],
        escape('\\') == seq!['\\', '\\'],
        escape('\n') == seq!['\\', 'n'],
        escape('\t') == seq!['\\', 't'],
        c as int >= 32 && c != '"' && c != '\\' ==> escape(c) == seq![c],
        (c as int) < 32 && c != '\n' && c != '\t' ==> {
            let e = escape(c);
            &&& e.len() == 6
            &&& e[0] == '\\' && e[1] == 'u' && e[2] == '0' && e[3] == '0'
            &&& hex_value(e[4]) is Some && hex_value(e[5]) is Some
            &&& hex_value(e[4])->0 * 16 + hex_value(e[5])->0 == c as int
        },
        escaped(a + b) == escaped(a) + escaped(b),
        escaped(seq![c]) == escape(c),
    decreases b.len(),
{
    assert(seq![c].drop_last() =~= Seq::empty());
    assert(escaped(seq![c].drop_last()) =~= Seq::empty());
    assert(escaped(seq![c]) =~= escape(c));
    if b.len() == 0 {
        assert(a + b =~= a);
        assert(escaped(a) + escaped(b) =~= escaped(a));
    } else {
        law_characters_stand_inside_quotes(c, a, b.drop_last());
        assert((a + b).drop_last() =~= a + b.drop_last());
        assert((a + b).last() == b.last());
        assert(escaped(a) + escaped(b.drop_last()) + escape(b.last()) =~= escaped(a) + (escaped(
            b.drop_last(),
        ) + escape(b.last())));
    }
}

/// Hexadecimal digits count from 0 to 15.
pub proof fn law_hexadecimal_digits(n: int)
    ensures
        0 <= n < 10 ==> hex_value(('0' as int + n) as char) == Some(n),
        10 <= n < 16 ==> hex_value(('a' as int + n - 10) as char) == Some(n),
        0 <= n < 16 ==> hex_value(hex(n)) == Some(n),
{
}

/// The rows of a table stand on lines of their own, each with its name in quotes
/// and its reading, and with commas between.
pub proof fn law_rows_stand_on_their_own_lines(
    rows: table::Rows,
    row: (Seq<char>, Metric),
    show: spec_fn(Metric) -> Seq<char>,
)
    ensures
        rows_text(Seq::empty(), show).len() == 0,
        rows.len() == 0 ==> rows_text(rows.push(row), show) == "\n    "@ + (seq!['"'] + escaped(
            row.0,
        ) + seq!['"']) + ": "@ + show(row.1),
        rows.len() > 0 ==> rows_text(rows.push(row), show) == rows_text(rows, show) + ","@
            + "\n    "@ + (seq!['"'] + escaped(row.0) + seq!['"']) + ": "@ + show(row.1),
{
    assert(rows.push(row).drop_last() =~= rows);
    if rows.len() == 0 {
        let e = Seq::<char>::empty();
        assert(rows_text(rows, show) =~= e);
        assert(e + e + "\n    "@ =~= "\n    "@);
    }
}

/// The file holds the four members under their names.
pub proof fn law_file_holds_four_members(b: Baseline, show: spec_fn(Metric) -> Seq<char>)
    ensures
        json(b, show) == "{\n"@ + ("  \"bat_w_avg\": "@ + show(b.bat_w_avg) + ",\n"@) + (
        "  \"samples_taken\": "@ + number::decimal(b.samples_taken as int) + ",\n"@) + (
        "  \"wakes_median\": {"@ + rows_text(b.wakes_median, show) + "\n  },\n"@) + (
        "  \"cpu_median\": {"@ + rows_text(b.cpu_median, show) + "\n  }\n}\n"@),
{
    let a = "  \"bat_w_avg\": "@ + show(b.bat_w_avg) + ",\n"@;
    let n = "  \"samples_taken\": "@ + number::decimal(b.samples_taken as int) + ",\n"@;
    let w = "  \"wakes_median\": {"@ + rows_text(b.wakes_median, show) + "\n  },\n"@;
    let c = "  \"cpu_median\": {"@ + rows_text(b.cpu_median, show) + "\n  }\n}\n"@;
    let p1 = "{\n"@ + a;
    let p2 = p1 + n;
    let p3 = p2 + w;
    assert(p1 =~= "{\n"@ + "  \"bat_w_avg\": "@ + show(b.bat_w_avg) + ",\n"@);
    assert(p2 =~= p1 + "  \"samples_taken\": "@ + number::decimal(b.samples_taken as int) + ",\n"@);
    assert(p3 =~= p2 + "  \"wakes_median\": {"@ + rows_text(b.wakes_median, show) + "\n  },\n"@);
    assert(p3 + c =~= p3 + "  \"cpu_median\": {"@ + rows_text(b.cpu_median, show)
        + "\n  }\n}\n"@);
}

/// A file is read member by member, from quote to quote: what stands between is
/// passed over, a member that is known is taken, one that is not is passed over,
/// and a member that cannot be read makes the file unreadable. At the end what
/// was taken stands.
pub proof fn law_members_are_read_in_turn(
    s: Seq<char>,
    b: Baseline,
    num: spec_fn(Seq<char>) -> Option<Metric>,
)
    ensures
        members(Seq::empty(), b, num) == Some(b),
        s.len() > 0 && s[0] != '"' ==> members(s, b, num) == members(s.skip(1), b, num),
        s.len() > 0 && s[0] == '"' ==> {
            let rest = s.skip(1);
            &&& name_at(rest) is None ==> members(s, b, num) is None
            &&& name_at(rest) matches Some((name, u)) ==> {
                &&& name == "bat_w_avg"@ ==> (number_at(u, num) matches Some((m, v)) ==> members(
                    s,
                    b,
                    num,
                ) == members(v, Baseline { bat_w_avg: m, ..b }, num))
                &&& name == "samples_taken"@ ==> (number_at(u, num) matches Some((m, v))
                    ==> members(s, b, num) == members(
                    v,
                    Baseline { samples_taken: m.truncated() as u64, ..b },
                    num,
                ))
                &&& name == "wakes_median"@ ==> (table_at(u, num) matches Some((t, v)) ==> members(
                    s,
                    b,
                    num,
                ) == members(v, Baseline { wakes_median: t, ..b }, num))
                &&& name == "cpu_median"@ ==> (table_at(u, num) matches Some((t, v)) ==> members(
                    s,
                    b,
                    num,
                ) == members(v, Baseline { cpu_median: t, ..b }, num))
                &&& (name == "bat_w_avg"@ || name == "samples_taken"@) && number_at(u, num) is None
                    ==> members(s, b, num) is None
                &&& (name == "wakes_median"@ || name == "cpu_median"@) && table_at(u, num) is None
                    ==> members(s, b, num) is None
                &&& name != "bat_w_avg"@ && name != "samples_taken"@ && name != "wakes_median"@
                    && name != "cpu_median"@ ==> members(s, b, num) == members(
                    if u.len() > 0 {
                        u.skip(1)
                    } else {
                        u
                    },
                    b,
                    num,
                )
            }
        },
{
    lemma_four_names();
    if s.len() > 0 && s[0] == '"' {
        assert(members(s, b, num) == match member_at(s.skip(1), b, num) {
            None => None,
            Some((c, v)) => members(v, c, num),
        });
    }
}

/// The names of the four members differ.
proof fn lemma_four_names()
    ensures
        "bat_w_avg"@ != "samples_taken"@,
        "bat_w_avg"@ != "wakes_median"@,
        "bat_w_avg"@ != "cpu_median"@,
        "samples_taken"@ != "wakes_median"@,
        "samples_taken"@ != "cpu_median"@,
        "wakes_median"@ != "cpu_median"@,
{
    reveal_strlit("bat_w_avg");
    reveal_strlit("samples_taken");
    reveal_strlit("wakes_median");
    reveal_strlit("cpu_median");
    assert("bat_w_avg"@[0] == 'b');
    assert("samples_taken"@[0] == 's');
    assert("wakes_median"@[0] == 'w');
    assert("cpu_median"@[0] == 'c');
}

/// A name that is written without an escape is what stands up to the next quote;
/// colons and blanks behind it are passed over.
pub proof fn law_plain_names_end_at_the_quote(name: Seq<char>, gap: Seq<char>, rest: Seq<char>)
    requires
        forall|i: int| 0 <= i < name.len() ==> #[trigger] name[i] != '"' && name[i] != '\\',
        forall|i: int|
            0 <= i < gap.len() ==> text::is_ascii_blank(#[trigger] gap[i]) || gap[i] == ':',
        rest.len() > 0 ==> !text::is_ascii_blank(rest[0]) && rest[0] != ':',
    ensures
        name_at(name + seq!['"'] + gap + rest) == Some((name, rest)),
        name_at(name) is None,
{
    let s = name + seq!['"'] + gap + rest;
    let n = name.len() as int;
    lemma_plain_name_end(s, 0, n);
    assert(s[n] == '"');
    lemma_plain_name_end(name, 0, n);
    assert(s.take(n) =~= name);
    lemma_plain_unescaped(name);
    let t = s.skip(n + 1);
    assert(t =~= gap + rest);
    let k = Class::AsciiBlankOr(':');
    let e = gap.len() as int;
    assert forall|i: int| 0 <= i < e implies k.has(#[trigger] t[i]) by {
        assert(t[i] == gap[i]);
    }
    if rest.len() > 0 {
        assert(t[e] == rest[0]);
    }
    text::lemma_scan_out_is(t, 0, k, e);
    assert(t.skip(e) =~= rest);
}

proof fn lemma_plain_name_end(s: Seq<char>, i: int, n: int)
    requires
        0 <= i <= n <= s.len(),
        forall|j: int| i <= j < n ==> #[trigger] s[j] != '"' && s[j] != '\\',
        n < s.len() ==> s[n] == '"',
    ensures
        name_end(s, i) == n,
    decreases n - i,
{
    if i < n {
        assert(s[i] != '"' && s[i] != '\\');
        lemma_plain_name_end(s, i + 1, n);
    }
}

proof fn lemma_plain_unescaped(s: Seq<char>)
    requires
        forall|i: int| 0 <= i < s.len() ==> #[trigger] s[i] != '\\',
    ensures
        unescaped(s) == s,
    decreases s.len(),
{
    if s.len() > 0 {
        let t = s.skip(1);
        assert forall|i: int| 0 <= i < t.len() implies #[trigger] t[i] != '\\' by {
            assert(t[i] == s[i + 1]);
        }
        assert(s[0] != '\\');
        lemma_plain_unescaped(t);
        assert(seq![s[0]] + t =~= s);
    }
}

/// A number is what stands there of digits, points, signs and exponents, up to
/// the first other character.
pub proof fn law_numbers_end_at_another_character(
    n: Seq<char>,
    rest: Seq<char>,
    num: spec_fn(Seq<char>) -> Option<Metric>,
)
    requires
        forall|i: int|
            0 <= i < n.len() ==> '0' <= #[trigger] n[i] <= '9' || n[i] == '.' || n[i] == '-' || n[i]
                == '+' || n[i] == 'e' || n[i] == 'E',
        rest.len() > 0 ==> !('0' <= rest[0] <= '9') && rest[0] != '.' && rest[0] != '-' && rest[0]
            != '+' && rest[0] != 'e' && rest[0] != 'E',
    ensures
        num(n) matches Some(m) ==> number_at(n + rest, num) == Some((m, rest)),
        num(n) is None ==> number_at(n + rest, num) is None,
{
    let s = n + rest;
    let e = n.len() as int;
    assert forall|i: int| 0 <= i < e implies Class::Numeral.has(#[trigger] s[i]) by {
        assert(s[i] == n[i]);
    }
    if rest.len() > 0 {
        assert(s[e] == rest[0]);
    }
    text::lemma_scan_out_is(s, 0, Class::Numeral, e);
    assert(s.take(e) =~= n);
    assert(s.skip(e) =~= rest);
}

/// A table is read from its brace on, row by row: blanks and commas are passed
/// over, a row puts its reading under its name, and the closing brace, or
/// anything that is no name, ends the table.
pub proof fn law_tables_are_read_row_by_row(
    lead: Seq<char>,
    gap: Seq<char>,
    s: Seq<char>,
    rows: table::Rows,
    num: spec_fn(Seq<char>) -> Option<Metric>,
)
    requires
        forall|i: int| 0 <= i < lead.len() ==> #[trigger] lead[i] != '{',
        forall|i: int|
            0 <= i < gap.len() ==> text::is_ascii_blank(#[trigger] gap[i]) || gap[i] == ',',
        s.len() > 0 ==> !text::is_ascii_blank(s[0]) && s[0] != ',',
    ensures
        table_at(lead + seq!['{'] + s, num) == rows_at(s, Seq::empty(), num),
        s.len() == 0 ==> rows_at(gap + s, rows, num) == Some((rows, s)),
        s.len() > 0 && s[0] == '}' ==> rows_at(gap + s, rows, num) == Some((rows, s.skip(1))),
        s.len() > 0 && s[0] != '}' && s[0] != '"' ==> rows_at(gap + s, rows, num) == Some((rows, s)),
        s.len() > 0 && s[0] == '"' ==> {
            &&& name_at(s.skip(1)) is None ==> rows_at(gap + s, rows, num) is None
            &&& name_at(s.skip(1)) matches Some((name, u)) ==> {
                &&& number_at(u, num) is None ==> rows_at(gap + s, rows, num) is None
                &&& number_at(u, num) matches Some((m, v)) ==> rows_at(gap + s, rows, num)
                    == rows_at(v, table::put(rows, name, m), num)
            }
        },
{
    let t = lead + seq!['{'] + s;
    let n = lead.len() as int;
    assert forall|i: int| 0 <= i < n implies !Class::Only('{').has(#[trigger] t[i]) by {
        assert(t[i] == lead[i]);
    }
    assert(t[n] == '{');
    text::lemma_scan_in_is(t, 0, Class::Only('{'), n);
    assert(t.skip(n + 1) =~= s);
    let k = Class::AsciiBlankOr(',');
    let e = gap.len() as int;
    let u = gap + s;
    assert forall|i: int| 0 <= i < e implies k.has(#[trigger] u[i]) by {
        assert(u[i] == gap[i]);
    }
    if s.len() > 0 {
        assert(u[e] == s[0]);
    }
    text::lemma_scan_out_is(u, 0, k, e);
    assert(u.skip(e) =~= s);
    assert(past(u, k) == s);
}

/// A snapshot into which nothing went knows of no command, has no draw, and
/// counts no sample. What a snapshot holds is what its fields hold.
pub proof fn law_fresh_snapshot_knows_nothing(comm: Seq<char>, b: BaselineSnapshot)
    ensures
        fresh().bat_w_avg == (Metric { bits: 0 }),
        fresh().samples_taken == 0,
        table::get(fresh().wakes_median, comm) is None,
        table::get(fresh().cpu_median, comm) is None,
        b@.bat_w_avg == b.bat_w_avg && b@.samples_taken == b.samples_taken,
        b@.wakes_median == b.wakes_median@ && b@.cpu_median == b.cpu_median@,
{
}

} // verus!
