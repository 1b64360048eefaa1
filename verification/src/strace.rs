//! The syscall histogram of `strace -c`.
//!
//! The caller runs `strace` and collects what it writes; this module turns the
//! text into rows and decides what to show.
use crate::layout;
use crate::metric;
use crate::metric::Metric;
use crate::number;
use crate::order;
use crate::text;
use crate::text::Class;
use vstd::prelude::*;
use vstd::slice::slice_subrange;

verus! {

/// What is known of a run of `strace`.
#[derive(Clone, Debug)]
pub struct StraceResult {
    pub pid: u32,
    pub running: bool,
    pub error: Option<String>,
    pub rows: Vec<StraceRow>,
    pub total_calls: u64,
}

/// One syscall of the histogram.
#[derive(Clone, Debug)]
pub struct StraceRow {
    pub pct_time: Metric,
    pub seconds: Metric,
    pub calls: u64,
    pub errors: u64,
    pub syscall: String,
}

/// A row with its name as a sequence of characters.
pub struct RowView {
    pub pct_time: Metric,
    pub seconds: Metric,
    pub calls: u64,
    pub errors: u64,
    pub syscall: Seq<char>,
}

impl View for StraceRow {
    type V = RowView;

    open spec fn view(&self) -> RowView {
        RowView {
            pct_time: self.pct_time,
            seconds: self.seconds,
            calls: self.calls,
            errors: self.errors,
            syscall: self.syscall@,
        }
    }
}

/// The views of the rows.
pub open spec fn row_views(rows: Seq<StraceRow>) -> Seq<RowView> {
    rows.map_values(|r: StraceRow| r@)
}

/// The column in which `strace` ends the number of calls.
pub const CALLS_END: usize = 40;

/// What has been read of the histogram so far.
pub struct Histogram {
    /// Whether the heading has come.
    pub in_table: bool,
    pub rows: Seq<RowView>,
    pub total_calls: u64,
}

/// The first span that ends at `e`, at or after number `i`.
pub open spec fn ending_at(spans: Seq<text::Span>, e: int, i: int) -> Option<int>
    decreases spans.len() - i,
{
    if i < 0 || i >= spans.len() {
        None
    } else if spans[i].1 == e {
        Some(i)
    } else {
        ending_at(spans, e, i + 1)
    }
}

/// How many words a row has where no column is blank.
pub const FULL_ROW: usize = 6;

/// The number that stands in the column of the calls: the word that ends
/// there, if it is a number and not the last word.
pub open spec fn in_calls_column(row: Seq<char>) -> Option<int> {
    let spans = text::word_spans(row, 0, Class::Blank);
    match ending_at(spans, CALLS_END as int, 0) {
        Some(i) => if i + 1 < spans.len() {
            number::unsigned(text::words(row)[i], u64::MAX as int)
        } else {
            None
        },
        None => None,
    }
}

/// The number of calls in the closing row: the fourth word. Where a column is
/// blank the row has fewer words; then the number in the column of the calls
/// goes before that.
pub open spec fn total_of(row: Seq<char>) -> Option<int> {
    let words = text::words(row);
    if words.len() < FULL_ROW && in_calls_column(row) is Some {
        in_calls_column(row)
    } else if words.len() > 3 {
        number::unsigned(words[3], u64::MAX as int)
    } else {
        None
    }
}

/// A reading in a column; 0 where it is no number.
pub open spec fn column(s: Seq<char>, num: spec_fn(Seq<char>) -> Option<Metric>) -> Metric {
    match num(s) {
        Some(m) => m,
        None => Metric { bits: 0 },
    }
}

/// The row of a syscall: share of the time, seconds, time per call, calls,
/// errors, name. The errors may be missing. `None` where the name is missing.
pub open spec fn row_of(
    cols: Seq<Seq<char>>,
    num: spec_fn(Seq<char>) -> Option<Metric>,
) -> Option<RowView> {
    if cols.len() < 5 {
        None
    } else {
        let errors = number::unsigned(cols[4], u64::MAX as int);
        let name: int = if errors is Some {
            5
        } else {
            4
        };
        if name >= cols.len() {
            None
        } else {
            Some(
                RowView {
                    pct_time: column(cols[0], num),
                    seconds: column(cols[1], num),
                    calls: match number::unsigned(cols[3], u64::MAX as int) {
                        Some(n) => n as u64,
                        None => 0,
                    },
                    errors: match errors {
                        Some(n) => n as u64,
                        None => 0,
                    },
                    syscall: layout::joined(cols.skip(name), seq![' ']),
                },
            )
        }
    }
}

/// What one more line adds.
pub open spec fn read_line(
    h: Histogram,
    line: Seq<char>,
    num: spec_fn(Seq<char>) -> Option<Metric>,
) -> Histogram {
    let row = text::trim(line);
    let cols = text::words(row);
    if text::starts(row, "% time"@) {
        Histogram { in_table: true, ..h }
    } else if !h.in_table || text::starts(row, "------"@) || cols.len() == 0 {
        h
    } else if cols.last() == "total"@ {
        match total_of(row) {
            Some(n) => Histogram { total_calls: n as u64, ..h },
            None => h,
        }
    } else {
        match row_of(cols, num) {
            Some(r) => Histogram { rows: h.rows.push(r), ..h },
            None => h,
        }
    }
}

/// What the lines say.
pub open spec fn read_lines(
    lines: Seq<Seq<char>>,
    num: spec_fn(Seq<char>) -> Option<Metric>,
) -> Histogram
    decreases lines.len(),
{
    if lines.len() == 0 {
        Histogram { in_table: false, rows: Seq::empty(), total_calls: 0 }
    } else {
        read_line(read_lines(lines.drop_last(), num), lines.last(), num)
    }
}

/// More calls stand above fewer; with as many, a larger share of the time.
pub open spec fn busier() -> spec_fn(RowView, RowView) -> bool {
    |a: RowView, b: RowView|
        a.calls > b.calls || (a.calls == b.calls && b.pct_time.below(a.pct_time))
}

/// The rows of the histogram that `strace` wrote, the busiest first.
pub open spec fn histogram_rows(
    stderr: Seq<char>,
    num: spec_fn(Seq<char>) -> Option<Metric>,
) -> Seq<RowView> {
    order::ranked(read_lines(text::lines(stderr), num).rows, busier())
}

/// The number of calls that the histogram gives as the total.
pub open spec fn histogram_total(
    stderr: Seq<char>,
    num: spec_fn(Seq<char>) -> Option<Metric>,
) -> u64 {
    read_lines(text::lines(stderr), num).total_calls
}

/// The number that stands in the column of the calls.
fn read_calls_column(row: &[char]) -> (r: Option<u64>)
    ensures
        match r {
            Some(n) => in_calls_column(row@) == Some(n as int),
            None => in_calls_column(row@) is None,
        },
{
    let spans = text::spans_of_words(row, Class::Blank);
    let ghost all = text::word_spans(row@, 0, Class::Blank);
    let mut i: usize = 0;
    while i < spans.len()
        invariant
            i <= spans@.len(),
            spans@.len() == all.len(),
            all == text::word_spans(row@, 0, Class::Blank),
            forall|j: int|
                0 <= j < spans@.len() ==> (#[trigger] spans@[j]).0 == all[j].0 && spans@[j].1
                    == all[j].1,
            forall|j: int| 0 <= j < spans@.len() ==> (#[trigger] spans@[j]).0 <= spans@[j].1
                <= row@.len(),
            ending_at(all, CALLS_END as int, 0) == ending_at(all, CALLS_END as int, i as int),
        decreases spans@.len() - i,
    {
        let s = spans[i];
        if s.1 == CALLS_END {
            if spans.len() - i < 2 {
                return None;
            }
            return number::parse_u64(slice_subrange(row, s.0, s.1));
        }
        i += 1;
    }
    None
}

/// The closing row of the histogram: how many calls there were.
fn read_total(row: &[char]) -> (r: Option<u64>)
    ensures
        match r {
            Some(n) => total_of(row@) == Some(n as int),
            None => total_of(row@) is None,
        },
{
    let words = text::split_words(row);
    if words.len() < FULL_ROW {
        if let Some(n) = read_calls_column(row) {
            return Some(n);
        }
    }
    if words.len() > 3 {
        assert(words@[3]@ == text::words(row@)[3]);
        number::parse_u64(words[3])
    } else {
        None
    }
}

/// A reading in a column.
fn read_column<F: Fn(&str) -> Option<Metric>>(s: &[char], num: &F) -> (r: Metric)
    requires
        forall|t: &str| call_requires(num, (t,)),
    ensures
        forall|g: spec_fn(Seq<char>) -> Option<Metric>|
            metric::reads(*num, g) ==> r == #[trigger] column(s@, g),
{
    let t = text::string_of(s);
    match num(t.as_str()) {
        Some(m) => m,
        None => Metric::zero(),
    }
}

/// The row of a syscall.
fn read_row<F: Fn(&str) -> Option<Metric>>(cols: &Vec<&[char]>, num: &F) -> (r: Option<StraceRow>)
    requires
        forall|t: &str| call_requires(num, (t,)),
    ensures
        forall|g: spec_fn(Seq<char>) -> Option<Metric>|
            metric::reads(*num, g) ==> match r {
                Some(row) => #[trigger] row_of(text::views(cols@), g) == Some(row@),
                None => row_of(text::views(cols@), g) is None,
            },
{
    if cols.len() < 5 {
        return None;
    }
    let ghost all = text::views(cols@);
    assert(cols@[0]@ == all[0] && cols@[1]@ == all[1] && cols@[3]@ == all[3] && cols@[4]@
        == all[4]);
    let pct_time = read_column(cols[0], num);
    let seconds = read_column(cols[1], num);
    let calls = match number::parse_u64(cols[3]) {
        Some(n) => n,
        None => 0,
    };
    let (errors, name): (u64, usize) = match number::parse_u64(cols[4]) {
        Some(n) => (n, 5),
        None => (0, 4),
    };
    if name >= cols.len() {
        return None;
    }
    let mut words: Vec<&[char]> = Vec::new();
    let mut i: usize = name;
    while i < cols.len()
        invariant
            name <= i <= cols@.len(),
            words@.len() == i - name,
            forall|j: int| 0 <= j < words@.len() ==> #[trigger] words@[j]@ == cols@[name + j]@,
        decreases cols@.len() - i,
    {
        words.push(cols[i]);
        i += 1;
    }
    assert(text::views(words@) =~= all.skip(name as int));
    let syscall = layout::join_slices(&words, ' ');
    Some(StraceRow { pct_time, seconds, calls, errors, syscall })
}

/// Reads the histogram that `strace -c` writes: the rows, the busiest first,
/// and the total number of calls. `num` reads a decimal number.
pub fn parse_histogram<F: Fn(&str) -> Option<Metric>>(stderr: &str, num: F) -> (r: (
    Vec<StraceRow>,
    u64,
))
    requires
        forall|t: &str| call_requires(num, (t,)),
    ensures
        forall|g: spec_fn(Seq<char>) -> Option<Metric>|
            metric::reads(num, g) ==> row_views(r.0@) == #[trigger] histogram_rows(stderr@, g)
                && r.1 == histogram_total(stderr@, g),
{
    let s = text::chars_of(stderr);
    let lines = text::split_lines(s.as_slice());
    let ghost all = text::lines(stderr@);
    assert(text::views(lines@) == all);
    let mut rows: Vec<StraceRow> = Vec::new();
    let mut total_calls: u64 = 0;
    let mut in_table = false;
    let mut i: usize = 0;
    assert(row_views(rows@) =~= Seq::empty());
    while i < lines.len()
        invariant
            i <= lines@.len(),
            text::views(lines@) == all,
            forall|t: &str| call_requires(num, (t,)),
            forall|g: spec_fn(Seq<char>) -> Option<Metric>|
                metric::reads(num, g) ==> #[trigger] read_lines(all.take(i as int), g) == (
                Histogram { in_table, rows: row_views(rows@), total_calls }),
        decreases lines@.len() - i,
    {
        let ghost h = Histogram { in_table, rows: row_views(rows@), total_calls };
        let ghost line = lines@[i as int]@;
        assert(all.take(i + 1).drop_last() =~= all.take(i as int));
        assert(all.take(i + 1).last() == line);
        let row = text::trim_blank(lines[i]);
        if text::starts_with(row, "% time") {
            in_table = true;
        } else if in_table && !text::starts_with(row, "------") {
            let cols = text::split_words(row);
            let n = cols.len();
            if n > 0 {
                assert(cols@[n - 1]@ == text::words(row@).last());
                if text::is_text(cols[n - 1], "total") {
                    if let Some(c) = read_total(row) {
                        total_calls = c;
                    }
                } else if let Some(r) = read_row(&cols, &num) {
                    rows.push(r);
                    assert(row_views(rows@) =~= h.rows.push(r@));
                }
            }
        }
        proof {
            let now = Histogram { in_table, rows: row_views(rows@), total_calls };
            assert forall|g: spec_fn(Seq<char>) -> Option<Metric>|
                metric::reads(num, g) implies #[trigger] read_lines(all.take(i + 1), g) == now by {
                assert(read_lines(all.take(i as int), g) == h);
            }
        }
        i += 1;
    }
    assert(all.take(i as int) =~= all);
    let ghost found = rows@;
    let above = |x: &StraceRow, y: &StraceRow| -> (r: bool)
        ensures
            r == busier()(x@, y@),
    {
        x.calls > y.calls || (x.calls == y.calls && y.pct_time.less(x.pct_time))
    };
    order::rank(&mut rows, above);
    proof {
        let view = |r: StraceRow| r@;
        let g = |a: StraceRow, b: StraceRow| busier()(view(a), view(b));
        assert(rows@ == order::ranked(found, g));
        order::lemma_ranked_view(found, view, busier());
        assert(row_views(rows@) == order::ranked(row_views(found), busier()));
    }
    (rows, total_calls)
}

impl StraceResult {
    /// The error message, by its view.
    pub open spec fn message(self) -> Option<Seq<char>> {
        text::maybe(self.error)
    }

    /// `strace` has been started on process `pid`.
    pub fn started(pid: u32) -> (r: StraceResult)
        ensures
            r.pid == pid,
            r.running,
            r.message() is None,
            r.rows@.len() == 0,
            r.total_calls == 0,
    {
        StraceResult { pid, running: true, error: None, rows: Vec::new(), total_calls: 0 }
    }

    /// `strace` could not be started; `cause` says why.
    pub fn failed(pid: u32, cause: &str) -> (r: StraceResult)
        ensures
            r.pid == pid,
            !r.running,
            r.message() == Some("strace spawn failed: "@ + cause@),
            r.rows@.len() == 0,
            r.total_calls == 0,
    {
        let error = "strace spawn failed: ".to_owned().concat(cause);
        StraceResult { pid, running: false, error: Some(error), rows: Vec::new(), total_calls: 0 }
    }

    /// `strace` has ended, and this is what it wrote. Where there is no
    /// histogram and the text speaks of attaching, its first line is the error.
    pub fn finished<F: Fn(&str) -> Option<Metric>>(pid: u32, stderr: &str, num: F) -> (r:
        StraceResult)
        requires
            forall|t: &str| call_requires(num, (t,)),
        ensures
            r.pid == pid,
            !r.running,
            forall|g: spec_fn(Seq<char>) -> Option<Metric>|
                metric::reads(num, g) ==> row_views(r.rows@) == #[trigger] histogram_rows(
                    stderr@,
                    g,
                ) && r.total_calls == histogram_total(stderr@, g),
            r.message() == if r.rows@.len() == 0 && text::has_text(stderr@, "attach"@) {
                Some(first_line(stderr@))
            } else {
                None
            },
    {
        let (rows, total_calls) = parse_histogram(stderr, num);
        let s = text::chars_of(stderr);
        let error = if rows.len() == 0 && text::contains_text(s.as_slice(), "attach") {
            let lines = text::split_lines(s.as_slice());
            assert(text::views(lines@) == text::lines(stderr@));
            if lines.len() > 0 {
                assert(lines@[0]@ == text::lines(stderr@)[0]);
                Some(text::string_of(lines[0]))
            } else {
                Some("attach failed".to_owned())
            }
        } else {
            None
        };
        StraceResult { pid, running: false, error, rows, total_calls }
    }
}

/// The first line of what `strace` wrote.
pub open spec fn first_line(stderr: Seq<char>) -> Seq<char> {
    if text::lines(stderr).len() > 0 {
        text::lines(stderr)[0]
    } else {
        "attach failed"@
    }
}

/// The syscall with the most calls stands first, and of those with as many the
/// one with the largest share of the time, where all shares are numbers.
pub proof fn law_busiest_syscall_first(
    stderr: Seq<char>,
    num: spec_fn(Seq<char>) -> Option<Metric>,
    i: int,
    j: int,
)
    requires
        forall|k: int|
            0 <= k < histogram_rows(stderr, num).len() ==> (#[trigger] histogram_rows(
                stderr,
                num,
            )[k]).pct_time.is_number(),
        0 <= i < j < histogram_rows(stderr, num).len(),
    ensures
        histogram_rows(stderr, num)[i].calls >= histogram_rows(stderr, num)[j].calls,
        histogram_rows(stderr, num)[i].calls == histogram_rows(stderr, num)[j].calls
            ==> histogram_rows(stderr, num)[i].pct_time.at_least(
            histogram_rows(stderr, num)[j].pct_time,
        ),
{
    let found = read_lines(text::lines(stderr), num).rows;
    let r = histogram_rows(stderr, num);
    order::law_ranked_keeps_items(found, busier());
    assert forall|x: RowView| #[trigger] found.contains(x) implies x.pct_time.is_number() by {
        assert(r.contains(x));
    }
    assert(order::orders(found, busier()));
    order::law_ranked_is_sorted(found, busier());
    assert(!busier()(r[j], r[i]));
}

/// Whether a line lists a syscall: it has five words or more, is neither a
/// heading nor a rule nor the closing row, and has a name behind its numbers.
pub open spec fn lists_a_syscall() -> spec_fn(Seq<char>) -> bool {
    |line: Seq<char>|
        {
            &&& text::words(text::trim(line)).len() >= 5
            &&& !text::starts(text::trim(line), "------"@)
            &&& !text::starts(text::trim(line), "% time"@)
            &&& text::words(text::trim(line)).last() != "total"@
            &&& text::words(text::trim(line)).len() >= 6 || number::unsigned(
                text::words(text::trim(line))[4],
                u64::MAX as int,
            ) is None
        }
}

/// Behind the heading, a line that lists a syscall adds one row, whatever its
/// share of the time: the share and the seconds in front, the calls as the
/// fourth word, the errors where the fifth is a number, and the name behind.
pub proof fn law_a_syscall_line_adds_its_row(
    h: Histogram,
    line: Seq<char>,
    num: spec_fn(Seq<char>) -> Option<Metric>,
)
    requires
        h.in_table,
        text::words(text::trim(line)).len() >= 5,
        !text::starts(text::trim(line), "------"@),
        !text::starts(text::trim(line), "% time"@),
        text::words(text::trim(line)).last() != "total"@,
        text::words(text::trim(line)).len() >= 6 || number::unsigned(
            text::words(text::trim(line))[4],
            u64::MAX as int,
        ) is None,
    ensures
        ({
            let w = text::words(text::trim(line));
            let after = read_line(h, line, num);
            let r = after.rows.last();
            &&& after.in_table
            &&& after.total_calls == h.total_calls
            &&& after.rows.len() == h.rows.len() + 1
            &&& after.rows.drop_last() == h.rows
            &&& num(w[0]) matches Some(m) ==> r.pct_time == m
            &&& num(w[0]) is None ==> r.pct_time == (Metric { bits: 0 })
            &&& num(w[1]) matches Some(m) ==> r.seconds == m
            &&& num(w[1]) is None ==> r.seconds == (Metric { bits: 0 })
            &&& number::unsigned(w[3], u64::MAX as int) matches Some(n) ==> r.calls == n as u64
            &&& number::unsigned(w[3], u64::MAX as int) is None ==> r.calls == 0
            &&& number::unsigned(w[4], u64::MAX as int) matches Some(n) ==> r.errors == n as u64
                && r.syscall == layout::joined(w.skip(5), seq![' '])
            &&& number::unsigned(w[4], u64::MAX as int) is None ==> r.errors == 0 && r.syscall
                == layout::joined(w.skip(4), seq![' '])
            &&& number::unsigned(w[4], u64::MAX as int) is Some && w.len() == 6 ==> r.syscall
                == w[5]
            &&& number::unsigned(w[4], u64::MAX as int) is None && w.len() == 5 ==> r.syscall
                == w[4]
        }),
{
    let w = text::words(text::trim(line));
    let after = read_line(h, line, num);
    assert(after.rows.drop_last() =~= h.rows);
    let last: int = w.len() - 1;
    if last == 4 || last == 5 {
        let one = w.skip(last);
        assert(one.len() == 1 && one[0] == w[last]);
        reveal_with_fuel(layout::joined, 2);
        assert(layout::joined(one, seq![' ']) =~= w[last]);
    }
}

/// No other line adds a row, before the heading none does, and it is the
/// heading alone that opens the table.
pub proof fn law_other_lines_add_no_row(
    h: Histogram,
    line: Seq<char>,
    num: spec_fn(Seq<char>) -> Option<Metric>,
)
    ensures
        !h.in_table || !lists_a_syscall()(line) ==> read_line(h, line, num).rows == h.rows,
        read_line(h, line, num).in_table <==> h.in_table || text::starts(
            text::trim(line),
            "% time"@,
        ),
        text::words(text::trim(line)).len() == 0 || text::words(text::trim(line)).last()
            != "total"@ ==> read_line(h, line, num).total_calls == h.total_calls,
{
}

/// The closing row gives the total: its fourth word where it has all its
/// columns. Where a column is blank, the number that ends in the column of the
/// calls goes before the fourth word.
pub proof fn law_closing_row_gives_the_total(
    h: Histogram,
    line: Seq<char>,
    num: spec_fn(Seq<char>) -> Option<Metric>,
    i: int,
)
    requires
        h.in_table,
        !text::starts(text::trim(line), "------"@),
        !text::starts(text::trim(line), "% time"@),
        text::words(text::trim(line)).len() > 0,
        text::words(text::trim(line)).last() == "total"@,
        0 <= i < text::words(text::trim(line)).len(),
    ensures
        ({
            let row = text::trim(line);
            let w = text::words(row);
            let spans = text::word_spans(row, 0, Class::Blank);
            let after = read_line(h, line, num);
            &&& after.rows == h.rows
            &&& w.len() >= 6 ==> (number::unsigned(w[3], u64::MAX as int) matches Some(n)
                ==> after.total_calls == n as u64)
            &&& w.len() < 6 && spans[i].1 == 40 && i + 1 < w.len() && (forall|j: int|
                0 <= j < i ==> (#[trigger] spans[j]).1 != 40) ==> (number::unsigned(
                w[i],
                u64::MAX as int,
            ) matches Some(n) ==> after.total_calls == n as u64)
            &&& 4 <= w.len() < 6 && (forall|j: int|
                0 <= j < spans.len() ==> (#[trigger] spans[j]).1 != 40) ==> (number::unsigned(
                w[3],
                u64::MAX as int,
            ) matches Some(n) ==> after.total_calls == n as u64)
            &&& 4 <= w.len() < 6 && spans[i].1 == 40 && (i + 1 == w.len() || number::unsigned(
                w[i],
                u64::MAX as int,
            ) is None) && (forall|j: int| 0 <= j < i ==> (#[trigger] spans[j]).1 != 40) ==> (
            number::unsigned(w[3], u64::MAX as int) matches Some(n) ==> after.total_calls
                == n as u64)
            &&& w.len() >= 6 && number::unsigned(w[3], u64::MAX as int) is None
                ==> after.total_calls == h.total_calls
        }),
{
    let row = text::trim(line);
    let spans = text::word_spans(row, 0, Class::Blank);
    if spans[i].1 == 40 && (forall|j: int| 0 <= j < i ==> (#[trigger] spans[j]).1 != 40) {
        lemma_ending_at(spans, 40, 0, i);
    }
    if forall|j: int| 0 <= j < spans.len() ==> (#[trigger] spans[j]).1 != 40 {
        lemma_ending_nowhere(spans, 40, 0);
    }
}

/// The first span that ends at `e` is found.
proof fn lemma_ending_at(spans: Seq<text::Span>, e: int, i: int, k: int)
    requires
        0 <= i <= k < spans.len(),
        spans[k].1 == e,
        forall|j: int| i <= j < k ==> (#[trigger] spans[j]).1 != e,
    ensures
        ending_at(spans, e, i) == Some(k),
    decreases k - i,
{
    if i < k {
        assert(spans[i].1 != e);
        lemma_ending_at(spans, e, i + 1, k);
    }
}

/// Where no span ends at `e`, none is found.
proof fn lemma_ending_nowhere(spans: Seq<text::Span>, e: int, i: int)
    requires
        0 <= i <= spans.len(),
        forall|j: int| i <= j < spans.len() ==> (#[trigger] spans[j]).1 != e,
    ensures
        ending_at(spans, e, i) is None,
    decreases spans.len() - i,
{
    if i < spans.len() {
        lemma_ending_nowhere(spans, e, i + 1);
    }
}

/// Before the heading there is no table and no row.
proof fn lemma_no_row_before_the_heading(
    lines: Seq<Seq<char>>,
    num: spec_fn(Seq<char>) -> Option<Metric>,
)
    requires
        forall|j: int|
            0 <= j < lines.len() ==> !text::starts(text::trim(#[trigger] lines[j]), "% time"@),
    ensures
        !read_lines(lines, num).in_table,
        read_lines(lines, num).rows.len() == 0,
        read_lines(lines, num).total_calls == 0,
    decreases lines.len(),
{
    if lines.len() > 0 {
        let t = lines.drop_last();
        assert forall|j: int| 0 <= j < t.len() implies !text::starts(
            text::trim(#[trigger] t[j]),
            "% time"@,
        ) by {
            assert(t[j] == lines[j]);
        }
        lemma_no_row_before_the_heading(t, num);
        assert(!text::starts(text::trim(lines[lines.len() - 1]), "% time"@));
    }
}

/// Every line behind the heading that lists a syscall is one row of the
/// histogram, in the order of the lines, with its calls, errors and shares; no
/// other line is. Without a heading there is no row.
pub proof fn law_every_syscall_line_is_one_row(
    lines: Seq<Seq<char>>,
    num: spec_fn(Seq<char>) -> Option<Metric>,
    h: int,
)
    requires
        0 <= h <= lines.len(),
        h < lines.len() ==> text::starts(text::trim(lines[h]), "% time"@),
        forall|j: int| 0 <= j < h ==> !text::starts(text::trim(#[trigger] lines[j]), "% time"@),
    ensures
        ({
            let listed = lines.skip(h).filter(
                |line: Seq<char>|
                    {
                        let w = text::words(text::trim(line));
                        &&& w.len() >= 5
                        &&& !text::starts(text::trim(line), "------"@)
                        &&& !text::starts(text::trim(line), "% time"@)
                        &&& w.last() != "total"@
                        &&& w.len() >= 6 || number::unsigned(w[4], u64::MAX as int) is None
                    },
            );
            let rows = read_lines(lines, num).rows;
            &&& rows.len() == listed.len()
            &&& forall|k: int|
                #![trigger rows[k]]
                0 <= k < rows.len() ==> {
                    let w = text::words(text::trim(listed[k]));
                    &&& num(w[0]) matches Some(m) ==> rows[k].pct_time == m
                    &&& num(w[1]) matches Some(m) ==> rows[k].seconds == m
                    &&& number::unsigned(w[3], u64::MAX as int) matches Some(n) ==> rows[k].calls
                        == n as u64
                    &&& number::unsigned(w[4], u64::MAX as int) matches Some(n) ==> rows[k].errors
                        == n as u64 && rows[k].syscall == layout::joined(w.skip(5), seq![' '])
                    &&& number::unsigned(w[4], u64::MAX as int) is None ==> rows[k].errors == 0
                        && rows[k].syscall == layout::joined(w.skip(4), seq![' '])
                }
        }),
    decreases lines.len(),
{
    reveal(Seq::filter);
    let keep = |line: Seq<char>|
        {
            let w = text::words(text::trim(line));
            &&& w.len() >= 5
            &&& !text::starts(text::trim(line), "------"@)
            &&& !text::starts(text::trim(line), "% time"@)
            &&& w.last() != "total"@
            &&& w.len() >= 6 || number::unsigned(w[4], u64::MAX as int) is None
        };
    let listed = lines.skip(h).filter(keep);
    if h == lines.len() {
        assert(lines.skip(h).len() == 0);
        lemma_no_row_before_the_heading(lines, num);
    } else {
        let t = lines.drop_last();
        assert forall|j: int| 0 <= j < t.len() implies #[trigger] t[j] == lines[j] by {}
        law_every_syscall_line_is_one_row(t, num, h);
        assert(lines.skip(h).drop_last() =~= t.skip(h));
        assert(lines.skip(h).last() == lines.last());
        lemma_in_table(t, num, h);
        let before = read_lines(t, num);
        if h < t.len() && keep(lines.last()) {
            law_a_syscall_line_adds_its_row(before, lines.last(), num);
            let rows = read_lines(lines, num).rows;
            assert forall|k: int| 0 <= k < rows.len() - 1 implies #[trigger] rows[k]
                == before.rows[k] by {
                assert(rows.drop_last()[k] == before.rows[k]);
            }
            assert(rows[rows.len() - 1] == rows.last());
            assert(listed == t.skip(h).filter(keep).push(lines.last()));
        } else {
            if h == t.len() {
                assert(lines.last() == lines[h]);
                assert(t.skip(h).len() == 0);
            }
            law_other_lines_add_no_row(before, lines.last(), num);
            assert(listed == t.skip(h).filter(keep));
        }
    }
}

/// Behind the heading there is a table.
proof fn lemma_in_table(
    lines: Seq<Seq<char>>,
    num: spec_fn(Seq<char>) -> Option<Metric>,
    h: int,
)
    requires
        0 <= h,
        h < lines.len() ==> text::starts(text::trim(lines[h]), "% time"@),
    ensures
        h < lines.len() ==> read_lines(lines, num).in_table,
    decreases lines.len(),
{
    if h < lines.len() {
        let t = lines.drop_last();
        if h < t.len() {
            assert(t[h] == lines[h]);
            lemma_in_table(t, num, h);
        } else {
            assert(lines.last() == lines[h]);
        }
    }
}

/// The histogram has the rows that its lines list, no more and no fewer: the
/// ranking only puts the busiest first.
pub proof fn law_histogram_keeps_every_row(
    stderr: Seq<char>,
    num: spec_fn(Seq<char>) -> Option<Metric>,
)
    ensures
        histogram_rows(stderr, num).to_multiset() == read_lines(
            text::lines(stderr),
            num,
        ).rows.to_multiset(),
        histogram_rows(stderr, num).len() == read_lines(text::lines(stderr), num).rows.len(),
{
    order::law_ranked_keeps_items(read_lines(text::lines(stderr), num).rows, busier());
}

/// What stands for a failed attach is the first line that `strace` wrote.
pub proof fn law_first_line_is_the_error(a: Seq<char>, b: Seq<char>)
    requires
        forall|i: int| 0 <= i < a.len() ==> #[trigger] a[i] != '\n' && a[i] != '\r',
    ensures
        first_line(a + seq!['\n'] + b) == a,
        a.len() > 0 ==> first_line(a) == a,
        first_line(Seq::empty()) == "attach failed"@,
{
    text::lemma_lines_first(a, b);
    text::law_last_line_needs_no_end(a);
    text::law_last_line_needs_no_end(Seq::empty());
}

/// A row shows what its fields hold.
pub proof fn law_rows_show_their_fields(rows: Seq<StraceRow>, i: int)
    requires
        0 <= i < rows.len(),
    ensures
        row_views(rows).len() == rows.len(),
        row_views(rows)[i].pct_time == rows[i].pct_time,
        row_views(rows)[i].seconds == rows[i].seconds,
        row_views(rows)[i].calls == rows[i].calls,
        row_views(rows)[i].errors == rows[i].errors,
        row_views(rows)[i].syscall == rows[i].syscall@,
{
}

} // verus!
