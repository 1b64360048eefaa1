//! `/proc` sampling: CPU time, voluntary and involuntary context switches and
//! I/O bytes of every process. Two samples some seconds apart give rates.
//!
//! The caller reads the files; this module makes sense of them.
use crate::metric::Metric;
use crate::number;
use crate::order;
use crate::text;
use crate::text::Class;
use std::collections::HashMap;
use vstd::prelude::*;
use vstd::slice::slice_subrange;

verus! {

broadcast use vstd::std_specs::hash::group_hash_axioms;

/// What one sample says of a process (or of a thread).
#[derive(Clone, Debug, Default)]
pub struct Snap {
    /// Time in user mode, in clock ticks.
    pub utime: u64,
    /// Time in kernel mode, in clock ticks.
    pub stime: u64,
    /// Voluntary context switches.
    pub vol_ctx: u64,
    /// Involuntary context switches.
    pub nvol_ctx: u64,
    /// Bytes read.
    pub read_bytes: u64,
    /// Bytes written.
    pub write_bytes: u64,
    /// The name of the process.
    pub comm: String,
    /// The state letter: `R`, `S`, `D`, `Z` and so on.
    pub state: char,
    /// The parent.
    pub ppid: u32,
}

/// A sample with its name as a sequence of characters.
pub struct SnapView {
    pub utime: u64,
    pub stime: u64,
    pub vol_ctx: u64,
    pub nvol_ctx: u64,
    pub read_bytes: u64,
    pub write_bytes: u64,
    pub comm: Seq<char>,
    pub state: char,
    pub ppid: u32,
}

impl View for Snap {
    type V = SnapView;

    open spec fn view(&self) -> SnapView {
        SnapView {
            utime: self.utime,
            stime: self.stime,
            vol_ctx: self.vol_ctx,
            nvol_ctx: self.nvol_ctx,
            read_bytes: self.read_bytes,
            write_bytes: self.write_bytes,
            comm: self.comm@,
            state: self.state,
            ppid: self.ppid,
        }
    }
}

/// What a directory under `/proc` holds of one process: the name of the
/// directory, and the contents of the files that could be read.
#[derive(Debug)]
pub struct ProcEntry {
    pub name: String,
    pub stat: Option<String>,
    pub status: Option<String>,
    pub io: Option<String>,
}

// ---------------------------------------------------------------------------
// Reading the files
// ---------------------------------------------------------------------------

/// The last place of `c` in `s`.
pub open spec fn last_at(s: Seq<char>, c: char) -> Option<int>
    decreases s.len(),
{
    if s.len() == 0 {
        None
    } else if s.last() == c {
        Some(s.len() - 1)
    } else {
        last_at(s.drop_last(), c)
    }
}

/// Whether the fields of a `stat` file can be cut off behind its last closing
/// bracket: a one-byte character follows that bracket, if there is one.
pub open spec fn stat_readable(s: Seq<char>) -> bool {
    match last_at(s, ')') {
        Some(close) => close + 1 < s.len() && s[close + 1] <= '\u{7F}',
        None => true,
    }
}

/// The fields of a `stat` file behind the name: state, parent, and so on.
pub open spec fn stat_fields(s: Seq<char>) -> Seq<Seq<char>> {
    match last_at(s, ')') {
        Some(close) => text::ascii_words(s.skip(close + 2)),
        None => Seq::empty(),
    }
}

/// User time, kernel time, state and parent in a `stat` file. `None` where one
/// of them is missing or is no number of its width.
pub open spec fn stat_of(s: Seq<char>) -> Option<(u64, u64, char, u32)> {
    let f = stat_fields(s);
    if f.len() < 13 {
        None
    } else {
        match (
            number::unsigned(f[11], u64::MAX as int),
            number::unsigned(f[12], u64::MAX as int),
            number::unsigned(f[1], u32::MAX as int),
        ) {
            (Some(utime), Some(stime), Some(ppid)) => Some(
                (utime as u64, stime as u64, if f[0].len() > 0 {
                    f[0][0]
                } else {
                    '?'
                }, ppid as u32),
            ),
            _ => None,
        }
    }
}

/// The words behind `key` in a line that starts with it; colons between are
/// left off.
pub open spec fn words_behind(line: Seq<char>, key: Seq<char>) -> Seq<Seq<char>> {
    let rest = line.skip(key.len() as int);
    text::words(rest.skip(text::scan_out(rest, 0, Class::Only(':'))))
}

/// The number behind `key` in the first line that starts with it and holds a
/// word behind it. `None` where no line does, or where that word is no number.
pub open spec fn field_of(lines: Seq<Seq<char>>, key: Seq<char>) -> Option<int>
    decreases lines.len(),
{
    if lines.len() == 0 {
        None
    } else if text::starts(lines[0], key) && words_behind(lines[0], key).len() > 0 {
        number::unsigned(words_behind(lines[0], key)[0], u64::MAX as int)
    } else {
        field_of(lines.drop_first(), key)
    }
}

/// The name in a `stat` file: what stands between the first opening bracket
/// and the last closing one.
pub open spec fn comm_of(s: Seq<char>) -> Seq<char> {
    let open = text::scan_in(s, 0, Class::Only('('));
    match last_at(s, ')') {
        Some(close) => if open < close {
            s.subrange(open + 1, close)
        } else {
            Seq::empty()
        },
        None => Seq::empty(),
    }
}

/// Finds the last `c` in `s`.
fn find_last(s: &[char], c: char) -> (r: Option<usize>)
    ensures
        match r {
            Some(i) => last_at(s@, c) == Some(i as int) && i < s@.len(),
            None => last_at(s@, c) is None,
        },
{
    let mut j: usize = s.len();
    assert(s@.take(j as int) =~= s@);
    while j > 0
        invariant
            j <= s@.len(),
            last_at(s@, c) == last_at(s@.take(j as int), c),
        decreases j,
    {
        assert(s@.take(j as int).drop_last() =~= s@.take(j - 1));
        if s[j - 1] == c {
            return Some(j - 1);
        }
        j -= 1;
    }
    None
}

/// Whether the fields of this `stat` file can be cut off behind its last
/// closing bracket. What reads `stat` files asks this of each of them.
pub fn readable_stat(content: &str) -> (r: bool)
    ensures
        r == stat_readable(content@),
{
    let s = text::chars_of(content);
    let n = s.len();
    match find_last(s.as_slice(), ')') {
        Some(close) => n - close > 1 && s[close + 1] <= '\u{7F}',
        None => true,
    }
}

/// User time, kernel time, state and parent in a `stat` file.
pub fn parse_stat(content: &str) -> (r: Option<(u64, u64, char, u32)>)
    requires
        stat_readable(content@),
    ensures
        r == stat_of(content@),
{
    let s = text::chars_of(content);
    let close = match find_last(s.as_slice(), ')') {
        Some(i) => i,
        None => return None,
    };
    let rest = slice_subrange(s.as_slice(), close + 2, s.len());
    assert(rest@ =~= s@.skip(close + 2));
    let f = text::split_ascii_words(rest);
    let ghost fields = stat_fields(content@);
    assert(text::views(f@) == fields);
    if f.len() < 13 {
        return None;
    }
    assert(f@[0]@ == fields[0] && f@[1]@ == fields[1] && f@[11]@ == fields[11] && f@[12]@
        == fields[12]);
    let state = if f[0].len() > 0 {
        f[0][0]
    } else {
        '?'
    };
    let ppid = match number::parse_u32(f[1]) {
        Some(n) => n,
        None => return None,
    };
    let utime = match number::parse_u64(f[11]) {
        Some(n) => n,
        None => return None,
    };
    let stime = match number::parse_u64(f[12]) {
        Some(n) => n,
        None => return None,
    };
    Some((utime, stime, state, ppid))
}

/// The number behind `key` in a `status` file.
pub fn parse_status_field(content: &str, key: &str) -> (r: Option<u64>)
    ensures
        match r {
            Some(v) => field_of(text::lines(content@), key@) == Some(v as int),
            None => field_of(text::lines(content@), key@) is None,
        },
{
    let s = text::chars_of(content);
    let lines = text::split_lines(s.as_slice());
    let ghost all = text::lines(content@);
    assert(text::views(lines@) == all);
    let mut i: usize = 0;
    assert(all.skip(0) =~= all);
    while i < lines.len()
        invariant
            i <= lines@.len(),
            text::views(lines@) == all,
            all == text::lines(content@),
            field_of(all, key@) == field_of(all.skip(i as int), key@),
        decreases lines@.len() - i,
    {
        assert(all.skip(i as int).drop_first() =~= all.skip(i + 1));
        assert(all.skip(i as int)[0] == lines@[i as int]@);
        if let Some(rest) = text::strip_prefix(lines[i], key) {
            let from = text::find_out(rest, 0, Class::Only(':'));
            let tail = slice_subrange(rest, from, rest.len());
            assert(tail@ =~= rest@.skip(from as int));
            let w = text::split_words(tail);
            assert(text::views(w@) == words_behind(lines@[i as int]@, key@));
            if w.len() > 0 {
                assert(w@[0]@ == words_behind(lines@[i as int]@, key@)[0]);
                return number::parse_u64(w[0]);
            }
        }
        i += 1;
    }
    None
}

/// The number behind `key` in an `io` file.
pub fn parse_io_field(content: &str, key: &str) -> (r: Option<u64>)
    ensures
        match r {
            Some(v) => field_of(text::lines(content@), key@) == Some(v as int),
            None => field_of(text::lines(content@), key@) is None,
        },
{
    parse_status_field(content, key)
}

/// The name in a `stat` file.
pub fn parse_comm(content: &str) -> (r: String)
    ensures
        r@ == comm_of(content@),
{
    let s = text::chars_of(content);
    let open = text::find_in(s.as_slice(), 0, Class::Only('('));
    if let Some(close) = find_last(s.as_slice(), ')') {
        if close > open {
            return text::string_of(slice_subrange(s.as_slice(), open + 1, close));
        }
    }
    String::new()
}

// ---------------------------------------------------------------------------
// Samples
// ---------------------------------------------------------------------------

/// The number behind `key` in a file; 0 where the file could not be read or
/// does not give it.
pub open spec fn count_of(content: Option<Seq<char>>, key: Seq<char>) -> u64 {
    match content {
        Some(c) => match field_of(text::lines(c), key) {
            Some(n) => n as u64,
            None => 0,
        },
        None => 0,
    }
}

/// What a directory says of one process. `None` where its name is no process
/// number, or where `stat` is missing (the process is gone) or makes no sense.
pub open spec fn sampled(
    name: Seq<char>,
    stat: Option<Seq<char>>,
    status: Option<Seq<char>>,
    io: Option<Seq<char>>,
) -> Option<(u32, SnapView)> {
    match (number::unsigned(name, u32::MAX as int), stat) {
        (Some(pid), Some(stat)) => match stat_of(stat) {
            Some((utime, stime, state, ppid)) => Some(
                (
                    pid as u32,
                    SnapView {
                        utime,
                        stime,
                        vol_ctx: count_of(status, "voluntary_ctxt_switches"@),
                        nvol_ctx: count_of(status, "nonvoluntary_ctxt_switches"@),
                        read_bytes: count_of(io, "read_bytes"@),
                        write_bytes: count_of(io, "write_bytes"@),
                        comm: comm_of(stat),
                        state,
                        ppid,
                    },
                ),
            ),
            None => None,
        },
        _ => None,
    }
}

/// Whether the `stat` file can be read, if the name is a process number.
pub open spec fn samplable(name: Seq<char>, stat: Option<Seq<char>>) -> bool {
    number::unsigned(name, u32::MAX as int) is Some ==> (stat matches Some(s) ==> stat_readable(s))
}

/// The number behind `key` in a file; 0 where there is none.
fn read_count(content: &Option<String>, key: &str) -> (r: u64)
    ensures
        r == count_of(text::maybe(*content), key@),
{
    match content {
        Some(c) => match parse_status_field(c.as_str(), key) {
            Some(n) => n,
            None => 0,
        },
        None => 0,
    }
}

/// What a directory says of one process.
pub fn read_process(
    name: &str,
    stat: &Option<String>,
    status: &Option<String>,
    io: &Option<String>,
) -> (r: Option<(u32, Snap)>)
    requires
        samplable(name@, text::maybe(*stat)),
    ensures
        match r {
            Some((pid, snap)) => sampled(
                name@,
                text::maybe(*stat),
                text::maybe(*status),
                text::maybe(*io),
            ) == Some((pid, snap@)),
            None => sampled(
                name@,
                text::maybe(*stat),
                text::maybe(*status),
                text::maybe(*io),
            ) is None,
        },
{
    let digits = text::chars_of(name);
    let pid = match number::parse_u32(digits.as_slice()) {
        Some(n) => n,
        None => return None,
    };
    let stat = match stat {
        Some(s) => s.as_str(),
        None => return None,
    };
    let comm = parse_comm(stat);
    let (utime, stime, state, ppid) = match parse_stat(stat) {
        Some(t) => t,
        None => return None,
    };
    let snap = Snap {
        utime,
        stime,
        vol_ctx: read_count(status, "voluntary_ctxt_switches"),
        nvol_ctx: read_count(status, "nonvoluntary_ctxt_switches"),
        read_bytes: read_count(io, "read_bytes"),
        write_bytes: read_count(io, "write_bytes"),
        comm,
        state,
        ppid,
    };
    Some((pid, snap))
}

impl ProcEntry {
    /// What this directory says of one process.
    pub open spec fn sampled(self) -> Option<(u32, SnapView)> {
        sampled(
            self.name@,
            text::maybe(self.stat),
            text::maybe(self.status),
            text::maybe(self.io),
        )
    }

    /// Whether the `stat` file can be read, if the name is a process number.
    pub open spec fn samplable(self) -> bool {
        samplable(self.name@, text::maybe(self.stat))
    }
}

/// The samples of a map, each by its view.
pub open spec fn snaps(m: Map<u32, Snap>) -> Map<u32, SnapView> {
    m.map_values(|s: Snap| s@)
}

/// One sample for every directory that gives one.
pub open spec fn snapshot_of(entries: Seq<ProcEntry>) -> Map<u32, SnapView>
    decreases entries.len(),
{
    if entries.len() == 0 {
        Map::empty()
    } else {
        let m = snapshot_of(entries.drop_last());
        match entries.last().sampled() {
            Some((pid, snap)) => m.insert(pid, snap),
            None => m,
        }
    }
}

/// Samples every process.
pub fn snapshot(entries: &Vec<ProcEntry>) -> (r: HashMap<u32, Snap>)
    requires
        forall|i: int| 0 <= i < entries@.len() ==> (#[trigger] entries@[i]).samplable(),
    ensures
        snaps(r@) == snapshot_of(entries@),
{
    let mut out: HashMap<u32, Snap> = HashMap::new();
    let mut i: usize = 0;
    assert(snaps(out@) =~= Map::empty());
    while i < entries.len()
        invariant
            i <= entries@.len(),
            forall|i: int| 0 <= i < entries@.len() ==> (#[trigger] entries@[i]).samplable(),
            snaps(out@) == snapshot_of(entries@.take(i as int)),
        decreases entries@.len() - i,
    {
        let e = &entries[i];
        assert(e.samplable());
        assert(entries@.take(i + 1).drop_last() =~= entries@.take(i as int));
        let ghost before = out@;
        if let Some((pid, snap)) = read_process(e.name.as_str(), &e.stat, &e.status, &e.io) {
            out.insert(pid, snap);
            assert(snaps(before.insert(pid, snap)) =~= snaps(before).insert(pid, snap@));
        }
        i += 1;
    }
    assert(entries@.take(i as int) =~= entries@);
    out
}

// ---------------------------------------------------------------------------
// Changes between two samples
// ---------------------------------------------------------------------------

/// By how much the counters of a process have grown between two samples.
#[derive(Clone, Copy, PartialEq, Eq, Structural, Debug)]
pub struct Change {
    /// Clock ticks, user and kernel mode together.
    pub ticks: u64,
    /// Voluntary context switches.
    pub wakes: u64,
    /// Involuntary context switches.
    pub nvol: u64,
    /// Bytes read and written.
    pub io_bytes: u128,
}

/// What a change comes to per second.
#[derive(Clone, Copy, PartialEq, Eq, Structural, Debug)]
pub struct Rates {
    pub cpu_pct: Metric,
    pub wakes_per_s: Metric,
    pub nvol_per_s: Metric,
    pub io_kbs: Metric,
    /// The drain score: higher is worse.
    pub drain: Metric,
}

/// One line of the table: a process and what it did between two samples.
#[derive(Clone, Debug)]
pub struct Delta {
    pub pid: u32,
    pub comm: String,
    pub state: char,
    pub ppid: u32,
    pub cpu_pct: Metric,
    pub wakes_per_s: Metric,
    pub nvol_per_s: Metric,
    pub io_kbs: Metric,
    pub drain: Metric,
}

/// Wakes per second in a line.
pub open spec fn wakes_of() -> spec_fn(Delta) -> Metric {
    |d: Delta| d.wakes_per_s
}

/// The CPU share in a line.
pub open spec fn cpu_of() -> spec_fn(Delta) -> Metric {
    |d: Delta| d.cpu_pct
}

impl Delta {
    /// The rates of the line.
    pub open spec fn rates(self) -> Rates {
        Rates {
            cpu_pct: self.cpu_pct,
            wakes_per_s: self.wakes_per_s,
            nvol_per_s: self.nvol_per_s,
            io_kbs: self.io_kbs,
            drain: self.drain,
        }
    }
}

/// How far a counter went up; 0 where it went down.
pub open spec fn growth(before: u64, after: u64) -> int {
    if after >= before {
        after - before
    } else {
        0
    }
}

/// The change between two samples. Ticks stop at the largest `u64`.
pub open spec fn change_of(a: SnapView, b: SnapView) -> Change {
    let ticks = growth(a.utime, b.utime) + growth(a.stime, b.stime);
    Change {
        ticks: if ticks > u64::MAX {
            u64::MAX
        } else {
            ticks as u64
        },
        wakes: growth(a.vol_ctx, b.vol_ctx) as u64,
        nvol: growth(a.nvol_ctx, b.nvol_ctx) as u64,
        io_bytes: (growth(a.read_bytes, b.read_bytes) + growth(a.write_bytes, b.write_bytes))
            as u128,
    }
}

/// The change between two samples.
pub fn change(a: &Snap, b: &Snap) -> (r: Change)
    ensures
        r == change_of(a@, b@),
{
    Change {
        ticks: b.utime.saturating_sub(a.utime).saturating_add(b.stime.saturating_sub(a.stime)),
        wakes: b.vol_ctx.saturating_sub(a.vol_ctx),
        nvol: b.nvol_ctx.saturating_sub(a.nvol_ctx),
        io_bytes: b.read_bytes.saturating_sub(a.read_bytes) as u128
            + b.write_bytes.saturating_sub(a.write_bytes) as u128,
    }
}

/// Between two samples a process is charged with all the processor time that
/// it spent, in its own code and in the kernel's: where neither counter went
/// down, the ticks are the difference of the sums. The other counts are how far
/// their counters went up, and both directions of input and output count.
pub proof fn law_change_counts_all_work(a: SnapView, b: SnapView)
    ensures
        a.utime <= b.utime && a.stime <= b.stime && (b.utime + b.stime) - (a.utime + a.stime)
            <= u64::MAX ==> change_of(a, b).ticks == (b.utime + b.stime) - (a.utime + a.stime),
        a.utime <= b.utime && a.stime <= b.stime && (b.utime + b.stime) - (a.utime + a.stime)
            > u64::MAX ==> change_of(a, b).ticks == u64::MAX,
        a.vol_ctx <= b.vol_ctx ==> change_of(a, b).wakes == b.vol_ctx - a.vol_ctx,
        a.nvol_ctx <= b.nvol_ctx ==> change_of(a, b).nvol == b.nvol_ctx - a.nvol_ctx,
        a.read_bytes <= b.read_bytes && a.write_bytes <= b.write_bytes ==> change_of(a, b).io_bytes
            == (b.read_bytes - a.read_bytes) + (b.write_bytes - a.write_bytes),
{
}

/// A counter that went down counts for nothing, and takes nothing away from
/// what the other counters say.
pub proof fn law_falling_counters_count_for_nothing(a: SnapView, b: SnapView)
    ensures
        b.utime <= a.utime && a.stime <= b.stime ==> change_of(a, b).ticks == b.stime - a.stime,
        a.utime <= b.utime && b.stime <= a.stime ==> change_of(a, b).ticks == b.utime - a.utime,
        b.utime <= a.utime && b.stime <= a.stime ==> change_of(a, b).ticks == 0,
        b.vol_ctx <= a.vol_ctx ==> change_of(a, b).wakes == 0,
        b.nvol_ctx <= a.nvol_ctx ==> change_of(a, b).nvol == 0,
        b.read_bytes <= a.read_bytes && a.write_bytes <= b.write_bytes ==> change_of(a, b).io_bytes
            == b.write_bytes - a.write_bytes,
        a.read_bytes <= b.read_bytes && b.write_bytes <= a.write_bytes ==> change_of(a, b).io_bytes
            == b.read_bytes - a.read_bytes,
        b.read_bytes <= a.read_bytes && b.write_bytes <= a.write_bytes ==> change_of(a, b).io_bytes
            == 0,
{
}

/// Every further tick, in the process or in the kernel, every further switch
/// and every further byte is seen: it raises the count by as much.
pub proof fn law_further_work_raises_the_count(a: SnapView, b: SnapView, c: SnapView, k: int)
    requires
        0 <= k,
        a.utime <= b.utime,
        a.stime <= b.stime,
        a.vol_ctx <= b.vol_ctx,
        a.nvol_ctx <= b.nvol_ctx,
        a.read_bytes <= b.read_bytes,
        a.write_bytes <= b.write_bytes,
        (b.utime + b.stime) - (a.utime + a.stime) + k <= u64::MAX,
    ensures
        c == (SnapView { utime: c.utime, ..b }) && c.utime == b.utime + k ==> change_of(a, c)
            == (Change { ticks: (change_of(a, b).ticks + k) as u64, ..change_of(a, b) }),
        c == (SnapView { stime: c.stime, ..b }) && c.stime == b.stime + k ==> change_of(a, c)
            == (Change { ticks: (change_of(a, b).ticks + k) as u64, ..change_of(a, b) }),
        c == (SnapView { vol_ctx: c.vol_ctx, ..b }) && c.vol_ctx == b.vol_ctx + k ==> change_of(
            a,
            c,
        ) == (Change { wakes: (change_of(a, b).wakes + k) as u64, ..change_of(a, b) }),
        c == (SnapView { nvol_ctx: c.nvol_ctx, ..b }) && c.nvol_ctx == b.nvol_ctx + k ==> change_of(
            a,
            c,
        ) == (Change { nvol: (change_of(a, b).nvol + k) as u64, ..change_of(a, b) }),
        c == (SnapView { read_bytes: c.read_bytes, ..b }) && c.read_bytes == b.read_bytes + k
            ==> change_of(a, c) == (Change {
            io_bytes: (change_of(a, b).io_bytes + k) as u128,
            ..change_of(a, b)
        }),
        c == (SnapView { write_bytes: c.write_bytes, ..b }) && c.write_bytes == b.write_bytes + k
            ==> change_of(a, c) == (Change {
            io_bytes: (change_of(a, b).io_bytes + k) as u128,
            ..change_of(a, b)
        }),
{
}

/// The keys of a map, each once, in the order in which the map is walked.
pub fn keys_of<V>(m: &HashMap<u32, V>) -> (r: Vec<u32>)
    ensures
        r@.no_duplicates(),
        forall|k: u32| r@.contains(k) <==> m@.contains_key(k),
{
    let mut out: Vec<u32> = Vec::new();
    let ghost all = vstd::std_specs::iter::IteratorSpec::remaining(
        &vstd::std_specs::hash::spec_keys_iter(m),
    );
    for k in it: m.keys()
        invariant
            it.seq() == all,
            out@.len() == it.index(),
            forall|j: int| 0 <= j < out@.len() ==> out@[j] == *all[j],
    {
        out.push(*k);
    }
    proof {
        assert(out@ =~= all.unref());
        assert forall|k: u32| out@.contains(k) <==> m@.contains_key(k) by {
            assert(all.unref().to_set().contains(k) <==> m@.dom().contains(k));
        }
    }
    out
}

/// The keys that two maps share, each once.
pub fn common_keys<V>(a: &HashMap<u32, V>, b: &HashMap<u32, V>) -> (r: Vec<u32>)
    ensures
        r@.no_duplicates(),
        forall|k: u32| r@.contains(k) <==> a@.contains_key(k) && b@.contains_key(k),
{
    let keys = keys_of(b);
    let mut out: Vec<u32> = Vec::new();
    let mut i: usize = 0;
    while i < keys.len()
        invariant
            i <= keys@.len(),
            keys@.no_duplicates(),
            out@.no_duplicates(),
            forall|k: u32|
                out@.contains(k) <==> keys@.take(i as int).contains(k) && a@.contains_key(k),
        decreases keys@.len() - i,
    {
        let k = keys[i];
        let ghost seen = keys@.take(i as int);
        let ghost before = out@;
        proof {
            assert(keys@.take(i + 1) =~= seen.push(k));
            seen.lemma_push_to_set_commute(k);
            before.lemma_push_to_set_commute(k);
            assert forall|m: u32|
                #![trigger seen.push(k).contains(m)]
                #![trigger before.push(k).contains(m)]
                (seen.push(k).contains(m) <==> seen.contains(m) || m == k) && (before.push(
                    k,
                ).contains(m) <==> before.contains(m) || m == k) by {
                assert(seen.push(k).to_set().contains(m) <==> seen.to_set().insert(k).contains(m));
                assert(before.push(k).to_set().contains(m) <==> before.to_set().insert(k).contains(
                    m,
                ));
            }
            assert(!before.contains(k));
        }
        if a.contains_key(&k) {
            out.push(k);
        }
        i += 1;
    }
    assert(keys@.take(i as int) =~= keys@);
    out
}

/// Whether `d` is the line of its process: the name, state and parent of the
/// later sample, and the rates that `rate` gives for the change.
pub open spec fn is_line<F: Fn(Change) -> Rates>(
    d: Delta,
    a: Map<u32, Snap>,
    b: Map<u32, Snap>,
    rate: F,
) -> bool {
    &&& a.contains_key(d.pid)
    &&& b.contains_key(d.pid)
    &&& d.comm@ == b[d.pid].comm@
    &&& d.state == b[d.pid].state
    &&& d.ppid == b[d.pid].ppid
    &&& call_ensures(rate, (change_of(a[d.pid]@, b[d.pid]@),), d.rates())
}

/// The processes of the lines.
pub open spec fn pids(lines: Seq<Delta>) -> Seq<u32> {
    Seq::new(lines.len(), |i: int| lines[i].pid)
}

/// The lines in their order: no line stands below one that scores less.
pub open spec fn drain_goes_down(lines: Seq<Delta>) -> bool {
    forall|i: int, j: int|
        0 <= i < j < lines.len() ==> (#[trigger] lines[i]).drain.at_least(
            (#[trigger] lines[j]).drain,
        )
}

/// What every process that is in both samples did between them, the highest
/// score first. A process that is in one of them only has no change to show.
/// `rate` turns a change into rates.
pub fn deltas<F: Fn(Change) -> Rates>(
    a: &HashMap<u32, Snap>,
    b: &HashMap<u32, Snap>,
    rate: F,
) -> (r: Vec<Delta>)
    requires
        forall|c: Change| call_requires(rate, (c,)),
    ensures
        pids(r@).no_duplicates(),
        forall|pid: u32|
            pids(r@).contains(pid) <==> a@.contains_key(pid) && b@.contains_key(pid),
        forall|i: int| 0 <= i < r@.len() ==> is_line(#[trigger] r@[i], a@, b@, rate),
        (forall|i: int| 0 <= i < r@.len() ==> (#[trigger] r@[i]).drain.is_number())
            ==> drain_goes_down(r@),
{
    let keys = common_keys(a, b);
    let mut out: Vec<Delta> = Vec::new();
    let mut i: usize = 0;
    while i < keys.len()
        invariant
            i <= keys@.len(),
            forall|k: u32| keys@.contains(k) <==> a@.contains_key(k) && b@.contains_key(k),
            forall|c: Change| call_requires(rate, (c,)),
            out@.len() == i,
            forall|j: int| 0 <= j < i ==> (#[trigger] out@[j]).pid == keys@[j],
            forall|j: int| 0 <= j < i ==> is_line(#[trigger] out@[j], a@, b@, rate),
        decreases keys@.len() - i,
    {
        let pid = keys[i];
        assert(keys@.contains(pid));
        let s1 = a.get(&pid).unwrap();
        let s2 = b.get(&pid).unwrap();
        let x = rate(change(s1, s2));
        out.push(
            Delta {
                pid,
                comm: s2.comm.clone(),
                state: s2.state,
                ppid: s2.ppid,
                cpu_pct: x.cpu_pct,
                wakes_per_s: x.wakes_per_s,
                nvol_per_s: x.nvol_per_s,
                io_kbs: x.io_kbs,
                drain: x.drain,
            },
        );
        assert(out@.last().rates() == x);
        i += 1;
    }
    let ghost found = out@;
    let above = |x: &Delta, y: &Delta| -> (r: bool)
        ensures
            r == y.drain.below(x.drain),
    {
        y.drain.less(x.drain)
    };
    order::rank(&mut out, above);
    proof {
        let key = |d: Delta| d.drain;
        let g = order::higher(key);
        assert(out@ == order::ranked(found, g));
        order::law_ranked_keeps_items(found, g);
        let mark = |d: Delta| d.pid;
        assert(order::marks(found, mark) =~= keys@);
        order::lemma_ranked_marks(found, g, mark);
        assert(order::marks(out@, mark) =~= pids(out@));
        assert forall|pid: u32|
            pids(out@).contains(pid) <==> a@.contains_key(pid) && b@.contains_key(pid) by {
            assert(keys@.contains(pid) <==> order::marks(found, mark).contains(pid));
        }
        assert forall|i: int| 0 <= i < out@.len() implies is_line(
            #[trigger] out@[i],
            a@,
            b@,
            rate,
        ) by {
            assert(out@.contains(out@[i]));
            assert(found.contains(out@[i]));
        }
        if forall|i: int| 0 <= i < out@.len() ==> (#[trigger] out@[i]).drain.is_number() {
            assert forall|i: int| 0 <= i < found.len() implies key(
                #[trigger] found[i],
            ).is_number() by {
                assert(found.contains(found[i]));
                assert(out@.contains(found[i]));
            }
            order::law_higher_goes_down(found, key);
            assert forall|i: int, j: int| 0 <= i < j < out@.len() implies (#[trigger] out@[i])
                .drain.at_least((#[trigger] out@[j]).drain) by {
                assert(key(out@[i]).at_least(key(out@[j])));
            }
        }
    }
    out
}

// ---------------------------------------------------------------------------
// The battery
// ---------------------------------------------------------------------------

/// What a directory under `/sys/class/power_supply` holds: its name, and the
/// contents of the files that could be read.
#[derive(Debug)]
pub struct Supply {
    pub name: String,
    pub status: Option<String>,
    pub power_now: Option<String>,
    pub energy_now: Option<String>,
    pub voltage_now: Option<String>,
    pub current_now: Option<String>,
    pub charge_now: Option<String>,
}

/// The present draw, in the terms in which the battery reports it.
#[derive(Clone, Copy, PartialEq, Eq, Structural, Debug)]
pub enum Draw {
    /// Power in microwatts.
    Power { uw: u64 },
    /// Voltage in microvolts and current in microamperes.
    Flow { uv: u64, ua: u64 },
}

/// The state of the battery.
#[derive(Clone, Copy, PartialEq, Eq, Structural, Debug)]
pub struct Battery {
    pub draw: Draw,
    /// What is left, while the battery discharges: energy in microwatt-hours
    /// beside a power, charge in microampere-hours beside a flow. `None` when
    /// it does not discharge, when nothing is drawn, or when the battery does
    /// not say.
    pub left: Option<u64>,
    /// The first letter of the status; `?` when there is none.
    pub status: char,
}

/// The number in a file.
pub open spec fn file_number(content: Option<Seq<char>>) -> Option<u64> {
    match content {
        Some(c) => match number::unsigned(text::trim(c), u64::MAX as int) {
            Some(n) => Some(n as u64),
            None => None,
        },
        None => None,
    }
}

/// The first letter of a status file.
pub open spec fn status_letter(content: Option<Seq<char>>) -> char {
    match content {
        Some(c) => if text::trim(c).len() > 0 {
            text::trim(c)[0]
        } else {
            '?'
        },
        None => '?',
    }
}

impl Supply {
    /// The state of this battery. A reported power goes before voltage and
    /// current; without both of those there is no state.
    pub open spec fn reading(self) -> Option<Battery> {
        let status = status_letter(text::maybe(self.status));
        match file_number(text::maybe(self.power_now)) {
            Some(uw) => Some(
                Battery {
                    draw: Draw::Power { uw },
                    left: if status == 'D' && uw > 0 {
                        file_number(text::maybe(self.energy_now))
                    } else {
                        None
                    },
                    status,
                },
            ),
            None => match (
                file_number(text::maybe(self.voltage_now)),
                file_number(text::maybe(self.current_now)),
            ) {
                (Some(uv), Some(ua)) => Some(
                    Battery {
                        draw: Draw::Flow { uv, ua },
                        left: if status == 'D' && ua > 0 {
                            file_number(text::maybe(self.charge_now))
                        } else {
                            None
                        },
                        status,
                    },
                ),
                _ => None,
            },
        }
    }
}

/// The state of the first supply whose name starts with `BAT`.
pub open spec fn battery_of(supplies: Seq<Supply>) -> Option<Battery>
    decreases supplies.len(),
{
    if supplies.len() == 0 {
        None
    } else if text::starts(supplies[0].name@, "BAT"@) {
        supplies[0].reading()
    } else {
        battery_of(supplies.drop_first())
    }
}

/// Only a battery that discharges has a time left: with another status nothing
/// is said of what is left, beside a power and beside a flow alike.
pub proof fn law_only_discharging_leaves_time(s: Supply)
    ensures
        s.reading() matches Some(b) ==> b.status != 'D' ==> b.left is None,
        s.reading() matches Some(b) ==> (b.draw matches Draw::Power { uw } ==> uw == 0 ==> b.left is None),
        s.reading() matches Some(b) ==> (b.draw matches Draw::Flow { ua, .. } ==> ua == 0
            ==> b.left is None),
{
}

/// While a battery discharges and something is drawn, what is left is what its
/// own file says: the energy beside a power, the charge beside a flow.
pub proof fn law_discharging_leaves_what_the_file_says(s: Supply)
    ensures
        s.reading() matches Some(b) ==> b.status == 'D' ==> (b.draw matches Draw::Power { uw }
            ==> uw > 0 ==> b.left == file_number(text::maybe(s.energy_now))),
        s.reading() matches Some(b) ==> b.status == 'D' ==> (b.draw matches Draw::Flow { ua, .. }
            ==> ua > 0 ==> b.left == file_number(text::maybe(s.charge_now))),
{
}

/// A battery that reports its power is read by it, whatever else it reports.
/// One that does not is read by voltage and current, and only with both.
pub proof fn law_power_goes_before_flow(s: Supply)
    ensures
        file_number(text::maybe(s.power_now)) matches Some(p) ==> (s.reading() matches Some(b)
            && b.draw == (Draw::Power { uw: p })),
        file_number(text::maybe(s.power_now)) is None ==> (s.reading() is Some <==> file_number(
            text::maybe(s.voltage_now),
        ) is Some && file_number(text::maybe(s.current_now)) is Some),
        file_number(text::maybe(s.power_now)) is None ==> (s.reading() matches Some(b) ==> b.draw
            == (Draw::Flow {
            uv: file_number(text::maybe(s.voltage_now))->0,
            ua: file_number(text::maybe(s.current_now))->0,
        })),
        s.reading() matches Some(b) ==> b.status == status_letter(text::maybe(s.status)),
{
}

/// What is read is the state of a supply whose name starts with `BAT`, and no
/// such supply stands before it. Without one there is no state.
pub proof fn law_first_battery_is_read(supplies: Seq<Supply>, i: int)
    requires
        0 <= i < supplies.len(),
        forall|j: int| 0 <= j < i ==> !((#[trigger] supplies[j]).name@.len() >= 3
            && supplies[j].name@.take(3) == seq!['B', 'A', 'T']),
    ensures
        supplies[i].name@.len() >= 3 && supplies[i].name@.take(3) == seq!['B', 'A', 'T']
            ==> battery_of(supplies) == supplies[i].reading(),
        i + 1 == supplies.len() && !(supplies[i].name@.len() >= 3 && supplies[i].name@.take(3)
            == seq!['B', 'A', 'T']) ==> battery_of(supplies) is None,
    decreases i,
{
    reveal_strlit("BAT");
    assert("BAT"@ =~= seq!['B', 'A', 'T']);
    if i > 0 {
        let t = supplies.drop_first();
        assert(!(supplies[0].name@.len() >= 3 && supplies[0].name@.take(3) == seq!['B', 'A', 'T']));
        assert forall|j: int| 0 <= j < i - 1 implies !((#[trigger] t[j]).name@.len() >= 3
            && t[j].name@.take(3) == seq!['B', 'A', 'T']) by {
            assert(t[j] == supplies[j + 1]);
        }
        law_first_battery_is_read(t, i - 1);
        assert(t[i - 1] == supplies[i]);
        assert(battery_of(supplies) == battery_of(t));
    } else {
        if supplies.len() == 1 {
            assert(supplies.drop_first().len() == 0);
        }
    }
}

/// The number in a file.
fn read_number(content: &Option<String>) -> (r: Option<u64>)
    ensures
        r == file_number(text::maybe(*content)),
{
    match content {
        Some(c) => {
            let s = text::chars_of(c.as_str());
            number::parse_u64(text::trim_blank(s.as_slice()))
        },
        None => None,
    }
}

/// The first letter of a status file.
fn read_status(content: &Option<String>) -> (r: char)
    ensures
        r == status_letter(text::maybe(*content)),
{
    match content {
        Some(c) => {
            let s = text::chars_of(c.as_str());
            let t = text::trim_blank(s.as_slice());
            if t.len() > 0 {
                t[0]
            } else {
                '?'
            }
        },
        None => '?',
    }
}

impl Supply {
    /// The state of this battery.
    pub fn read(&self) -> (r: Option<Battery>)
        ensures
            r == self.reading(),
    {
        let status = read_status(&self.status);
        if let Some(uw) = read_number(&self.power_now) {
            let left = if status == 'D' && uw > 0 {
                read_number(&self.energy_now)
            } else {
                None
            };
            return Some(Battery { draw: Draw::Power { uw }, left, status });
        }
        match (read_number(&self.voltage_now), read_number(&self.current_now)) {
            (Some(uv), Some(ua)) => {
                let left = if status == 'D' && ua > 0 {
                    read_number(&self.charge_now)
                } else {
                    None
                };
                Some(Battery { draw: Draw::Flow { uv, ua }, left, status })
            },
            _ => None,
        }
    }
}

/// The state of the battery, from the supplies in the order in which the
/// directory lists them.
pub fn battery(supplies: &Vec<Supply>) -> (r: Option<Battery>)
    ensures
        r == battery_of(supplies@),
{
    let mut i: usize = 0;
    assert(supplies@.skip(0) =~= supplies@);
    while i < supplies.len()
        invariant
            i <= supplies@.len(),
            battery_of(supplies@) == battery_of(supplies@.skip(i as int)),
        decreases supplies@.len() - i,
    {
        assert(supplies@.skip(i as int).drop_first() =~= supplies@.skip(i + 1));
        let name = text::chars_of(supplies[i].name.as_str());
        if text::starts_with(name.as_slice(), "BAT") {
            return supplies[i].read();
        }
        i += 1;
    }
    None
}

// ---------------------------------------------------------------------------
// What the files say
// ---------------------------------------------------------------------------

/// The last place of a character, behind which it does not come again.
proof fn lemma_last_at(a: Seq<char>, c: char, b: Seq<char>)
    requires
        forall|i: int| 0 <= i < b.len() ==> #[trigger] b[i] != c,
    ensures
        last_at(a + seq![c] + b, c) == Some(a.len() as int),
    decreases b.len(),
{
    let s = a + seq![c] + b;
    if b.len() == 0 {
        assert(s.last() == c);
    } else {
        let t = b.drop_last();
        assert(b[b.len() - 1] != c);
        assert forall|i: int| 0 <= i < t.len() implies #[trigger] t[i] != c by {
            assert(t[i] == b[i]);
        }
        lemma_last_at(a, c, t);
        assert(s.drop_last() =~= a + seq![c] + t);
        assert(s.last() == b.last());
    }
}

/// The name of a process is all that stands between the first opening bracket
/// and the last closing one, brackets and blanks in it included. Behind it, and
/// one character further, the fields follow: the state first, the parent second,
/// user time twelfth and kernel time thirteenth. With fewer fields, or where one
/// of the numbers is none, nothing is read.
pub proof fn law_stat_is_read_behind_the_name(
    pre: Seq<char>,
    comm: Seq<char>,
    gap: char,
    rest: Seq<char>,
)
    requires
        forall|i: int| 0 <= i < pre.len() ==> #[trigger] pre[i] != '(',
        forall|i: int| 0 <= i < rest.len() ==> #[trigger] rest[i] != ')',
        gap != ')',
    ensures
        ({
            let s = pre + seq!['('] + comm + seq![')'] + seq![gap] + rest;
            let w = text::ascii_words(rest);
            &&& comm_of(s) == comm
            &&& stat_of(s) is Some <==> w.len() >= 13 && number::unsigned(
                w[1],
                u32::MAX as int,
            ) is Some && number::unsigned(w[11], u64::MAX as int) is Some && number::unsigned(
                w[12],
                u64::MAX as int,
            ) is Some
            &&& stat_of(s) matches Some((utime, stime, state, ppid)) ==> {
                &&& number::unsigned(w[11], u64::MAX as int) == Some(utime as int)
                &&& number::unsigned(w[12], u64::MAX as int) == Some(stime as int)
                &&& number::unsigned(w[1], u32::MAX as int) == Some(ppid as int)
                &&& w[0].len() > 0 ==> state == w[0][0]
            }
        }),
{
    let s = pre + seq!['('] + comm + seq![')'] + seq![gap] + rest;
    let a = pre + seq!['('] + comm;
    let b = seq![gap] + rest;
    assert(s =~= a + seq![')'] + b);
    assert forall|i: int| 0 <= i < b.len() implies #[trigger] b[i] != ')' by {
        if i > 0 {
            assert(b[i] == rest[i - 1]);
        }
    }
    lemma_last_at(a, ')', b);
    assert forall|i: int| 0 <= i < pre.len() implies !Class::Only('(').has(#[trigger] s[i]) by {
        assert(s[i] == pre[i]);
    }
    assert(s[pre.len() as int] == '(');
    text::lemma_scan_in_is(s, 0, Class::Only('('), pre.len() as int);
    assert(s.subrange(pre.len() as int + 1, a.len() as int) =~= comm);
    assert(s.skip(a.len() as int + 2) =~= rest);
    let w = text::ascii_words(rest);
    assert(stat_fields(s) == w);
    if w.len() >= 13 {
        number::law_only_digits_are_a_number(w[1], u32::MAX as int);
        number::law_only_digits_are_a_number(w[11], u64::MAX as int);
        number::law_only_digits_are_a_number(w[12], u64::MAX as int);
    }
}

/// A counter is the word behind its name, colons and blanks between, in the
/// first line that starts with the name and has such a word; where that word is
/// no number, there is none. Lines that start otherwise do not matter, nor do
/// those in which no word follows, and without such a line there is no number.
pub proof fn law_counter_stands_behind_its_name(
    lines: Seq<Seq<char>>,
    key: Seq<char>,
    i: int,
    colons: Seq<char>,
    gap: Seq<char>,
    word: Seq<char>,
    rest: Seq<char>,
)
    requires
        0 <= i <= lines.len(),
        forall|j: int|
            0 <= j < i ==> !text::starts(#[trigger] lines[j], key) || words_behind(
                lines[j],
                key,
            ).len() == 0,
        i < lines.len() ==> lines[i] == key + colons + gap + word + rest,
        forall|j: int| 0 <= j < colons.len() ==> #[trigger] colons[j] == ':',
        forall|j: int| 0 <= j < gap.len() ==> text::is_blank(#[trigger] gap[j]),
        word.len() > 0,
        gap.len() == 0 ==> word[0] != ':',
        forall|j: int| 0 <= j < word.len() ==> !text::is_blank(#[trigger] word[j]),
        rest.len() > 0 ==> text::is_blank(rest[0]),
    ensures
        i < lines.len() ==> field_of(lines, key) == number::unsigned(word, u64::MAX as int),
        i == lines.len() ==> field_of(lines, key) is None,
    decreases i,
{
    if i > 0 {
        let t = lines.drop_first();
        assert(!text::starts(lines[0], key) || words_behind(lines[0], key).len() == 0);
        assert forall|j: int| 0 <= j < t.len() implies #[trigger] t[j] == lines[j + 1] by {}
        law_counter_stands_behind_its_name(t, key, i - 1, colons, gap, word, rest);
        assert(field_of(lines, key) == field_of(t, key));
    } else if i < lines.len() {
        let line = lines[0];
        assert(line.take(key.len() as int) =~= key);
        let tail = gap + word + rest;
        let behind = line.skip(key.len() as int);
        let n = colons.len() as int;
        assert(behind =~= colons + tail);
        assert forall|j: int| 0 <= j < n implies Class::Only(':').has(#[trigger] behind[j]) by {
            assert(behind[j] == colons[j]);
        }
        assert(behind[n] != ':') by {
            if gap.len() > 0 {
                assert(behind[n] == gap[0]);
            } else {
                assert(behind[n] == word[0]);
            }
        }
        text::lemma_scan_out_is(behind, 0, Class::Only(':'), n);
        assert(behind.skip(n) =~= tail);
        text::law_words_stand_between_blanks(gap, word, rest);
        assert(text::words(tail)[0] == word);
    }
}

/// Where only colons and then blanks follow a name, no word does.
pub proof fn law_colons_and_blanks_are_no_word(key: Seq<char>, colons: Seq<char>, gap: Seq<char>)
    requires
        forall|j: int| 0 <= j < colons.len() ==> #[trigger] colons[j] == ':',
        forall|j: int| 0 <= j < gap.len() ==> text::is_blank(#[trigger] gap[j]),
    ensures
        words_behind(key + colons + gap, key).len() == 0,
{
    let line = key + colons + gap;
    let rest = line.skip(key.len() as int);
    let n = colons.len() as int;
    assert(rest =~= colons + gap);
    assert forall|j: int| 0 <= j < n implies Class::Only(':').has(#[trigger] rest[j]) by {
        assert(rest[j] == colons[j]);
    }
    if gap.len() > 0 {
        assert(rest[n] == gap[0]);
    }
    text::lemma_scan_out_is(rest, 0, Class::Only(':'), n);
    assert(rest.skip(n) =~= gap);
    text::law_blanks_hold_no_word(gap);
}

/// What is sampled of a process: its number is the name of the directory, name,
/// state, parent and times come from `stat`, the switches from `status`, the
/// bytes from `io`. Only the number and a sound `stat` are needed: a file that
/// is missing, or a counter that is missing in it, counts as 0.
pub proof fn law_sample_takes_each_count_from_its_file(
    name: Seq<char>,
    stat: Seq<char>,
    status: Option<Seq<char>>,
    io: Option<Seq<char>>,
)
    ensures
        sampled(name, None, status, io) is None,
        sampled(name, Some(stat), status, io) is Some <==> number::unsigned(
            name,
            u32::MAX as int,
        ) is Some && stat_of(stat) is Some,
        sampled(name, Some(stat), status, io) matches Some((pid, snap)) ==> {
            &&& number::unsigned(name, u32::MAX as int) == Some(pid as int)
            &&& stat_of(stat) == Some((snap.utime, snap.stime, snap.state, snap.ppid))
            &&& snap.comm == comm_of(stat)
            &&& status is None ==> snap.vol_ctx == 0 && snap.nvol_ctx == 0
            &&& io is None ==> snap.read_bytes == 0 && snap.write_bytes == 0
            &&& status matches Some(c) ==> {
                &&& field_of(text::lines(c), "voluntary_ctxt_switches"@) matches Some(n)
                    ==> snap.vol_ctx == n as u64
                &&& field_of(text::lines(c), "voluntary_ctxt_switches"@) is None ==> snap.vol_ctx
                    == 0
                &&& field_of(text::lines(c), "nonvoluntary_ctxt_switches"@) matches Some(n)
                    ==> snap.nvol_ctx == n as u64
                &&& field_of(text::lines(c), "nonvoluntary_ctxt_switches"@) is None
                    ==> snap.nvol_ctx == 0
            }
            &&& io matches Some(c) ==> {
                &&& field_of(text::lines(c), "read_bytes"@) matches Some(n) ==> snap.read_bytes
                    == n as u64
                &&& field_of(text::lines(c), "read_bytes"@) is None ==> snap.read_bytes == 0
                &&& field_of(text::lines(c), "write_bytes"@) matches Some(n) ==> snap.write_bytes
                    == n as u64
                &&& field_of(text::lines(c), "write_bytes"@) is None ==> snap.write_bytes == 0
            }
        },
{
    number::law_only_digits_are_a_number(name, u32::MAX as int);
}

/// Every directory that gives a sample is in the snapshot with what it gives,
/// unless a later one has the same number; nothing else is in it.
pub proof fn law_snapshot_holds_every_process(entries: Seq<ProcEntry>, i: int, pid: u32)
    requires
        0 <= i < entries.len(),
    ensures
        entries[i].sampled() matches Some((p, snap)) ==> (p == pid && (forall|j: int|
            i < j < entries.len() ==> !((#[trigger] entries[j]).sampled() matches Some((q, t))
                && q == pid)) ==> snapshot_of(entries).contains_key(pid) && snapshot_of(
            entries,
        )[pid] == snap),
        (forall|j: int|
            0 <= j < entries.len() ==> !((#[trigger] entries[j]).sampled() matches Some((q, t)) && q
                == pid)) ==> !snapshot_of(entries).contains_key(pid),
    decreases entries.len(),
{
    let t = entries.drop_last();
    assert forall|j: int| 0 <= j < t.len() implies #[trigger] t[j] == entries[j] by {}
    assert(entries.last() == entries[entries.len() - 1]);
    if i < t.len() {
        law_snapshot_holds_every_process(t, i, pid);
    } else if t.len() > 0 {
        law_snapshot_holds_every_process(t, 0, pid);
    } else {
        assert(snapshot_of(t) == Map::<u32, SnapView>::empty());
    }
}

/// A line shows the process of the later sample, and rates that `rate` gave for
/// what happened between the two samples: all its processor time, its switches
/// of both kinds and its bytes in both directions.
pub proof fn law_line_shows_the_change<F: Fn(Change) -> Rates>(
    d: Delta,
    a: Map<u32, Snap>,
    b: Map<u32, Snap>,
    rate: F,
)
    requires
        is_line(d, a, b, rate),
        a[d.pid].utime <= b[d.pid].utime,
        a[d.pid].stime <= b[d.pid].stime,
        a[d.pid].vol_ctx <= b[d.pid].vol_ctx,
        a[d.pid].nvol_ctx <= b[d.pid].nvol_ctx,
        a[d.pid].read_bytes <= b[d.pid].read_bytes,
        a[d.pid].write_bytes <= b[d.pid].write_bytes,
        b[d.pid].utime - a[d.pid].utime + b[d.pid].stime - a[d.pid].stime <= u64::MAX,
    ensures
        a.contains_key(d.pid),
        b.contains_key(d.pid),
        d.comm@ == b[d.pid].comm@,
        d.state == b[d.pid].state,
        d.ppid == b[d.pid].ppid,
        call_ensures(
            rate,
            (Change {
                ticks: (b[d.pid].utime - a[d.pid].utime + b[d.pid].stime - a[d.pid].stime) as u64,
                wakes: (b[d.pid].vol_ctx - a[d.pid].vol_ctx) as u64,
                nvol: (b[d.pid].nvol_ctx - a[d.pid].nvol_ctx) as u64,
                io_bytes: (b[d.pid].read_bytes - a[d.pid].read_bytes + b[d.pid].write_bytes
                    - a[d.pid].write_bytes) as u128,
            },),
            (Rates {
                cpu_pct: d.cpu_pct,
                wakes_per_s: d.wakes_per_s,
                nvol_per_s: d.nvol_per_s,
                io_kbs: d.io_kbs,
                drain: d.drain,
            }),
        ),
{
}

/// The rates of a line are those that `rate` gave for the change, whichever
/// counters went up or down.
pub proof fn law_line_rates_are_those_of_the_change<F: Fn(Change) -> Rates>(
    d: Delta,
    a: Map<u32, Snap>,
    b: Map<u32, Snap>,
    rate: F,
)
    requires
        is_line(d, a, b, rate),
    ensures
        call_ensures(
            rate,
            (change_of(a[d.pid]@, b[d.pid]@),),
            (Rates {
                cpu_pct: d.cpu_pct,
                wakes_per_s: d.wakes_per_s,
                nvol_per_s: d.nvol_per_s,
                io_kbs: d.io_kbs,
                drain: d.drain,
            }),
        ),
        a.contains_key(d.pid) && b.contains_key(d.pid),
        d.comm@ == b[d.pid].comm@ && d.state == b[d.pid].state && d.ppid == b[d.pid].ppid,
{
}

/// In a list of lines no score stands above a higher one.
pub proof fn law_scores_go_down(lines: Seq<Delta>, i: int, j: int)
    requires
        drain_goes_down(lines),
        0 <= i < j < lines.len(),
    ensures
        lines[i].drain.value() >= lines[j].drain.value(),
{
}

/// The number in a file may have blanks about it. What is no number, or a file
/// that could not be read, gives none.
pub proof fn law_file_holds_one_number(a: Seq<char>, digits: Seq<char>, b: Seq<char>)
    requires
        forall|j: int| 0 <= j < a.len() ==> text::is_blank(#[trigger] a[j]),
        forall|j: int| 0 <= j < b.len() ==> text::is_blank(#[trigger] b[j]),
        digits.len() > 0,
        !text::is_blank(digits[0]),
        !text::is_blank(digits.last()),
    ensures
        number::unsigned(digits, u64::MAX as int) matches Some(n) ==> file_number(
            Some(a + digits + b),
        ) == Some(n as u64),
        number::unsigned(digits, u64::MAX as int) is None ==> file_number(
            Some(a + digits + b),
        ) is None,
        file_number(None) is None,
        status_letter(Some(a + digits + b)) == digits[0],
        status_letter(Some(a)) == '?',
        status_letter(None) == '?',
{
    text::law_trim_leaves_what_stands_between(a, digits, b);
    text::law_trim_leaves_what_stands_between(a, Seq::empty(), Seq::empty());
    assert(a + Seq::<char>::empty() + Seq::<char>::empty() =~= a);
}

/// A process is among those of the lines where a line is of it. A sample shows
/// what its fields hold.
pub proof fn law_lines_and_samples_show_their_fields(lines: Seq<Delta>, pid: u32, s: Snap)
    ensures
        pids(lines).len() == lines.len(),
        pids(lines).contains(pid) <==> exists|i: int|
            0 <= i < lines.len() && (#[trigger] lines[i]).pid == pid,
        s@.utime == s.utime && s@.stime == s.stime,
        s@.vol_ctx == s.vol_ctx && s@.nvol_ctx == s.nvol_ctx,
        s@.read_bytes == s.read_bytes && s@.write_bytes == s.write_bytes,
        s@.comm == s.comm@ && s@.state == s.state && s@.ppid == s.ppid,
{
    let p = pids(lines);
    assert forall|i: int| 0 <= i < lines.len() implies p[i] == (#[trigger] lines[i]).pid by {}
    if p.contains(pid) {
        let i = choose|i: int| 0 <= i < p.len() && p[i] == pid;
        assert(lines[i].pid == pid);
    }
    if exists|i: int| 0 <= i < lines.len() && (#[trigger] lines[i]).pid == pid {
        let i = choose|i: int| 0 <= i < lines.len() && (#[trigger] lines[i]).pid == pid;
        assert(p[i] == pid);
    }
}

} // verus!
