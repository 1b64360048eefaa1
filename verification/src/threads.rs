//! Per-thread expansion: which thread of a process is the culprit.
use crate::metric::Metric;
use crate::order;
use crate::sample;
use crate::sample::{Change, ProcEntry, Snap};
use std::collections::HashMap;
use vstd::prelude::*;

verus! {

broadcast use vstd::std_specs::hash::group_hash_axioms;

/// One line of the expansion: a thread and what it did between two samples.
#[derive(Clone, Debug)]
pub struct ThreadDelta {
    pub tid: u32,
    pub comm: String,
    pub cpu_pct: Metric,
    pub wakes_per_s: Metric,
}

/// What a change of a thread comes to per second.
#[derive(Clone, Copy, PartialEq, Eq, Structural, Debug)]
pub struct ThreadRates {
    pub cpu_pct: Metric,
    pub wakes_per_s: Metric,
}

/// A directory of a thread, whose `io` file plays no part.
pub open spec fn without_io(e: ProcEntry) -> ProcEntry {
    ProcEntry { io: None, ..e }
}

/// Samples every thread of a process, from the directories under its `task`
/// directory. I/O is not counted by thread.
pub fn snapshot_threads(entries: &Vec<ProcEntry>) -> (r: HashMap<u32, Snap>)
    requires
        forall|i: int| 0 <= i < entries@.len() ==> (#[trigger] entries@[i]).samplable(),
    ensures
        sample::snaps(r@) == sample::snapshot_of(
            Seq::new(entries@.len(), |i: int| without_io(entries@[i])),
        ),
{
    let mut out: HashMap<u32, Snap> = HashMap::new();
    let ghost plain = Seq::new(entries@.len(), |i: int| without_io(entries@[i]));
    let mut i: usize = 0;
    assert(sample::snaps(out@) =~= Map::empty());
    while i < entries.len()
        invariant
            i <= entries@.len(),
            plain == Seq::new(entries@.len(), |i: int| without_io(entries@[i])),
            forall|i: int| 0 <= i < entries@.len() ==> (#[trigger] entries@[i]).samplable(),
            sample::snaps(out@) == sample::snapshot_of(plain.take(i as int)),
        decreases entries@.len() - i,
    {
        let e = &entries[i];
        assert(e.samplable());
        assert(plain.take(i + 1).drop_last() =~= plain.take(i as int));
        let ghost before = out@;
        if let Some((tid, snap)) = sample::read_process(e.name.as_str(), &e.stat, &e.status, &None) {
            out.insert(tid, snap);
            assert(sample::snaps(before.insert(tid, snap)) =~= sample::snaps(before).insert(
                tid,
                snap@,
            ));
        }
        i += 1;
    }
    assert(plain.take(i as int) =~= plain);
    out
}

/// Whether `d` is the line of its thread: the name in the later sample, and
/// the rates that `rate` gives for the change.
pub open spec fn is_thread_line<F: Fn(Change) -> ThreadRates>(
    d: ThreadDelta,
    a: Map<u32, Snap>,
    b: Map<u32, Snap>,
    rate: F,
) -> bool {
    &&& a.contains_key(d.tid)
    &&& b.contains_key(d.tid)
    &&& d.comm@ == b[d.tid].comm@
    &&& call_ensures(
        rate,
        (sample::change_of(a[d.tid]@, b[d.tid]@),),
        (ThreadRates { cpu_pct: d.cpu_pct, wakes_per_s: d.wakes_per_s }),
    )
}

/// The threads of the lines.
pub open spec fn tids(lines: Seq<ThreadDelta>) -> Seq<u32> {
    Seq::new(lines.len(), |i: int| lines[i].tid)
}

/// The lines in their order: no line stands below one that wakes less often.
pub open spec fn wakes_go_down(lines: Seq<ThreadDelta>) -> bool {
    forall|i: int, j: int|
        0 <= i < j < lines.len() ==> (#[trigger] lines[i]).wakes_per_s.at_least(
            (#[trigger] lines[j]).wakes_per_s,
        )
}

/// What every thread that is in both samples did between them, the one that
/// wakes most often first. `rate` turns a change into rates.
pub fn deltas<F: Fn(Change) -> ThreadRates>(
    a: &HashMap<u32, Snap>,
    b: &HashMap<u32, Snap>,
    rate: F,
) -> (r: Vec<ThreadDelta>)
    requires
        forall|c: Change| call_requires(rate, (c,)),
    ensures
        tids(r@).no_duplicates(),
        forall|tid: u32|
            tids(r@).contains(tid) <==> a@.contains_key(tid) && b@.contains_key(tid),
        forall|i: int| 0 <= i < r@.len() ==> is_thread_line(#[trigger] r@[i], a@, b@, rate),
        (forall|i: int| 0 <= i < r@.len() ==> (#[trigger] r@[i]).wakes_per_s.is_number())
            ==> wakes_go_down(r@),
{
    let keys = sample::common_keys(a, b);
    let mut out: Vec<ThreadDelta> = Vec::new();
    let mut i: usize = 0;
    while i < keys.len()
        invariant
            i <= keys@.len(),
            forall|k: u32| keys@.contains(k) <==> a@.contains_key(k) && b@.contains_key(k),
            forall|c: Change| call_requires(rate, (c,)),
            out@.len() == i,
            forall|j: int| 0 <= j < i ==> (#[trigger] out@[j]).tid == keys@[j],
            forall|j: int| 0 <= j < i ==> is_thread_line(#[trigger] out@[j], a@, b@, rate),
        decreases keys@.len() - i,
    {
        let tid = keys[i];
        assert(keys@.contains(tid));
        let s1 = a.get(&tid).unwrap();
        let s2 = b.get(&tid).unwrap();
        let x = rate(sample::change(s1, s2));
        out.push(
            ThreadDelta {
                tid,
                comm: s2.comm.clone(),
                cpu_pct: x.cpu_pct,
                wakes_per_s: x.wakes_per_s,
            },
        );
        i += 1;
    }
    let ghost found = out@;
    let above = |x: &ThreadDelta, y: &ThreadDelta| -> (r: bool)
        ensures
            r == y.wakes_per_s.below(x.wakes_per_s),
    {
        y.wakes_per_s.less(x.wakes_per_s)
    };
    order::rank(&mut out, above);
    proof {
        let key = |d: ThreadDelta| d.wakes_per_s;
        let g = order::higher(key);
        assert(out@ == order::ranked(found, g));
        order::law_ranked_keeps_items(found, g);
        let mark = |d: ThreadDelta| d.tid;
        assert(order::marks(found, mark) =~= keys@);
        order::lemma_ranked_marks(found, g, mark);
        assert(order::marks(out@, mark) =~= tids(out@));
        assert forall|tid: u32|
            tids(out@).contains(tid) <==> a@.contains_key(tid) && b@.contains_key(tid) by {
            assert(keys@.contains(tid) <==> order::marks(found, mark).contains(tid));
        }
        assert forall|i: int| 0 <= i < out@.len() implies is_thread_line(
            #[trigger] out@[i],
            a@,
            b@,
            rate,
        ) by {
            assert(out@.contains(out@[i]));
            assert(found.contains(out@[i]));
        }
        if forall|i: int| 0 <= i < out@.len() ==> (#[trigger] out@[i]).wakes_per_s.is_number() {
            assert forall|i: int| 0 <= i < found.len() implies key(
                #[trigger] found[i],
            ).is_number() by {
                assert(found.contains(found[i]));
                assert(out@.contains(found[i]));
            }
            order::law_higher_goes_down(found, key);
            assert forall|i: int, j: int| 0 <= i < j < out@.len() implies (#[trigger] out@[i])
                .wakes_per_s.at_least((#[trigger] out@[j]).wakes_per_s) by {
                assert(key(out@[i]).at_least(key(out@[j])));
            }
        }
    }
    out
}

/// A line shows the thread of the later sample, and the rates of what happened
/// between the two samples: all the time that it spent, in its own code and in
/// the kernel's, and its switches.
pub proof fn law_line_shows_the_change<F: Fn(Change) -> ThreadRates>(
    d: ThreadDelta,
    a: Map<u32, Snap>,
    b: Map<u32, Snap>,
    rate: F,
)
    requires
        is_thread_line(d, a, b, rate),
    ensures
        a.contains_key(d.tid),
        b.contains_key(d.tid),
        d.comm@ == b[d.tid].comm@,
        exists|c: Change| #[trigger]
            call_ensures(
                rate,
                (c,),
                (ThreadRates { cpu_pct: d.cpu_pct, wakes_per_s: d.wakes_per_s }),
            ) && {
                &&& a[d.tid].utime <= b[d.tid].utime && a[d.tid].stime <= b[d.tid].stime && (
                b[d.tid].utime + b[d.tid].stime) - (a[d.tid].utime + a[d.tid].stime) <= u64::MAX
                    ==> c.ticks == (b[d.tid].utime + b[d.tid].stime) - (a[d.tid].utime
                    + a[d.tid].stime)
                &&& a[d.tid].vol_ctx <= b[d.tid].vol_ctx ==> c.wakes == b[d.tid].vol_ctx
                    - a[d.tid].vol_ctx
                &&& b[d.tid].vol_ctx <= a[d.tid].vol_ctx ==> c.wakes == 0
                &&& b[d.tid].utime <= a[d.tid].utime && b[d.tid].stime <= a[d.tid].stime
                    ==> c.ticks == 0
            },
{
    let c = sample::change_of(a[d.tid]@, b[d.tid]@);
    assert(call_ensures(
        rate,
        (c,),
        (ThreadRates { cpu_pct: d.cpu_pct, wakes_per_s: d.wakes_per_s }),
    ));
}

/// In a list of threads none stands above one that wakes more often.
pub proof fn law_wakes_go_down(lines: Seq<ThreadDelta>, i: int, j: int)
    requires
        wakes_go_down(lines),
        0 <= i < j < lines.len(),
    ensures
        lines[i].wakes_per_s.value() >= lines[j].wakes_per_s.value(),
{
}

/// A thread is sampled as a process is, but for its bytes, which are not
/// counted.
pub proof fn law_threads_count_no_bytes(e: ProcEntry)
    ensures
        without_io(e).sampled() is Some <==> e.sampled() is Some,
        e.sampled() matches Some((tid, snap)) ==> without_io(e).sampled() == Some(
            (tid, sample::SnapView { read_bytes: 0, write_bytes: 0, ..snap }),
        ),
{
}

/// A thread is among those of the lines where a line is of it.
pub proof fn law_lines_name_their_threads(lines: Seq<ThreadDelta>, tid: u32)
    ensures
        tids(lines).len() == lines.len(),
        tids(lines).contains(tid) <==> exists|i: int|
            0 <= i < lines.len() && (#[trigger] lines[i]).tid == tid,
{
    let p = tids(lines);
    assert forall|i: int| 0 <= i < lines.len() implies p[i] == (#[trigger] lines[i]).tid by {}
    if p.contains(tid) {
        let i = choose|i: int| 0 <= i < p.len() && p[i] == tid;
        assert(lines[i].tid == tid);
    }
    if exists|i: int| 0 <= i < lines.len() && (#[trigger] lines[i]).tid == tid {
        let i = choose|i: int| 0 <= i < lines.len() && (#[trigger] lines[i]).tid == tid;
        assert(p[i] == tid);
    }
}

} // verus!
