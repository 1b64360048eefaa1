//! Held resources: an audio sink, an idle inhibitor, a radio or a wakelock
//! that is kept open costs power while CPU, wakes and I/O all read zero.
//!
//! The caller runs the tools and reads the files; this module finds the
//! holders in what they say.
use crate::layout;
use crate::number;
use crate::text;
use crate::text::Class;
use std::time::Instant;
use vstd::prelude::*;

verus! {

/// `std::time::Instant`: a moment, of which nothing is known but which it is.
#[verifier::external_type_specification]
#[verifier::external_body]
pub struct ExInstant(Instant);

/// The kind of a held resource.
#[derive(Clone, Copy, PartialEq, Eq, Structural, Debug)]
pub enum OrphanClass {
    Audio,
    DbusInhibit,
    WifiPower,
    WakeLock,
}

impl OrphanClass {
    /// The short name of the kind.
    pub open spec fn name(self) -> Seq<char> {
        match self {
            OrphanClass::Audio => "audio"@,
            OrphanClass::DbusInhibit => "inhibit"@,
            OrphanClass::WifiPower => "wifi-ps"@,
            OrphanClass::WakeLock => "wakelock"@,
        }
    }

    /// What the kind costs, roughly, in milliwatts.
    pub open spec fn cost(self) -> u32 {
        match self {
            OrphanClass::Audio => 225,
            OrphanClass::DbusInhibit => 350,
            OrphanClass::WifiPower => 150,
            OrphanClass::WakeLock => 200,
        }
    }

    /// The short name of the kind.
    pub fn label(self) -> (r: &'static str)
        ensures
            r@ == self.name(),
    {
        match self {
            OrphanClass::Audio => "audio",
            OrphanClass::DbusInhibit => "inhibit",
            OrphanClass::WifiPower => "wifi-ps",
            OrphanClass::WakeLock => "wakelock",
        }
    }

    /// What the kind costs, roughly, in milliwatts: the middle of its range.
    /// It says how much a holder is worth chasing; it is no measurement.
    pub fn base_mw(self) -> (r: u32)
        ensures
            r == self.cost(),
    {
        match self {
            OrphanClass::Audio => 225,
            OrphanClass::DbusInhibit => 350,
            OrphanClass::WifiPower => 150,
            OrphanClass::WakeLock => 200,
        }
    }
}

/// A held resource and its holder.
#[derive(Debug)]
pub struct Orphan {
    pub class: OrphanClass,
    /// The holder; 0 where the kind has none (radio, wakelock).
    pub pid: u32,
    pub cmd: String,
    pub detail: String,
    pub held_since: Instant,
    pub estimated_mw: u32,
    pub allowlisted: bool,
}

/// What marks a holder from one scan to the next: kind and command, without
/// the process number.
pub open spec fn signature(class: OrphanClass, cmd: Seq<char>) -> Seq<char> {
    class.name() + ":"@ + cmd
}

impl Orphan {
    /// What marks this holder.
    pub open spec fn signed(self) -> Seq<char> {
        signature(self.class, self.cmd@)
    }

    /// A holder that was found at `now`.
    pub fn new(class: OrphanClass, pid: u32, cmd: String, detail: String, now: Instant) -> (r: Self)
        ensures
            r == (Orphan {
                class,
                pid,
                cmd,
                detail,
                held_since: now,
                estimated_mw: class.cost(),
                allowlisted: false,
            }),
    {
        Orphan {
            class,
            pid,
            cmd,
            detail,
            held_since: now,
            estimated_mw: class.base_mw(),
            allowlisted: false,
        }
    }

    /// A held resource without a process that holds it.
    pub fn new_nopid(class: OrphanClass, cmd: String, detail: String, now: Instant) -> (r: Self)
        ensures
            r == (Orphan {
                class,
                pid: 0,
                cmd,
                detail,
                held_since: now,
                estimated_mw: class.cost(),
                allowlisted: false,
            }),
    {
        Self::new(class, 0, cmd, detail, now)
    }

    /// What marks this holder from one scan to the next, and on the list of
    /// those to ignore.
    pub fn sig(&self) -> (r: String)
        ensures
            r@ == self.signed(),
    {
        self.class.label().to_owned().concat(":").concat(self.cmd.as_str())
    }
}

/// Two holders are marked alike only if kind and command are the same.
pub proof fn law_signature_tells_apart(
    a: OrphanClass,
    x: Seq<char>,
    b: OrphanClass,
    y: Seq<char>,
)
    requires
        signature(a, x) == signature(b, y),
    ensures
        a == b,
        x == y,
{
    reveal_strlit("audio");
    reveal_strlit("inhibit");
    reveal_strlit("wifi-ps");
    reveal_strlit("wakelock");
    reveal_strlit(":");
    let s = signature(a, x);
    let t = signature(b, y);
    let m = a.name().len() as int;
    let n = b.name().len() as int;
    assert(s[0] == t[0] && s[2] == t[2]);
    assert(s[0] == a.name()[0] && t[0] == b.name()[0]);
    assert(s[2] == a.name()[2] && t[2] == b.name()[2]);
    assert(a == b);
    assert(x =~= s.skip(m + 1));
    assert(y =~= t.skip(n + 1));
}

/// What names a holder.
pub enum Naming {
    /// This text.
    Given(Seq<char>),
    /// The name of the process with this number.
    Process(u32),
}

/// A holder as a scan finds it, before its process has been looked up.
pub struct Found {
    pub class: OrphanClass,
    pub pid: u32,
    pub naming: Naming,
    pub detail: Seq<char>,
}

/// The name of a process by the contents of its `comm` file; by its number
/// where that file could not be read or is blank.
pub open spec fn process_name(pid: u32, comm: Option<Seq<char>>) -> Seq<char> {
    match comm {
        Some(c) => if text::trim(c).len() > 0 {
            text::trim(c)
        } else {
            "pid "@ + number::decimal(pid as int)
        },
        None => "pid "@ + number::decimal(pid as int),
    }
}

/// The name of a process by the contents of its `comm` file.
pub fn proc_comm(pid: u32, comm: &Option<String>) -> (r: String)
    ensures
        r@ == process_name(pid, text::maybe(*comm)),
{
    if let Some(c) = comm {
        let s = text::chars_of(c.as_str());
        let t = text::trim_blank(s.as_slice());
        if t.len() > 0 {
            return text::string_of(t);
        }
    }
    let mut out = "pid ".to_owned();
    number::push_decimal(&mut out, pid as u64);
    out
}

/// Whether `cmd` is the name of the process, where `comm` reads the `comm` file
/// of a process.
pub open spec fn of_process<C: Fn(u32) -> Option<String>>(cmd: Seq<char>, pid: u32, comm: C) -> bool {
    exists|c: Option<String>| #[trigger]
        call_ensures(comm, (pid,), c) && cmd == process_name(pid, text::maybe(c))
}

/// Whether `cmd` is what `naming` asks for, where `comm` reads the `comm` file
/// of a process.
pub open spec fn named<C: Fn(u32) -> Option<String>>(cmd: Seq<char>, naming: Naming, comm: C) -> bool {
    match naming {
        Naming::Given(s) => cmd == s,
        Naming::Process(pid) => of_process(cmd, pid, comm),
    }
}

/// Whether `o` is the holder `f`, found at `now`.
pub open spec fn is_found<C: Fn(u32) -> Option<String>>(
    o: Orphan,
    f: Found,
    comm: C,
    now: Instant,
) -> bool {
    &&& o.class == f.class
    &&& o.pid == f.pid
    &&& named(o.cmd@, f.naming, comm)
    &&& o.detail@ == f.detail
    &&& o.held_since == now
    &&& o.estimated_mw == f.class.cost()
    &&& !o.allowlisted
}

/// Whether `added` are the holders `found`.
pub open spec fn are_found<C: Fn(u32) -> Option<String>>(
    added: Seq<Orphan>,
    found: Seq<Found>,
    comm: C,
    now: Instant,
) -> bool {
    &&& added.len() == found.len()
    &&& forall|i: int| 0 <= i < added.len() ==> is_found(#[trigger] added[i], found[i], comm, now)
}

/// Whether `after` is `before` and then the holders `found`.
pub open spec fn extends<C: Fn(u32) -> Option<String>>(
    before: Seq<Orphan>,
    after: Seq<Orphan>,
    found: Seq<Found>,
    comm: C,
    now: Instant,
) -> bool {
    &&& before.len() <= after.len()
    &&& after.take(before.len() as int) == before
    &&& are_found(after.skip(before.len() as int), found, comm, now)
}

proof fn lemma_extends_nothing<C: Fn(u32) -> Option<String>>(s: Seq<Orphan>, comm: C, now: Instant)
    ensures
        extends(s, s, Seq::empty(), comm, now),
{
    assert(s.take(s.len() as int) =~= s);
}

proof fn lemma_extends_twice<C: Fn(u32) -> Option<String>>(
    a: Seq<Orphan>,
    b: Seq<Orphan>,
    c: Seq<Orphan>,
    f: Seq<Found>,
    g: Seq<Found>,
    comm: C,
    now: Instant,
)
    requires
        extends(a, b, f, comm, now),
        extends(b, c, g, comm, now),
    ensures
        extends(a, c, f + g, comm, now),
{
    let n = a.len() as int;
    let m = b.len() as int;
    assert(c.take(n) =~= c.take(m).take(n));
    assert(c.skip(n) =~= b.skip(n) + c.skip(m)) by {
        assert(c.take(m) =~= b);
        assert forall|i: int| 0 <= i < m - n implies c.skip(n)[i] == b.skip(n)[i] by {
            assert(c.take(m)[n + i] == b[n + i]);
        }
    }
    assert forall|i: int| 0 <= i < c.skip(n).len() implies is_found(
        #[trigger] c.skip(n)[i],
        (f + g)[i],
        comm,
        now,
    ) by {
        if i < m - n {
            assert(is_found(b.skip(n)[i], f[i], comm, now));
        } else {
            assert(is_found(c.skip(m)[i - (m - n)], g[i - (m - n)], comm, now));
        }
    }
}

proof fn lemma_extends_once<C: Fn(u32) -> Option<String>>(
    s: Seq<Orphan>,
    o: Orphan,
    f: Found,
    comm: C,
    now: Instant,
)
    requires
        is_found(o, f, comm, now),
    ensures
        extends(s, s.push(o), seq![f], comm, now),
{
    assert(s.push(o).take(s.len() as int) =~= s);
    assert(s.push(o).skip(s.len() as int) =~= seq![o]);
}

// ---------------------------------------------------------------------------
// Audio
// ---------------------------------------------------------------------------

/// What a listing says of one stream.
pub struct Stream {
    /// Whether the stream is corked, where the listing says so.
    pub corked: Option<bool>,
    pub pid: u32,
    pub name: Seq<char>,
}

/// The listing so far: the stream that is being described, and those before.
pub struct Streams {
    pub current: Option<Stream>,
    pub done: Seq<Stream>,
}

/// A quoted value without blanks and quotes around it.
pub open spec fn unquoted(s: Seq<char>) -> Seq<char> {
    text::trimmed(text::trim(s), Class::Only('"'))
}

/// What one more line says.
pub open spec fn stream_line(s: Streams, line: Seq<char>) -> Streams {
    let t = text::trim(line);
    if text::starts(t, "Sink Input #"@) {
        Streams {
            current: Some(Stream { corked: None, pid: 0, name: Seq::empty() }),
            done: finished_streams(s),
        }
    } else {
        match s.current {
            None => s,
            Some(c) => if text::starts(t, "Corked:"@) {
                let v = text::trim(t.skip("Corked:"@.len() as int));
                Streams { current: Some(Stream { corked: Some(v == "yes"@), ..c }), ..s }
            } else if text::starts(t, "application.process.id = "@) {
                let v = unquoted(t.skip("application.process.id = "@.len() as int));
                let pid = match number::unsigned(v, u32::MAX as int) {
                    Some(n) => n as u32,
                    None => 0,
                };
                Streams { current: Some(Stream { pid, ..c }), ..s }
            } else if text::starts(t, "application.name = "@) {
                let name = unquoted(t.skip("application.name = "@.len() as int));
                Streams { current: Some(Stream { name, ..c }), ..s }
            } else {
                s
            },
        }
    }
}

/// The streams once the one that is being described is complete.
pub open spec fn finished_streams(s: Streams) -> Seq<Stream> {
    match s.current {
        Some(c) => s.done.push(c),
        None => s.done,
    }
}

/// What the lines say.
pub open spec fn stream_lines(lines: Seq<Seq<char>>) -> Streams
    decreases lines.len(),
{
    if lines.len() == 0 {
        Streams { current: None, done: Seq::empty() }
    } else {
        stream_line(stream_lines(lines.drop_last()), lines.last())
    }
}

/// A stream of which this is known.
pub open spec fn described(corked: bool, have_corked: bool, pid: u32, name: Seq<char>) -> Stream {
    Stream {
        corked: if have_corked {
            Some(corked)
        } else {
            None
        },
        pid,
        name,
    }
}

/// The holder that a stream makes: one that is known not to be corked.
pub open spec fn stream_found(s: Stream) -> Seq<Found> {
    if s.corked == Some(false) {
        seq![
            Found {
                class: OrphanClass::Audio,
                pid: s.pid,
                naming: if s.name.len() > 0 {
                    Naming::Given(s.name)
                } else if s.pid > 0 {
                    Naming::Process(s.pid)
                } else {
                    Naming::Given("audio stream"@)
                },
                detail: "holding sink active (not corked)"@,
            },
        ]
    } else {
        Seq::empty()
    }
}

/// The holders that the streams make.
pub open spec fn streams_found(s: Seq<Stream>) -> Seq<Found>
    decreases s.len(),
{
    if s.len() == 0 {
        Seq::empty()
    } else {
        streams_found(s.drop_last()) + stream_found(s.last())
    }
}

/// The holders in a listing of sink inputs. A sink input that is not corked
/// keeps the sink, and what is behind it, powered.
pub open spec fn audio_found(listing: Option<Seq<char>>) -> Seq<Found> {
    match listing {
        Some(s) => streams_found(finished_streams(stream_lines(text::lines(s)))),
        None => Seq::empty(),
    }
}

/// Adds the holder that a stream makes.
pub fn audio_push<C: Fn(u32) -> Option<String>>(
    corked: bool,
    have_corked: bool,
    pid: u32,
    name: &str,
    out: &mut Vec<Orphan>,
    comm: &C,
    now: Instant,
)
    requires
        forall|p: u32| call_requires(comm, (p,)),
    ensures
        extends(
            old(out)@,
            final(out)@,
            stream_found(described(corked, have_corked, pid, name@)),
            *comm,
            now,
        ),
{
    let ghost start = out@;
    let ghost found = stream_found(described(corked, have_corked, pid, name@));
    if have_corked && !corked {
        let cmd = if !name.is_empty() {
            name.to_owned()
        } else if pid > 0 {
            let c = comm(pid);
            let n = proc_comm(pid, &c);
            assert(of_process(n@, pid, *comm));
            n
        } else {
            "audio stream".to_owned()
        };
        out.push(
            Orphan::new(
                OrphanClass::Audio,
                pid,
                cmd,
                "holding sink active (not corked)".to_owned(),
                now,
            ),
        );
        proof {
            lemma_extends_once(start, out@.last(), found[0], *comm, now);
        }
    } else {
        proof {
            lemma_extends_nothing(start, *comm, now);
        }
    }
}

/// Finds the audio streams that hold a sink in a listing of sink inputs.
pub fn detect_audio<C: Fn(u32) -> Option<String>>(
    listing: &Option<String>,
    out: &mut Vec<Orphan>,
    comm: &C,
    now: Instant,
)
    requires
        forall|p: u32| call_requires(comm, (p,)),
    ensures
        extends(old(out)@, final(out)@, audio_found(text::maybe(*listing)), *comm, now),
{
    let ghost start = out@;
    proof {
        lemma_extends_nothing(start, *comm, now);
    }
    let text = match listing {
        Some(t) => text::chars_of(t.as_str()),
        None => {
            return;
        },
    };
    let lines = text::split_lines(text.as_slice());
    let ghost all = text::views(lines@);
    let mut corked = false;
    let mut have_corked = false;
    let mut pid: u32 = 0;
    let mut name: String = String::new();
    let mut in_block = false;
    let mut i: usize = 0;
    assert(all.take(0) =~= Seq::empty());
    while i < lines.len()
        invariant
            forall|p: u32| call_requires(comm, (p,)),
            i <= lines@.len(),
            all == text::views(lines@),
            stream_lines(all.take(i as int)).current == (if in_block {
                Some(described(corked, have_corked, pid, name@))
            } else {
                None
            }),
            extends(
                start,
                out@,
                streams_found(stream_lines(all.take(i as int)).done),
                *comm,
                now,
            ),
        decreases lines@.len() - i,
    {
        let t = text::trim_blank(lines[i]);
        let ghost so_far = stream_lines(all.take(i as int));
        let ghost before = out@;
        proof {
            assert(all.take(i + 1).drop_last() =~= all.take(i as int));
            assert(all.take(i + 1).last() == lines@[i as int]@);
        }
        if text::starts_with(t, "Sink Input #") {
            if in_block {
                audio_push(corked, have_corked, pid, name.as_str(), out, comm, now);
                proof {
                    let s = so_far.current->0;
                    assert(so_far.done.push(s).drop_last() =~= so_far.done);
                    lemma_extends_twice(
                        start,
                        before,
                        out@,
                        streams_found(so_far.done),
                        stream_found(s),
                        *comm,
                        now,
                    );
                }
            }
            in_block = true;
            corked = false;
            have_corked = false;
            pid = 0;
            name = String::new();
        } else if let Some(v) = text::strip_prefix(t, "Corked:") {
            corked = text::is_text(text::trim_blank(v), "yes");
            have_corked = true;
        } else if let Some(v) = text::strip_prefix(t, "application.process.id = ") {
            let v = text::trim_class(text::trim_blank(v), Class::Only('"'));
            pid = match number::parse_u32(v) {
                Some(n) => n,
                None => 0,
            };
        } else if let Some(v) = text::strip_prefix(t, "application.name = ") {
            name = text::string_of(text::trim_class(text::trim_blank(v), Class::Only('"')));
        }
        i += 1;
    }
    assert(all.take(all.len() as int) =~= all);
    if in_block {
        let ghost so_far = stream_lines(all);
        let ghost before = out@;
        audio_push(corked, have_corked, pid, name.as_str(), out, comm, now);
        proof {
            let s = so_far.current->0;
            assert(so_far.done.push(s).drop_last() =~= so_far.done);
            lemma_extends_twice(
                start,
                before,
                out@,
                streams_found(so_far.done),
                stream_found(s),
                *comm,
                now,
            );
        }
    }
}

// ---------------------------------------------------------------------------
// Inhibitors
// ---------------------------------------------------------------------------

/// Whether a word lists idle or sleep among what is inhibited, as in
/// `sleep:idle`.
pub open spec fn keeps_awake(word: Seq<char>) -> bool {
    let parts = text::fields(word, ':');
    parts.contains("idle"@) || parts.contains("sleep"@)
}

/// The first word from `i` on that lists idle or sleep.
pub open spec fn first_awake(words: Seq<Seq<char>>, i: int) -> Option<Seq<char>>
    decreases words.len() - i,
{
    if i >= words.len() {
        None
    } else if keeps_awake(words[i]) {
        Some(words[i])
    } else {
        first_awake(words, i + 1)
    }
}

/// The numbers among the words, in order.
pub open spec fn numbers(words: Seq<Seq<char>>) -> Seq<int>
    decreases words.len(),
{
    if words.len() == 0 {
        Seq::empty()
    } else {
        let before = numbers(words.drop_last());
        match number::unsigned(words.last(), u32::MAX as int) {
            Some(n) => before.push(n),
            None => before,
        }
    }
}

/// The process that the words name: the second number, behind that of the user.
pub open spec fn holder(words: Seq<Seq<char>>) -> int {
    let n = numbers(words);
    if n.len() >= 2 {
        n[1]
    } else {
        0
    }
}

/// The holder in a line of a listing of inhibitors: one that blocks (not one
/// that only delays) idle or sleep, and that has a process.
pub open spec fn inhibit_line(line: Seq<char>) -> Seq<Found> {
    let t = text::trim(line);
    let words = text::words(t);
    if t.len() == 0 || text::starts(t, "WHO"@) || text::ends(t, "listed."@) {
        Seq::empty()
    } else if words.len() < 3 || words.last() != "block"@ || holder(words) == 0 {
        Seq::empty()
    } else {
        match first_awake(words, 0) {
            Some(what) => seq![
                Found {
                    class: OrphanClass::DbusInhibit,
                    pid: holder(words) as u32,
                    naming: Naming::Process(holder(words) as u32),
                    detail: "blocks idle ("@ + what + ")"@,
                },
            ],
            None => Seq::empty(),
        }
    }
}

/// The holders in the lines.
pub open spec fn inhibit_lines(lines: Seq<Seq<char>>) -> Seq<Found>
    decreases lines.len(),
{
    if lines.len() == 0 {
        Seq::empty()
    } else {
        inhibit_lines(lines.drop_last()) + inhibit_line(lines.last())
    }
}

/// The holders in a listing of inhibitors.
pub open spec fn inhibit_found(listing: Option<Seq<char>>) -> Seq<Found> {
    match listing {
        Some(s) => inhibit_lines(text::lines(s)),
        None => Seq::empty(),
    }
}

/// Whether a word lists idle or sleep.
fn lists_awake(word: &[char]) -> (r: bool)
    ensures
        r == keeps_awake(word@),
{
    let parts = text::split_fields(word, ':');
    let ghost all = text::views(parts@);
    let mut i: usize = 0;
    while i < parts.len()
        invariant
            all == text::views(parts@),
            all == text::fields(word@, ':'),
            i <= parts@.len(),
            forall|j: int| 0 <= j < i ==> #[trigger] all[j] != "idle"@ && all[j] != "sleep"@,
        decreases parts@.len() - i,
    {
        assert(all[i as int] == parts@[i as int]@);
        if text::is_text(parts[i], "idle") || text::is_text(parts[i], "sleep") {
            assert(all.contains(all[i as int]));
            return true;
        }
        i += 1;
    }
    false
}

/// The process that the words name, or 0.
fn find_holder(words: &Vec<&[char]>) -> (r: u32)
    ensures
        r == holder(text::views(words@)),
{
    let ghost all = text::views(words@);
    let mut seen: usize = 0;
    let mut r: u32 = 0;
    let mut i: usize = 0;
    assert(all.take(0) =~= Seq::empty());
    while i < words.len()
        invariant
            all == text::views(words@),
            i <= words@.len(),
            seen <= i,
            seen == numbers(all.take(i as int)).len(),
            seen >= 2 ==> r == numbers(all.take(i as int))[1],
            seen < 2 ==> r == 0,
        decreases words@.len() - i,
    {
        proof {
            assert(all.take(i + 1).drop_last() =~= all.take(i as int));
            assert(all.take(i + 1).last() == words@[i as int]@);
        }
        if let Some(n) = number::parse_u32(words[i]) {
            if seen == 1 {
                r = n;
            }
            seen += 1;
        }
        i += 1;
    }
    assert(all.take(all.len() as int) =~= all);
    r
}

/// The first word that lists idle or sleep.
fn find_awake<'a>(words: &Vec<&'a [char]>) -> (r: Option<&'a [char]>)
    ensures
        match r {
            Some(w) => first_awake(text::views(words@), 0) == Some(w@),
            None => first_awake(text::views(words@), 0) is None,
        },
{
    let ghost all = text::views(words@);
    let mut i: usize = 0;
    while i < words.len()
        invariant
            all == text::views(words@),
            i <= words@.len(),
            first_awake(all, i as int) == first_awake(all, 0),
        decreases words@.len() - i,
    {
        assert(all[i as int] == words@[i as int]@);
        if lists_awake(words[i]) {
            return Some(words[i]);
        }
        i += 1;
    }
    None
}

/// Finds the inhibitors that keep the machine awake in a listing of inhibitors.
pub fn detect_dbus_inhibit<C: Fn(u32) -> Option<String>>(
    listing: &Option<String>,
    out: &mut Vec<Orphan>,
    comm: &C,
    now: Instant,
)
    requires
        forall|p: u32| call_requires(comm, (p,)),
    ensures
        extends(old(out)@, final(out)@, inhibit_found(text::maybe(*listing)), *comm, now),
{
    let ghost start = out@;
    proof {
        lemma_extends_nothing(start, *comm, now);
    }
    let text = match listing {
        Some(t) => text::chars_of(t.as_str()),
        None => {
            return;
        },
    };
    let lines = text::split_lines(text.as_slice());
    let ghost all = text::views(lines@);
    let mut i: usize = 0;
    assert(all.take(0) =~= Seq::empty());
    while i < lines.len()
        invariant
            forall|p: u32| call_requires(comm, (p,)),
            i <= lines@.len(),
            all == text::views(lines@),
            extends(start, out@, inhibit_lines(all.take(i as int)), *comm, now),
        decreases lines@.len() - i,
    {
        let line = lines[i];
        let ghost before = out@;
        proof {
            assert(all.take(i + 1).drop_last() =~= all.take(i as int));
            assert(all.take(i + 1).last() == line@);
        }
        inhibit_push(line, out, comm, now);
        proof {
            lemma_extends_twice(
                start,
                before,
                out@,
                inhibit_lines(all.take(i as int)),
                inhibit_line(line@),
                *comm,
                now,
            );
        }
        i += 1;
    }
    assert(all.take(all.len() as int) =~= all);
}

/// Adds the holder in a line of a listing of inhibitors.
fn inhibit_push<C: Fn(u32) -> Option<String>>(
    line: &[char],
    out: &mut Vec<Orphan>,
    comm: &C,
    now: Instant,
)
    requires
        forall|p: u32| call_requires(comm, (p,)),
    ensures
        extends(old(out)@, final(out)@, inhibit_line(line@), *comm, now),
{
    let ghost start = out@;
    proof {
        lemma_extends_nothing(start, *comm, now);
    }
    let t = text::trim_blank(line);
    if t.len() == 0 || text::starts_with(t, "WHO") || text::ends_with(t, "listed.") {
        return;
    }
    let words = text::split_words(t);
    if words.len() < 3 || !text::is_text(words[words.len() - 1], "block") {
        return;
    }
    let what = match find_awake(&words) {
        Some(w) => w,
        None => {
            return;
        },
    };
    let pid = find_holder(&words);
    if pid == 0 {
        return;
    }
    let c = comm(pid);
    let cmd = proc_comm(pid, &c);
    assert(of_process(cmd@, pid, *comm));
    let mut detail = "blocks idle (".to_owned();
    text::push_chars(&mut detail, what);
    detail.append(")");
    out.push(Orphan::new(OrphanClass::DbusInhibit, pid, cmd, detail, now));
    proof {
        lemma_extends_once(start, out@.last(), inhibit_line(line@)[0], *comm, now);
    }
}

// ---------------------------------------------------------------------------
// Radio and wakelock
// ---------------------------------------------------------------------------

/// The radio, where its state file says that power saving is off.
pub open spec fn wifi_found(state: Option<Seq<char>>) -> Seq<Found> {
    match state {
        Some(s) => if text::trim(s) == "0"@ {
            seq![
                Found {
                    class: OrphanClass::WifiPower,
                    pid: 0,
                    naming: Naming::Given("wifi power_save"@),
                    detail: "radio kept awake (power_save off)"@,
                },
            ]
        } else {
            Seq::empty()
        },
        None => Seq::empty(),
    }
}

/// The wakelock, where its file names one.
pub open spec fn wakelock_found(locks: Option<Seq<char>>) -> Seq<Found> {
    match locks {
        Some(s) => if text::trim(s).len() > 0 {
            seq![
                Found {
                    class: OrphanClass::WakeLock,
                    pid: 0,
                    naming: Naming::Given("kernel wakelock"@),
                    detail: "held: "@ + text::trim(s),
                },
            ]
        } else {
            Seq::empty()
        },
        None => Seq::empty(),
    }
}

/// Finds a radio that is kept awake. The state file holds `1` while power
/// saving is on, `0` while it is off.
pub fn detect_wifi<C: Fn(u32) -> Option<String>>(
    state: &Option<String>,
    out: &mut Vec<Orphan>,
    comm: &C,
    now: Instant,
)
    ensures
        extends(old(out)@, final(out)@, wifi_found(text::maybe(*state)), *comm, now),
{
    let ghost start = out@;
    proof {
        lemma_extends_nothing(start, *comm, now);
    }
    if let Some(s) = state {
        let chars = text::chars_of(s.as_str());
        if text::is_text(text::trim_blank(chars.as_slice()), "0") {
            out.push(
                Orphan::new_nopid(
                    OrphanClass::WifiPower,
                    "wifi power_save".to_owned(),
                    "radio kept awake (power_save off)".to_owned(),
                    now,
                ),
            );
            proof {
                lemma_extends_once(
                    start,
                    out@.last(),
                    wifi_found(text::maybe(*state))[0],
                    *comm,
                    now,
                );
            }
        }
    }
}

/// Finds a kernel wakelock that blocks autosleep.
pub fn detect_wakelock<C: Fn(u32) -> Option<String>>(
    locks: &Option<String>,
    out: &mut Vec<Orphan>,
    comm: &C,
    now: Instant,
)
    ensures
        extends(old(out)@, final(out)@, wakelock_found(text::maybe(*locks)), *comm, now),
{
    let ghost start = out@;
    proof {
        lemma_extends_nothing(start, *comm, now);
    }
    if let Some(s) = locks {
        let chars = text::chars_of(s.as_str());
        let held = text::trim_blank(chars.as_slice());
        if held.len() > 0 {
            let mut detail = "held: ".to_owned();
            text::push_chars(&mut detail, held);
            out.push(
                Orphan::new_nopid(
                    OrphanClass::WakeLock,
                    "kernel wakelock".to_owned(),
                    detail,
                    now,
                ),
            );
            proof {
                lemma_extends_once(
                    start,
                    out@.last(),
                    wakelock_found(text::maybe(*locks))[0],
                    *comm,
                    now,
                );
            }
        }
    }
}

// ---------------------------------------------------------------------------
// The scan
// ---------------------------------------------------------------------------

/// What the tools and files said, each `None` where it could not be had.
pub struct Scan {
    /// The listing of sink inputs.
    pub sink_inputs: Option<String>,
    /// The listing of inhibitors.
    pub inhibitors: Option<String>,
    /// The state file of the radio.
    pub wifi: Option<String>,
    /// The file of held wakelocks.
    pub wake_lock: Option<String>,
}

impl Scan {
    /// The holders in the scan.
    pub open spec fn found(self) -> Seq<Found> {
        audio_found(text::maybe(self.sink_inputs)) + inhibit_found(text::maybe(self.inhibitors))
            + wifi_found(text::maybe(self.wifi)) + wakelock_found(text::maybe(self.wake_lock))
    }
}

/// Since when the holder with this signature has been held: as long as the
/// first of `prev`, from `i` on, that is marked so; else since `now`.
pub open spec fn held(prev: Seq<Orphan>, sig: Seq<char>, now: Instant, i: int) -> Instant
    decreases prev.len() - i,
{
    if i >= prev.len() {
        now
    } else if prev[i].signed() == sig {
        prev[i].held_since
    } else {
        held(prev, sig, now, i + 1)
    }
}

/// Whether `o` is the holder `f` in a scan at `now` that follows `prev`.
pub open spec fn is_detected<C: Fn(u32) -> Option<String>>(
    o: Orphan,
    f: Found,
    prev: Seq<Orphan>,
    allowlist: Seq<Seq<char>>,
    comm: C,
    now: Instant,
) -> bool {
    &&& o.class == f.class
    &&& o.pid == f.pid
    &&& named(o.cmd@, f.naming, comm)
    &&& o.detail@ == f.detail
    &&& o.held_since == held(prev, o.signed(), now, 0)
    &&& o.estimated_mw == f.class.cost()
    &&& o.allowlisted == allowlist.contains(o.signed())
}

/// Whether `r` are the holders in a scan at `now` that follows `prev`.
pub open spec fn are_detected<C: Fn(u32) -> Option<String>>(
    r: Seq<Orphan>,
    scan: Scan,
    prev: Seq<Orphan>,
    allowlist: Seq<Seq<char>>,
    comm: C,
    now: Instant,
) -> bool {
    &&& r.len() == scan.found().len()
    &&& forall|i: int|
        0 <= i < r.len() ==> is_detected(
            #[trigger] r[i],
            scan.found()[i],
            prev,
            allowlist,
            comm,
            now,
        )
}

/// Since when the holder with this signature has been held.
fn find_held(prev: &[Orphan], sig: &str, now: Instant) -> (r: Instant)
    ensures
        r == held(prev@, sig@, now, 0),
{
    let mut i: usize = 0;
    while i < prev.len()
        invariant
            i <= prev@.len(),
            held(prev@, sig@, now, i as int) == held(prev@, sig@, now, 0),
        decreases prev@.len() - i,
    {
        let s = prev[i].sig();
        if text::same_str(s.as_str(), sig) {
            return prev[i].held_since;
        }
        i += 1;
    }
    now
}

/// Whether the list holds the text.
fn lists(list: &Vec<String>, s: &str) -> (r: bool)
    ensures
        r == layout::texts(list@).contains(s@),
{
    let ghost all = layout::texts(list@);
    let mut i: usize = 0;
    while i < list.len()
        invariant
            i <= list@.len(),
            all == layout::texts(list@),
            forall|j: int| 0 <= j < i ==> #[trigger] all[j] != s@,
        decreases list@.len() - i,
    {
        assert(all[i as int] == list@[i as int]@);
        if text::same_str(list[i].as_str(), s) {
            assert(all.contains(all[i as int]));
            return true;
        }
        i += 1;
    }
    false
}

/// Finds every holder in a scan that was made at `now`. One that `prev`, the
/// scan before, holds already keeps the moment since which it has been held;
/// one on the allowlist is marked. `comm` reads the `comm` file of a process.
pub fn detect<C: Fn(u32) -> Option<String>>(
    scan: &Scan,
    prev: &[Orphan],
    allowlist: &Vec<String>,
    comm: C,
    now: Instant,
) -> (r: Vec<Orphan>)
    requires
        forall|p: u32| call_requires(comm, (p,)),
    ensures
        are_detected(r@, *scan, prev@, layout::texts(allowlist@), comm, now),
{
    let mut out: Vec<Orphan> = Vec::new();
    let ghost s0 = out@;
    detect_audio(&scan.sink_inputs, &mut out, &comm, now);
    let ghost s1 = out@;
    detect_dbus_inhibit(&scan.inhibitors, &mut out, &comm, now);
    let ghost s2 = out@;
    detect_wifi(&scan.wifi, &mut out, &comm, now);
    let ghost s3 = out@;
    detect_wakelock(&scan.wake_lock, &mut out, &comm, now);
    let ghost fresh = out@;
    proof {
        let f1 = audio_found(text::maybe(scan.sink_inputs));
        let f2 = inhibit_found(text::maybe(scan.inhibitors));
        let f3 = wifi_found(text::maybe(scan.wifi));
        let f4 = wakelock_found(text::maybe(scan.wake_lock));
        lemma_extends_twice(s0, s1, s2, f1, f2, comm, now);
        lemma_extends_twice(s0, s2, s3, f1 + f2, f3, comm, now);
        lemma_extends_twice(s0, s3, fresh, f1 + f2 + f3, f4, comm, now);
        assert(fresh.skip(0) =~= fresh);
        assert(are_found(fresh, scan.found(), comm, now));
    }
    let mut i: usize = 0;
    while i < out.len()
        invariant
            i <= out@.len(),
            out@.len() == scan.found().len(),
            forall|j: int|
                i <= j < out@.len() ==> is_found(#[trigger] out@[j], scan.found()[j], comm, now),
            forall|j: int|
                0 <= j < i ==> is_detected(
                    #[trigger] out@[j],
                    scan.found()[j],
                    prev@,
                    layout::texts(allowlist@),
                    comm,
                    now,
                ),
        decreases out@.len() - i,
    {
        let sig = out[i].sig();
        let since = find_held(prev, sig.as_str(), now);
        let listed = lists(allowlist, sig.as_str());
        assert(is_found(out@[i as int], scan.found()[i as int], comm, now));
        out[i].held_since = since;
        out[i].allowlisted = listed;
        i += 1;
    }
    out
}

proof fn lemma_held(prev: Seq<Orphan>, sig: Seq<char>, now: Instant, since: Instant, i: int)
    requires
        0 <= i,
        forall|j: int|
            i <= j < prev.len() && (#[trigger] prev[j]).signed() == sig ==> prev[j].held_since
                == since,
    ensures
        held(prev, sig, now, i) == now || held(prev, sig, now, i) == since,
        (exists|j: int| i <= j < prev.len() && (#[trigger] prev[j]).signed() == sig) ==> held(
            prev,
            sig,
            now,
            i,
        ) == since,
    decreases prev.len() - i,
{
    if i < prev.len() && prev[i].signed() != sig {
        lemma_held(prev, sig, now, since, i + 1);
    }
}

/// A holder that is still there at the next scan has been held for as long as
/// the scan before said, whatever its process number is now.
pub proof fn law_held_since_carries_forward<C: Fn(u32) -> Option<String>>(
    before: Seq<Orphan>,
    first: Seq<Orphan>,
    first_scan: Scan,
    first_now: Instant,
    second: Seq<Orphan>,
    second_scan: Scan,
    second_now: Instant,
    allowlist: Seq<Seq<char>>,
    comm: C,
    i: int,
    j: int,
)
    requires
        are_detected(first, first_scan, before, allowlist, comm, first_now),
        are_detected(second, second_scan, first, allowlist, comm, second_now),
        0 <= i < first.len(),
        0 <= j < second.len(),
        first[i].signed() == second[j].signed(),
    ensures
        second[j].held_since == first[i].held_since,
{
    let sig = second[j].signed();
    let since = held(before, sig, first_now, 0);
    assert forall|k: int| 0 <= k < first.len() && (#[trigger] first[k]).signed() == sig implies
        first[k].held_since == since by {
        assert(is_detected(first[k], first_scan.found()[k], before, allowlist, comm, first_now));
    }
    lemma_held(first, sig, second_now, since, 0);
    assert(is_detected(second[j], second_scan.found()[j], first, allowlist, comm, second_now));
}

/// A holder that the scan before does not hold has been held since this scan.
pub proof fn law_new_holder_is_held_since_now<C: Fn(u32) -> Option<String>>(
    prev: Seq<Orphan>,
    r: Seq<Orphan>,
    scan: Scan,
    now: Instant,
    allowlist: Seq<Seq<char>>,
    comm: C,
    j: int,
)
    requires
        are_detected(r, scan, prev, allowlist, comm, now),
        0 <= j < r.len(),
        forall|i: int| 0 <= i < prev.len() ==> (#[trigger] prev[i]).signed() != r[j].signed(),
    ensures
        r[j].held_since == now,
{
    lemma_held(prev, r[j].signed(), now, now, 0);
    assert(is_detected(r[j], scan.found()[j], prev, allowlist, comm, now));
}

/// A holder that was restarted with another process number is on the allowlist
/// if and only if it was before.
pub proof fn law_allowlist_survives_a_restart<C: Fn(u32) -> Option<String>>(
    first_prev: Seq<Orphan>,
    first: Seq<Orphan>,
    first_scan: Scan,
    first_now: Instant,
    second_prev: Seq<Orphan>,
    second: Seq<Orphan>,
    second_scan: Scan,
    second_now: Instant,
    allowlist: Seq<Seq<char>>,
    comm: C,
    i: int,
    j: int,
)
    requires
        are_detected(first, first_scan, first_prev, allowlist, comm, first_now),
        are_detected(second, second_scan, second_prev, allowlist, comm, second_now),
        0 <= i < first.len(),
        0 <= j < second.len(),
        first[i].class == second[j].class,
        first[i].cmd@ == second[j].cmd@,
    ensures
        first[i].allowlisted == second[j].allowlisted,
{
    assert(is_detected(first[i], first_scan.found()[i], first_prev, allowlist, comm, first_now));
    assert(is_detected(
        second[j],
        second_scan.found()[j],
        second_prev,
        allowlist,
        comm,
        second_now,
    ));
}

// ---------------------------------------------------------------------------
// Ending a holder
// ---------------------------------------------------------------------------

/// How a process is asked to end.
#[derive(Clone, Copy, PartialEq, Eq, Structural, Debug)]
pub enum Signal {
    Term,
    Kill,
}

/// Why a holder cannot be ended.
#[derive(Clone, Copy, PartialEq, Eq, Structural, Debug)]
pub enum KillError {
    /// The resource has no process that holds it.
    NoPid,
    /// No process can have this number.
    BadPid,
}

impl KillError {
    /// What the error says.
    pub open spec fn says(self) -> Seq<char> {
        match self {
            KillError::NoPid => "no pid to signal for this resource class"@,
            KillError::BadPid => "no process can have this pid"@,
        }
    }

    /// What the error says.
    pub fn message(self) -> (r: &'static str)
        ensures
            r@ == self.says(),
    {
        match self {
            KillError::NoPid => "no pid to signal for this resource class",
            KillError::BadPid => "no process can have this pid",
        }
    }
}

/// The signal that ends the holder, the one that cannot be caught when `hard`.
/// Process numbers are signed, so a number behind the largest is refused: as a
/// signed number it would stand for a group of processes.
pub fn kill(pid: u32, hard: bool) -> (r: Result<Signal, KillError>)
    ensures
        r == (if pid == 0 {
            Err(KillError::NoPid)
        } else if pid > i32::MAX {
            Err(KillError::BadPid)
        } else if hard {
            Ok(Signal::Kill)
        } else {
            Ok::<Signal, KillError>(Signal::Term)
        }),
{
    if pid == 0 {
        Err(KillError::NoPid)
    } else if pid > i32::MAX as u32 {
        Err(KillError::BadPid)
    } else if hard {
        Ok(Signal::Kill)
    } else {
        Ok(Signal::Term)
    }
}

// ---------------------------------------------------------------------------
// What is found
// ---------------------------------------------------------------------------

/// What each kind is called and costs, and how its holders are marked.
pub proof fn law_each_kind_has_its_cost_and_mark(cmd: Seq<char>)
    ensures
        OrphanClass::Audio.cost() == 225,
        OrphanClass::DbusInhibit.cost() == 350,
        OrphanClass::WifiPower.cost() == 150,
        OrphanClass::WakeLock.cost() == 200,
        signature(OrphanClass::Audio, cmd) == "audio"@ + ":"@ + cmd,
        signature(OrphanClass::DbusInhibit, cmd) == "inhibit"@ + ":"@ + cmd,
        signature(OrphanClass::WifiPower, cmd) == "wifi-ps"@ + ":"@ + cmd,
        signature(OrphanClass::WakeLock, cmd) == "wakelock"@ + ":"@ + cmd,
{
}

/// A scan reports every holder that it found, once and in this order: those of
/// the sound, the inhibitors, the radio, the wakelock. Each has the kind, the
/// process and the detail that were found and the cost of its kind, and is on
/// the allowlist where its mark is.
pub proof fn law_every_holder_is_reported<C: Fn(u32) -> Option<String>>(
    r: Seq<Orphan>,
    scan: Scan,
    prev: Seq<Orphan>,
    allowlist: Seq<Seq<char>>,
    comm: C,
    now: Instant,
    i: int,
)
    requires
        are_detected(r, scan, prev, allowlist, comm, now),
        0 <= i < r.len(),
    ensures
        ({
            let a = audio_found(text::maybe(scan.sink_inputs));
            let b = inhibit_found(text::maybe(scan.inhibitors));
            let c = wifi_found(text::maybe(scan.wifi));
            let d = wakelock_found(text::maybe(scan.wake_lock));
            let f = if i < a.len() {
                a[i]
            } else if i < a.len() + b.len() {
                b[i - a.len()]
            } else if i < a.len() + b.len() + c.len() {
                c[i - a.len() - b.len()]
            } else {
                d[i - a.len() - b.len() - c.len()]
            };
            &&& r.len() == a.len() + b.len() + c.len() + d.len()
            &&& r[i].class == f.class
            &&& r[i].pid == f.pid
            &&& r[i].detail@ == f.detail
            &&& f.naming matches Naming::Given(s) ==> r[i].cmd@ == s
            &&& r[i].estimated_mw == f.class.cost()
            &&& r[i].allowlisted <==> allowlist.contains(f.class.name() + ":"@ + r[i].cmd@)
        }),
{
    let a = audio_found(text::maybe(scan.sink_inputs));
    let b = inhibit_found(text::maybe(scan.inhibitors));
    let c = wifi_found(text::maybe(scan.wifi));
    let d = wakelock_found(text::maybe(scan.wake_lock));
    let all = scan.found();
    assert(all == a + b + c + d);
    let f = all[i];
    assert(is_detected(r[i], f, prev, allowlist, comm, now));
    assert(r[i].signed() == f.class.name() + ":"@ + r[i].cmd@);
}

/// A holder that was found by its process goes by the name in a file that was
/// read for that process, or by its number.
pub proof fn law_holder_goes_by_its_process<C: Fn(u32) -> Option<String>>(
    o: Orphan,
    f: Found,
    prev: Seq<Orphan>,
    allowlist: Seq<Seq<char>>,
    comm: C,
    now: Instant,
    pid: u32,
)
    requires
        is_detected(o, f, prev, allowlist, comm, now) || is_found(o, f, comm, now),
        f.naming == Naming::Process(pid),
    ensures
        exists|file: Option<String>| #[trigger]
            call_ensures(comm, (pid,), file) && o.cmd@ == process_name(pid, text::maybe(file)),
{
    assert(of_process(o.cmd@, pid, comm));
}

/// A detector leaves what was found before as it is, and puts behind it what it
/// finds: held since now, at the cost of its kind, not on the allowlist.
pub proof fn law_detectors_add_what_they_find<C: Fn(u32) -> Option<String>>(
    before: Seq<Orphan>,
    after: Seq<Orphan>,
    found: Seq<Found>,
    comm: C,
    now: Instant,
    i: int,
)
    requires
        extends(before, after, found, comm, now),
    ensures
        after.len() == before.len() + found.len(),
        0 <= i < before.len() ==> after[i] == before[i],
        0 <= i < found.len() ==> {
            let o = after[before.len() + i];
            &&& o.class == found[i].class
            &&& o.pid == found[i].pid
            &&& o.detail@ == found[i].detail
            &&& found[i].naming matches Naming::Given(s) ==> o.cmd@ == s
            &&& o.held_since == now
            &&& o.estimated_mw == found[i].class.cost()
            &&& !o.allowlisted
        },
{
    if 0 <= i < before.len() {
        assert(after.take(before.len() as int)[i] == after[i]);
    }
    if 0 <= i < found.len() {
        assert(after.skip(before.len() as int)[i] == after[before.len() + i]);
    }
}

/// A holder has been held since the first holder of the scan before that is
/// marked as it is says so; without one, since now.
pub proof fn law_first_mark_tells_since_when(
    prev: Seq<Orphan>,
    sig: Seq<char>,
    now: Instant,
    from: int,
    k: int,
)
    requires
        0 <= from <= k <= prev.len(),
        forall|j: int| from <= j < k ==> (#[trigger] prev[j]).signed() != sig,
        k < prev.len() ==> prev[k].signed() == sig,
    ensures
        k < prev.len() ==> held(prev, sig, now, from) == prev[k].held_since,
        k == prev.len() ==> held(prev, sig, now, from) == now,
    decreases k - from,
{
    if from < k {
        assert(prev[from].signed() != sig);
        law_first_mark_tells_since_when(prev, sig, now, from + 1, k);
    }
}

/// A process goes by the name in its file, without the blanks about it; where
/// there is none, by its number.
pub proof fn law_process_goes_by_name_or_number(
    pid: u32,
    a: Seq<char>,
    name: Seq<char>,
    b: Seq<char>,
)
    requires
        forall|i: int| 0 <= i < a.len() ==> text::is_blank(#[trigger] a[i]),
        forall|i: int| 0 <= i < b.len() ==> text::is_blank(#[trigger] b[i]),
        name.len() > 0 ==> !text::is_blank(name[0]) && !text::is_blank(name.last()),
    ensures
        name.len() > 0 ==> process_name(pid, Some(a + name + b)) == name,
        name.len() == 0 ==> process_name(pid, Some(a + name + b)) == "pid "@ + number::decimal(
            pid as int,
        ),
        process_name(pid, None) == "pid "@ + number::decimal(pid as int),
{
    text::law_trim_leaves_what_stands_between(a, name, b);
}

/// A quoted value is what stands between the quotes.
pub proof fn law_quotes_come_off(a: Seq<char>, s: Seq<char>, b: Seq<char>)
    requires
        forall|i: int| 0 <= i < a.len() ==> text::is_blank(#[trigger] a[i]),
        forall|i: int| 0 <= i < b.len() ==> text::is_blank(#[trigger] b[i]),
        s.len() > 0,
        s[0] != '"',
        s.last() != '"',
    ensures
        unquoted(a + (seq!['"'] + s + seq!['"']) + b) == s,
        !text::is_blank(s[0]) && !text::is_blank(s.last()) ==> unquoted(a + s + b) == s,
{
    let q = seq!['"'] + s + seq!['"'];
    assert(q[0] == '"' && q.last() == '"');
    text::law_trim_leaves_what_stands_between(a, q, b);
    let n = s.len() as int;
    let k = Class::Only('"');
    assert(q[1] == s[0]);
    assert(q[n] == s[n - 1]);
    text::lemma_scan_out_is(q, 0, k, 1);
    assert(text::scan_back(q, n + 2, k) == n + 1) by {
        reveal_with_fuel(text::scan_back, 3);
        assert(q[n + 1] == '"');
    }
    assert(q.subrange(1, n + 1) =~= s);
    if !text::is_blank(s[0]) && !text::is_blank(s.last()) {
        text::law_trim_leaves_what_stands_between(a, s, b);
        text::lemma_scan_out_is(s, 0, k, 0);
        assert(text::scan_back(s, n, k) == n);
        assert(s.subrange(0, n) =~= s);
    }
}

/// A listing of sink inputs is read line by line. A heading closes the stream
/// before it and opens one of which nothing is known; the lines behind it say
/// whether it is corked, which process it is of, and what that is called. A line
/// that says something else changes nothing.
pub proof fn law_stream_lines_describe_the_stream(
    s: Streams,
    c: Stream,
    line: Seq<char>,
    rest: Seq<char>,
)
    requires
        s.current == Some(c),
    ensures
        text::trim(line) == "Sink Input #"@ + rest ==> {
            &&& stream_line(s, line).done == s.done.push(c)
            &&& stream_line(s, line).current == Some(
                Stream { corked: None, pid: 0, name: Seq::empty() },
            )
            &&& stream_line(Streams { current: None, ..s }, line).done == s.done
            &&& stream_line(Streams { current: None, ..s }, line).current == Some(
                Stream { corked: None, pid: 0, name: Seq::empty() },
            )
        },
        text::trim(line) == "Corked:"@ + rest ==> stream_line(s, line) == (Streams {
            current: Some(Stream { corked: Some(text::trim(rest) == "yes"@), ..c }),
            done: s.done,
        }),
        text::trim(line) == "application.process.id = "@ + rest ==> {
            &&& number::unsigned(unquoted(rest), u32::MAX as int) matches Some(n) ==> stream_line(
                s,
                line,
            ) == (Streams { current: Some(Stream { pid: n as u32, ..c }), done: s.done })
            &&& number::unsigned(unquoted(rest), u32::MAX as int) is None ==> stream_line(s, line)
                == (Streams { current: Some(Stream { pid: 0, ..c }), done: s.done })
        },
        text::trim(line) == "application.name = "@ + rest ==> stream_line(s, line) == (Streams {
            current: Some(Stream { name: unquoted(rest), ..c }),
            done: s.done,
        }),
        !text::starts(text::trim(line), "Sink Input #"@) && !text::starts(
            text::trim(line),
            "Corked:"@,
        ) && !text::starts(text::trim(line), "application.process.id = "@) && !text::starts(
            text::trim(line),
            "application.name = "@,
        ) ==> stream_line(s, line) == s,
        !text::starts(text::trim(line), "Sink Input #"@) ==> stream_line(
            Streams { current: None, ..s },
            line,
        ) == (Streams { current: None, ..s }),
{
    reveal_strlit("Sink Input #");
    reveal_strlit("Corked:");
    reveal_strlit("application.process.id = ");
    reveal_strlit("application.name = ");
    let t = text::trim(line);
    if t == "Sink Input #"@ + rest {
        assert(t.take(12) =~= "Sink Input #"@);
    }
    if t == "Corked:"@ + rest {
        assert(t[0] == 'C');
        lemma_starts_with(t, "Sink Input #"@);
        assert(t.take(7) =~= "Corked:"@);
        assert(t.skip(7) =~= rest);
    }
    if t == "application.process.id = "@ + rest {
        assert(t[0] == 'a');
        lemma_starts_with(t, "Sink Input #"@);
        lemma_starts_with(t, "Corked:"@);
        assert(t.take(25) =~= "application.process.id = "@);
        assert(t.skip(25) =~= rest);
    }
    if t == "application.name = "@ + rest {
        assert(t[0] == 'a' && t[12] == 'n');
        lemma_starts_with(t, "Sink Input #"@);
        lemma_starts_with(t, "Corked:"@);
        if text::starts(t, "application.process.id = "@) {
            assert(t.take(25)[12] == 'p');
        }
        assert(t.take(19) =~= "application.name = "@);
        assert(t.skip(19) =~= rest);
    }
}

/// A text starts with the first character of what it starts with.
proof fn lemma_starts_with(t: Seq<char>, word: Seq<char>)
    requires
        word.len() > 0,
    ensures
        text::starts(t, word) ==> t[0] == word[0],
{
    if text::starts(t, word) {
        assert(t.take(word.len() as int)[0] == word[0]);
    }
}

/// A stream holds its sink where the listing says that it is not corked, and
/// only there. It goes by the name that it gives, else by its process, else by
/// what it is.
pub proof fn law_stream_that_is_not_corked_holds(s: Stream)
    ensures
        s.corked != Some(false) ==> stream_found(s).len() == 0,
        s.corked == Some(false) ==> {
            let f = stream_found(s)[0];
            &&& stream_found(s).len() == 1
            &&& f.class == OrphanClass::Audio
            &&& f.pid == s.pid
            &&& s.name.len() > 0 ==> f.naming == Naming::Given(s.name)
            &&& s.name.len() == 0 && s.pid > 0 ==> f.naming == Naming::Process(s.pid)
            &&& s.name.len() == 0 && s.pid == 0 ==> f.naming == Naming::Given("audio stream"@)
        },
{
}

/// Every stream of a listing is looked at, the last one with the others, in the
/// order of the listing.
pub proof fn law_every_stream_is_looked_at(s: Seq<Stream>, c: Stream)
    ensures
        streams_found(Seq::empty()).len() == 0,
        streams_found(s.push(c)) == streams_found(s) + stream_found(c),
        finished_streams(Streams { current: Some(c), done: s }) == s.push(c),
        finished_streams(Streams { current: None, done: s }) == s,
        audio_found(None).len() == 0,
        inhibit_found(None).len() == 0,
{
    assert(s.push(c).drop_last() =~= s);
}

/// A listing is read from its first line to its last.
pub proof fn law_listing_is_read_line_by_line(lines: Seq<Seq<char>>, line: Seq<char>)
    ensures
        stream_lines(Seq::empty()) == (Streams { current: None, done: Seq::empty() }),
        stream_lines(lines.push(line)) == stream_line(stream_lines(lines), line),
        inhibit_lines(Seq::empty()).len() == 0,
        inhibit_lines(lines.push(line)) == inhibit_lines(lines) + inhibit_line(line),
{
    assert(lines.push(line).drop_last() =~= lines);
}

/// What is inhibited is a list with colons between: it keeps the machine awake
/// where idle or sleep is in it.
pub proof fn law_idle_or_sleep_keeps_awake(parts: Seq<Seq<char>>)
    requires
        parts.len() > 0,
        forall|i: int, j: int|
            0 <= i < parts.len() && 0 <= j < parts[i].len() ==> #[trigger] parts[i][j] != ':',
    ensures
        keeps_awake(layout::joined(parts, seq![':'])) <==> parts.contains("idle"@)
            || parts.contains("sleep"@),
{
    layout::law_joined_parts_come_apart(parts, ':');
}

/// The process of an inhibitor is the second number among the words, behind
/// that of the user.
pub proof fn law_second_number_is_the_process(words: Seq<Seq<char>>, i: int, j: int)
    requires
        0 <= i < j < words.len(),
        number::unsigned(words[i], u32::MAX as int) is Some,
        number::unsigned(words[j], u32::MAX as int) is Some,
        forall|k: int|
            0 <= k < j && k != i ==> number::unsigned(
                #[trigger] words[k],
                u32::MAX as int,
            ) is None,
    ensures
        Some(holder(words)) == number::unsigned(words[j], u32::MAX as int),
{
    lemma_numbers_prefix(words, j + 1);
    lemma_two_numbers(words.take(j + 1), i);
    assert(words.take(j + 1).last() == words[j]);
}

/// Further words add numbers behind those that are there.
proof fn lemma_numbers_prefix(words: Seq<Seq<char>>, n: int)
    requires
        0 <= n <= words.len(),
    ensures
        numbers(words.take(n)).len() <= numbers(words).len(),
        forall|k: int|
            0 <= k < numbers(words.take(n)).len() ==> #[trigger] numbers(words.take(n))[k]
                == numbers(words)[k],
    decreases words.len(),
{
    if n == words.len() {
        assert(words.take(n) =~= words);
    } else {
        lemma_numbers_prefix(words.drop_last(), n);
        assert(words.drop_last().take(n) =~= words.take(n));
    }
}

/// Where the last word is a number and one other word is, that other number
/// comes first.
proof fn lemma_two_numbers(words: Seq<Seq<char>>, i: int)
    requires
        0 <= i < words.len() - 1,
        number::unsigned(words[i], u32::MAX as int) is Some,
        number::unsigned(words.last(), u32::MAX as int) is Some,
        forall|k: int|
            0 <= k < words.len() - 1 && k != i ==> number::unsigned(
                #[trigger] words[k],
                u32::MAX as int,
            ) is None,
    ensures
        numbers(words).len() == 2,
        Some(numbers(words)[1]) == number::unsigned(words.last(), u32::MAX as int),
{
    lemma_one_number(words.drop_last(), i);
}

/// Where one word is a number, there is one number.
proof fn lemma_one_number(words: Seq<Seq<char>>, i: int)
    requires
        0 <= i < words.len(),
        number::unsigned(words[i], u32::MAX as int) is Some,
        forall|k: int|
            0 <= k < words.len() && k != i ==> number::unsigned(
                #[trigger] words[k],
                u32::MAX as int,
            ) is None,
    ensures
        numbers(words).len() == 1,
    decreases words.len(),
{
    let t = words.drop_last();
    if i < t.len() {
        assert forall|k: int| 0 <= k < t.len() && k != i implies number::unsigned(
            #[trigger] t[k],
            u32::MAX as int,
        ) is None by {
            assert(t[k] == words[k]);
        }
        lemma_one_number(t, i);
        assert(number::unsigned(words[words.len() - 1], u32::MAX as int) is None);
    } else {
        assert forall|k: int| 0 <= k < t.len() implies number::unsigned(
            #[trigger] t[k],
            u32::MAX as int,
        ) is None by {
            assert(t[k] == words[k]);
        }
        lemma_no_number(t);
    }
}

/// Where no word is a number, there is none.
proof fn lemma_no_number(words: Seq<Seq<char>>)
    requires
        forall|k: int|
            0 <= k < words.len() ==> number::unsigned(
                #[trigger] words[k],
                u32::MAX as int,
            ) is None,
    ensures
        numbers(words).len() == 0,
    decreases words.len(),
{
    if words.len() > 0 {
        let t = words.drop_last();
        assert forall|k: int| 0 <= k < t.len() implies number::unsigned(
            #[trigger] t[k],
            u32::MAX as int,
        ) is None by {
            assert(t[k] == words[k]);
        }
        lemma_no_number(t);
        assert(number::unsigned(words[words.len() - 1], u32::MAX as int) is None);
    }
}

/// The word that lists idle or sleep is the first that does.
proof fn lemma_first_awake(words: Seq<Seq<char>>, from: int, k: int)
    requires
        0 <= from <= k <= words.len(),
        forall|j: int| from <= j < k ==> !keeps_awake(#[trigger] words[j]),
        k < words.len() ==> keeps_awake(words[k]),
    ensures
        k < words.len() ==> first_awake(words, from) == Some(words[k]),
        k == words.len() ==> first_awake(words, from) is None,
    decreases k - from,
{
    if from < k {
        assert(!keeps_awake(words[from]));
        lemma_first_awake(words, from + 1, k);
    }
}

/// An inhibitor is a holder where its last word says that it blocks, a word
/// lists idle or sleep, and it has a process; one that only delays is none, nor
/// is a heading or the closing line. The first word that lists idle or sleep is
/// the detail.
pub proof fn law_only_blocks_of_idle_or_sleep_hold(line: Seq<char>, k: int)
    requires
        0 <= k <= text::words(text::trim(line)).len(),
        forall|j: int|
            0 <= j < k ==> !keeps_awake(#[trigger] text::words(text::trim(line))[j]),
        k < text::words(text::trim(line)).len() ==> keeps_awake(text::words(text::trim(line))[k]),
    ensures
        ({
            let t = text::trim(line);
            let w = text::words(t);
            let holds = t.len() > 0 && !text::starts(t, "WHO"@) && !text::ends(t, "listed."@)
                && w.len() >= 3 && w.last() == "block"@ && holder(w) != 0 && k < w.len();
            &&& !holds ==> inhibit_line(line).len() == 0
            &&& holds ==> {
                let f = inhibit_line(line)[0];
                &&& inhibit_line(line).len() == 1
                &&& f.class == OrphanClass::DbusInhibit
                &&& f.pid == holder(w) as u32
                &&& f.naming == Naming::Process(holder(w) as u32)
                &&& f.detail == "blocks idle ("@ + w[k] + ")"@
            }
        }),
{
    lemma_first_awake(text::words(text::trim(line)), 0, k);
}

/// The radio is kept awake where its file says `0`, and only there; a wakelock
/// is held where its file names one. Blanks do not count.
pub proof fn law_files_of_radio_and_wakelock(a: Seq<char>, said: Seq<char>, b: Seq<char>)
    requires
        forall|i: int| 0 <= i < a.len() ==> text::is_blank(#[trigger] a[i]),
        forall|i: int| 0 <= i < b.len() ==> text::is_blank(#[trigger] b[i]),
        said.len() > 0 ==> !text::is_blank(said[0]) && !text::is_blank(said.last()),
    ensures
        ({
            let f = wifi_found(Some(a + said + b));
            &&& said == seq!['0'] ==> f.len() == 1 && f[0].class == OrphanClass::WifiPower
                && f[0].pid == 0 && f[0].naming == Naming::Given("wifi power_save"@)
            &&& said != seq!['0'] ==> f.len() == 0
        }),
        ({
            let f = wakelock_found(Some(a + said + b));
            &&& said.len() > 0 ==> f.len() == 1 && f[0].class == OrphanClass::WakeLock && f[0].pid
                == 0 && f[0].naming == Naming::Given("kernel wakelock"@) && f[0].detail
                == "held: "@ + said
            &&& said.len() == 0 ==> f.len() == 0
        }),
        wifi_found(None).len() == 0,
        wakelock_found(None).len() == 0,
{
    reveal_strlit("0");
    assert("0"@ =~= seq!['0']);
    text::law_trim_leaves_what_stands_between(a, said, b);
}

} // verus!
